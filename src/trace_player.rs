use vstd::prelude::*;
use crate::message::{CanFrame, FrameView};
use crate::trace_format::TraceFormat;
use crate::trace_parse::{frames_view, parse_trace, sorted_by_time, stable_sorted_of, trace_frames};

verus! {

/// Slowest playback speed, in thousandths.
pub const MIN_SPEED: u32 = 100;
/// Fastest playback speed, in thousandths.
pub const MAX_SPEED: u32 = 5000;
/// Longest wait between two frames, in microseconds.
pub const MAX_DELAY_US: u64 = 1_000_000;

#[derive(Debug, Clone, Copy, PartialEq, Eq, Structural)]
pub enum PlaybackState {
    Stopped,
    Playing,
    Paused,
}

/// Replays a loaded sequence of frames. The speed is held in thousandths (1000 plays in
/// real time) and instants in microseconds of a monotone clock.
pub struct TracePlayer {
    frames: Vec<CanFrame>,
    current_index: usize,
    speed_permille: u32,
    state: PlaybackState,
    start_time_us: Option<u64>,
    paused_at_us: Option<u64>,
    playback_start_timestamp_us: i64,
}

/// What a player stands for: its frames, its position and its state.
pub struct PlayerModel {
    pub frames: Seq<FrameView>,
    pub index: int,
    pub state: PlaybackState,
}

/// The wait before the frame after `i`: the timestamp gap scaled by the speed, never below
/// zero nor above a second; zero after the last frame.
pub open spec fn delay_after(frames: Seq<FrameView>, i: int, speed: u32) -> u64 {
    if i + 1 < frames.len() {
        let gap = frames[i + 1].timestamp_us - frames[i].timestamp_us;
        if gap <= 0 {
            0
        } else if gap * 1000 / (speed as int) > MAX_DELAY_US {
            MAX_DELAY_US
        } else {
            (gap * 1000 / (speed as int)) as u64
        }
    } else {
        0
    }
}

/// One pull on a player: the frame at the position while playing, and the position moved
/// on; the player stops once past the end.
pub open spec fn next_step(p: PlayerModel) -> (PlayerModel, Option<FrameView>) {
    if p.state != PlaybackState::Playing {
        (p, None)
    } else if p.index >= p.frames.len() {
        (PlayerModel { state: PlaybackState::Stopped, ..p }, None)
    } else {
        (PlayerModel { index: p.index + 1, ..p }, Some(p.frames[p.index]))
    }
}

/// `n` pulls: the player after them and what each gave.
pub open spec fn pulls(p: PlayerModel, n: nat) -> (PlayerModel, Seq<Option<FrameView>>)
    decreases n,
{
    if n == 0 {
        (p, Seq::empty())
    } else {
        let (q, out) = pulls(p, (n - 1) as nat);
        let (r, x) = next_step(q);
        (r, out.push(x))
    }
}

/// Started at the beginning of a sequence, pulling yields exactly the frames in order,
/// then nothing, and the player is stopped.
pub proof fn lemma_playback_yields_all(frames: Seq<FrameView>)
    ensures
        ({
            let (q, out) = pulls(PlayerModel { frames, index: 0, state: PlaybackState::Playing }, frames.len() + 1);
            &&& out == frames.map_values(|f: FrameView| Some(f)).push(None)
            &&& q.state == PlaybackState::Stopped
        }),
{
    let p = PlayerModel { frames, index: 0, state: PlaybackState::Playing };
    assert forall|k: nat| k <= frames.len() implies ({
        let (q, out) = #[trigger] pulls(p, k);
        q == PlayerModel { index: k as int, ..p } && out == frames.subrange(0, k as int).map_values(|f: FrameView| Some(f))
    }) by {
        lemma_pulls_prefix(p, k);
    }
    let (q, out) = pulls(p, frames.len());
    assert(frames.subrange(0, frames.len() as int) =~= frames);
}

proof fn lemma_pulls_prefix(p: PlayerModel, k: nat)
    requires
        p.index == 0,
        p.state == PlaybackState::Playing,
        k <= p.frames.len(),
    ensures
        ({
            let (q, out) = pulls(p, k);
            q == PlayerModel { index: k as int, ..p } && out == p.frames.subrange(0, k as int).map_values(|f: FrameView| Some(f))
        }),
    decreases k,
{
    if k > 0 {
        lemma_pulls_prefix(p, (k - 1) as nat);
        let (q, out) = pulls(p, (k - 1) as nat);
        assert(p.frames.subrange(0, k as int).map_values(|f: FrameView| Some(f)) =~= p.frames.subrange(0, k - 1).map_values(|f: FrameView| Some(f)).push(Some(p.frames[k - 1])));
    } else {
        assert(p.frames.subrange(0, 0).map_values(|f: FrameView| Some(f)) =~= Seq::<Option<FrameView>>::empty());
    }
}

impl TracePlayer {
    pub closed spec fn model(&self) -> PlayerModel {
        PlayerModel { frames: frames_view(self.frames@), index: self.current_index as int, state: self.state }
    }

    pub closed spec fn speed(&self) -> u32 {
        self.speed_permille
    }

    /// The speed lies in its range.
    pub closed spec fn wf(&self) -> bool {
        MIN_SPEED <= self.speed_permille <= MAX_SPEED
    }

    /// An empty, stopped player at real-time speed.
    pub fn new() -> (r: TracePlayer)
        ensures
            r.wf(),
            r.model().frames.len() == 0,
            r.model().index == 0,
            r.model().state == PlaybackState::Stopped,
            r.speed() == 1000,
    {
        TracePlayer {
            frames: Vec::new(),
            current_index: 0,
            speed_permille: 1000,
            state: PlaybackState::Stopped,
            start_time_us: None,
            paused_at_us: None,
            playback_start_timestamp_us: 0,
        }
    }

    /// Loads the frames of a trace file's text and stops at the beginning; returns how many
    /// frames there are.
    pub fn load_content(&mut self, content: &str, format: TraceFormat, map: &Vec<(u8, String)>) -> (r: usize)
        requires
            old(self).wf(),
        ensures
            final(self).wf(),
            sorted_by_time(final(self).model().frames),
            final(self).model().frames.to_multiset() == trace_frames(content@, format, map@).to_multiset(),
            stable_sorted_of(final(self).model().frames, trace_frames(content@, format, map@)),
            final(self).model().index == 0,
            final(self).model().state == PlaybackState::Stopped,
            r == final(self).model().frames.len(),
            final(self).speed() == old(self).speed(),
    {
        self.frames = parse_trace(content, format, map);
        self.current_index = 0;
        self.state = PlaybackState::Stopped;
        self.start_time_us = None;
        self.paused_at_us = None;
        self.playback_start_timestamp_us = 0;
        self.frames.len()
    }

    /// Starts playing at `now_us`, from the beginning when past the end. Fails on an empty
    /// sequence.
    pub fn start(&mut self, now_us: u64) -> (r: Result<(), String>)
        requires
            old(self).wf(),
        ensures
            final(self).wf(),
            final(self).speed() == old(self).speed(),
            final(self).model().frames == old(self).model().frames,
            r is Err <==> old(self).model().frames.len() == 0,
            r is Err ==> final(self).model() == old(self).model(),
            r is Ok ==> final(self).model().state == PlaybackState::Playing && final(self).model().index == if old(
                self,
            ).model().index >= old(self).model().frames.len() {
                0
            } else {
                old(self).model().index
            },
    {
        if self.frames.len() == 0 {
            return Err(String::from_str("No frames loaded"));
        }
        if self.current_index >= self.frames.len() {
            self.current_index = 0;
        }
        self.state = PlaybackState::Playing;
        self.start_time_us = Some(now_us);
        self.paused_at_us = None;
        self.playback_start_timestamp_us = self.frames[self.current_index].timestamp_us;
        Ok(())
    }

    /// Stops and goes back to the beginning.
    pub fn stop(&mut self)
        ensures
            final(self).model() == (PlayerModel { index: 0, state: PlaybackState::Stopped, ..old(self).model() }),
            final(self).speed() == old(self).speed(),
            final(self).wf() == old(self).wf(),
    {
        self.state = PlaybackState::Stopped;
        self.current_index = 0;
        self.start_time_us = None;
        self.paused_at_us = None;
    }

    /// Pauses at `now_us`, while playing.
    pub fn pause(&mut self, now_us: u64)
        ensures
            final(self).model() == (if old(self).model().state == PlaybackState::Playing {
                PlayerModel { state: PlaybackState::Paused, ..old(self).model() }
            } else {
                old(self).model()
            }),
            final(self).speed() == old(self).speed(),
            final(self).wf() == old(self).wf(),
    {
        if self.state == PlaybackState::Playing {
            self.state = PlaybackState::Paused;
            self.paused_at_us = Some(now_us);
        }
    }

    /// Resumes at `now_us`, while paused: the playback origin moves on by the time spent
    /// paused.
    pub fn resume(&mut self, now_us: u64)
        ensures
            final(self).model() == (if old(self).model().state == PlaybackState::Paused {
                PlayerModel { state: PlaybackState::Playing, ..old(self).model() }
            } else {
                old(self).model()
            }),
            final(self).speed() == old(self).speed(),
            final(self).wf() == old(self).wf(),
    {
        if self.state == PlaybackState::Paused {
            self.state = PlaybackState::Playing;
            match (self.start_time_us, self.paused_at_us) {
                (Some(s), Some(p)) => {
                    let paused = if now_us > p { now_us - p } else { 0 };
                    self.start_time_us = Some(if s <= u64::MAX - paused { s + paused } else { u64::MAX });
                },
                _ => {},
            }
            self.paused_at_us = None;
        }
    }

    /// Sets the speed in thousandths, held within 100 and 5000.
    pub fn set_speed(&mut self, speed_permille: u32)
        ensures
            final(self).wf(),
            final(self).model() == old(self).model(),
            final(self).speed() == if speed_permille < MIN_SPEED {
                MIN_SPEED
            } else if speed_permille > MAX_SPEED {
                MAX_SPEED
            } else {
                speed_permille
            },
    {
        self.speed_permille = if speed_permille < MIN_SPEED {
            MIN_SPEED
        } else if speed_permille > MAX_SPEED {
            MAX_SPEED
        } else {
            speed_permille
        };
    }

    /// The speed in thousandths.
    pub fn get_speed(&self) -> (r: u32)
        ensures
            r == self.speed(),
    {
        self.speed_permille
    }

    /// Moves to frame `index`, held within the sequence.
    pub fn seek(&mut self, index: usize)
        ensures
            final(self).model() == (PlayerModel {
                index: if old(self).model().frames.len() == 0 {
                    0
                } else if index >= old(self).model().frames.len() {
                    old(self).model().frames.len() - 1
                } else {
                    index as int
                },
                ..old(self).model()
            }),
            final(self).speed() == old(self).speed(),
            final(self).wf() == old(self).wf(),
    {
        let last: usize = if self.frames.len() == 0 { 0 } else { self.frames.len() - 1 };
        self.current_index = if index < last { index } else { last };
    }

    /// The next frame while playing, with the wait before the one after it; nothing, and a
    /// stop, once past the end.
    pub fn get_next_frame(&mut self) -> (r: Option<(CanFrame, u64)>)
        requires
            old(self).wf(),
        ensures
            final(self).wf(),
            final(self).speed() == old(self).speed(),
            final(self).model() == next_step(old(self).model()).0,
            match next_step(old(self).model()).1 {
                None => r is None,
                Some(f) => r matches Some((x, d)) && x@ == f && d == delay_after(
                    old(self).model().frames,
                    old(self).model().index,
                    old(self).speed(),
                ),
            },
    {
        if self.state != PlaybackState::Playing {
            return None;
        }
        if self.current_index >= self.frames.len() {
            self.state = PlaybackState::Stopped;
            return None;
        }
        let i = self.current_index;
        let cur = self.frames[i].duplicate();
        let delay: u64 = if i + 1 < self.frames.len() {
            let gap: i128 = (self.frames[i + 1].timestamp_us as i128) - (cur.timestamp_us as i128);
            if gap <= 0 {
                0
            } else {
                let scaled: i128 = gap * 1000 / (self.speed_permille as i128);
                if scaled > MAX_DELAY_US as i128 {
                    MAX_DELAY_US
                } else {
                    scaled as u64
                }
            }
        } else {
            0
        };
        self.current_index = i + 1;
        Some((cur, delay))
    }

    pub fn get_state(&self) -> (r: PlaybackState)
        ensures
            r == self.model().state,
    {
        self.state
    }

    pub fn get_current_index(&self) -> (r: usize)
        ensures
            r == self.model().index,
    {
        self.current_index
    }

    pub fn get_frame_count(&self) -> (r: usize)
        ensures
            r == self.model().frames.len(),
    {
        self.frames.len()
    }

    /// Copies of all loaded frames, in order.
    pub fn get_all_frames(&self) -> (r: Vec<CanFrame>)
        ensures
            frames_view(r@) == self.model().frames,
    {
        let mut out: Vec<CanFrame> = Vec::new();
        let mut i: usize = 0;
        while i < self.frames.len()
            invariant
                i <= self.frames@.len(),
                frames_view(out@) == frames_view(self.frames@).subrange(0, i as int),
            decreases self.frames.len() - i,
        {
            let ghost before = out@;
            let f = self.frames[i].duplicate();
            out.push(f);
            assert(frames_view(out@) =~= frames_view(before).push(f@));
            assert(frames_view(out@) =~= frames_view(self.frames@).subrange(0, i + 1));
            i = i + 1;
        }
        out
    }
}

} // verus!
