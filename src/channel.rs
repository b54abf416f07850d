use vstd::prelude::*;
use crate::bus_stats::{BusStats, bump};
use crate::filter::{FilterSet, set_matches};
use crate::message::{CanFrame, FrameView, same_wire, rx_text, tx_text, rx_string, tx_string};
use crate::text::{chars_of, copy_string, seq_eq, string_of, starts_with_at};
use crate::virtual_can::{CanInterface, elapsed, elapsed_exec};

verus! {

#[derive(Debug, Clone)]
pub enum ChannelState {
    Disconnected,
    Connecting,
    Connected,
    Error(String),
}

/// What a channel connects to.
#[derive(Debug, Clone)]
pub struct ChannelConfig {
    pub interface_id: String,
    pub bitrate: u32,
    pub listen_only: bool,
}

impl Default for ChannelConfig {
    fn default() -> (r: ChannelConfig)
        ensures
            r.interface_id@.len() == 0,
            r.bitrate == 500_000,
            !r.listen_only,
    {
        ChannelConfig { interface_id: String::new(), bitrate: 500_000, listen_only: false }
    }
}

/// The kind of back-end an interface id selects.
#[derive(Debug, Clone, Copy, PartialEq, Eq, Structural)]
pub enum BackendKind {
    Virtual,
    SocketCan,
}

pub open spec fn prefixed(s: Seq<char>, p: Seq<char>) -> bool {
    p.len() <= s.len() && s.subrange(0, p.len() as int) == p
}

/// The back-end for an interface id: `vcan*` virtual, `can*` native; `pcan*` adapters
/// are reached as native devices on this host, and other ids are unknown.
pub open spec fn backend_for(id: Seq<char>) -> Option<BackendKind> {
    if prefixed(id, "vcan"@) {
        Some(BackendKind::Virtual)
    } else if prefixed(id, "can"@) {
        Some(BackendKind::SocketCan)
    } else {
        None
    }
}

pub fn select_backend(interface_id: &str) -> (r: Result<BackendKind, String>)
    ensures
        match backend_for(interface_id@) {
            Some(k) => r == Ok::<BackendKind, String>(k),
            None => r is Err,
        },
{
    let cs = chars_of(interface_id);
    assert(cs@.subrange(0, cs@.len() as int) =~= cs@);
    if starts_with_at(&cs, 0, cs.len(), "vcan") {
        Ok(BackendKind::Virtual)
    } else if starts_with_at(&cs, 0, cs.len(), "can") {
        Ok(BackendKind::SocketCan)
    } else if starts_with_at(&cs, 0, cs.len(), "pcan") {
        Err(String::from_str("On Linux, PCAN devices should be accessed via SocketCAN"))
    } else {
        let mut msg = chars_of("Unknown interface type: ");
        let mut k: usize = 0;
        while k < cs.len()
            invariant
                k <= cs@.len(),
            decreases cs.len() - k,
        {
            msg.push(cs[k]);
            k = k + 1;
        }
        Err(string_of(msg.as_slice()))
    }
}

/// One channel: a back-end, its state, counters and filter. Instants are microseconds of
/// a monotone clock.
pub struct Channel<I> {
    pub id: String,
    pub config: ChannelConfig,
    pub state: ChannelState,
    pub stats: BusStats,
    pub filter: FilterSet,
    pub interface: Option<I>,
    pub start_time_us: Option<u64>,
}

impl<I: CanInterface> Channel<I> {
    /// A back-end exists exactly while connecting or connected, and a connected channel has
    /// a live back-end and a start instant.
    pub closed spec fn wf(&self) -> bool {
        &&& (self.interface is Some <==> (self.state is Connected || self.state is Connecting))
        &&& self.state is Connected ==> self.start_time_us is Some && self.interface->0.connected()
    }

    pub closed spec fn start(&self) -> Option<u64> {
        self.start_time_us
    }

    /// The time of a frame at `now`: elapsed since the connection.
    pub open spec fn stamp(&self, now: u64) -> i64 {
        match self.start() {
            Some(s) => elapsed(s, now),
            None => 0,
        }
    }

    /// A disconnected channel named `id`, with no filter rules.
    pub fn new(id: String) -> (r: Channel<I>)
        ensures
            r.wf(),
            r.id@ == id@,
            r.state is Disconnected,
            r.stats == BusStats::zero(),
            r.filter.rules@.len() == 0,
    {
        Channel {
            id,
            config: ChannelConfig::default(),
            state: ChannelState::Disconnected,
            stats: BusStats::new(),
            filter: FilterSet::default(),
            interface: None,
            start_time_us: None,
        }
    }

    /// Connects through `iface` at `now_us`. Refused, with nothing changed, when the
    /// channel is connecting or connected, or when the interface id names no back-end of this
    /// host. Otherwise the back-end decides: on success the channel is connected with the
    /// given configuration, zero counters and its clock started; on failure it is in error
    /// and holds no back-end.
    pub fn connect(&mut self, config: ChannelConfig, iface: I, now_us: u64) -> (r: Result<(), String>)
        requires
            old(self).wf(),
        ensures
            final(self).wf(),
            final(self).id@ == old(self).id@,
            final(self).filter.rules@ == old(self).filter.rules@ && final(self).filter.logic == old(self).filter.logic,
            (old(self).state is Connected || old(self).state is Connecting || backend_for(config.interface_id@) is None)
                ==> r is Err && final(self).state == old(self).state && final(self).stats == old(self).stats
                && final(self).start() == old(self).start(),
            !(old(self).state is Connected || old(self).state is Connecting) && backend_for(config.interface_id@) is Some
                && !iface.connected() && iface.can_connect() ==> r is Ok,
            r is Ok ==> final(self).state is Connected && final(self).stats == BusStats::zero() && final(self).start()
                == Some(now_us) && final(self).config.interface_id@ == config.interface_id@ && final(self).config.bitrate
                == config.bitrate && final(self).config.listen_only == config.listen_only
                && (final(self).interface matches Some(i) && i.connected() && i.pending().len() == 0),
            (r is Err && !(old(self).state is Connected || old(self).state is Connecting) && backend_for(
                config.interface_id@,
            ) is Some) ==> (r matches Err(e) && final(self).state matches ChannelState::Error(m) && m@ == e@),
    {
        match self.state {
            ChannelState::Connected | ChannelState::Connecting => {
                return Err(String::from_str("Channel already connected"));
            },
            _ => {},
        }
        match select_backend(config.interface_id.as_str()) {
            Err(e) => {
                return Err(e);
            },
            Ok(_) => {},
        }
        self.state = ChannelState::Connecting;
        let bitrate = config.bitrate;
        self.config = config;
        let mut iface = iface;
        match iface.connect(bitrate, now_us) {
            Ok(()) => {
                self.interface = Some(iface);
                self.state = ChannelState::Connected;
                self.start_time_us = Some(now_us);
                self.stats.reset();
                Ok(())
            },
            Err(e) => {
                self.interface = None;
                let e2 = copy_string(&e);
                self.state = ChannelState::Error(e);
                Err(e2)
            },
        }
    }

    /// Disconnects the back-end, if any, and returns to the disconnected state; a refusal of
    /// the back-end is passed on and changes nothing.
    pub fn disconnect(&mut self) -> (r: Result<(), String>)
        requires
            old(self).wf(),
        ensures
            final(self).wf(),
            final(self).id@ == old(self).id@,
            r is Ok ==> final(self).state is Disconnected && final(self).start() is None,
            r is Err ==> final(self).state == old(self).state && final(self).start() == old(self).start(),
            final(self).stats == old(self).stats,
    {
        let mut taken = None;
        std::mem::swap(&mut taken, &mut self.interface);
        match taken {
            Some(mut iface) => {
                match iface.disconnect() {
                    Ok(()) => {},
                    Err(e) => {
                        self.interface = Some(iface);
                        return Err(e);
                    },
                }
            },
            None => {},
        }
        self.state = ChannelState::Disconnected;
        self.start_time_us = None;
        Ok(())
    }

    /// The frame `f` as this channel publishes it at `now`: marked `direction` on this
    /// channel at the elapsed time.
    pub open spec fn stamped(&self, f: FrameView, direction: Seq<char>, now: u64) -> FrameView {
        FrameView { direction, channel: self.id@, timestamp_us: self.stamp(now), ..f }
    }

    fn stamp_frame(&self, frame: CanFrame, rx: bool, now_us: u64) -> (r: CanFrame)
        ensures
            r@ == self.stamped(frame@, if rx { rx_text() } else { tx_text() }, now_us),
            r.timestamp_us >= 0,
    {
        let ts = match self.start_time_us {
            Some(s) => elapsed_exec(s, now_us),
            None => 0,
        };
        let mut f = frame;
        f.direction = if rx { rx_string() } else { tx_string() };
        f.channel = copy_string(&self.id);
        f.timestamp_us = ts;
        f
    }

    /// Sends `frame` at `now_us`: refused unless connected. The frame is marked transmitted
    /// on this channel at the elapsed time and handed to the back-end. On success it is
    /// counted and returned as published; a back-end failure is counted as an error and
    /// passed on.
    pub fn send(&mut self, frame: CanFrame, now_us: u64) -> (r: Result<CanFrame, String>)
        requires
            old(self).wf(),
        ensures
            final(self).wf(),
            final(self).id@ == old(self).id@,
            final(self).start() == old(self).start(),
            final(self).state == old(self).state,
            final(self).filter.rules@ == old(self).filter.rules@ && final(self).filter.logic == old(self).filter.logic,
            !(old(self).state is Connected) ==> r is Err && final(self).stats == old(self).stats && final(self).interface
                == old(self).interface,
            r matches Ok(f) ==> f@ == old(self).stamped(frame@, tx_text(), now_us) && f.timestamp_us >= 0,
            r is Ok ==> final(self).stats == (BusStats { tx_count: bump(old(self).stats.tx_count), ..old(self).stats }),
            old(self).state is Connected ==> (final(self).interface matches Some(i) && i.connected() && i.pending() == (if r is Ok {
                old(self).interface->0.pending_after_send(old(self).stamped(frame@, tx_text(), now_us), now_us)
            } else {
                old(self).interface->0.pending()
            })),
            (r is Err && old(self).state is Connected) ==> final(self).stats == (BusStats {
                error_count: bump(old(self).stats.error_count),
                ..old(self).stats
            }),
    {
        match self.state {
            ChannelState::Connected => {},
            _ => {
                return Err(String::from_str("Channel not connected"));
            },
        }
        let sent = self.stamp_frame(frame, false, now_us);
        let mut taken = None;
        std::mem::swap(&mut taken, &mut self.interface);
        let mut iface = match taken {
            Some(i) => i,
            None => {
                return Err(String::from_str("No interface connected"));
            },
        };
        let res = iface.send(&sent, now_us);
        self.interface = Some(iface);
        match res {
            Ok(()) => {
                self.stats.record_tx();
                Ok(sent)
            },
            Err(e) => {
                self.stats.record_error();
                Err(e)
            },
        }
    }

    /// What the channel does with a frame its back-end yielded at `now_us`: marks it
    /// received on this channel at the elapsed time and counts it, then returns it when the
    /// filter lets it through.
    pub fn accept_received(&mut self, f: CanFrame, now_us: u64) -> (r: Option<CanFrame>)
        ensures
            final(self).stats == (BusStats { rx_count: bump(old(self).stats.rx_count), ..old(self).stats }),
            final(self).id == old(self).id && final(self).state == old(self).state && final(self).start() == old(self).start(),
            final(self).interface == old(self).interface,
            final(self).filter.rules@ == old(self).filter.rules@ && final(self).filter.logic == old(self).filter.logic,
            match r {
                Some(x) => x@ == old(self).stamped(f@, rx_text(), now_us) && x.timestamp_us >= 0 && set_matches(
                    old(self).filter.rules@,
                    old(self).filter.logic,
                    x@,
                ),
                None => !set_matches(old(self).filter.rules@, old(self).filter.logic, old(self).stamped(f@, rx_text(), now_us)),
            },
    {
        let got = self.stamp_frame(f, true, now_us);
        self.stats.record_rx();
        if self.filter.matches(&got) {
            Some(got)
        } else {
            None
        }
    }

    /// Receives at `now_us`: refused unless connected. The back-end yields the oldest
    /// waiting frame, if any; the channel accepts it as `accept_received` says: every
    /// yielded frame is counted, and one the filter rejects gives nothing. A back-end
    /// failure is counted as an error and passed on.
    pub fn receive(&mut self, now_us: u64) -> (r: Result<Option<CanFrame>, String>)
        requires
            old(self).wf(),
        ensures
            final(self).wf(),
            final(self).id@ == old(self).id@,
            final(self).start() == old(self).start(),
            final(self).state == old(self).state,
            final(self).filter.rules@ == old(self).filter.rules@ && final(self).filter.logic == old(self).filter.logic,
            !(old(self).state is Connected) ==> r is Err && final(self).stats == old(self).stats,
            (old(self).state is Connected && r is Ok) ==> ({
                let p = old(self).interface->0.pending();
                let s = old(self).stamped(p[0], rx_text(), now_us);
                &&& (final(self).interface matches Some(i) && i.pending() == (if p.len() > 0 { p.drop_first() } else { p }))
                &&& final(self).stats == if p.len() > 0 {
                    BusStats { rx_count: bump(old(self).stats.rx_count), ..old(self).stats }
                } else {
                    old(self).stats
                }
                &&& match r {
                    Ok(Some(x)) => p.len() > 0 && x@ == s && set_matches(old(self).filter.rules@, old(self).filter.logic, s),
                    _ => p.len() == 0 || !set_matches(old(self).filter.rules@, old(self).filter.logic, s),
                }
            }),
            (r is Err && old(self).state is Connected) ==> final(self).stats == (BusStats {
                error_count: bump(old(self).stats.error_count),
                ..old(self).stats
            }) && (final(self).interface matches Some(i) && i.pending() == old(self).interface->0.pending()),
    {
        match self.state {
            ChannelState::Connected => {},
            _ => {
                return Err(String::from_str("Channel not connected"));
            },
        }
        let mut taken = None;
        std::mem::swap(&mut taken, &mut self.interface);
        let mut iface = match taken {
            Some(i) => i,
            None => {
                return Err(String::from_str("No interface connected"));
            },
        };
        let res = iface.receive(now_us);
        self.interface = Some(iface);
        match res {
            Ok(Some(f)) => Ok(self.accept_received(f, now_us)),
            Ok(None) => Ok(None),
            Err(e) => {
                self.stats.record_error();
                Err(e)
            },
        }
    }

    /// Sets the filter applied to received frames.
    pub fn set_filter(&mut self, filter: FilterSet)
        requires
            old(self).wf(),
        ensures
            final(self).wf(),
            final(self).filter.rules@ == filter.rules@,
            final(self).filter.logic == filter.logic,
            final(self).state == old(self).state,
            final(self).stats == old(self).stats,
    {
        self.filter = filter;
    }

    /// The elapsed microseconds at `now_us` since the connection, zero without one.
    pub fn get_timestamp(&self, now_us: u64) -> (r: i64)
        ensures
            r == self.stamp(now_us),
    {
        match self.start_time_us {
            Some(s) => elapsed_exec(s, now_us),
            None => 0,
        }
    }
}

/// Timestamps of one connection never decrease: a later instant gives a later or equal
/// stamp.
pub proof fn lemma_stamp_monotone(start: u64, a: u64, b: u64)
    requires
        a <= b,
    ensures
        elapsed(start, a) <= elapsed(start, b),
        elapsed(start, a) >= 0,
{
}

/// The transmit count after `n` successful sends from `initial`.
pub open spec fn after_sends(initial: u64, n: nat) -> u64
    decreases n,
{
    if n == 0 { initial } else { bump(after_sends(initial, (n - 1) as nat)) }
}

/// Each successful send counts once: after `n` of them the transmit count has grown by
/// `n`, while it stays within `u64`.
pub proof fn lemma_tx_count(initial: u64, n: nat)
    requires
        initial + n <= u64::MAX,
    ensures
        after_sends(initial, n) == initial + n,
    decreases n,
{
    if n > 0 {
        lemma_tx_count(initial, (n - 1) as nat);
    }
}

/// Channels by id, with one of them active.
pub struct ChannelManager<I> {
    pub channels: Vec<Channel<I>>,
    pub active_channel: Option<String>,
}

pub open spec fn channel_ids<I>(cs: Seq<Channel<I>>) -> Seq<Seq<char>> {
    cs.map_values(|c: Channel<I>| c.id@)
}

impl<I: CanInterface> ChannelManager<I> {
    /// Ids are unique, and the active id is one of them.
    pub open spec fn wf(&self) -> bool {
        &&& channel_ids(self.channels@).no_duplicates()
        &&& self.active_channel matches Some(a) ==> channel_ids(self.channels@).contains(a@)
    }

    pub fn new() -> (r: ChannelManager<I>)
        ensures
            r.wf(),
            r.channels@.len() == 0,
            r.active_channel is None,
    {
        let r = ChannelManager { channels: Vec::new(), active_channel: None };
        assert(channel_ids(r.channels@) =~= Seq::<Seq<char>>::empty());
        r
    }

    /// The index of the channel with `id`.
    pub fn find(&self, id: &str) -> (r: Option<usize>)
        ensures
            match r {
                Some(i) => i < self.channels@.len() && self.channels@[i as int].id@ == id@,
                None => !channel_ids(self.channels@).contains(id@),
            },
    {
        let target = chars_of(id);
        let mut i: usize = 0;
        while i < self.channels.len()
            invariant
                i <= self.channels@.len(),
                target@ == id@,
                forall|j: int| 0 <= j < i ==> self.channels@[j].id@ != id@,
            decreases self.channels.len() - i,
        {
            let c = chars_of(self.channels[i].id.as_str());
            if seq_eq(&c, &target) {
                return Some(i);
            }
            i = i + 1;
        }
        proof {
            if channel_ids(self.channels@).contains(id@) {
                let k = choose|k: int| 0 <= k < channel_ids(self.channels@).len() && channel_ids(self.channels@)[k] == id@;
                assert(self.channels@[k].id@ == id@);
            }
        }
        None
    }

    /// The index of the channel with `id`, created disconnected when there is none.
    pub fn get_or_create_channel(&mut self, id: &str) -> (r: usize)
        requires
            old(self).wf(),
        ensures
            final(self).wf(),
            r < final(self).channels@.len(),
            final(self).channels@[r as int].id@ == id@,
            channel_ids(old(self).channels@).contains(id@) ==> final(self).channels@ == old(self).channels@,
            !channel_ids(old(self).channels@).contains(id@) ==> final(self).channels@.len() == old(self).channels@.len() + 1
                && final(self).channels@.subrange(0, old(self).channels@.len() as int) == old(self).channels@,
            final(self).active_channel == old(self).active_channel,
    {
        match self.find(id) {
            Some(i) => {
                proof {
                    assert(channel_ids(self.channels@)[i as int] == id@);
                }
                i
            },
            None => {
                let c: Channel<I> = Channel::new(String::from_str(id));
                let ghost before = self.channels@;
                self.channels.push(c);
                proof {
                    assert(channel_ids(self.channels@) =~= channel_ids(before).push(id@));
                    assert(self.channels@.subrange(0, before.len() as int) =~= before);
                    if let Some(a) = &self.active_channel {
                        let k = choose|k: int| 0 <= k < channel_ids(before).len() && channel_ids(before)[k] == a@;
                        assert(channel_ids(self.channels@)[k] == a@);
                    }
                }
                self.channels.len() - 1
            },
        }
    }

    /// Makes `id` the active channel, where there is such a channel.
    pub fn set_active_channel(&mut self, id: &str)
        requires
            old(self).wf(),
        ensures
            final(self).wf(),
            final(self).channels@ == old(self).channels@,
            channel_ids(old(self).channels@).contains(id@) ==> (final(self).active_channel matches Some(a) && a@ == id@),
            !channel_ids(old(self).channels@).contains(id@) ==> final(self).active_channel == old(self).active_channel,
    {
        match self.find(id) {
            Some(i) => {
                proof {
                    assert(channel_ids(self.channels@)[i as int] == id@);
                }
                self.active_channel = Some(String::from_str(id));
            },
            None => {},
        }
    }

    /// The index of the active channel, if any.
    pub fn get_active_channel(&self) -> (r: Option<usize>)
        ensures
            match r {
                Some(i) => i < self.channels@.len() && (self.active_channel matches Some(a) && self.channels@[i as int].id@ == a@),
                None => self.active_channel is None || !channel_ids(self.channels@).contains(self.active_channel->0@),
            },
    {
        match &self.active_channel {
            None => None,
            Some(a) => self.find(a.as_str()),
        }
    }

    /// The ids of the channels, in order.
    pub fn get_channel_ids(&self) -> (r: Vec<String>)
        ensures
            r@.map_values(|s: String| s@) == channel_ids(self.channels@),
    {
        let mut out: Vec<String> = Vec::new();
        let mut i: usize = 0;
        while i < self.channels.len()
            invariant
                i <= self.channels@.len(),
                out@.map_values(|s: String| s@) == channel_ids(self.channels@).subrange(0, i as int),
            decreases self.channels.len() - i,
        {
            let ghost before = out@;
            let s = copy_string(&self.channels[i].id);
            out.push(s);
            assert(out@.map_values(|s: String| s@) =~= before.map_values(|s: String| s@).push(s@));
            assert(channel_ids(self.channels@).subrange(0, i + 1) =~= channel_ids(self.channels@).subrange(0, i as int).push(self.channels@[i as int].id@));
            i = i + 1;
        }
        assert(channel_ids(self.channels@).subrange(0, i as int) =~= channel_ids(self.channels@));
        out
    }

    /// Removes the channel `id`, and clears the active slot when it was the active one.
    pub fn remove_channel(&mut self, id: &str)
        requires
            old(self).wf(),
        ensures
            final(self).wf(),
            !channel_ids(final(self).channels@).contains(id@),
            !channel_ids(old(self).channels@).contains(id@) ==> final(self).channels@ == old(self).channels@,
            channel_ids(old(self).channels@).contains(id@) ==> exists|i: int|
                0 <= i < old(self).channels@.len() && old(self).channels@[i].id@ == id@ && final(self).channels@
                    == old(self).channels@.remove(i),
            (old(self).active_channel matches Some(a) && a@ == id@) ==> final(self).active_channel is None,
            !(old(self).active_channel matches Some(a) && a@ == id@) ==> final(self).active_channel
                == old(self).active_channel,
    {
        let found = self.find(id);
        let ghost before = self.channels@;
        match found {
            Some(i) => {
                self.channels.remove(i);
                proof {
                    assert(before[i as int].id@ == id@);
                    assert(channel_ids(self.channels@) =~= channel_ids(before).remove(i as int));
                    assert(channel_ids(before)[i as int] == id@);
                    assert forall|x: int, y: int| 0 <= x < y < channel_ids(self.channels@).len() implies channel_ids(self.channels@)[x] != channel_ids(self.channels@)[y] by {
                        let xx = if x < i { x } else { x + 1 };
                        let yy = if y < i { y } else { y + 1 };
                        assert(channel_ids(self.channels@)[x] == channel_ids(before)[xx]);
                        assert(channel_ids(self.channels@)[y] == channel_ids(before)[yy]);
                    }
                    assert(!channel_ids(self.channels@).contains(id@)) by {
                        if channel_ids(self.channels@).contains(id@) {
                            let k = choose|k: int| 0 <= k < channel_ids(self.channels@).len() && channel_ids(self.channels@)[k] == id@;
                            let kk = if k < i { k } else { k + 1 };
                            assert(channel_ids(before)[kk] == id@);
                        }
                    }
                }
            },
            None => {
                proof {
                    assert(!channel_ids(before).contains(id@));
                }
            },
        }
        let clear = match &self.active_channel {
            Some(a) => crate::text::str_eq(a.as_str(), id),
            None => false,
        };
        if clear {
            self.active_channel = None;
        }
        proof {
            if let Some(a) = &self.active_channel {
                let k = choose|k: int| 0 <= k < channel_ids(before).len() && channel_ids(before)[k] == a@;
                match found {
                    Some(i) => {
                        assert(k != i);
                        let kk = if k < i { k } else { k - 1 };
                        assert(channel_ids(self.channels@)[kk] == a@);
                    },
                    None => {
                        assert(channel_ids(self.channels@)[k] == a@);
                    },
                }
            }
        }
    }
}

} // verus!
