use vstd::prelude::*;
use crate::message::FramePayload;
use crate::text::{chars_of, seq_eq};

verus! {

/// A channel as a project file keeps it.
#[derive(Debug, Clone)]
pub struct ProjectChannel {
    pub id: String,
    pub name: String,
    pub interface_id: Option<String>,
    pub bitrate: u32,
    pub dbc_file: Option<String>,
}

/// A periodic transmission as a project file keeps it.
#[derive(Debug, Clone)]
pub struct ProjectTransmitJob {
    pub id: String,
    pub frame: FramePayload,
    pub interval_ms: u64,
    pub enabled: bool,
}

pub open spec fn known(ids: Seq<String>, x: Seq<char>) -> bool {
    exists|i: int| 0 <= i < ids.len() && (#[trigger] ids[i])@ == x
}

fn is_known(ids: &Vec<String>, x: &String) -> (r: bool)
    ensures
        r == known(ids@, x@),
{
    let xc = chars_of(x.as_str());
    let mut i: usize = 0;
    while i < ids.len()
        invariant
            i <= ids@.len(),
            xc@ == x@,
            forall|j: int| 0 <= j < i ==> (#[trigger] ids@[j])@ != x@,
        decreases ids.len() - i,
    {
        let c = chars_of(ids[i].as_str());
        if seq_eq(&c, &xc) {
            return true;
        }
        i = i + 1;
    }
    false
}

/// A loaded channel checked against the host: an interface id that is not among
/// `interface_ids` is dropped, and so is a database file that does not exist.
pub fn validate_channel(ch: ProjectChannel, interface_ids: &Vec<String>, dbc_exists: bool) -> (r: ProjectChannel)
    ensures
        r.id@ == ch.id@ && r.name@ == ch.name@ && r.bitrate == ch.bitrate,
        match ch.interface_id {
            None => r.interface_id is None,
            Some(i) => if known(interface_ids@, i@) {
                r.interface_id matches Some(x) && x@ == i@
            } else {
                r.interface_id is None
            },
        },
        match ch.dbc_file {
            None => r.dbc_file is None,
            Some(f) => if dbc_exists { r.dbc_file matches Some(x) && x@ == f@ } else { r.dbc_file is None },
        },
{
    let interface_id = match ch.interface_id {
        None => None,
        Some(i) => if is_known(interface_ids, &i) { Some(i) } else { None },
    };
    let dbc_file = match ch.dbc_file {
        None => None,
        Some(f) => if dbc_exists { Some(f) } else { None },
    };
    ProjectChannel { id: ch.id, name: ch.name, interface_id, bitrate: ch.bitrate, dbc_file }
}

/// What a periodic transmission does at a tick.
#[derive(Debug, Clone, Copy, PartialEq, Eq, Structural)]
pub enum TickAction {
    Send,
    Exit,
}

/// The decision of a periodic transmission at a tick: it ends once cancelled or once its
/// channel is no longer connected, and sends otherwise.
pub fn tick_action(cancelled: bool, channel_connected: bool) -> (r: TickAction)
    ensures
        r == if cancelled || !channel_connected { TickAction::Exit } else { TickAction::Send },
{
    if cancelled || !channel_connected { TickAction::Exit } else { TickAction::Send }
}

/// The running periodic transmissions, by job id, each with its cancellation flag.
pub struct PeriodicJobs {
    pub jobs: Vec<(String, bool)>,
}

impl PeriodicJobs {
    pub fn new() -> (r: PeriodicJobs)
        ensures
            r.jobs@.len() == 0,
    {
        PeriodicJobs { jobs: Vec::new() }
    }

    /// Registers a running job.
    pub fn start(&mut self, id: String)
        ensures
            final(self).jobs@ == old(self).jobs@.push((id, false)),
    {
        self.jobs.push((id, false));
    }

    /// Signals cancellation to the job `id`; an unknown id changes nothing. Returns whether
    /// the job was found.
    pub fn stop(&mut self, id: &str) -> (r: bool)
        ensures
            final(self).jobs@.len() == old(self).jobs@.len(),
            !r ==> final(self).jobs@ == old(self).jobs@,
            r ==> exists|i: int| 0 <= i < old(self).jobs@.len() && old(self).jobs@[i].0@ == id@ && final(self).jobs@[i].1
                && final(self).jobs@[i].0 == old(self).jobs@[i].0,
    {
        let target = chars_of(id);
        let mut i: usize = 0;
        while i < self.jobs.len()
            invariant
                i <= self.jobs@.len(),
                target@ == id@,
                *self == *old(self),
            decreases self.jobs.len() - i,
        {
            let c = chars_of(self.jobs[i].0.as_str());
            if seq_eq(&c, &target) {
                self.jobs[i].1 = true;
                return true;
            }
            i = i + 1;
        }
        false
    }

    /// Whether the job `id` was told to stop (an unknown job counts as stopped).
    pub fn is_cancelled(&self, id: &str) -> (r: bool)
        ensures
            r == !(exists|i: int| 0 <= i < self.jobs@.len() && self.jobs@[i].0@ == id@ && !self.jobs@[i].1 && forall|
                j: int,
            | 0 <= j < i ==> self.jobs@[j].0@ != id@),
    {
        let target = chars_of(id);
        let mut i: usize = 0;
        while i < self.jobs.len()
            invariant
                i <= self.jobs@.len(),
                target@ == id@,
                forall|j: int| 0 <= j < i ==> self.jobs@[j].0@ != id@,
            decreases self.jobs.len() - i,
        {
            let c = chars_of(self.jobs[i].0.as_str());
            if seq_eq(&c, &target) {
                return self.jobs[i].1;
            }
            i = i + 1;
        }
        true
    }

    /// Removes the job `id` once its task has ended; the other jobs keep their order.
    pub fn remove(&mut self, id: &str)
        ensures
            forall|i: int| 0 <= i < final(self).jobs@.len() ==> final(self).jobs@[i].0@ != id@,
    {
        let target = chars_of(id);
        let mut i: usize = 0;
        while i < self.jobs.len()
            invariant
                i <= self.jobs@.len(),
                target@ == id@,
                forall|j: int| 0 <= j < i ==> self.jobs@[j].0@ != id@,
            decreases self.jobs.len() - i,
        {
            let c = chars_of(self.jobs[i].0.as_str());
            if seq_eq(&c, &target) {
                let ghost before = self.jobs@;
                self.jobs.remove(i);
                assert forall|j: int| 0 <= j < i implies self.jobs@[j].0@ != id@ by {
                    assert(self.jobs@[j] == before[j]);
                }
            } else {
                i = i + 1;
            }
        }
    }
}

} // verus!
