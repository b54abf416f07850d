use vstd::prelude::*;
use crate::hal::{BusState, CanFilter, InterfaceInfo, filter_accepts};
use crate::message::{CanFrame, FrameView, same_wire, rx_text, rx_string, id_fits, id_fits_exec};
use crate::trace_parse::frames_view;
use crate::text::{chars_of, copy_string, string_of};
use std::collections::VecDeque;

verus! {

/// Frames the loopback buffer holds at most.
pub const RX_CAPACITY: usize = 1000;

/// The operations every back-end offers. Instants are microseconds of a monotone clock.
pub trait CanInterface {
    spec fn connected(&self) -> bool;

    /// The frames waiting to be received, oldest first.
    spec fn pending(&self) -> Seq<FrameView>;

    /// Whether the back-end grants a connection when it is not connected.
    spec fn can_connect(&self) -> bool;

    /// What waits to be received after `f` is sent at `now`.
    spec fn pending_after_send(&self, f: FrameView, now: u64) -> Seq<FrameView>;

    fn info(&self) -> InterfaceInfo;

    fn is_connected(&self) -> (r: bool)
        ensures
            r == self.connected();

    /// Connects at `bitrate`; refused when already connected. A connection starts with
    /// nothing waiting.
    fn connect(&mut self, bitrate: u32, now_us: u64) -> (r: Result<(), String>)
        ensures
            old(self).connected() ==> r is Err,
            !old(self).connected() && old(self).can_connect() ==> r is Ok,
            r is Ok ==> final(self).connected() && final(self).pending().len() == 0,
            r is Err ==> final(self).connected() == old(self).connected() && final(self).pending() == old(self).pending();

    /// Disconnects; refused when not connected.
    fn disconnect(&mut self) -> (r: Result<(), String>)
        ensures
            !old(self).connected() ==> r is Err,
            r is Ok ==> !final(self).connected(),
            r is Err ==> final(self).connected() == old(self).connected();

    /// Sends a frame; refused when not connected. What waits afterwards is
    /// `pending_after_send` on success and unchanged on failure.
    fn send(&mut self, frame: &CanFrame, now_us: u64) -> (r: Result<(), String>)
        ensures
            !old(self).connected() ==> r is Err,
            final(self).connected() == old(self).connected(),
            r is Ok ==> final(self).pending() == old(self).pending_after_send(frame@, now_us),
            r is Err ==> final(self).pending() == old(self).pending();

    /// The oldest waiting frame, if any; refused when not connected. Nothing is returned
    /// only when nothing waits.
    fn receive(&mut self, now_us: u64) -> (r: Result<Option<CanFrame>, String>)
        ensures
            !old(self).connected() ==> r is Err,
            final(self).connected() == old(self).connected(),
            r matches Ok(None) ==> (old(self).pending().len() == 0 && final(self).pending() == old(self).pending()),
            r matches Ok(Some(f)) ==> (old(self).pending().len() > 0 && f@ == old(self).pending()[0]
                && final(self).pending() == old(self).pending().drop_first()),
            r is Err ==> final(self).pending() == old(self).pending();

    fn set_filter(&mut self, filter: Option<CanFilter>) -> (r: Result<(), String>)
        ensures
            final(self).connected() == old(self).connected(),
            final(self).pending() == old(self).pending();

    fn get_bus_state(&self) -> BusState;
}

/// A software loopback: what is sent comes back as received, through a bounded buffer
/// that drops its oldest frame when full.
pub struct VirtualCanInterface {
    id: String,
    name: String,
    connected: bool,
    bitrate: u32,
    filter: Option<CanFilter>,
    rx_buffer: VecDeque<CanFrame>,
    start_time_us: Option<u64>,
}

/// The elapsed microseconds from `start` to `now`, zero before it.
pub open spec fn elapsed(start: u64, now: u64) -> i64 {
    if now >= start { if now - start <= i64::MAX { (now - start) as i64 } else { i64::MAX } } else { 0 }
}

pub fn elapsed_exec(start: u64, now: u64) -> (r: i64)
    ensures
        r == elapsed(start, now),
        r >= 0,
{
    if now >= start {
        let d = now - start;
        if d <= i64::MAX as u64 { d as i64 } else { i64::MAX }
    } else {
        0
    }
}

/// `buf` with `f` added at the back, the oldest frame dropped when the buffer is full.
pub open spec fn push_bounded(buf: Seq<FrameView>, f: FrameView) -> Seq<FrameView> {
    if buf.len() >= RX_CAPACITY { buf.drop_first().push(f) } else { buf.push(f) }
}

impl VirtualCanInterface {
    pub closed spec fn buffer(&self) -> Seq<FrameView> {
        self.rx_buffer@.map_values(|f: CanFrame| f@)
    }

    /// The interface is switched on.
    pub closed spec fn is_on(&self) -> bool {
        self.connected
    }

    pub closed spec fn hw_filter(&self) -> Option<CanFilter> {
        self.filter
    }

    pub closed spec fn id_view(&self) -> Seq<char> {
        self.id@
    }

    pub closed spec fn start(&self) -> Option<u64> {
        self.start_time_us
    }

    /// The buffer is within its bound, and a connection has a start instant.
    pub closed spec fn wf(&self) -> bool {
        &&& self.rx_buffer@.len() <= RX_CAPACITY
        &&& self.connected ==> self.start_time_us is Some
    }

    /// The frame the loopback puts back for a sent frame: marked received on this
    /// interface, stamped with the time since connecting.
    pub open spec fn echo(&self, f: FrameView, now: u64) -> FrameView {
        FrameView {
            direction: rx_text(),
            channel: self.id_view(),
            timestamp_us: match self.start() {
                Some(s) => elapsed(s, now),
                None => f.timestamp_us,
            },
            ..f
        }
    }

    /// A disconnected interface named `id`, with an empty buffer and no filter.
    pub fn new(id: &str) -> (r: VirtualCanInterface)
        ensures
            r.wf(),
            !r.connected(),
            r.id_view() == id@,
            r.buffer().len() == 0,
            r.hw_filter() is None,
    {
        let mut name = chars_of("Virtual CAN: ");
        let idc = chars_of(id);
        let mut k: usize = 0;
        let ghost pre = name@;
        while k < idc.len()
            invariant
                k <= idc@.len(),
                name@ == pre + idc@.subrange(0, k as int),
            decreases idc.len() - k,
        {
            name.push(idc[k]);
            k = k + 1;
            assert(name@ =~= pre + idc@.subrange(0, k as int));
        }
        let r = VirtualCanInterface {
            id: String::from_str(id),
            name: string_of(name.as_slice()),
            connected: false,
            bitrate: 0,
            filter: None,
            rx_buffer: VecDeque::new(),
            start_time_us: None,
        };
        assert(r.buffer() =~= Seq::<FrameView>::empty());
        r
    }

    /// Whether a frame passes the interface's filter (every frame without one).
    pub fn passes_filter(&self, frame: &CanFrame) -> (r: bool)
        ensures
            r == match self.hw_filter() {
                None => true,
                Some(flt) => filter_accepts(flt, frame@),
            },
    {
        match &self.filter {
            None => true,
            Some(flt) => flt.accepts(frame),
        }
    }

    /// Adds a frame at the back of the buffer, dropping the oldest one when full.
    pub fn inject_frame(&mut self, frame: CanFrame)
        requires
            old(self).wf(),
        ensures
            final(self).wf(),
            final(self).buffer() == push_bounded(old(self).buffer(), frame@),
            final(self).connected() == old(self).connected(),
            final(self).id_view() == old(self).id_view(),
            final(self).hw_filter() == old(self).hw_filter(),
            final(self).start() == old(self).start(),
    {
        let ghost b0 = self.rx_buffer@;
        if self.rx_buffer.len() >= RX_CAPACITY {
            self.rx_buffer.pop_front();
        }
        let ghost b1 = self.rx_buffer@;
        let ghost fv = frame@;
        self.rx_buffer.push_back(frame);
        assert(self.buffer() =~= push_bounded(b0.map_values(|f: CanFrame| f@), fv));
    }

    /// Sends with the loopback: refused when not connected or when the id does not fit the
    /// frame kind; the echo goes into the buffer when it passes the filter.
    pub fn send_frame(&mut self, frame: &CanFrame, now_us: u64) -> (r: Result<(), String>)
        requires
            old(self).wf(),
        ensures
            final(self).wf(),
            r is Ok <==> old(self).connected() && id_fits(frame@),
            final(self).connected() == old(self).connected(),
            final(self).id_view() == old(self).id_view(),
            final(self).hw_filter() == old(self).hw_filter(),
            final(self).start() == old(self).start(),
            final(self).buffer() == if r is Ok && (match old(self).hw_filter() {
                None => true,
                Some(flt) => filter_accepts(flt, old(self).echo(frame@, now_us)),
            }) {
                push_bounded(old(self).buffer(), old(self).echo(frame@, now_us))
            } else {
                old(self).buffer()
            },
    {
        if !self.connected {
            return Err(String::from_str("Not connected"));
        }
        if !id_fits_exec(frame) {
            return Err(String::from_str("Identifier does not fit the frame kind"));
        }
        let mut echo = frame.duplicate();
        echo.direction = rx_string();
        echo.channel = copy_string(&self.id);
        match self.start_time_us {
            Some(s) => {
                echo.timestamp_us = elapsed_exec(s, now_us);
            },
            None => {},
        }
        assert(echo@ == self.echo(frame@, now_us));
        if self.passes_filter(&echo) {
            self.inject_frame(echo);
        }
        Ok(())
    }

    /// Takes the oldest buffered frame, if any.
    pub fn receive_frame(&mut self) -> (r: Result<Option<CanFrame>, String>)
        requires
            old(self).wf(),
        ensures
            final(self).wf(),
            r is Ok <==> old(self).connected(),
            final(self).connected() == old(self).connected(),
            final(self).id_view() == old(self).id_view(),
            final(self).hw_filter() == old(self).hw_filter(),
            final(self).start() == old(self).start(),
            r matches Ok(x) ==> match x {
                None => old(self).buffer().len() == 0 && final(self).buffer() == old(self).buffer(),
                Some(f) => old(self).buffer().len() > 0 && f@ == old(self).buffer()[0] && final(self).buffer()
                    == old(self).buffer().drop_first(),
            },
            r is Err ==> final(self).buffer() == old(self).buffer(),
    {
        if !self.connected {
            return Err(String::from_str("Not connected"));
        }
        let ghost b0 = self.rx_buffer@;
        let x = self.rx_buffer.pop_front();
        proof {
            if b0.len() > 0 {
                assert(self.buffer() =~= b0.map_values(|f: CanFrame| f@).drop_first());
            } else {
                assert(self.buffer() =~= b0.map_values(|f: CanFrame| f@));
            }
        }
        Ok(x)
    }

    /// Connects at `bitrate`, starting the clock and emptying the buffer.
    pub fn connect_at(&mut self, bitrate: u32, now_us: u64) -> (r: Result<(), String>)
        requires
            old(self).wf(),
        ensures
            final(self).wf(),
            r is Ok <==> !old(self).connected(),
            final(self).connected(),
            final(self).id_view() == old(self).id_view(),
            final(self).hw_filter() == old(self).hw_filter(),
            r is Ok ==> final(self).buffer().len() == 0 && final(self).start() == Some(now_us),
            r is Err ==> final(self).buffer() == old(self).buffer() && final(self).start() == old(self).start(),
    {
        if self.connected {
            return Err(String::from_str("Already connected"));
        }
        self.bitrate = bitrate;
        self.connected = true;
        self.start_time_us = Some(now_us);
        self.rx_buffer = VecDeque::new();
        assert(self.buffer() =~= Seq::<FrameView>::empty());
        Ok(())
    }

    /// Disconnects, emptying the buffer.
    pub fn disconnect_now(&mut self) -> (r: Result<(), String>)
        requires
            old(self).wf(),
        ensures
            final(self).wf(),
            r is Ok <==> old(self).connected(),
            !final(self).connected(),
            final(self).id_view() == old(self).id_view(),
            final(self).hw_filter() == old(self).hw_filter(),
            r is Ok ==> final(self).buffer().len() == 0,
    {
        if !self.connected {
            return Err(String::from_str("Not connected"));
        }
        self.connected = false;
        self.start_time_us = None;
        self.rx_buffer = VecDeque::new();
        assert(self.buffer() =~= Seq::<FrameView>::empty());
        Ok(())
    }
}

impl CanInterface for VirtualCanInterface {
    closed spec fn connected(&self) -> bool {
        self.connected && self.wf()
    }

    open spec fn pending(&self) -> Seq<FrameView> {
        self.buffer()
    }

    open spec fn can_connect(&self) -> bool {
        true
    }

    /// The echo is added when the id fits its kind and the echo passes the filter.
    open spec fn pending_after_send(&self, f: FrameView, now: u64) -> Seq<FrameView> {
        if id_fits(f) && (match self.hw_filter() {
            None => true,
            Some(flt) => filter_accepts(flt, self.echo(f, now)),
        }) {
            push_bounded(self.buffer(), self.echo(f, now))
        } else {
            self.buffer()
        }
    }

    fn info(&self) -> (r: InterfaceInfo) {
        InterfaceInfo {
            id: copy_string(&self.id),
            name: copy_string(&self.name),
            interface_type: String::from_str("virtual"),
            available: true,
        }
    }

    fn is_connected(&self) -> (r: bool) {
        self.connected && self.rx_buffer.len() <= RX_CAPACITY && (self.start_time_us.is_some())
    }

    fn connect(&mut self, bitrate: u32, now_us: u64) -> (r: Result<(), String>) {
        if self.connected && self.rx_buffer.len() <= RX_CAPACITY && self.start_time_us.is_some() {
            return Err(String::from_str("Already connected"));
        }
        self.connected = false;
        self.rx_buffer = VecDeque::new();
        self.start_time_us = None;
        self.connect_at(bitrate, now_us)
    }

    fn disconnect(&mut self) -> (r: Result<(), String>) {
        if !(self.connected && self.rx_buffer.len() <= RX_CAPACITY && self.start_time_us.is_some()) {
            return Err(String::from_str("Not connected"));
        }
        self.disconnect_now()
    }

    fn send(&mut self, frame: &CanFrame, now_us: u64) -> (r: Result<(), String>) {
        if !(self.connected && self.rx_buffer.len() <= RX_CAPACITY && self.start_time_us.is_some()) {
            return Err(String::from_str("Not connected"));
        }
        self.send_frame(frame, now_us)
    }

    fn receive(&mut self, now_us: u64) -> (r: Result<Option<CanFrame>, String>) {
        if !(self.connected && self.rx_buffer.len() <= RX_CAPACITY && self.start_time_us.is_some()) {
            return Err(String::from_str("Not connected"));
        }
        self.receive_frame()
    }

    fn set_filter(&mut self, filter: Option<CanFilter>) -> (r: Result<(), String>) {
        let ghost b0 = self.buffer();
        self.filter = filter;
        assert(self.buffer() == b0);
        Ok(())
    }

    fn get_bus_state(&self) -> (r: BusState) {
        if self.connected { BusState::Active } else { BusState::Unknown }
    }
}

/// The virtual bus loops a sent frame back: with no filter on the interface and an empty
/// buffer, the next frame received is the sent frame marked as received.
pub proof fn lemma_loopback(v: VirtualCanInterface, f: FrameView, now: u64)
    requires
        v.buffer().len() == 0,
        v.hw_filter() is None,
    ensures
        push_bounded(v.buffer(), v.echo(f, now))[0] == v.echo(f, now),
        same_wire(v.echo(f, now), f),
        v.echo(f, now).direction == rx_text(),
{
}

/// Several virtual interfaces on one bus.
pub struct VirtualCanBus {
    pub nodes: Vec<VirtualCanInterface>,
}

impl VirtualCanBus {
    pub fn new() -> (r: VirtualCanBus)
        ensures
            r.nodes@.len() == 0,
    {
        VirtualCanBus { nodes: Vec::new() }
    }

    pub fn add_node(&mut self, node: VirtualCanInterface)
        ensures
            final(self).nodes@ == old(self).nodes@.push(node),
    {
        self.nodes.push(node);
    }

    /// Puts `frame` into the buffer of every connected node but the sender.
    pub fn broadcast(&mut self, sender_id: &str, frame: &CanFrame)
        requires
            forall|i: int| 0 <= i < old(self).nodes@.len() ==> (#[trigger] old(self).nodes@[i]).wf(),
        ensures
            final(self).nodes@.len() == old(self).nodes@.len(),
            forall|i: int| 0 <= i < final(self).nodes@.len() ==> (#[trigger] final(self).nodes@[i]).wf(),
            forall|i: int| 0 <= i < final(self).nodes@.len() ==> (#[trigger] final(self).nodes@[i]).buffer() == if old(self).nodes@[i].id_view() != sender_id@
                && old(self).nodes@[i].is_on() {
                push_bounded(old(self).nodes@[i].buffer(), frame@)
            } else {
                old(self).nodes@[i].buffer()
            },
    {
        let sid = chars_of(sender_id);
        let mut i: usize = 0;
        while i < self.nodes.len()
            invariant
                i <= self.nodes@.len(),
                self.nodes@.len() == old(self).nodes@.len(),
                sid@ == sender_id@,
                forall|j: int| 0 <= j < self.nodes@.len() ==> (#[trigger] self.nodes@[j]).wf(),
                forall|j: int| i <= j < self.nodes@.len() ==> self.nodes@[j] == old(self).nodes@[j],
                forall|j: int| 0 <= j < i ==> (#[trigger] self.nodes@[j]).buffer() == if old(self).nodes@[j].id_view() != sender_id@
                    && old(self).nodes@[j].is_on() {
                    push_bounded(old(self).nodes@[j].buffer(), frame@)
                } else {
                    old(self).nodes@[j].buffer()
                },
            decreases self.nodes.len() - i,
        {
            let nid = chars_of(self.nodes[i].id.as_str());
            let same = crate::text::seq_eq(&nid, &sid);
            if !same && self.nodes[i].connected {
                let f = frame.duplicate();
                self.nodes[i].inject_frame(f);
            }
            i = i + 1;
        }
    }
}

} // verus!
