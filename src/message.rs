use vstd::prelude::*;
use crate::text::{copy_string, push_digits, padded, string_of};

verus! {

/// Largest payload of a classic frame.
pub const CLASSIC_MAX: usize = 8;
/// Largest payload of an FD frame.
pub const FD_MAX: usize = 64;
/// Largest standard identifier.
pub const STANDARD_ID_MAX: u32 = 0x7FF;
/// Largest extended identifier.
pub const EXTENDED_ID_MAX: u32 = 0x1FFF_FFFF;

pub open spec fn rx_text() -> Seq<char> {
    seq!['r', 'x']
}

pub open spec fn tx_text() -> Seq<char> {
    seq!['t', 'x']
}

/// The string "rx".
pub fn rx_string() -> (r: String)
    ensures
        r@ == rx_text(),
{
    proof {
        reveal_strlit("rx");
    }
    String::from_str("rx")
}

/// The string "tx".
pub fn tx_string() -> (r: String)
    ensures
        r@ == tx_text(),
{
    proof {
        reveal_strlit("tx");
    }
    String::from_str("tx")
}

/// A CAN frame. The timestamp is held in microseconds.
#[derive(Debug, Clone)]
pub struct CanFrame {
    pub id: u32,
    pub is_extended: bool,
    pub is_remote: bool,
    pub dlc: u8,
    pub data: Vec<u8>,
    pub timestamp_us: i64,
    pub channel: String,
    pub direction: String,
}

/// The value a frame stands for.
pub struct FrameView {
    pub id: u32,
    pub is_extended: bool,
    pub is_remote: bool,
    pub dlc: u8,
    pub data: Seq<u8>,
    pub timestamp_us: i64,
    pub channel: Seq<char>,
    pub direction: Seq<char>,
}

impl View for CanFrame {
    type V = FrameView;

    open spec fn view(&self) -> FrameView {
        FrameView {
            id: self.id,
            is_extended: self.is_extended,
            is_remote: self.is_remote,
            dlc: self.dlc,
            data: self.data@,
            timestamp_us: self.timestamp_us,
            channel: self.channel@,
            direction: self.direction@,
        }
    }
}

/// The id fits the frame kind: 29 bits when extended, 11 bits otherwise.
pub open spec fn id_fits(f: FrameView) -> bool {
    if f.is_extended { f.id <= EXTENDED_ID_MAX } else { f.id <= STANDARD_ID_MAX }
}

/// Whether the frame's id fits its kind.
pub fn id_fits_exec(f: &CanFrame) -> (r: bool)
    ensures
        r == id_fits(f@),
{
    if f.is_extended { f.id <= EXTENDED_ID_MAX } else { f.id <= STANDARD_ID_MAX }
}

/// Two frames agree on what goes over the wire.
pub open spec fn same_wire(a: FrameView, b: FrameView) -> bool {
    a.id == b.id && a.is_extended == b.is_extended && a.is_remote == b.is_remote && a.dlc == b.dlc
        && a.data == b.data
}

pub open spec fn min_nat(a: nat, b: nat) -> nat {
    if a < b { a } else { b }
}

impl FrameView {
    /// The hexadecimal form of the id: eight digits when extended, else three.
    pub open spec fn id_hex(self) -> Seq<char> {
        padded(self.id as nat, 16, if self.is_extended { 8 } else { 3 })
    }
}

/// Two-digit upper-case hexadecimal bytes separated by single spaces.
pub open spec fn hex_bytes(d: Seq<u8>) -> Seq<char>
    decreases d.len(),
{
    if d.len() == 0 {
        Seq::empty()
    } else if d.len() == 1 {
        padded(d[0] as nat, 16, 2)
    } else {
        hex_bytes(d.drop_last()) + seq![' '] + padded(d.last() as nat, 16, 2)
    }
}

/// Appends `hex_bytes(d)` to `out`.
pub fn push_hex_bytes(out: &mut Vec<char>, d: &Vec<u8>)
    ensures
        final(out)@ == old(out)@ + hex_bytes(d@),
{
    let ghost start = out@;
    let mut i: usize = 0;
    while i < d.len()
        invariant
            i <= d.len(),
            out@ == start + hex_bytes(d@.subrange(0, i as int)),
        decreases d.len() - i,
    {
        let ghost pre = out@;
        if i > 0 {
            out.push(' ');
        }
        push_digits(out, d[i] as u64, 16, 2);
        let ghost sub = d@.subrange(0, i + 1);
        assert(sub.drop_last() =~= d@.subrange(0, i as int));
        if i > 0 {
            assert(out@ =~= start + hex_bytes(sub));
        } else {
            assert(out@ =~= start + hex_bytes(sub));
        }
        i = i + 1;
    }
    assert(d@.subrange(0, d.len() as int) =~= d@);
}

/// A copy of the first `n` bytes of `data`.
pub fn copy_prefix(data: &[u8], n: usize) -> (r: Vec<u8>)
    requires
        n <= data@.len(),
    ensures
        r@ == data@.subrange(0, n as int),
{
    let mut r: Vec<u8> = Vec::new();
    let mut i: usize = 0;
    while i < n
        invariant
            i <= n <= data@.len(),
            r@ == data@.subrange(0, i as int),
        decreases n - i,
    {
        r.push(data[i]);
        i = i + 1;
        assert(r@ =~= data@.subrange(0, i as int));
    }
    r
}

impl Default for CanFrame {
    fn default() -> (r: CanFrame)
        ensures
            r.id == 0 && !r.is_extended && !r.is_remote && r.dlc == 0,
            r.data@.len() == 0 && r.timestamp_us == 0 && r.channel@.len() == 0,
            r.direction@ == rx_text(),
    {
        CanFrame {
            id: 0,
            is_extended: false,
            is_remote: false,
            dlc: 0,
            data: Vec::new(),
            timestamp_us: 0,
            channel: String::new(),
            direction: rx_string(),
        }
    }
}

impl CanFrame {
    /// A field-by-field copy.
    pub fn duplicate(&self) -> (r: CanFrame)
        ensures
            r@ == self@,
    {
        let data = copy_prefix(self.data.as_slice(), self.data.len());
        assert(self.data@.subrange(0, self.data@.len() as int) =~= self.data@);
        CanFrame {
            id: self.id,
            is_extended: self.is_extended,
            is_remote: self.is_remote,
            dlc: self.dlc,
            data,
            timestamp_us: self.timestamp_us,
            channel: copy_string(&self.channel),
            direction: copy_string(&self.direction),
        }
    }

    /// A classic data frame to send: at most eight bytes of `data` are kept, and the frame is
    /// extended when the id does not fit eleven bits.
    pub fn new(id: u32, data: &[u8]) -> (r: CanFrame)
        ensures
            r.id == id,
            r.is_extended == (id > STANDARD_ID_MAX),
            !r.is_remote,
            r.dlc as nat == min_nat(data@.len(), 8),
            r.data@ == data@.subrange(0, r.dlc as int),
            r.timestamp_us == 0,
            r.channel@.len() == 0,
            r.direction@ == tx_text(),
    {
        let n: usize = if data.len() < CLASSIC_MAX { data.len() } else { CLASSIC_MAX };
        CanFrame {
            id,
            is_extended: id > STANDARD_ID_MAX,
            is_remote: false,
            dlc: n as u8,
            data: copy_prefix(data, n),
            timestamp_us: 0,
            channel: String::new(),
            direction: tx_string(),
        }
    }

    /// A classic data frame with an extended id.
    pub fn new_extended(id: u32, data: &[u8]) -> (r: CanFrame)
        ensures
            r.id == id,
            r.is_extended,
            !r.is_remote,
            r.dlc as nat == min_nat(data@.len(), 8),
            r.data@ == data@.subrange(0, r.dlc as int),
            r.timestamp_us == 0,
            r.channel@.len() == 0,
            r.direction@ == tx_text(),
    {
        let n: usize = if data.len() < CLASSIC_MAX { data.len() } else { CLASSIC_MAX };
        CanFrame {
            id,
            is_extended: true,
            is_remote: false,
            dlc: n as u8,
            data: copy_prefix(data, n),
            timestamp_us: 0,
            channel: String::new(),
            direction: tx_string(),
        }
    }

    /// A remote transmission request: no payload, dlc capped at eight.
    pub fn new_rtr(id: u32, dlc: u8) -> (r: CanFrame)
        ensures
            r.id == id,
            r.is_extended == (id > STANDARD_ID_MAX),
            r.is_remote,
            r.dlc == if dlc < 8 { dlc } else { 8 },
            r.data@.len() == 0,
            r.timestamp_us == 0,
            r.channel@.len() == 0,
            r.direction@ == tx_text(),
    {
        CanFrame {
            id,
            is_extended: id > STANDARD_ID_MAX,
            is_remote: true,
            dlc: if dlc < 8 { dlc } else { 8 },
            data: Vec::new(),
            timestamp_us: 0,
            channel: String::new(),
            direction: tx_string(),
        }
    }

    /// The frame marked as received on `channel` at `timestamp_us`.
    pub fn as_received(self, channel: &str, timestamp_us: i64) -> (r: CanFrame)
        ensures
            same_wire(r@, self@),
            r.direction@ == rx_text(),
            r.channel@ == channel@,
            r.timestamp_us == timestamp_us,
    {
        let mut f = self;
        f.direction = rx_string();
        f.channel = String::from_str(channel);
        f.timestamp_us = timestamp_us;
        f
    }

    /// The frame marked as transmitted on `channel` at `timestamp_us`.
    pub fn as_transmitted(self, channel: &str, timestamp_us: i64) -> (r: CanFrame)
        ensures
            same_wire(r@, self@),
            r.direction@ == tx_text(),
            r.channel@ == channel@,
            r.timestamp_us == timestamp_us,
    {
        let mut f = self;
        f.direction = tx_string();
        f.channel = String::from_str(channel);
        f.timestamp_us = timestamp_us;
        f
    }

    /// The id in upper-case hexadecimal, eight digits when extended, else three.
    pub fn id_hex(&self) -> (r: String)
        ensures
            r@ == self@.id_hex(),
    {
        let mut out: Vec<char> = Vec::new();
        push_digits(&mut out, self.id as u64, 16, if self.is_extended { 8 } else { 3 });
        assert(out@ =~= self@.id_hex());
        string_of(out.as_slice())
    }

    /// The payload as space-separated two-digit upper-case hexadecimal bytes.
    pub fn data_hex(&self) -> (r: String)
        ensures
            r@ == hex_bytes(self.data@),
    {
        let mut out: Vec<char> = Vec::new();
        push_hex_bytes(&mut out, &self.data);
        assert(out@ =~= hex_bytes(self.data@));
        string_of(out.as_slice())
    }

    /// The wire fields of the frame, with the channel when it has one.
    pub fn to_payload(&self) -> (r: FramePayload)
        ensures
            r.id == self.id && r.is_extended == self.is_extended && r.is_remote == self.is_remote,
            r.dlc == self.dlc && r.data@ == self.data@,
            match r.channel {
                None => self.channel@.len() == 0,
                Some(c) => self.channel@.len() > 0 && c@ == self.channel@,
            },
    {
        FramePayload::from_frame(self)
    }

    /// A frame to send built from a payload: no timestamp, direction "tx", the channel of
    /// the payload or none.
    pub fn from_payload(payload: FramePayload) -> (r: CanFrame)
        ensures
            r.id == payload.id && r.is_extended == payload.is_extended,
            r.is_remote == payload.is_remote && r.dlc == payload.dlc,
            r.data@ == payload.data@,
            r.timestamp_us == 0,
            r.direction@ == tx_text(),
            match payload.channel {
                None => r.channel@.len() == 0,
                Some(c) => r.channel@ == c@,
            },
    {
        let channel = match payload.channel {
            None => String::new(),
            Some(c) => c,
        };
        CanFrame {
            id: payload.id,
            is_extended: payload.is_extended,
            is_remote: payload.is_remote,
            dlc: payload.dlc,
            data: payload.data,
            timestamp_us: 0,
            channel,
            direction: tx_string(),
        }
    }
}

/// An FD frame: a base frame with up to 64 bytes and the FD flags.
#[derive(Debug, Clone)]
pub struct CanFdFrame {
    pub base: CanFrame,
    pub brs: bool,
    pub esi: bool,
}

impl CanFdFrame {
    /// An FD data frame to send: at most 64 bytes of `data` are kept.
    pub fn new(id: u32, data: &[u8], brs: bool) -> (r: CanFdFrame)
        ensures
            r.base.id == id,
            r.base.is_extended == (id > STANDARD_ID_MAX),
            !r.base.is_remote,
            r.base.dlc as nat == min_nat(data@.len(), 64),
            r.base.data@ == data@.subrange(0, r.base.dlc as int),
            r.base.timestamp_us == 0,
            r.base.channel@.len() == 0,
            r.base.direction@ == tx_text(),
            r.brs == brs,
            !r.esi,
    {
        let n: usize = if data.len() < FD_MAX { data.len() } else { FD_MAX };
        CanFdFrame {
            base: CanFrame {
                id,
                is_extended: id > STANDARD_ID_MAX,
                is_remote: false,
                dlc: n as u8,
                data: copy_prefix(data, n),
                timestamp_us: 0,
                channel: String::new(),
                direction: tx_string(),
            },
            brs,
            esi: false,
        }
    }
}

/// The form of a frame handed in by the user interface: no timestamp nor direction, and an
/// optional channel.
#[derive(Debug, Clone)]
pub struct FramePayload {
    pub id: u32,
    pub is_extended: bool,
    pub is_remote: bool,
    pub dlc: u8,
    pub data: Vec<u8>,
    pub channel: Option<String>,
}

impl FramePayload {
    /// The wire fields of `frame`, with its channel when it has one.
    pub fn from_frame(frame: &CanFrame) -> (r: FramePayload)
        ensures
            r.id == frame.id && r.is_extended == frame.is_extended && r.is_remote == frame.is_remote,
            r.dlc == frame.dlc && r.data@ == frame.data@,
            match r.channel {
                None => frame.channel@.len() == 0,
                Some(c) => frame.channel@.len() > 0 && c@ == frame.channel@,
            },
    {
        let data = copy_prefix(frame.data.as_slice(), frame.data.len());
        assert(frame.data@.subrange(0, frame.data@.len() as int) =~= frame.data@);
        let channel = if frame.channel.as_str().is_empty() {
            None
        } else {
            Some(copy_string(&frame.channel))
        };
        FramePayload {
            id: frame.id,
            is_extended: frame.is_extended,
            is_remote: frame.is_remote,
            dlc: frame.dlc,
            data,
            channel,
        }
    }
}

} // verus!
