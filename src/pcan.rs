use vstd::prelude::*;
use crate::hal::{BusState, CanFilter, InterfaceInfo};
use crate::message::{CanFrame, id_fits, id_fits_exec};
use crate::virtual_can::CanInterface;
use crate::text::{chars_of, string_of, push_digits, padded, str_eq};

verus! {

/// The USB adapter slots.
#[derive(Debug, Clone, Copy, PartialEq, Eq, Structural)]
pub enum PcanChannel {
    Usb1,
    Usb2,
    Usb3,
    Usb4,
    Usb5,
    Usb6,
    Usb7,
    Usb8,
}

impl PcanChannel {
    /// The vendor's handle of the slot.
    pub open spec fn code_spec(self) -> u16 {
        match self {
            PcanChannel::Usb1 => 0x51,
            PcanChannel::Usb2 => 0x52,
            PcanChannel::Usb3 => 0x53,
            PcanChannel::Usb4 => 0x54,
            PcanChannel::Usb5 => 0x55,
            PcanChannel::Usb6 => 0x56,
            PcanChannel::Usb7 => 0x57,
            PcanChannel::Usb8 => 0x58,
        }
    }

    pub fn code(self) -> (r: u16)
        ensures
            r == self.code_spec(),
    {
        match self {
            PcanChannel::Usb1 => 0x51,
            PcanChannel::Usb2 => 0x52,
            PcanChannel::Usb3 => 0x53,
            PcanChannel::Usb4 => 0x54,
            PcanChannel::Usb5 => 0x55,
            PcanChannel::Usb6 => 0x56,
            PcanChannel::Usb7 => 0x57,
            PcanChannel::Usb8 => 0x58,
        }
    }

    /// The slot named `pcan_usb1` to `pcan_usb8`.
    pub fn from_str(s: &str) -> (r: Option<PcanChannel>)
        ensures
            r == if s@ == "pcan_usb1"@ {
                Some(PcanChannel::Usb1)
            } else if s@ == "pcan_usb2"@ {
                Some(PcanChannel::Usb2)
            } else if s@ == "pcan_usb3"@ {
                Some(PcanChannel::Usb3)
            } else if s@ == "pcan_usb4"@ {
                Some(PcanChannel::Usb4)
            } else if s@ == "pcan_usb5"@ {
                Some(PcanChannel::Usb5)
            } else if s@ == "pcan_usb6"@ {
                Some(PcanChannel::Usb6)
            } else if s@ == "pcan_usb7"@ {
                Some(PcanChannel::Usb7)
            } else if s@ == "pcan_usb8"@ {
                Some(PcanChannel::Usb8)
            } else {
                None
            },
    {
        if str_eq(s, "pcan_usb1") {
            Some(PcanChannel::Usb1)
        } else if str_eq(s, "pcan_usb2") {
            Some(PcanChannel::Usb2)
        } else if str_eq(s, "pcan_usb3") {
            Some(PcanChannel::Usb3)
        } else if str_eq(s, "pcan_usb4") {
            Some(PcanChannel::Usb4)
        } else if str_eq(s, "pcan_usb5") {
            Some(PcanChannel::Usb5)
        } else if str_eq(s, "pcan_usb6") {
            Some(PcanChannel::Usb6)
        } else if str_eq(s, "pcan_usb7") {
            Some(PcanChannel::Usb7)
        } else if str_eq(s, "pcan_usb8") {
            Some(PcanChannel::Usb8)
        } else {
            None
        }
    }
}

/// The vendor's bitrate codes.
#[derive(Debug, Clone, Copy, PartialEq, Eq, Structural)]
pub enum PcanBitrate {
    Baud1M,
    Baud800K,
    Baud500K,
    Baud250K,
    Baud125K,
    Baud100K,
    Baud95K,
    Baud83K,
    Baud50K,
    Baud47K,
    Baud33K,
    Baud20K,
    Baud10K,
    Baud5K,
}

impl PcanBitrate {
    /// The code of a bitrate in bits per second; 500 kbit/s for a rate without one.
    pub fn from_bps(bps: u32) -> (r: PcanBitrate)
        ensures
            r == if bps == 1_000_000 {
                PcanBitrate::Baud1M
            } else if bps == 800_000 {
                PcanBitrate::Baud800K
            } else if bps == 500_000 {
                PcanBitrate::Baud500K
            } else if bps == 250_000 {
                PcanBitrate::Baud250K
            } else if bps == 125_000 {
                PcanBitrate::Baud125K
            } else if bps == 100_000 {
                PcanBitrate::Baud100K
            } else if bps == 50_000 {
                PcanBitrate::Baud50K
            } else if bps == 20_000 {
                PcanBitrate::Baud20K
            } else if bps == 10_000 {
                PcanBitrate::Baud10K
            } else if bps == 5_000 {
                PcanBitrate::Baud5K
            } else {
                PcanBitrate::Baud500K
            },
    {
        if bps == 1_000_000 {
            PcanBitrate::Baud1M
        } else if bps == 800_000 {
            PcanBitrate::Baud800K
        } else if bps == 500_000 {
            PcanBitrate::Baud500K
        } else if bps == 250_000 {
            PcanBitrate::Baud250K
        } else if bps == 125_000 {
            PcanBitrate::Baud125K
        } else if bps == 100_000 {
            PcanBitrate::Baud100K
        } else if bps == 50_000 {
            PcanBitrate::Baud50K
        } else if bps == 20_000 {
            PcanBitrate::Baud20K
        } else if bps == 10_000 {
            PcanBitrate::Baud10K
        } else if bps == 5_000 {
            PcanBitrate::Baud5K
        } else {
            PcanBitrate::Baud500K
        }
    }

    /// The vendor's code.
    pub fn code(self) -> (r: u16)
        ensures
            r == match self {
                PcanBitrate::Baud1M => 0x0014u16,
                PcanBitrate::Baud800K => 0x0016u16,
                PcanBitrate::Baud500K => 0x001Cu16,
                PcanBitrate::Baud250K => 0x011Cu16,
                PcanBitrate::Baud125K => 0x031Cu16,
                PcanBitrate::Baud100K => 0x432Fu16,
                PcanBitrate::Baud95K => 0xC34Eu16,
                PcanBitrate::Baud83K => 0x852Bu16,
                PcanBitrate::Baud50K => 0x472Fu16,
                PcanBitrate::Baud47K => 0x1414u16,
                PcanBitrate::Baud33K => 0x8B2Fu16,
                PcanBitrate::Baud20K => 0x532Fu16,
                PcanBitrate::Baud10K => 0x672Fu16,
                PcanBitrate::Baud5K => 0x7F7Fu16,
            },
    {
        match self {
            PcanBitrate::Baud1M => 0x0014,
            PcanBitrate::Baud800K => 0x0016,
            PcanBitrate::Baud500K => 0x001C,
            PcanBitrate::Baud250K => 0x011C,
            PcanBitrate::Baud125K => 0x031C,
            PcanBitrate::Baud100K => 0x432F,
            PcanBitrate::Baud95K => 0xC34E,
            PcanBitrate::Baud83K => 0x852B,
            PcanBitrate::Baud50K => 0x472F,
            PcanBitrate::Baud47K => 0x1414,
            PcanBitrate::Baud33K => 0x8B2F,
            PcanBitrate::Baud20K => 0x532F,
            PcanBitrate::Baud10K => 0x672F,
            PcanBitrate::Baud5K => 0x7F7F,
        }
    }
}

/// The vendor library's status codes.
#[derive(Debug, Clone, Copy, PartialEq, Eq, Structural)]
pub enum PcanError {
    Success,
    XmtFull,
    Overrun,
    BusLight,
    BusHeavy,
    BusPassive,
    BusOff,
    AnyBusErr,
    QrcvEmpty,
    QOverrun,
    QxmtFull,
    RegTest,
    NoDriver,
    HwInUse,
    NetInUse,
    IllHw,
    IllNet,
    IllClient,
    Resource,
    IllParamType,
    IllParamVal,
    Unknown,
    IllData,
    IllMode,
    Caution,
    Initialize,
    IllOperation,
}

impl PcanError {
    pub open spec fn code_spec(self) -> u32 {
        match self {
            PcanError::Success => 0x00000,
            PcanError::XmtFull => 0x00001,
            PcanError::Overrun => 0x00002,
            PcanError::BusLight => 0x00004,
            PcanError::BusHeavy => 0x00008,
            PcanError::BusPassive => 0x40000,
            PcanError::BusOff => 0x00010,
            PcanError::AnyBusErr => 0x00020,
            PcanError::QrcvEmpty => 0x00021,
            PcanError::QOverrun => 0x00040,
            PcanError::QxmtFull => 0x00080,
            PcanError::RegTest => 0x00100,
            PcanError::NoDriver => 0x00200,
            PcanError::HwInUse => 0x00400,
            PcanError::NetInUse => 0x00800,
            PcanError::IllHw => 0x01400,
            PcanError::IllNet => 0x01800,
            PcanError::IllClient => 0x01C00,
            PcanError::Resource => 0x02000,
            PcanError::IllParamType => 0x04000,
            PcanError::IllParamVal => 0x08000,
            PcanError::Unknown => 0x10000,
            PcanError::IllData => 0x20000,
            PcanError::IllMode => 0x80000,
            PcanError::Caution => 0x2000000,
            PcanError::Initialize => 0x4000000,
            PcanError::IllOperation => 0x8000000,
        }
    }

    /// The vendor's code.
    pub fn code(self) -> (r: u32)
        ensures
            r == self.code_spec(),
    {
        match self {
            PcanError::Success => 0x00000,
            PcanError::XmtFull => 0x00001,
            PcanError::Overrun => 0x00002,
            PcanError::BusLight => 0x00004,
            PcanError::BusHeavy => 0x00008,
            PcanError::BusPassive => 0x40000,
            PcanError::BusOff => 0x00010,
            PcanError::AnyBusErr => 0x00020,
            PcanError::QrcvEmpty => 0x00021,
            PcanError::QOverrun => 0x00040,
            PcanError::QxmtFull => 0x00080,
            PcanError::RegTest => 0x00100,
            PcanError::NoDriver => 0x00200,
            PcanError::HwInUse => 0x00400,
            PcanError::NetInUse => 0x00800,
            PcanError::IllHw => 0x01400,
            PcanError::IllNet => 0x01800,
            PcanError::IllClient => 0x01C00,
            PcanError::Resource => 0x02000,
            PcanError::IllParamType => 0x04000,
            PcanError::IllParamVal => 0x08000,
            PcanError::Unknown => 0x10000,
            PcanError::IllData => 0x20000,
            PcanError::IllMode => 0x80000,
            PcanError::Caution => 0x2000000,
            PcanError::Initialize => 0x4000000,
            PcanError::IllOperation => 0x8000000,
        }
    }

    /// The message of a status code; codes without one read `Unknown error: 0x<code>`.
    pub fn to_string(self) -> (r: String)
        ensures
            r@ == match self {
                PcanError::Success => "No error"@,
                PcanError::XmtFull => "Transmit buffer full"@,
                PcanError::Overrun => "CAN controller overrun"@,
                PcanError::BusLight => "Bus error (light)"@,
                PcanError::BusHeavy => "Bus error (heavy)"@,
                PcanError::BusPassive => "Bus passive"@,
                PcanError::BusOff => "Bus off"@,
                PcanError::QrcvEmpty => "Receive queue empty"@,
                PcanError::NoDriver => "PCAN driver not found"@,
                PcanError::HwInUse => "Hardware already in use"@,
                PcanError::IllHw => "Invalid hardware handle"@,
                PcanError::Initialize => "Channel not initialized"@,
                _ => "Unknown error: 0x"@ + padded(self.code_spec() as nat, 16, 0),
            },
    {
        match self {
            PcanError::Success => String::from_str("No error"),
            PcanError::XmtFull => String::from_str("Transmit buffer full"),
            PcanError::Overrun => String::from_str("CAN controller overrun"),
            PcanError::BusLight => String::from_str("Bus error (light)"),
            PcanError::BusHeavy => String::from_str("Bus error (heavy)"),
            PcanError::BusPassive => String::from_str("Bus passive"),
            PcanError::BusOff => String::from_str("Bus off"),
            PcanError::QrcvEmpty => String::from_str("Receive queue empty"),
            PcanError::NoDriver => String::from_str("PCAN driver not found"),
            PcanError::HwInUse => String::from_str("Hardware already in use"),
            PcanError::IllHw => String::from_str("Invalid hardware handle"),
            PcanError::Initialize => String::from_str("Channel not initialized"),
            _ => {
                let mut out = chars_of("Unknown error: 0x");
                push_digits(&mut out, self.code() as u64, 16, 0);
                string_of(out.as_slice())
            },
        }
    }
}

/// The vendor's message record.
#[derive(Debug, Clone, Copy)]
pub struct TPCANMsg {
    pub id: u32,
    pub msgtype: u8,
    pub len: u8,
    pub data: [u8; 8],
}

/// The vendor's receive timestamp.
#[derive(Debug, Clone, Copy)]
pub struct TPCANTimestamp {
    pub millis: u32,
    pub millis_overflow: u16,
    pub micros: u16,
}

pub const PCAN_MESSAGE_STANDARD: u8 = 0x00;
pub const PCAN_MESSAGE_RTR: u8 = 0x01;
pub const PCAN_MESSAGE_EXTENDED: u8 = 0x02;

/// The vendor record of a frame: the kind flags, the dlc, and the first eight bytes of the
/// payload, zeros after it.
pub fn to_pcan_msg(frame: &CanFrame) -> (r: TPCANMsg)
    ensures
        r.id == frame.id,
        r.len == frame.dlc,
        r.msgtype == (if frame.is_extended { PCAN_MESSAGE_EXTENDED } else { PCAN_MESSAGE_STANDARD }) | (if frame.is_remote {
            PCAN_MESSAGE_RTR
        } else {
            0u8
        }),
        forall|i: int| 0 <= i < 8 ==> r.data@[i] == if i < frame.data@.len() { frame.data@[i] } else { 0u8 },
{
    let mut data: [u8; 8] = [0u8; 8];
    let mut i: usize = 0;
    while i < 8 && i < frame.data.len()
        invariant
            i <= 8,
            i <= frame.data@.len(),
            forall|j: int| 0 <= j < i ==> data@[j] == frame.data@[j],
            forall|j: int| i <= j < 8 ==> data@[j] == 0u8,
        decreases 8 - i,
    {
        data.set(i, frame.data[i]);
        i = i + 1;
    }
    let kind: u8 = if frame.is_extended { PCAN_MESSAGE_EXTENDED } else { PCAN_MESSAGE_STANDARD };
    let rtr: u8 = if frame.is_remote { PCAN_MESSAGE_RTR } else { 0 };
    TPCANMsg { id: frame.id, msgtype: kind | rtr, len: frame.dlc, data }
}

/// Whether the vendor library can be loaded. This build drives native CAN devices through
/// the kernel, where adapters appear as native devices, so the vendor library is never
/// used.
pub fn is_pcan_available() -> (r: bool)
    ensures
        !r,
{
    false
}

/// A USB adapter interface. The vendor library is not linked: connecting records the
/// state, sending checks it, and no frame is ever received.
pub struct PcanInterface {
    id: String,
    name: String,
    channel: Option<PcanChannel>,
    connected: bool,
    bitrate: u32,
}

impl PcanInterface {
    pub closed spec fn connected(&self) -> bool {
        self.connected
    }

    pub closed spec fn channel(&self) -> Option<PcanChannel> {
        self.channel
    }

    pub closed spec fn id_view(&self) -> Seq<char> {
        self.id@
    }

    /// A disconnected interface for the slot named `id`, if it names one.
    pub fn new(id: &str) -> (r: PcanInterface)
        ensures
            !r.connected(),
            r.id_view() == id@,
            r.channel() == PcanChannel::from_str_spec(id@),
    {
        let channel = PcanChannel::from_str(id);
        let mut name = chars_of("PCAN: ");
        let idc = chars_of(id);
        let mut k: usize = 0;
        let ghost pre = name@;
        while k < idc.len()
            invariant
                k <= idc@.len(),
                name@ == pre + idc@.subrange(0, k as int),
            decreases idc.len() - k,
        {
            name.push(idc[k]);
            k = k + 1;
            assert(name@ =~= pre + idc@.subrange(0, k as int));
        }
        PcanInterface {
            id: String::from_str(id),
            name: string_of(name.as_slice()),
            channel,
            connected: false,
            bitrate: 0,
        }
    }

    pub fn info(&self) -> (r: InterfaceInfo)
        ensures
            r.id@ == self.id_view(),
            r.interface_type@ == "pcan"@,
            r.available == (self.channel() is Some),
    {
        InterfaceInfo {
            id: crate::text::copy_string(&self.id),
            name: crate::text::copy_string(&self.name),
            interface_type: String::from_str("pcan"),
            available: self.channel.is_some(),
        }
    }

    pub fn is_connected(&self) -> (r: bool)
        ensures
            r == self.connected(),
    {
        self.connected
    }

    /// Connects at `bitrate`: refused when already connected or when the id names no slot.
    pub fn connect(&mut self, bitrate: u32) -> (r: Result<(), String>)
        ensures
            r is Ok <==> !old(self).connected() && old(self).channel() is Some,
            final(self).connected() == (old(self).connected() || r is Ok),
            final(self).channel() == old(self).channel(),
            final(self).id_view() == old(self).id_view(),
    {
        if self.connected {
            return Err(String::from_str("Already connected"));
        }
        if self.channel.is_none() {
            return Err(String::from_str("Invalid PCAN channel"));
        }
        self.bitrate = bitrate;
        self.connected = true;
        Ok(())
    }

    /// Disconnects: refused when not connected.
    pub fn disconnect(&mut self) -> (r: Result<(), String>)
        ensures
            r is Ok <==> old(self).connected(),
            !final(self).connected(),
            final(self).channel() == old(self).channel(),
            final(self).id_view() == old(self).id_view(),
    {
        if !self.connected {
            return Err(String::from_str("Not connected"));
        }
        self.connected = false;
        Ok(())
    }

    /// Sends a frame: refused when not connected, without a slot, or when the id does not
    /// fit the frame kind.
    pub fn send(&mut self, frame: &CanFrame) -> (r: Result<(), String>)
        ensures
            r is Ok <==> old(self).connected() && old(self).channel() is Some && id_fits(frame@),
            *final(self) == *old(self),
    {
        if !self.connected {
            return Err(String::from_str("Not connected"));
        }
        if self.channel.is_none() {
            return Err(String::from_str("Invalid PCAN channel"));
        }
        if !id_fits_exec(frame) {
            return Err(String::from_str("Identifier does not fit the frame kind"));
        }
        let _msg = to_pcan_msg(frame);
        Ok(())
    }

    /// Receives nothing: refused when not connected or without a slot.
    pub fn receive(&mut self) -> (r: Result<Option<CanFrame>, String>)
        ensures
            r is Ok <==> old(self).connected() && old(self).channel() is Some,
            r matches Ok(x) ==> x is None,
            *final(self) == *old(self),
    {
        if !self.connected {
            return Err(String::from_str("Not connected"));
        }
        if self.channel.is_none() {
            return Err(String::from_str("Invalid PCAN channel"));
        }
        Ok(None)
    }

    /// Refused when not connected; hardware filters are not applied.
    pub fn set_filter(&mut self, filter: Option<CanFilter>) -> (r: Result<(), String>)
        ensures
            r is Ok <==> old(self).connected(),
            *final(self) == *old(self),
    {
        if !self.connected {
            return Err(String::from_str("Not connected"));
        }
        Ok(())
    }

    pub fn get_bus_state(&self) -> (r: BusState)
        ensures
            r == if self.connected() { BusState::Active } else { BusState::Unknown },
    {
        if self.connected { BusState::Active } else { BusState::Unknown }
    }
}

impl PcanChannel {
    pub open spec fn from_str_spec(s: Seq<char>) -> Option<PcanChannel> {
        if s == "pcan_usb1"@ {
            Some(PcanChannel::Usb1)
        } else if s == "pcan_usb2"@ {
            Some(PcanChannel::Usb2)
        } else if s == "pcan_usb3"@ {
            Some(PcanChannel::Usb3)
        } else if s == "pcan_usb4"@ {
            Some(PcanChannel::Usb4)
        } else if s == "pcan_usb5"@ {
            Some(PcanChannel::Usb5)
        } else if s == "pcan_usb6"@ {
            Some(PcanChannel::Usb6)
        } else if s == "pcan_usb7"@ {
            Some(PcanChannel::Usb7)
        } else if s == "pcan_usb8"@ {
            Some(PcanChannel::Usb8)
        } else {
            None
        }
    }
}

impl CanInterface for PcanInterface {
    closed spec fn connected(&self) -> bool {
        self.connected
    }

    /// The vendor library is not linked, so nothing ever waits.
    open spec fn pending(&self) -> Seq<crate::message::FrameView> {
        Seq::empty()
    }

    open spec fn can_connect(&self) -> bool {
        self.channel() is Some
    }

    open spec fn pending_after_send(&self, f: crate::message::FrameView, now: u64) -> Seq<crate::message::FrameView> {
        Seq::empty()
    }

    fn info(&self) -> (r: InterfaceInfo) {
        PcanInterface::info(self)
    }

    fn is_connected(&self) -> (r: bool) {
        self.connected
    }

    fn connect(&mut self, bitrate: u32, now_us: u64) -> (r: Result<(), String>) {
        PcanInterface::connect(self, bitrate)
    }

    fn disconnect(&mut self) -> (r: Result<(), String>) {
        PcanInterface::disconnect(self)
    }

    fn send(&mut self, frame: &CanFrame, now_us: u64) -> (r: Result<(), String>) {
        PcanInterface::send(self, frame)
    }

    fn receive(&mut self, now_us: u64) -> (r: Result<Option<CanFrame>, String>) {
        PcanInterface::receive(self)
    }

    fn set_filter(&mut self, filter: Option<CanFilter>) -> (r: Result<(), String>) {
        PcanInterface::set_filter(self, filter)
    }

    fn get_bus_state(&self) -> (r: BusState) {
        PcanInterface::get_bus_state(self)
    }
}

} // verus!
