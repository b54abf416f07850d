use vstd::prelude::*;
use crate::message::FrameView;
use crate::text::{chars_of, copy_string, string_of, push_digits, digits, padded};

verus! {

/// An interface that a channel can use.
#[derive(Debug, Clone)]
pub struct InterfaceInfo {
    pub id: String,
    pub name: String,
    pub interface_type: String,
    pub available: bool,
}

/// What an interface description stands for.
pub struct InfoView {
    pub id: Seq<char>,
    pub name: Seq<char>,
    pub interface_type: Seq<char>,
    pub available: bool,
}

impl View for InterfaceInfo {
    type V = InfoView;

    open spec fn view(&self) -> InfoView {
        InfoView { id: self.id@, name: self.name@, interface_type: self.interface_type@, available: self.available }
    }
}

/// An identifier filter: the bits set in `mask` must agree with `id`.
#[derive(Debug, Clone, Copy, PartialEq, Eq, Structural)]
pub struct CanFilter {
    pub id: u32,
    pub mask: u32,
    pub extended: bool,
}

/// Whether a filter lets a frame through: same id kind, and the masked ids agree.
pub open spec fn filter_accepts(flt: CanFilter, f: FrameView) -> bool {
    flt.extended == f.is_extended && (f.id & flt.mask) == (flt.id & flt.mask)
}

impl CanFilter {
    /// A filter for exactly one id.
    pub fn single(id: u32, extended: bool) -> (r: CanFilter)
        ensures
            r == (CanFilter { id, mask: if extended { 0x1FFF_FFFFu32 } else { 0x7FFu32 }, extended }),
    {
        CanFilter { id, mask: if extended { 0x1FFF_FFFF } else { 0x7FF }, extended }
    }

    /// A filter that lets through every id of `start..=end` (of the given kind): the mask
    /// keeps the high id bits on which the two bounds agree and frees all bits below.
    pub fn range(start: u32, end: u32, extended: bool) -> (r: CanFilter)
        ensures
            r.id == start,
            r.extended == extended,
            r.mask & !(if extended { 0x1FFF_FFFFu32 } else { 0x7FFu32 }) == 0,
            start <= end ==> forall|x: u32| start <= x <= end ==> (#[trigger] (x & r.mask)) == (r.id & r.mask),
    {
        let base: u32 = if extended { 0x1FFF_FFFF } else { 0x7FF };
        assert(base == if extended { 0x1FFF_FFFFu32 } else { 0x7FFu32 });
        let mut j: u32 = 0;
        while j < 32
            invariant
                j <= 32,
                base == if extended { 0x1FFF_FFFFu32 } else { 0x7FFu32 },
            decreases 32 - j,
        {
            assert((1u32 << j) >= 1) by (bit_vector)
                requires
                    j < 32;
            let low: u32 = (1u32 << j) - 1;
            let high: u32 = !low;
            if (start & high) == (end & high) {
                let m: u32 = base & high;
                proof {
                    assert forall|x: u32| start <= end && start <= x <= end implies (#[trigger] (x & m)) == (start & m) by {
                        assert((x & m) == (start & m)) by (bit_vector)
                            requires
                                j < 32,
                                low == (1u32 << j) - 1,
                                high == !low,
                                m == base & high,
                                start <= x,
                                x <= end,
                                (start & high) == (end & high);
                    }
                    assert(m & !base == 0) by (bit_vector)
                        requires
                            m == base & high;
                }
                return CanFilter { id: start, mask: m, extended };
            }
            j = j + 1;
        }
        proof {
            assert forall|x: u32| (#[trigger] (x & 0u32)) == (start & 0u32) by {
                assert((x & 0u32) == (start & 0u32)) by (bit_vector);
            }
            assert(0u32 & !base == 0) by (bit_vector);
        }
        CanFilter { id: start, mask: 0, extended }
    }

    /// A filter that lets every standard id through.
    pub fn all() -> (r: CanFilter)
        ensures
            r == (CanFilter { id: 0, mask: 0, extended: false }),
    {
        CanFilter { id: 0, mask: 0, extended: false }
    }

    /// Whether the filter lets `frame` through.
    pub fn accepts(&self, frame: &crate::message::CanFrame) -> (r: bool)
        ensures
            r == filter_accepts(*self, frame@),
    {
        self.extended == frame.is_extended && (frame.id & self.mask) == (self.id & self.mask)
    }
}

/// The error state of a bus.
#[derive(Debug, Clone, Copy, PartialEq, Eq, Structural)]
pub enum BusState {
    Active,
    Warning,
    Passive,
    BusOff,
    Unknown,
}

impl Default for BusState {
    fn default() -> (r: BusState)
        ensures
            r == BusState::Unknown,
    {
        BusState::Unknown
    }
}

/// A network device of the host, with its hardware type.
#[derive(Debug, Clone)]
pub struct NetDevice {
    pub name: String,
    pub arphrd_type: u32,
}

/// The hardware type of CAN network devices.
pub const ARPHRD_CAN: u32 = 280;

pub open spec fn vcan_prefix() -> Seq<char> {
    seq!['v', 'c', 'a', 'n']
}

pub open spec fn has_prefix(s: Seq<char>, p: Seq<char>) -> bool {
    p.len() <= s.len() && s.subrange(0, p.len() as int) == p
}

/// The description of a native CAN device.
pub open spec fn socketcan_info(name: Seq<char>) -> InfoView {
    InfoView { id: name, name: "SocketCAN: "@ + name, interface_type: "socketcan"@, available: true }
}

/// The native CAN devices among `devs`, in order: CAN hardware type, not virtual.
pub open spec fn socketcan_infos(devs: Seq<NetDevice>) -> Seq<InfoView>
    decreases devs.len(),
{
    if devs.len() == 0 {
        Seq::empty()
    } else {
        let rest = socketcan_infos(devs.drop_last());
        let d = devs.last();
        if d.arphrd_type == ARPHRD_CAN && !has_prefix(d.name@, vcan_prefix()) {
            rest.push(socketcan_info(d.name@))
        } else {
            rest
        }
    }
}

pub open spec fn virtual_info(n: nat) -> InfoView {
    InfoView {
        id: vcan_prefix() + digits(n, 10),
        name: "Virtual CAN "@ + digits(n, 10),
        interface_type: "virtual"@,
        available: true,
    }
}

pub open spec fn infos_view(v: Seq<InterfaceInfo>) -> Seq<InfoView> {
    v.map_values(|i: InterfaceInfo| i@)
}

fn make_info(id: Vec<char>, name: Vec<char>, ty: &str, available: bool) -> (r: InterfaceInfo)
    ensures
        r@ == (InfoView { id: id@, name: name@, interface_type: ty@, available }),
{
    InterfaceInfo {
        id: string_of(id.as_slice()),
        name: string_of(name.as_slice()),
        interface_type: String::from_str(ty),
        available,
    }
}

fn virtual_info_exec(n: u64) -> (r: InterfaceInfo)
    ensures
        r@ == virtual_info(n as nat),
{
    let mut id = chars_of("vcan");
    proof {
        reveal_strlit("vcan");
        assert("vcan"@ =~= vcan_prefix());
    }
    push_digits(&mut id, n, 10, 0);
    let mut name = chars_of("Virtual CAN ");
    push_digits(&mut name, n, 10, 0);
    assert(padded(n as nat, 10, 0) == digits(n as nat, 10));
    make_info(id, name, "virtual", true)
}

/// The native CAN devices among `devs`.
pub fn enumerate_socketcan_interfaces(devs: &Vec<NetDevice>) -> (r: Vec<InterfaceInfo>)
    ensures
        infos_view(r@) == socketcan_infos(devs@),
{
    let mut out: Vec<InterfaceInfo> = Vec::new();
    let mut i: usize = 0;
    proof {
        reveal_strlit("vcan");
        assert("vcan"@ =~= vcan_prefix());
    }
    while i < devs.len()
        invariant
            i <= devs@.len(),
            "vcan"@ == vcan_prefix(),
            infos_view(out@) == socketcan_infos(devs@.subrange(0, i as int)),
        decreases devs.len() - i,
    {
        let ghost sub = devs@.subrange(0, i + 1);
        assert(sub.drop_last() =~= devs@.subrange(0, i as int));
        assert(sub.last() == devs@[i as int]);
        let d = &devs[i];
        let nm = chars_of(d.name.as_str());
        let is_vcan = crate::text::starts_with_at(&nm, 0, nm.len(), "vcan");
        assert(nm@.subrange(0, nm@.len() as int) =~= nm@);
        if d.arphrd_type == ARPHRD_CAN && !is_vcan {
            let mut full = chars_of("SocketCAN: ");
            let ghost pre = full@;
            let mut k: usize = 0;
            while k < nm.len()
                invariant
                    k <= nm@.len(),
                    full@ == pre + nm@.subrange(0, k as int),
                decreases nm.len() - k,
            {
                full.push(nm[k]);
                k = k + 1;
                assert(full@ =~= pre + nm@.subrange(0, k as int));
            }
            assert(nm@.subrange(0, nm@.len() as int) =~= nm@);
            let info = make_info(nm, full, "socketcan", true);
            let ghost before = out@;
            out.push(info);
            assert(infos_view(out@) =~= infos_view(before).push(info@));
        }
        i = i + 1;
    }
    assert(devs@.subrange(0, devs@.len() as int) =~= devs@);
    out
}

/// The USB adapter slots: eight of them, available where the vendor library is present.
pub fn enumerate_pcan_interfaces(library_present: bool) -> (r: Vec<InterfaceInfo>)
    ensures
        r@.len() == 8,
        forall|i: int| 0 <= i < 8 ==> (#[trigger] r@[i])@ == (InfoView {
            id: "pcan_usb"@ + digits((i + 1) as nat, 10),
            name: "PCAN-USB "@ + digits((i + 1) as nat, 10),
            interface_type: "pcan"@,
            available: library_present,
        }),
{
    let mut out: Vec<InterfaceInfo> = Vec::new();
    let mut n: u64 = 1;
    while n <= 8
        invariant
            1 <= n <= 9,
            out@.len() == n - 1,
            forall|i: int| 0 <= i < n - 1 ==> (#[trigger] out@[i])@ == (InfoView {
                id: "pcan_usb"@ + digits((i + 1) as nat, 10),
                name: "PCAN-USB "@ + digits((i + 1) as nat, 10),
                interface_type: "pcan"@,
                available: library_present,
            }),
        decreases 9 - n,
    {
        let mut id = chars_of("pcan_usb");
        push_digits(&mut id, n, 10, 0);
        let mut name = chars_of("PCAN-USB ");
        push_digits(&mut name, n, 10, 0);
        assert(padded(n as nat, 10, 0) == digits(n as nat, 10));
        out.push(make_info(id, name, "pcan", library_present));
        n = n + 1;
    }
    out
}

/// The interfaces of a host with network devices `devs`: the two virtual interfaces, then
/// the native CAN devices.
pub fn enumerate_interfaces(devs: &Vec<NetDevice>) -> (r: Vec<InterfaceInfo>)
    ensures
        infos_view(r@) == seq![virtual_info(0), virtual_info(1)] + socketcan_infos(devs@),
{
    let mut out: Vec<InterfaceInfo> = Vec::new();
    out.push(virtual_info_exec(0));
    out.push(virtual_info_exec(1));
    let native = enumerate_socketcan_interfaces(devs);
    let mut i: usize = 0;
    let ghost head = infos_view(out@);
    assert(head =~= seq![virtual_info(0), virtual_info(1)]);
    while i < native.len()
        invariant
            i <= native@.len(),
            out@.len() == 2 + i,
            infos_view(out@) == head + infos_view(native@).subrange(0, i as int),
        decreases native.len() - i,
    {
        let ghost before = out@;
        let info = InterfaceInfo {
            id: copy_string(&native[i].id),
            name: copy_string(&native[i].name),
            interface_type: copy_string(&native[i].interface_type),
            available: native[i].available,
        };
        out.push(info);
        assert(infos_view(out@) =~= infos_view(before).push(native@[i as int]@));
        assert(infos_view(native@).subrange(0, i + 1) =~= infos_view(native@).subrange(0, i as int).push(native@[i as int]@));
        i = i + 1;
    }
    assert(infos_view(native@).subrange(0, native@.len() as int) =~= infos_view(native@));
    out
}

} // verus!
