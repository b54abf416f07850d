use can_analyzer::bus_stats::BusStats;
use can_analyzer::channel::{select_backend, BackendKind, Channel, ChannelConfig, ChannelManager, ChannelState};
use can_analyzer::filter::{FilterLogic, FilterRule, FilterSet};
use can_analyzer::hal::{enumerate_interfaces, enumerate_pcan_interfaces, BusState, CanFilter, NetDevice};
use can_analyzer::message::CanFrame;
use can_analyzer::pcan::{is_pcan_available, to_pcan_msg, PcanBitrate, PcanChannel, PcanError, PcanInterface};
use can_analyzer::project::{tick_action, validate_channel, PeriodicJobs, ProjectChannel, TickAction};
use can_analyzer::virtual_can::{CanInterface, VirtualCanBus, VirtualCanInterface};

fn config(id: &str) -> ChannelConfig {
    ChannelConfig { interface_id: id.to_string(), bitrate: 500_000, listen_only: false }
}

#[test]
fn virtual_loopback_through_channel() {
    let mut ch: Channel<VirtualCanInterface> = Channel::new("vcan0".to_string());
    ch.connect(config("vcan0"), VirtualCanInterface::new("vcan0"), 1_000).unwrap();
    assert!(matches!(ch.state, ChannelState::Connected));
    let sent = ch.send(CanFrame::new(0x123, &[1, 2, 3, 4]), 1_500).unwrap();
    assert_eq!(sent.direction, "tx");
    assert_eq!(sent.channel, "vcan0");
    assert_eq!(sent.timestamp_us, 500);
    let got = ch.receive(2_000).unwrap().unwrap();
    assert_eq!(got.id, 0x123);
    assert_eq!(got.data, vec![1, 2, 3, 4]);
    assert_eq!(got.direction, "rx");
    assert_eq!(got.timestamp_us, 1_000);
    assert_eq!(ch.stats.tx_count, 1);
    assert_eq!(ch.stats.rx_count, 1);
}

#[test]
fn channel_filter_on_receive() {
    let mut ch: Channel<VirtualCanInterface> = Channel::new("vcan0".to_string());
    ch.connect(config("vcan0"), VirtualCanInterface::new("vcan0"), 0).unwrap();
    ch.set_filter(FilterSet::new(
        vec![FilterRule::IdRange { min: 0x100, max: 0x200 }, FilterRule::Direction { rx: true, tx: false }],
        FilterLogic::And,
    ));
    ch.send(CanFrame::new(0x150, &[]), 1).unwrap();
    assert!(ch.receive(2).unwrap().is_some());
    ch.send(CanFrame::new(0x300, &[]), 3).unwrap();
    assert!(ch.receive(4).unwrap().is_none());
    assert_eq!(ch.stats.rx_count, 2);
    let mut tx = CanFrame::new(0x150, &[]);
    tx.direction = "tx".to_string();
    assert!(!ch.filter.matches(&tx));
}

#[test]
fn tx_count_follows_sends() {
    let mut ch: Channel<VirtualCanInterface> = Channel::new("c".to_string());
    assert!(ch.send(CanFrame::new(1, &[]), 0).is_err());
    assert!(ch.receive(0).is_err());
    ch.connect(config("vcan1"), VirtualCanInterface::new("vcan1"), 10).unwrap();
    let mut last = 0;
    for n in 0..5u64 {
        let f = ch.send(CanFrame::new(1, &[n as u8]), 10 + n * 7).unwrap();
        assert!(f.timestamp_us >= last);
        last = f.timestamp_us;
        assert_eq!(ch.stats.tx_count, n + 1);
    }
    ch.disconnect().unwrap();
    assert!(matches!(ch.state, ChannelState::Disconnected));
    assert!(ch.send(CanFrame::new(1, &[]), 100).is_err());
}

#[test]
fn failed_connect_records_error() {
    let mut ch: Channel<PcanInterface> = Channel::new("p".to_string());
    let r = ch.connect(config("can9"), PcanInterface::new("pcan_usb9"), 0);
    assert!(r.is_err());
    assert!(matches!(&ch.state, ChannelState::Error(m) if m == "Invalid PCAN channel"));
}

#[test]
fn backend_selection() {
    assert_eq!(select_backend("vcan0"), Ok(BackendKind::Virtual));
    assert_eq!(select_backend("can1"), Ok(BackendKind::SocketCan));
    assert!(select_backend("pcan_usb1").is_err());
    assert_eq!(select_backend("eth0"), Err("Unknown interface type: eth0".to_string()));
}

#[test]
fn manager_registry() {
    let mut m: ChannelManager<VirtualCanInterface> = ChannelManager::new();
    let a = m.get_or_create_channel("a");
    let b = m.get_or_create_channel("b");
    assert_eq!(m.get_or_create_channel("a"), a);
    assert_ne!(a, b);
    m.set_active_channel("zzz");
    assert_eq!(m.get_active_channel(), None);
    m.set_active_channel("b");
    assert_eq!(m.get_active_channel(), Some(b));
    assert_eq!(m.get_channel_ids(), vec!["a".to_string(), "b".to_string()]);
    m.remove_channel("b");
    assert_eq!(m.active_channel, None);
    assert_eq!(m.get_channel_ids(), vec!["a".to_string()]);
}

#[test]
fn bus_stats_counters_and_load() {
    let mut s = BusStats::new();
    s.record_tx();
    s.record_rx();
    s.record_rx();
    s.record_error();
    assert_eq!((s.tx_count, s.rx_count, s.error_count), (1, 2, 1));
    s.update_bus_load(2500, 500_000);
    assert_eq!(s.bus_load, 5000);
    s.update_bus_load(100_000, 500_000);
    assert_eq!(s.bus_load, 10_000);
    s.update_bus_load(1, 0);
    assert_eq!(s.bus_load, 10_000);
    s.reset();
    assert_eq!(s, BusStats::new());
}

#[test]
fn interface_enumeration() {
    let devs = vec![
        NetDevice { name: "can0".to_string(), arphrd_type: 280 },
        NetDevice { name: "vcan0".to_string(), arphrd_type: 280 },
        NetDevice { name: "eth0".to_string(), arphrd_type: 1 },
    ];
    let list = enumerate_interfaces(&devs);
    assert_eq!(list.len(), 3);
    assert_eq!(list[0].id, "vcan0");
    assert_eq!(list[1].name, "Virtual CAN 1");
    assert_eq!(list[2].id, "can0");
    assert_eq!(list[2].name, "SocketCAN: can0");
    assert_eq!(list[2].interface_type, "socketcan");
    let p = enumerate_pcan_interfaces(false);
    assert_eq!(p.len(), 8);
    assert_eq!(p[7].id, "pcan_usb8");
    assert!(!p[0].available);
}

#[test]
fn can_filters() {
    let f = CanFilter::single(0x200, false);
    assert_eq!(f.mask, 0x7FF);
    assert!(f.accepts(&CanFrame::new(0x200, &[])));
    assert!(!f.accepts(&CanFrame::new(0x201, &[])));
    let r = CanFilter::range(0x100, 0x10F, false);
    assert_eq!(r.mask, 0x7F0);
    assert!(r.accepts(&CanFrame::new(0x10A, &[])));
    assert_eq!(CanFilter::all().mask, 0);
    assert_eq!(BusState::default(), BusState::Unknown);
}

#[test]
fn pcan_tables() {
    assert_eq!(PcanChannel::from_str("pcan_usb3"), Some(PcanChannel::Usb3));
    assert_eq!(PcanChannel::from_str("pcan_usb9"), None);
    assert_eq!(PcanChannel::Usb3.code(), 0x53);
    assert_eq!(PcanBitrate::from_bps(250_000), PcanBitrate::Baud250K);
    assert_eq!(PcanBitrate::from_bps(33_333), PcanBitrate::Baud500K);
    assert_eq!(PcanBitrate::Baud125K.code(), 0x031C);
    assert_eq!(PcanError::BusOff.to_string(), "Bus off");
    assert_eq!(PcanError::Resource.to_string(), "Unknown error: 0x2000");
    assert!(!is_pcan_available());
    let msg = to_pcan_msg(&CanFrame::new_rtr(0x800, 2));
    assert_eq!(msg.msgtype, 0x03);
    let mut p = PcanInterface::new("pcan_usb1");
    assert!(p.send(&CanFrame::new(1, &[])).is_err());
    p.connect(500_000).unwrap();
    assert!(p.connect(500_000).is_err());
    assert!(p.receive().unwrap().is_none());
    assert_eq!(p.get_bus_state(), BusState::Active);
}

#[test]
fn virtual_bus_broadcast_and_overflow() {
    let mut a = VirtualCanInterface::new("a");
    let mut b = VirtualCanInterface::new("b");
    a.connect(0, 0).unwrap();
    b.connect(0, 0).unwrap();
    let mut bus = VirtualCanBus::new();
    bus.add_node(a);
    bus.add_node(b);
    bus.broadcast("a", &CanFrame::new(0x42, &[9]));
    assert!(bus.nodes[0].receive(1).unwrap().is_none());
    assert_eq!(bus.nodes[1].receive(1).unwrap().unwrap().id, 0x42);
    let mut v = VirtualCanInterface::new("v");
    v.connect(0, 0).unwrap();
    for i in 0..1001u32 {
        v.send(&CanFrame::new(i, &[]), 0).unwrap();
    }
    assert_eq!(v.receive(0).unwrap().unwrap().id, 1);
}

#[test]
fn project_and_jobs() {
    let ch = ProjectChannel {
        id: "c1".to_string(),
        name: "Main".to_string(),
        interface_id: Some("can7".to_string()),
        bitrate: 250_000,
        dbc_file: Some("/x.dbc".to_string()),
    };
    let v = validate_channel(ch.clone(), &vec!["vcan0".to_string()], false);
    assert_eq!(v.interface_id, None);
    assert_eq!(v.dbc_file, None);
    let w = validate_channel(ch, &vec!["can7".to_string()], true);
    assert_eq!(w.interface_id.as_deref(), Some("can7"));
    assert_eq!(tick_action(false, true), TickAction::Send);
    assert_eq!(tick_action(true, true), TickAction::Exit);
    assert_eq!(tick_action(false, false), TickAction::Exit);
    let mut jobs = PeriodicJobs::new();
    jobs.start("j1".to_string());
    assert!(!jobs.is_cancelled("j1"));
    assert!(!jobs.stop("nope"));
    assert!(jobs.stop("j1"));
    assert!(jobs.is_cancelled("j1"));
    jobs.remove("j1");
    assert!(jobs.jobs.is_empty());
}

#[test]
fn connect_refusals_leave_channel_unchanged() {
    let mut ch: Channel<VirtualCanInterface> = Channel::new("c".to_string());
    assert!(ch.connect(config("eth0"), VirtualCanInterface::new("eth0"), 0).is_err());
    assert!(matches!(ch.state, ChannelState::Disconnected));
    assert!(ch.connect(config("pcan_usb1"), VirtualCanInterface::new("x"), 0).is_err());
    assert!(matches!(ch.state, ChannelState::Disconnected));
    ch.connect(config("vcan0"), VirtualCanInterface::new("vcan0"), 0).unwrap();
    assert_eq!(ch.config.interface_id, "vcan0");
    ch.send(CanFrame::new(1, &[]), 5).unwrap();
    assert!(ch.connect(config("vcan1"), VirtualCanInterface::new("vcan1"), 9).is_err());
    assert!(matches!(ch.state, ChannelState::Connected));
    assert_eq!(ch.stats.tx_count, 1);
    assert_eq!(ch.config.interface_id, "vcan0");
}

#[test]
fn range_filter_accepts_whole_range() {
    let f = CanFilter::range(0x100, 0x102, false);
    for id in 0x100..=0x102u32 {
        assert!(f.accepts(&CanFrame::new(id, &[])));
    }
    assert!(!f.accepts(&CanFrame::new(0x104, &[])));
    let g = CanFilter::range(0x7F0, 0x810, false);
    assert!(g.accepts(&CanFrame::new(0x7F5, &[])));
}

#[test]
fn accept_received_counts_and_filters() {
    let mut ch: Channel<VirtualCanInterface> = Channel::new("c".to_string());
    ch.connect(config("vcan0"), VirtualCanInterface::new("vcan0"), 100).unwrap();
    ch.set_filter(FilterSet::new(vec![FilterRule::IdExact(7)], FilterLogic::And));
    let kept = ch.accept_received(CanFrame::new(7, &[1]), 350).unwrap();
    assert_eq!((kept.direction.as_str(), kept.channel.as_str(), kept.timestamp_us), ("rx", "c", 250));
    assert!(ch.accept_received(CanFrame::new(8, &[1]), 400).is_none());
    assert_eq!(ch.stats.rx_count, 2);
}

#[test]
fn remove_keeps_other_active_channel() {
    let mut m: ChannelManager<VirtualCanInterface> = ChannelManager::new();
    m.get_or_create_channel("a");
    m.get_or_create_channel("b");
    m.get_or_create_channel("c");
    m.set_active_channel("c");
    m.remove_channel("a");
    assert_eq!(m.active_channel.as_deref(), Some("c"));
    assert_eq!(m.get_channel_ids(), vec!["b".to_string(), "c".to_string()]);
}
