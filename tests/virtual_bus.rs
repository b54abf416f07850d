use can_analyzer::hal::CanFilter;
use can_analyzer::message::CanFrame;
use can_analyzer::virtual_can::{CanInterface, VirtualCanInterface};

#[test]
fn test_virtual_can_connect_disconnect() {
    let mut vcan = VirtualCanInterface::new("vcan_test");
    assert!(!vcan.is_connected());
    vcan.connect(500_000, 0).unwrap();
    assert!(vcan.is_connected());
    vcan.disconnect().unwrap();
    assert!(!vcan.is_connected());
}

#[test]
fn test_virtual_can_loopback() {
    let mut vcan = VirtualCanInterface::new("vcan_test");
    vcan.connect(500_000, 0).unwrap();
    let frame = CanFrame::new(0x123, &[1, 2, 3, 4]);
    vcan.send(&frame, 10).unwrap();
    let received = vcan.receive(20).unwrap();
    assert!(received.is_some());
    let rx_frame = received.unwrap();
    assert_eq!(rx_frame.id, 0x123);
    assert_eq!(rx_frame.data, vec![1, 2, 3, 4]);
}

#[test]
fn test_virtual_can_filter() {
    let mut vcan = VirtualCanInterface::new("vcan_test");
    vcan.connect(500_000, 0).unwrap();
    vcan.set_filter(Some(CanFilter::single(0x200, false))).unwrap();
    let frame1 = CanFrame::new(0x123, &[1, 2, 3, 4]);
    vcan.send(&frame1, 1).unwrap();
    let received = vcan.receive(2).unwrap();
    assert!(received.is_none());
    let frame2 = CanFrame::new(0x200, &[5, 6, 7, 8]);
    vcan.send(&frame2, 3).unwrap();
    let received = vcan.receive(4).unwrap();
    assert!(received.is_some());
    assert_eq!(received.unwrap().id, 0x200);
}

#[test]
fn send_refuses_id_too_wide_for_kind() {
    let mut vcan = VirtualCanInterface::new("v");
    vcan.connect(500_000, 0).unwrap();
    let mut f = CanFrame::new(0x100, &[1]);
    f.id = 0x800;
    assert!(vcan.send(&f, 0).is_err());
    let mut g = CanFrame::new_extended(0x1FFF_FFFF, &[]);
    assert!(vcan.send(&g, 0).is_ok());
    g.id = 0x2000_0000;
    assert!(vcan.send(&g, 0).is_err());
}
