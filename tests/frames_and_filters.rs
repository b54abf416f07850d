use can_analyzer::filter::{DataByteMatch, FilterLogic, FilterRule, FilterSet};
use can_analyzer::message::CanFrame;

#[test]
fn test_id_range_filter() {
    let filter = FilterRule::IdRange { min: 0x100, max: 0x200 };
    let frame1 = CanFrame { id: 0x150, ..Default::default() };
    let frame2 = CanFrame { id: 0x300, ..Default::default() };

    assert!(filter.matches(&frame1));
    assert!(!filter.matches(&frame2));
}

#[test]
fn test_data_pattern_filter() {
    let filter = FilterRule::DataPattern {
        pattern: vec![DataByteMatch { position: 0, value: 0x01, mask: 0xFF }],
    };
    let mut frame1 = CanFrame::default();
    frame1.data = vec![0x01, 0x02, 0x03];
    let mut frame2 = CanFrame::default();
    frame2.data = vec![0x02, 0x02, 0x03];

    assert!(filter.matches(&frame1));
    assert!(!filter.matches(&frame2));
}

#[test]
fn test_filter_set_and() {
    let filter_set = FilterSet::new(
        vec![FilterRule::IdRange { min: 0x100, max: 0x200 }, FilterRule::Direction { rx: true, tx: false }],
        FilterLogic::And,
    );

    let mut frame1 = CanFrame::default();
    frame1.id = 0x150;
    frame1.direction = "rx".to_string();

    let mut frame2 = CanFrame::default();
    frame2.id = 0x150;
    frame2.direction = "tx".to_string();

    assert!(filter_set.matches(&frame1));
    assert!(!filter_set.matches(&frame2));
}

#[test]
fn test_can_frame_new() {
    let frame = CanFrame::new(0x123, &[0x01, 0x02, 0x03, 0x04]);
    assert_eq!(frame.id, 0x123);
    assert_eq!(frame.dlc, 4);
    assert!(!frame.is_extended);
    assert!(!frame.is_remote);
}

#[test]
fn test_can_frame_extended() {
    let frame = CanFrame::new_extended(0x12345678, &[0xAA, 0xBB]);
    assert_eq!(frame.id, 0x12345678);
    assert!(frame.is_extended);
}

#[test]
fn test_can_frame_id_hex() {
    let standard = CanFrame::new(0x123, &[]);
    assert_eq!(standard.id_hex(), "123");

    let extended = CanFrame::new_extended(0x12345678, &[]);
    assert_eq!(extended.id_hex(), "12345678");
}

#[test]
fn empty_filter_set_matches_any_frame() {
    let set = FilterSet::new(vec![], FilterLogic::Or);
    let frame = CanFrame::new(0x7FF, &[1, 2, 3]);
    assert!(set.matches(&frame));
    assert!(FilterSet::default().matches(&CanFrame::default()));
    assert!(set.is_empty());
}

#[test]
fn or_set_matches_when_any_rule_does() {
    let rules = vec![FilterRule::IdExact(0x10), FilterRule::ExtendedId(true)];
    let or_set = FilterSet::new(rules.clone(), FilterLogic::Or);
    let and_set = FilterSet::new(rules, FilterLogic::And);
    let f = CanFrame::new(0x10, &[]);
    assert!(or_set.matches(&f));
    assert!(!and_set.matches(&f));
    let g = CanFrame::new_extended(0x10, &[]);
    assert!(and_set.matches(&g));
}

#[test]
fn data_pattern_out_of_range_fails() {
    let filter = FilterRule::DataPattern { pattern: vec![DataByteMatch { position: 5, value: 0, mask: 0 }] };
    let frame = CanFrame::new(1, &[0, 0]);
    assert!(!filter.matches(&frame));
    let masked = FilterRule::DataPattern { pattern: vec![DataByteMatch { position: 1, value: 0xF0, mask: 0xF0 }] };
    assert!(masked.matches(&CanFrame::new(1, &[0x00, 0xF3])));
}

#[test]
fn dlc_and_remote_rules() {
    let r = FilterRule::DlcRange { min: 2, max: 4 };
    assert!(r.matches(&CanFrame::new(1, &[1, 2, 3])));
    assert!(!r.matches(&CanFrame::new(1, &[1])));
    assert!(FilterRule::RemoteFrame(true).matches(&CanFrame::new_rtr(0x20, 4)));
}

#[test]
fn frame_constructors_cap_payload() {
    let f = CanFrame::new(0x800, &[0; 12]);
    assert_eq!(f.dlc, 8);
    assert_eq!(f.data.len(), 8);
    assert!(f.is_extended);
    let r = CanFrame::new_rtr(0x10, 12);
    assert_eq!(r.dlc, 8);
    assert!(r.data.is_empty());
    let fd = can_analyzer::message::CanFdFrame::new(0x10, &[7; 70], true);
    assert_eq!(fd.base.dlc, 64);
    assert!(fd.brs && !fd.esi);
}

#[test]
fn data_hex_and_payload_conversion() {
    let f = CanFrame::new(0x1, &[0x0A, 0xFF, 0x00]);
    assert_eq!(f.data_hex(), "0A FF 00");
    let p = f.to_payload();
    assert_eq!(p.channel, None);
    let g = f.clone().as_received("can0", 12);
    assert_eq!(g.direction, "rx");
    assert_eq!(g.channel, "can0");
    assert_eq!(g.timestamp_us, 12);
    let back = CanFrame::from_payload(g.to_payload());
    assert_eq!(back.channel, "can0");
    assert_eq!(back.direction, "tx");
    assert_eq!(back.data, vec![0x0A, 0xFF, 0x00]);
}
