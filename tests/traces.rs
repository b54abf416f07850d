use can_analyzer::decimal::Decimal;
use can_analyzer::trace_format::TraceFormat;
use can_analyzer::trace_parse::{parse_csv_line, parse_trc_line};

#[test]
fn test_trace_format_from_extension() {
    assert_eq!(TraceFormat::from_extension("csv"), Some(TraceFormat::Csv));
    assert_eq!(TraceFormat::from_extension("trc"), Some(TraceFormat::Trc));
    assert_eq!(TraceFormat::from_extension("txt"), None);
}

#[test]
fn test_trace_format_extension() {
    assert_eq!(TraceFormat::Csv.extension(), "csv");
    assert_eq!(TraceFormat::Trc.extension(), "trc");
}

#[test]
fn test_parse_csv_line() {
    let line = "0.001234,123,false,false,8,01 02 03 04 05 06 07 08,rx,can0";
    let frame = parse_csv_line(line).unwrap();
    assert_eq!(frame.id, 0x123);
    assert_eq!(frame.dlc, 8);
    assert_eq!(frame.direction, "rx");
}

#[test]
fn test_parse_trc_line() {
    let line = "       1        77.686 DT 3      0132 Rx -  8    C4 00 00 00 00 00 00 00";
    let start_time_days = Some(Decimal { mantissa: 45345123456, scale: 6 });
    let bus_to_channel = Vec::new();
    let frame = parse_trc_line(line, start_time_days, &bus_to_channel).unwrap();
    assert_eq!(frame.id, 0x132);
    assert_eq!(frame.dlc, 8);
    assert_eq!(frame.direction, "rx");
    assert_eq!(frame.channel, "channel_3");
}
