use can_analyzer::dbc_parser::DbcParser;
use can_analyzer::decimal::Decimal;
use can_analyzer::message::CanFrame;
use can_analyzer::trace_format::{format_csv_row, format_trc_row, header, TraceFormat, WallClock};
use can_analyzer::trace_logger::{generate_split_path, should_split, TraceLogger, TraceLoggerConfig};
use can_analyzer::trace_parse::{parse_csv_line, parse_trace, parse_trc_line};
use can_analyzer::trace_player::{PlaybackState, TracePlayer};

fn frame(id: u32, ts: i64) -> CanFrame {
    let mut f = CanFrame::new(id, &[(id & 0xFF) as u8, 0xA5]);
    f.timestamp_us = ts;
    f.channel = "vcan0".to_string();
    f
}

#[test]
fn csv_rows_round_trip() {
    let mut content = String::from("Time,ID,Extended,Remote,DLC,Data,Direction,Channel\n");
    let mut logged = Vec::new();
    for i in 0..1000u32 {
        let f = frame(i, i as i64 * 1_234 + 7);
        content.push_str(&format_csv_row(&f));
        logged.push(f);
    }
    let frames = parse_trace(&content, TraceFormat::Csv, &Vec::new());
    assert_eq!(frames.len(), 1000);
    for (a, b) in frames.iter().zip(logged.iter()) {
        assert_eq!((a.id, a.is_extended, a.is_remote, a.dlc), (b.id, b.is_extended, b.is_remote, b.dlc));
        assert_eq!(a.data, b.data);
        assert_eq!(a.direction, b.direction);
        assert_eq!(a.channel, b.channel);
        assert_eq!(a.timestamp_us, b.timestamp_us);
    }
}

#[test]
fn csv_row_text() {
    let mut f = CanFrame::new_extended(0x1ABCDE, &[1, 0xFF]);
    f.timestamp_us = -1_500_000;
    f.channel = "can0".to_string();
    assert_eq!(format_csv_row(&f), "-1.500000,001ABCDE,true,false,2,01 FF,tx,can0\n");
    let back = parse_csv_line("-1.500000,001ABCDE,true,false,2,01 FF,tx,can0").unwrap();
    assert_eq!(back.timestamp_us, -1_500_000);
    assert!(parse_csv_line("1.0,XYZ,false,false,0,,rx,c").is_err());
    assert!(parse_csv_line("1.0,1,false").is_err());
}

#[test]
fn trc_row_text() {
    let mut f = CanFrame::new(0x11C, &[0, 0x80]);
    f.timestamp_us = 1_234;
    f.direction = "rx".to_string();
    assert_eq!(format_trc_row(&f), "    1.234000 rx 11C 2 00 80\n");
    let clock = WallClock { year: 2024, month: 3, day: 5, hour: 7, minute: 8, second: 9, millisecond: 42 };
    assert_eq!(header(TraceFormat::Trc, clock), "$FILEVERSION=2.0\n$STARTTIME=2024-03-05 07:08:09.042\n");
    assert_eq!(header(TraceFormat::Csv, clock), "Time,ID,Extended,Remote,DLC,Data,Direction,Channel\n");
}

#[test]
fn trc_without_type_row() {
    let line = "1)         0.274 1  Rx        011C -  8    00 00 00 00 00 00 00 80";
    let map = vec![(1u8, "CAN_A".to_string())];
    let f = parse_trc_line(line, Some(Decimal { mantissa: 45000, scale: 0 }), &map).unwrap();
    assert_eq!(f.id, 0x11C);
    assert_eq!(f.dlc, 8);
    assert_eq!(f.data, vec![0, 0, 0, 0, 0, 0, 0, 0x80]);
    assert_eq!(f.direction, "rx");
    assert_eq!(f.channel, "CAN_A");
    assert_eq!(f.timestamp_us, (45000 - 25569) * 86_400 * 1_000_000 + 274);
}

#[test]
fn trc_starttime_offset() {
    let line = "1)  1000.0 2  Tx  0100 -  1  FF";
    let f = parse_trc_line(line, Some(Decimal { mantissa: 450005, scale: 1 }), &Vec::new()).unwrap();
    assert_eq!(f.timestamp_us, 194_315 * 86_400 * 1_000_000 / 10 + 1_000_000);
    assert_eq!(f.channel, "channel_2");
    assert_eq!(f.direction, "tx");
    let g = parse_trc_line(line, None, &Vec::new()).unwrap();
    assert_eq!(g.timestamp_us, 1_000_000);
    assert!(parse_trc_line("1) 1.0 1 Rx 0100 - 4 FF", None, &Vec::new()).is_err());
}

#[test]
fn equal_timestamps_keep_file_order() {
    let mut content = String::new();
    for (id, ts) in [(3u32, 10i64), (1, 5), (2, 10), (4, 10), (0, 5)] {
        content.push_str(&format_csv_row(&frame(id, ts)));
    }
    let frames = parse_trace(&content, TraceFormat::Csv, &Vec::new());
    let ids: Vec<u32> = frames.iter().map(|f| f.id).collect();
    assert_eq!(ids, vec![1, 0, 3, 2, 4]);
}

#[test]
fn trc_file_with_header() {
    let content = ";$FILEVERSION=1.1\n;$STARTTIME=45000.0\n;   Message Number\n     1)         2.000 1  Rx        0200 -  1    01\n     2)         1.000 1  Rx        0100 -  1    02\n";
    let frames = parse_trace(content, TraceFormat::Trc, &Vec::new());
    assert_eq!(frames.len(), 2);
    assert_eq!(frames[0].id, 0x100);
    assert_eq!(frames[1].id, 0x200);
}

#[test]
fn playback_yields_loaded_frames_then_stops() {
    let mut content = String::new();
    for i in 0..5u32 {
        content.push_str(&format_csv_row(&frame(i, (i as i64) * 3_000_000)));
    }
    let mut p = TracePlayer::new();
    assert!(p.start(0).is_err());
    assert_eq!(p.load_content(&content, TraceFormat::Csv, &Vec::new()), 5);
    p.start(0).unwrap();
    let mut ids = Vec::new();
    while let Some((f, delay)) = p.get_next_frame() {
        if f.id < 4 {
            assert_eq!(delay, 1_000_000);
        } else {
            assert_eq!(delay, 0);
        }
        ids.push(f.id);
    }
    assert_eq!(ids, vec![0, 1, 2, 3, 4]);
    assert_eq!(p.get_state(), PlaybackState::Stopped);
}

#[test]
fn playback_controls() {
    let mut content = String::new();
    for i in 0..3u32 {
        content.push_str(&format_csv_row(&frame(i, (i as i64) * 100_000)));
    }
    let mut p = TracePlayer::new();
    p.load_content(&content, TraceFormat::Csv, &Vec::new());
    p.set_speed(20_000);
    assert_eq!(p.get_speed(), 5000);
    p.set_speed(1);
    assert_eq!(p.get_speed(), 100);
    p.set_speed(2000);
    p.start(0).unwrap();
    let (_, d) = p.get_next_frame().unwrap();
    assert_eq!(d, 50_000);
    p.pause(10);
    assert_eq!(p.get_state(), PlaybackState::Paused);
    assert!(p.get_next_frame().is_none());
    p.resume(20);
    assert_eq!(p.get_state(), PlaybackState::Playing);
    p.seek(99);
    assert_eq!(p.get_current_index(), 2);
    p.stop();
    assert_eq!(p.get_current_index(), 0);
    assert_eq!(p.get_all_frames().len(), 3);
}

#[test]
fn logger_rotation_and_paths() {
    assert_eq!(generate_split_path("/tmp/logs/run.csv", 200), "/tmp/logs/run_200.csv");
    assert_eq!(generate_split_path("trace", 3), "trace_3.csv");
    assert_eq!(generate_split_path("dir/.hidden", 1), "dir/.hidden_1.csv");
    let cfg = TraceLoggerConfig {
        format: TraceFormat::Csv,
        file_path: "out/t.csv".to_string(),
        auto_split: true,
        max_file_size_mb: Some(1),
        max_file_duration_sec: Some(60),
    };
    assert!(!should_split(&cfg, 1_048_576, 60));
    assert!(should_split(&cfg, 1_048_577, 0));
    assert!(should_split(&cfg, 0, 61));
    let mut log = TraceLogger::new(cfg);
    let clock = WallClock { year: 2024, month: 1, day: 1, hour: 0, minute: 0, second: 0, millisecond: 0 };
    let h = log.start(clock).unwrap();
    assert!(log.start(clock).is_err());
    assert_eq!(log.bytes_in_file, h.len() as u64);
    let step = log.write_step(&frame(1, 0), 61, clock);
    assert_eq!(step.rotate_to.as_deref(), Some("out/t_1.csv"));
    assert!(step.header.is_some());
    for _ in 0..99 {
        let s = log.write_step(&frame(1, 0), 0, clock);
        assert!(s.rotate_to.is_none());
    }
    assert_eq!(log.frame_count(), 100);
    let disabled = TraceLoggerConfig::default();
    assert!(!should_split(&disabled, u64::MAX, u64::MAX));
}

#[test]
fn float_and_double_signals() {
    let mut db = DbcParser::parse("BO_ 1 M: 8 E\n SG_ F : 0|32@1+ (1,0) [0|0] \"\" E\n").unwrap();
    db.messages[0].signals[0].value_type = can_analyzer::dbc::ValueType::Float;
    let bits = (-2.75f32).to_bits().to_le_bytes();
    let out = db.decode_message(1, &[bits[0], bits[1], bits[2], bits[3], 0, 0, 0, 0]);
    assert_eq!(out[0].raw_value, -2);
    let mut db2 = DbcParser::parse("BO_ 1 M: 8 E\n SG_ D : 0|64@1+ (1,0) [0|0] \"\" E\n").unwrap();
    db2.messages[0].signals[0].value_type = can_analyzer::dbc::ValueType::Double;
    let b = 1234.9f64.to_bits().to_le_bytes();
    assert_eq!(db2.decode_message(1, &b)[0].raw_value, 1234);
    let big = 1e20f64.to_bits().to_le_bytes();
    assert_eq!(db2.decode_message(1, &big)[0].raw_value, i64::MAX);
    let nan = f64::NAN.to_bits().to_le_bytes();
    assert_eq!(db2.decode_message(1, &nan)[0].raw_value, 0);
}
