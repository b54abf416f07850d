use can_analyzer::dbc::{ByteOrder, ValueType};
use can_analyzer::dbc_parser::DbcParser;
use can_analyzer::decimal::{Decimal, WideDecimal};
use can_analyzer::sym_parser::SymParser;

const DBC: &str = "VERSION \"1.2\"\n\
BU_: ECU Gateway\n\
\n\
// engine\n\
BO_ 100 EngineSpeed: 8 ECU\n\
 SG_ Speed : 0|16@1+ (0.1,0) [0|6553.5] \"km/h\" ECU\n\
 SG_ Temp : 16|8@1- (1,-40) [-40|215] \"degC\" Gateway\n\
BO_ 200 Status: 2 Gateway\n\
 SG_ Mode : 0|4@1+ (1,0) [0|15] \"\" ECU\n\
CM_ BO_ 100 \"Engine data\";\n\
CM_ SG_ 100 Speed \"Vehicle speed\";\n\
VAL_ 100 Speed 0 \"Stopped\" 1 \"Moving\" ;\n\
VAL_ 200 Mode 0 \"Off\" 1 \"On\" ;\n";

#[test]
fn dbc_decode_speed() {
    let db = DbcParser::parse(DBC).unwrap();
    let out = db.decode_message(100, &[0x10, 0x27, 0, 0, 0, 0, 0, 0]);
    let speed = &out[0];
    assert_eq!(speed.name, "Speed");
    assert_eq!(speed.raw_value, 10000);
    assert_eq!(speed.physical_value, Some(WideDecimal { mantissa: 10000, scale: 1 }));
    assert_eq!(speed.unit, "km/h");
}

#[test]
fn dbc_value_table_label() {
    let db = DbcParser::parse(DBC).unwrap();
    let out = db.decode_message(100, &[0x01, 0, 0, 0, 0, 0, 0, 0]);
    assert_eq!(out[0].value_name.as_deref(), Some("Moving"));
    assert_eq!(out[0].raw_value, 1);
}

#[test]
fn dbc_records_are_read() {
    let db = DbcParser::parse(DBC).unwrap();
    assert_eq!(db.version.as_deref(), Some("1.2"));
    assert_eq!(db.nodes, vec!["ECU".to_string(), "Gateway".to_string()]);
    assert_eq!(db.messages.len(), 2);
    let m = db.get_message(100).unwrap();
    assert_eq!(m.name, "EngineSpeed");
    assert_eq!(m.dlc, 8);
    assert_eq!(m.sender.as_deref(), Some("ECU"));
    assert_eq!(m.comment.as_deref(), Some("Engine data"));
    assert_eq!(m.signals[0].comment.as_deref(), Some("Vehicle speed"));
    assert_eq!(m.signals[1].value_type, ValueType::Signed);
    assert_eq!(m.signals[1].offset, Decimal { mantissa: -40, scale: 0 });
    assert_eq!(db.value_tables.len(), 2);
    for m in &db.messages {
        for s in &m.signals {
            if let Some(t) = &s.value_table {
                assert!(db.value_tables.iter().any(|v| &v.name == t));
            }
        }
    }
}

#[test]
fn dbc_signed_signal_sign_extends() {
    let db = DbcParser::parse(DBC).unwrap();
    let out = db.decode_message(100, &[0, 0, 0xFE, 0, 0, 0, 0, 0]);
    assert_eq!(out[1].name, "Temp");
    assert_eq!(out[1].raw_value, -2);
    assert_eq!(out[1].physical_value, Some(WideDecimal { mantissa: -42, scale: 0 }));
}

#[test]
fn signal_past_payload_is_omitted() {
    let db = DbcParser::parse(DBC).unwrap();
    let out = db.decode_message(100, &[0x10, 0x27]);
    assert_eq!(out.len(), 1);
    assert_eq!(out[0].name, "Speed");
    assert!(db.decode_message(999, &[0; 8]).is_empty());
    assert!(db.decode_signal(100, "Temp", &[0, 0]).is_none());
    assert_eq!(db.decode_signal(100, "Speed", &[1, 0]).unwrap().raw_value, 1);
}

#[test]
fn dbc_line_parsers() {
    let m = DbcParser::parse_message("BO_ 1234 Msg: 4").unwrap();
    assert_eq!(m, (1234, "Msg".to_string(), 4, None));
    assert!(DbcParser::parse_message("BO_ x Msg: 4").is_none());
    let (name, pairs) = DbcParser::parse_value_table("VAL_ 1 Sig -1 \"Neg\" 2 \"Two\" ;").unwrap();
    assert_eq!(name, "Sig");
    assert_eq!(pairs, vec![(-1, "Neg".to_string()), (2, "Two".to_string())]);
    assert_eq!(DbcParser::parse_nodes("BU_: A B"), vec!["A".to_string(), "B".to_string()]);
    let s = DbcParser::parse_signal("SG_ X : 7|12@0+ (0.5,2) \"V\" A B").unwrap();
    assert_eq!(s.byte_order, ByteOrder::BigEndian);
    assert_eq!(s.start_bit, 7);
    assert_eq!(s.length, 12);
    assert_eq!(s.factor, Decimal { mantissa: 5, scale: 1 });
    assert_eq!(s.receivers, vec!["A".to_string(), "B".to_string()]);
    assert!(DbcParser::parse_signal("SG_ X : 0|0@1+ (1,0) \"\" A").is_none());
}

#[test]
fn big_endian_follows_sawtooth() {
    let db = DbcParser::parse("BO_ 5 M: 8 E\n SG_ X : 7|12@0+ (1,0) [0|0] \"\" E\n").unwrap();
    let out = db.decode_message(5, &[0xAB, 0xC0, 0, 0, 0, 0, 0, 0]);
    assert_eq!(out[0].raw_value, 0xABC);
}

const SYM: &str = "FormatVersion=6.0 // comment\n\
enum Gear(0=\"Park\", 1=\"Drive\")\n\
{SIGNALS}\n\
Sig=Rpm unsigned 16 /u:rpm /f:0.25\n\
Sig=GearSig unsigned 4 /e:Gear\n\
Sig=Lost unsigned 8 /e:Missing\n\
{SENDRECEIVE}\n\
[Engine]\n\
ID=123h\n\
DLC=8\n\
Sig=Rpm 0\n\
Sig=GearSig 16\n\
Sig=Lost 24\n\
Var=Temp signed 32,8 /o:-40\n";

#[test]
fn sym_parse_and_decode() {
    let db = SymParser::parse(SYM).unwrap();
    assert_eq!(db.version.as_deref(), Some("6.0 // comment"));
    let m = db.get_message(0x123).unwrap();
    assert_eq!(m.name, "Engine");
    assert_eq!(m.dlc, 8);
    assert_eq!(m.signals.len(), 4);
    assert_eq!(m.signals[1].start_bit, 16);
    assert_eq!(m.signals[1].value_table.as_deref(), Some("Gear"));
    assert_eq!(m.signals[2].value_table, None);
    assert_eq!(m.signals[3].name, "Temp");
    let out = db.decode_message(0x123, &[0x10, 0x00, 0x01, 0, 0x05, 0, 0, 0]);
    assert_eq!(out[0].raw_value, 16);
    assert_eq!(out[0].physical_value, Some(WideDecimal { mantissa: 400, scale: 2 }));
    assert_eq!(out[1].value_name.as_deref(), Some("Drive"));
    assert_eq!(out[3].physical_value, Some(WideDecimal { mantissa: -35, scale: 0 }));
}

#[test]
fn sym_record_parsers() {
    assert_eq!(SymParser::parse_signal_assignment("Sig=Speed 12"), Some(("Speed".to_string(), 12)));
    assert_eq!(SymParser::parse_signal_assignment("Sig=Speed"), None);
    let (name, pairs) = SymParser::parse_enum("Enum=Mode(0=\"A\",  7=\"B, C\")").unwrap();
    assert_eq!(name, "Mode");
    assert_eq!(pairs, vec![(0, "A".to_string()), (7, "B, C".to_string())]);
    let f = SymParser::parse_signal("Sig=F float 99").unwrap();
    assert_eq!((f.value_type, f.length), (ValueType::Float, 32));
    let v = SymParser::parse_variable("Var=V bit 3,1").unwrap();
    assert_eq!((v.start_bit, v.length, v.value_type), (3, 1, ValueType::Unsigned));
}
