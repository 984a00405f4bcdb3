use std::collections::HashMap;

use can_explorer::msg::{CanMsg, MsgKey};
use can_explorer::number::Real;
use can_explorer::symbols::bits::{extract_bits, sign_extend};
use can_explorer::symbols::dbc::{
    define_messages, parse_dbc, read_dbc, DbcEntry, DbcMessage, DbcMux, DbcSignal, DbcType,
};
use can_explorer::symbols::format::{decimals_for, ValueColumn, ValueFormat};
use can_explorer::symbols::sym::{parse_sym, strip_comment, sym_motorola_start};
use can_explorer::symbols::{
    decode_file, format_compact, DecodedSignal, MessageDef, Number, SigKind, SignalDef,
    SignalNumbers, SymbolDb,
};

const DEMO: &str = r#"VERSION ""

NS_ :

BS_:

BU_: ECU

BO_ 192 Counter: 2 ECU
 SG_ Count : 0|16@1+ (1,0) [0|65535] "" Vector__XXX

BO_ 256 EngineData: 8 ECU
 SG_ RPM : 0|16@1+ (0.25,0) [0|16383.75] "rpm" Vector__XXX
 SG_ CoolantTemp : 16|8@1+ (1,-40) [-40|215] "degC" Vector__XXX
 SG_ RollingCounter : 56|4@1+ (1,0) [0|15] "" Vector__XXX

BO_ 512 Drive: 6 ECU
 SG_ Speed : 7|16@0+ (0.01,0) [0|655.35] "km/h" Vector__XXX
 SG_ Gear : 16|8@1+ (1,0) [0|6] "" Vector__XXX

BO_ 513 Pages: 4 ECU
 SG_ Page M : 0|8@1+ (1,0) [0|3] "" Vector__XXX
 SG_ CounterA m0 : 8|8@1+ (1,0) [0|255] "" Vector__XXX
 SG_ CounterB m1 : 8|8@1+ (1,0) [0|255] "" Vector__XXX
 SG_ CounterC m2 : 8|8@1+ (1,0) [0|255] "" Vector__XXX
 SG_ CounterD m3 : 8|8@1+ (1,0) [0|255] "" Vector__XXX
 SG_ Magic : 16|16@1+ (1,0) [0|65535] "" Vector__XXX

BO_ 2024 Diag: 8 ECU
 SG_ Service : 8|8@1+ (1,0) [0|255] "" Vector__XXX

BO_ 2364539904 EEC1: 8 ECU
 SG_ EngineSpeed : 24|16@1+ (0.125,0) [0|8031.875] "rpm" Vector__XXX

BO_ 2566844672 CCVS: 8 ECU
 SG_ WheelSpeed : 8|16@1+ (0.00390625,0) [0|250.996] "km/h" Vector__XXX

CM_ BO_ 256 "Engine speed and temperature";
VAL_ 512 Gear 0 "P" 1 "R" 2 "N" 3 "D1" 4 "D2" 5 "D3" 6 "D4" ;
"#;

fn num(x: f64) -> Real {
    Real { bits: x.to_bits() }
}

fn float(r: Real) -> f64 {
    f64::from_bits(r.bits)
}

fn decimals(x: f64) -> usize {
    let exact: Vec<bool> = (0..4)
        .map(|d| {
            let scaled = x * 10f64.powi(d);
            (scaled - scaled.round()).abs() < 1e-9 * scaled.abs().max(1.0)
        })
        .collect();
    decimals_for(&exact)
}

fn scale(text: &Option<String>, known: Real, default: f64) -> f64 {
    match text {
        Some(t) => t.parse().unwrap_or(default),
        None => float(known),
    }
}

fn numbers(s: &SignalDef) -> SignalNumbers {
    let factor = scale(&s.factor_text, s.factor, 1.0);
    let offset = scale(&s.offset_text, s.offset, 0.0);
    let (low, high) = s.raw_range();
    let a = low as f64 * factor + offset;
    let b = high as f64 * factor + offset;
    let mut n = SignalNumbers {
        factor: num(factor),
        offset: num(offset),
        factor_decimals: decimals(factor),
        offset_decimals: decimals(offset),
        low_len: 0,
        high_len: 0,
        negative: a.min(b) < 0.0,
    };
    n.low_len = format!("{:.*}", n.decimals(), a.abs()).len();
    n.high_len = format!("{:.*}", n.decimals(), b.abs()).len();
    n
}

fn finalize(db: &mut SymbolDb) {
    let all: HashMap<u64, Vec<SignalNumbers>> = db
        .messages
        .iter()
        .map(|(c, m)| (*c, m.mux.iter().chain(&m.signals).map(numbers).collect()))
        .collect();
    db.finalize(&all);
}

fn demo() -> SymbolDb {
    let mut db = SymbolDb::load(DEMO.as_bytes(), "dbc").unwrap();
    finalize(&mut db);
    db
}

fn message(db: &SymbolDb, id: u32, ext: bool) -> &MessageDef {
    db.get(MsgKey { id, ext }).unwrap()
}

fn sig<'a>(db: &'a SymbolDb, id: u32, name: &str) -> &'a SignalDef {
    message(db, id, false).signals.iter().find(|s| s.name == name).unwrap()
}

fn value(d: &DecodedSignal) -> f64 {
    let n = match d.number {
        Number::Signed(v) => v as f64,
        Number::Unsigned(v) => v as f64,
        Number::Float32(b) => f32::from_bits(b) as f64,
        Number::Float64(b) => f64::from_bits(b),
    };
    n * float(d.factor) + float(d.offset)
}

fn digits(f: &ValueFormat, v: f64) -> String {
    format!("{:.*}", f.decimals, v)
}

fn all_digits(d: &[DecodedSignal]) -> Vec<String> {
    d.iter().map(|s| digits(&s.fmt, value(s))).collect()
}

fn lines(m: &MessageDef, data: &[u8]) -> Vec<String> {
    m.decode_lines(data, &all_digits(&m.decode(data)))
}

#[test]
fn intel_and_motorola_extraction() {
    let data = [0x34, 0x12, 0, 0, 0, 0, 0, 0];
    assert_eq!(extract_bits(&data, 0, 16, true), Some(0x1234));
    // Motorola 16-bit signal with MSB at bit 7 of byte 0 (DBC start 7)
    assert_eq!(extract_bits(&data, 7, 16, false), Some(0x3412));
    assert_eq!(extract_bits(&data, 4, 4, true), Some(0x3));
    assert_eq!(sign_extend(0xFF, 8), -1);
}

#[test]
fn extraction_edges() {
    let data = [0xFF; 8];
    assert_eq!(extract_bits(&data, 0, 64, true), Some(u64::MAX));
    assert_eq!(extract_bits(&data, 7, 64, false), Some(u64::MAX));
    assert_eq!(extract_bits(&data, 0, 0, true), None);
    assert_eq!(extract_bits(&data, 0, 65, true), None);
    assert_eq!(extract_bits(&data, 1, 64, true), None);
    assert_eq!(extract_bits(&data, 60, 8, true), None);
    assert_eq!(extract_bits(&data, u32::MAX, 1, true), None);
    assert_eq!(extract_bits(&[], 0, 1, false), None);
    // only the bytes that hold the bits matter
    assert_eq!(
        extract_bits(&[1, 0x5A, 2], 8, 8, true),
        extract_bits(&[9, 0x5A, 7], 8, 8, true)
    );
    assert_eq!(sign_extend(0x7F, 8), 127);
    assert_eq!(sign_extend(0x80, 8), -128);
    assert_eq!(sign_extend(u64::MAX, 64), -1);
    assert_eq!(sign_extend(1, 1), -1);
    assert_eq!(sign_extend(5, 100), 5);
}

#[test]
fn dbc_decode() {
    let dbc = r#"VERSION ""

NS_ :

BS_:

BU_: ECU

BO_ 256 Engine: 8 ECU
 SG_ RPM : 0|16@1+ (0.25,0) [0|16383] "rpm" Vector__XXX
 SG_ Temp : 16|8@1- (1,-40) [-40|215] "C" Vector__XXX
 SG_ Gear : 31|4@0+ (1,0) [0|8] "" Vector__XXX

VAL_ 256 Gear 0 "P" 1 "R" 2 "N" ;
"#;
    let mut db = parse_dbc(dbc).unwrap();
    finalize(&mut db);
    let m = db.get(MsgKey { id: 256, ext: false }).unwrap();
    assert_eq!(m.name, "Engine");
    let d = m.decode(&[0x10, 0x27, 0x50, 0x20, 0, 0, 0, 0]);
    assert_eq!(value(&d[0]), 2500.0);
    assert_eq!(value(&d[1]), 40.0);
    assert_eq!(d[2].text.as_deref(), Some("N"));
}

#[test]
fn sym_decode() {
    let sym = r#"FormatVersion=6.0 // Do not edit this line!
Title="Test"

{ENUMS}
enum OnOff(0="Off", 1="On")

{SENDRECEIVE}

[Engine]
ID=100h
DLC=8
Var=RPM unsigned 0,16 /u:rpm /f:0.25
Var=Fan bit 16,1 /e:OnOff

[Page0]
ID=1ABCDEF0h
Type=Extended
DLC=8
Mux=Page 0,8 0
Var=A unsigned 8,8

[Page1]
ID=1ABCDEF0h
Type=Extended
DLC=8
Mux=Page 0,8 1
Var=B unsigned 8,8 /u:"km/h"
"#;
    let mut db = parse_sym(sym).unwrap();
    finalize(&mut db);
    let m = db.get(MsgKey { id: 0x100, ext: false }).unwrap();
    let d = m.decode(&[0x10, 0x27, 0x01]);
    assert_eq!(value(&d[0]), 2500.0);
    assert_eq!(d[1].text.as_deref(), Some("On"));

    let m = db.get(MsgKey { id: 0x1ABCDEF0, ext: true }).unwrap();
    assert_eq!(m.name_for(&[1, 5]), "Page1");
    let d = m.decode(&[1, 5]);
    assert_eq!(d.len(), 2);
    assert_eq!(d[1].name, "B");
    assert_eq!(d[1].unit, "km/h");
}

#[test]
fn demo_dbc_loads() {
    let db = demo();
    assert_eq!(db.messages.len(), 7);
    let eec1 = db.get(MsgKey { id: 0x0CF00400, ext: true }).unwrap();
    assert_eq!(eec1.name, "EEC1");
    let mux = db.get(MsgKey { id: 0x201, ext: false }).unwrap();
    let d = mux.decode(&[2, 7, 0xAA, 0x55]);
    assert_eq!(
        d.iter().map(|s| s.name.as_str()).collect::<Vec<_>>(),
        ["Page", "CounterC", "Magic"]
    );
    assert!(db.get(MsgKey { id: 0x100, ext: false }).unwrap().comment.is_some());
}

#[test]
fn width_and_decimals_come_from_definition() {
    let db = demo();
    // RPM: 16-bit unsigned, factor 0.25 -> 0..16383.75
    let rpm = sig(&db, 0x100, "RPM").fmt;
    assert_eq!((rpm.width, rpm.decimals), (8, 2));
    assert_eq!(rpm.number(&digits(&rpm, 100.0)), "  100.00");
    assert_eq!(rpm.number(&digits(&rpm, 1000.0)), " 1000.00");
    assert_eq!(rpm.number(&digits(&rpm, 16383.75)), "16383.75");
    // CoolantTemp: 8-bit, offset -40 -> -40..215 (needs a sign column)
    let temp = sig(&db, 0x100, "CoolantTemp").fmt;
    assert_eq!((temp.width, temp.decimals), (4, 0));
    assert_eq!(temp.number(&digits(&temp, -40.0)), " -40");
    assert_eq!(temp.number(&digits(&temp, 9.0)), "   9");
    // Gear: value table -> number plus text padded to the longest entry
    let gear = sig(&db, 0x200, "Gear").fmt;
    assert_eq!(gear.value(&digits(&gear, 3.0), Some("D1")), "  3 D1");
    assert_eq!(gear.value(&digits(&gear, 0.0), Some("P")), "  0 P ");
    // Speed factor 0.01 -> 2 decimals
    assert_eq!(sig(&db, 0x200, "Speed").fmt.decimals, 2);
}

#[test]
fn column_aligns_decimal_points_and_text() {
    let db = demo();
    let rpm = sig(&db, 0x100, "RPM").fmt; // 5 int digits, 2 decimals
    let temp = sig(&db, 0x100, "CoolantTemp").fmt; // sign + 3 digits, 0 decimals
    let gear = sig(&db, 0x200, "Gear").fmt; // 3 digits + value table
    let col = ValueColumn::fit(&[rpm, temp, gear]);
    let lines = [
        col.render(&digits(&rpm, 1000.0), None),
        col.render(&digits(&temp, -40.0), None),
        col.render(&digits(&gear, 3.0), Some("D1")),
    ];
    assert_eq!(lines[0], " 1000.00   ");
    assert_eq!(lines[1], "  -40      ");
    assert_eq!(lines[2], "    3    D1");
    // same total length -> anything after (units) lines up
    assert!(lines.iter().all(|l| l.len() == lines[2].len()), "{lines:?}");
    assert_eq!(
        col.numbers_only(),
        ValueColumn { int_width: 5, frac_width: 3, text_width: 0 }
    );
    assert_eq!(ValueColumn::fit(&[]), ValueColumn::default());
}

#[test]
fn decimals_for_factors() {
    assert_eq!(decimals(1.0), 0);
    assert_eq!(decimals(0.1), 1);
    assert_eq!(decimals(0.25), 2);
    assert_eq!(decimals(0.125), 3);
    assert_eq!(decimals(0.00390625), 4); // capped
}

#[test]
fn decoded_lines_are_stable() {
    let db = demo();
    let engine = db.get(MsgKey { id: 0x100, ext: false }).unwrap();
    let a = lines(engine, &[0x90, 0x01, 0x30, 0, 0, 0, 0, 0x01]); // 100 rpm
    let b = lines(engine, &[0xA0, 0x0F, 0xFF, 0, 0, 0, 0, 0x0F]); // 1000 rpm
    assert_eq!(a.len(), 3);
    for (x, y) in a.iter().zip(&b) {
        assert_eq!(x.len(), y.len(), "{x:?} vs {y:?}");
    }
    // name padded to the longest name ("RollingCounter"), then the 8-wide value
    assert_eq!(a[0], format!("{:<14}  {} rpm", "RPM", "  100.00"));
    // Units start in the same column on every line.
    let unit_col = |l: &str, u: &str| l.rfind(u).unwrap();
    assert_eq!(unit_col(&a[0], "rpm"), unit_col(&a[1], "degC"));

    // Multiplexed message: same number of lines whatever the mux value.
    let mux = db.get(MsgKey { id: 0x201, ext: false }).unwrap();
    assert_eq!(mux.max_lines, 3);
    for page in 0..6u8 {
        let lines = lines(mux, &[page, 7, 0xAA, 0x55]);
        assert_eq!(lines.len(), 3, "page {page}");
    }
}

#[test]
fn short_frames_show_what_they_hold() {
    let db = demo();
    let engine = message(&db, 0x100, false);
    let d = engine.decode(&[0x90, 0x01]);
    assert_eq!(d.len(), 1);
    assert_eq!(d[0].raw, 0x190);
    assert_eq!(lines(engine, &[]), vec![String::new(), String::new(), String::new()]);
}

#[test]
fn compact_line() {
    let db = demo();
    let d = message(&db, 0x100, false).decode(&[0x90, 0x01, 0x30, 0, 0, 0, 0, 0x01]);
    assert_eq!(
        format_compact(&d, &all_digits(&d)),
        "RPM   100.00 rpm | CoolantTemp    8 degC | RollingCounter  1"
    );
    let g = message(&db, 0x200, false).decode(&[0x10, 0x00, 3]);
    assert_eq!(
        format_compact(&g, &all_digits(&g)),
        "Speed  40.96 km/h | Gear   3 D1"
    );
    assert_eq!(g[1].display_value("3"), "  3 D1");
    assert_eq!(format_compact(&Vec::new(), &Vec::new()), "");
}

#[test]
fn names_of_frames() {
    let db = demo();
    let m = CanMsg::new(num(0.0), 0x100, false, &[0; 8]);
    assert_eq!(db.name(&m), Some("EngineData"));
    let e = CanMsg::new(num(0.0), 0x100, true, &[0; 8]);
    assert_eq!(db.name(&e), None);
    assert!(SymbolDb::default().get(m.key()).is_none());
}

#[test]
fn messages_without_a_bus_id_are_left_out() {
    let text = r#"VERSION ""

NS_ :

BS_:

BU_: ECU

BO_ 4096 TooLarge: 0 Vector__XXX
 SG_ Lost : 0|8@1+ (1,0) [0|0] "" Vector__XXX

BO_ 100 Kept: 100 ECU
 SG_ F : 0|32@1- (2,1) [0|0] "" Vector__XXX
 SG_ D : 0|64@1- (1,0) [0|0] "" Vector__XXX

SIG_VALTYPE_ 100 F : 1;
SIG_VALTYPE_ 100 D : 2;
"#;
    let mut db = parse_dbc(text).unwrap();
    finalize(&mut db);
    assert_eq!(db.messages.len(), 1);
    let m = message(&db, 100, false);
    assert_eq!(m.dlc, 64);
    assert_eq!(m.signals[0].kind, SigKind::Float32);
    assert_eq!(m.signals[1].kind, SigKind::Float64);
    assert_eq!(m.signals[0].fmt, ValueFormat { width: 14, decimals: 4, text_width: 0 });
    let mut data = [0u8; 8];
    data[..4].copy_from_slice(&1.5f32.to_bits().to_le_bytes());
    assert_eq!(value(&m.decode(&data)[0]), 4.0);
    let data = 2.25f64.to_bits().to_le_bytes();
    assert_eq!(value(&m.decode(&data)[1]), 2.25);
}

#[test]
fn dbc_errors() {
    let e = parse_dbc("this is no database").unwrap_err();
    assert!(e.starts_with("DBC parse error: "));
    let raw = read_dbc("this is no database").unwrap_err();
    assert_eq!(e, format!("DBC parse error: {raw}"));
}

#[test]
fn dbc_is_read_field_by_field() {
    let v = read_dbc(DEMO).unwrap();
    assert_eq!(v.len(), 7);
    let engine = v.iter().find(|m| m.name == "EngineData").unwrap();
    assert_eq!(engine.key, MsgKey { id: 256, ext: false });
    assert_eq!(engine.size, 8);
    assert_eq!(engine.comment.as_deref(), Some("Engine speed and temperature"));
    let rpm = &engine.signals[0];
    assert_eq!(rpm.signal.name, "RPM");
    assert_eq!((rpm.signal.start_bit, rpm.signal.size), (0, 16));
    assert!(rpm.signal.little_endian && !rpm.signal.signed);
    assert_eq!(rpm.signal.factor, num(0.25));
    assert_eq!(rpm.signal.unit, "rpm");
    assert_eq!(rpm.mux, DbcMux::Plain);
    assert_eq!(rpm.encoding, DbcType::Unstated);
    assert!(rpm.values.is_none());
    assert_eq!(engine.signals[1].signal.offset, num(-40.0));
    let drive = v.iter().find(|m| m.name == "Drive").unwrap();
    assert!(!drive.signals[0].signal.little_endian);
    assert!(drive.comment.is_none());
    let table = drive.signals[1].values.as_ref().unwrap();
    assert_eq!(table[3], (3, "D1".to_string()));
    let pages = v.iter().find(|m| m.name == "Pages").unwrap();
    assert_eq!(pages.signals[0].mux, DbcMux::Multiplexor);
    assert_eq!(pages.signals[3].mux, DbcMux::Multiplexed(2));
    let eec1 = v.iter().find(|m| m.name == "EEC1").unwrap();
    assert_eq!(eec1.key, MsgKey { id: 0x0CF00400, ext: true });
}

#[test]
fn definitions_from_given_messages() {
    let entry = |name: &str, mux: DbcMux, start: u64| DbcEntry {
        signal: DbcSignal {
            name: name.to_string(),
            start_bit: start,
            size: 8,
            little_endian: true,
            signed: true,
            factor: num(2.0),
            offset: num(1.0),
            unit: "V".to_string(),
        },
        mux,
        encoding: DbcType::Integer,
        values: Some(vec![(-1, "old".to_string()), (-1, "new".to_string())]),
    };
    let one = |name: &str, id: u32, ext: bool| DbcMessage {
        key: MsgKey { id, ext },
        name: name.to_string(),
        size: 3,
        comment: None,
        signals: vec![
            entry("first", DbcMux::Multiplexor, 0),
            entry("second", DbcMux::Multiplexor, 8),
            entry("third", DbcMux::Both(255), 16),
        ],
    };
    let db = define_messages(&vec![
        one("a", 1, false),
        one("b", 1, false),
        one("c", 0x800, false),
        one("d", 0x2000_0000, true),
    ]);
    assert_eq!(db.messages.len(), 1);
    let m = message(&db, 1, false);
    assert_eq!(m.name, "b");
    assert_eq!(m.mux.as_ref().unwrap().name, "second");
    let d = m.decode(&[0, 0xFF, 0xFF]);
    assert_eq!(d.len(), 2);
    assert_eq!(d[1].number, Number::Signed(-1));
    assert_eq!(d[1].text.as_deref(), Some("new"));
    assert_eq!(m.decode(&[0, 0, 0xFF]).len(), 1);
}

#[test]
fn files_by_name_and_contents() {
    let sym = "\u{feff}";
    assert!(SymbolDb::load(sym.as_bytes(), "SYM").unwrap().messages.is_empty());
    let by_contents = b"  FormatVersion=6.0\n{SEND}\n[A]\nID=1h\n";
    assert_eq!(SymbolDb::load(by_contents, "txt").unwrap().messages.len(), 1);
    assert!(SymbolDb::load(b"nothing", "txt").unwrap_err().starts_with("DBC parse error: "));
    // not valid UTF-8: every byte is a character of its own
    assert_eq!(decode_file(&[0x41, 0xE9, 0xFF]), "Aéÿ");
    assert_eq!(decode_file("Aé".as_bytes()), "Aé");
}

#[test]
fn sym_templates_options_and_enums() {
    let sym = r#"FormatVersion=6.0
{ENUMS}
enum Mode(0="Off, really", // first
  1=Auto, 2h="Man", -3="Neg")
{SIGNALS}
Sig=Volt signed 16 /u:V /f:0.1 /o:-5 -m
Sig=Short unsigned
{RECEIVE}
[Block // one]
ID=5h-7h
Sig=Volt 8
Var=Mode unsigned 0,8 /e:Mode
Var=Float float 32,32
[Second]
ID=0x900
Len=4
Mux=Kind 0,8 1Fh -m
Var=X double 8,64
"#;
    let mut db = parse_sym(sym).unwrap();
    finalize(&mut db);
    assert_eq!(db.messages.len(), 1);
    let m = message(&db, 0x900, true);
    assert_eq!(m.dlc, 4);
    assert_eq!(m.name_for(&[0x1F]), "Second");
    assert_eq!(m.mux.as_ref().unwrap().start_bit, sym_motorola_start(0));
    assert_eq!(m.signals[0].mux, Some(0x1F));
    assert_eq!(m.signals[0].kind, SigKind::Float64);
}

#[test]
fn sym_signals_from_templates() {
    let sym = r#"{ENUMS}
enum Mode(0="Off, really",
  1=Auto, 2h="Man", -3="Neg")
{SIGNALS}
Sig=Volt signed 16 /u:V /f:0.1 /o:-5 -m
{RECEIVE}
[Block]
ID=5h-7h
Sig=Volt 8
Var=Mode signed 0,8 /e:Mode
"#;
    let mut db = parse_sym(sym).unwrap();
    finalize(&mut db);
    let m = message(&db, 5, false);
    assert_eq!(m.dlc, 8);
    let volt = &m.signals[0];
    assert!(volt.signed && !volt.little_endian);
    assert_eq!(volt.start_bit, 15);
    assert_eq!((float(volt.factor), float(volt.offset)), (0.1, -5.0));
    assert_eq!(volt.unit, "V");
    let mode = &m.signals[1];
    assert_eq!(mode.values.get(&0).map(|s| s.as_str()), Some("Off, really"));
    assert_eq!(mode.values.get(&1).map(|s| s.as_str()), Some("Auto"));
    assert_eq!(mode.values.get(&2).map(|s| s.as_str()), Some("Man"));
    assert_eq!(mode.values.get(&-3).map(|s| s.as_str()), Some("Neg"));
    let d = m.decode(&[0xFD, 0x00, 0x64]);
    assert_eq!(d[0].number, Number::Signed(100));
    assert_eq!(d[1].text.as_deref(), Some("Neg"));
}

#[test]
fn messages_are_arranged_when_read() {
    let mut db = SymbolDb::load(DEMO.as_bytes(), "dbc").unwrap();
    let layout = |db: &SymbolDb, id: u32| {
        let m = message(db, id, false);
        (m.max_lines, m.name_width)
    };
    assert_eq!(layout(&db, 0x100), (3, "RollingCounter".len()));
    // the multiplexor, one counter and the signal that is always there
    assert_eq!(layout(&db, 0x201), (3, "CounterA".len()));
    assert_eq!(layout(&db, 0xC0), (1, "Count".len()));
    let before: Vec<u64> = {
        let mut k: Vec<u64> = db.messages.keys().copied().collect();
        k.sort();
        k
    };
    finalize(&mut db);
    let mut after: Vec<u64> = db.messages.keys().copied().collect();
    after.sort();
    assert_eq!(before, after);
    assert_eq!(layout(&db, 0x201), (3, "CounterA".len()));
    assert!(message(&db, 0x100, false).value_column.int_width > 0);

    let sym = "{SEND}\n[A]\nID=1h\nMux=Page 0,8 0\nVar=X unsigned 8,8\nVar=Longest unsigned 16,8\n\
        [B]\nID=1h\nMux=Page 0,8 1\nVar=Y unsigned 8,8\n[C]\nID=2h\n[D]\nID=3h\nVar=Z unsigned 0,8\n";
    let db = parse_sym(sym).unwrap();
    assert_eq!(layout(&db, 1), (3, "Longest".len()));
    assert_eq!(layout(&db, 2), (0, 0));
    assert_eq!(layout(&db, 3), (1, 1));
}

#[test]
fn comments_are_stripped() {
    for (line, rest) in [
        ("", ""),
        ("a // b", "a "),
        ("// b", ""),
        ("a / b /", "a / b /"),
        ("a///b", "a"),
        ("\"a//b\" c // d", "\"a//b\" c "),
        ("\"a // b", "\"a // b"),
        ("\"\"\"//\"//", "\"\"\"//\""),
    ] {
        let all: Vec<char> = line.chars().collect();
        let once = strip_comment(&all);
        assert_eq!(once.iter().collect::<String>(), rest);
        assert_eq!(strip_comment(once), once);
    }
}

#[test]
fn sym_comments() {
    let name = |line: &str| {
        let db = parse_sym(&format!("{{SEND}}\n[A]\nID=1h\n{line}\n")).unwrap();
        let m = message(&db, 1, false);
        m.signals.first().map(|s| (s.name.clone(), s.unit.clone()))
    };
    let some = |n: &str, u: &str| Some((n.to_string(), u.to_string()));
    assert_eq!(name("Var=X unsigned 0,8 /u:V // volts"), some("X", "V"));
    assert_eq!(name("Var=X unsigned 0,8 /u:\"a//b\" // volts // more"), some("X", "a//b"));
    assert_eq!(name("Var=X unsigned 0,8 /u:\"a//b\"//\"c\""), some("X", "a//b"));
    assert_eq!(name("Var=X unsigned 0,8 /u:km/h"), some("X", "km/h"));
    assert_eq!(name("// Var=X unsigned 0,8"), None);
    // a quote that is not closed hides what follows
    assert_eq!(name("Var=X unsigned 0,8 /u:\"V // volts"), some("X", "V // volts"));
}

#[test]
fn sym_errors() {
    let with = |line: &str| format!("{{SEND}}\n[A]\nID=1h\n{line}\n");
    let fails = |line: &str| parse_sym(&with(line)).unwrap_err();
    assert_eq!(fails("ID=xyz"), "line 4: ID=xyz: invalid digit found in string");
    assert_eq!(fails("Var=A"), "line 4: Var=A: too few fields");
    assert_eq!(fails("Var=A unsigned"), "line 4: Var=A unsigned: too few fields");
    assert_eq!(fails("Var=A unsigned 5"), "line 4: Var=A unsigned 5: bad bit range");
    assert_eq!(fails("Sig=B 3"), "line 4: Sig=B 3: unknown signal 'B'");
    assert_eq!(
        fails("Var=A unsigned x,1"),
        "line 4: Var=A unsigned x,1: invalid digit found in string"
    );
    assert_eq!(fails("Mux=A 5"), "line 4: Mux=A 5: bad bit range");
}

#[test]
fn motorola_starts_convert_back() {
    for s in 0..64 {
        assert_eq!(sym_motorola_start(sym_motorola_start(s)), s);
    }
    assert_eq!(sym_motorola_start(0), 7);
    assert_eq!(sym_motorola_start(10), 13);
}

#[test]
fn ranges_of_raw_values() {
    let mut s = SignalDef::plain("x".to_string(), 0, 8, true);
    assert_eq!(s.raw_range(), (0, 255));
    s.signed = true;
    assert_eq!(s.raw_range(), (-128, 127));
    s.size = 64;
    assert_eq!(s.raw_range(), (-(1i128 << 63), (1i128 << 63) - 1));
    s.size = 0;
    assert_eq!(s.raw_range(), (-1, 0));
    s.size = 1000;
    s.signed = false;
    assert_eq!(s.raw_range(), (0, (1i128 << 64) - 1));
}
