use can_explorer::candump::{
    can_read_line, format_line, load, parse_line, stamp_text, stamps, LoadedLog,
};
use can_explorer::msg::{CanMsg, Dir};
use can_explorer::number::Real;

fn num(x: f64) -> Real {
    Real { bits: x.to_bits() }
}

fn seconds(text: &str) -> Result<Real, String> {
    text.parse::<f64>().map(num).map_err(|e| format!("{e}"))
}

fn parse(line: &str) -> Result<Option<CanMsg>, String> {
    assert!(can_read_line(line));
    let stamp = match stamp_text(line) {
        Some(t) => seconds(&t),
        None => Ok(num(0.0)),
    };
    parse_line(line, &stamp)
}

fn write(m: &CanMsg, iface: &str) -> String {
    format_line(m, &format!("{:.6}", f64::from_bits(m.ts.bits)), iface)
}

fn load_text(text: &str) -> LoadedLog {
    let times: Vec<Result<Real, String>> = stamps(text)
        .iter()
        .map(|s| match s {
            Some(t) => seconds(t),
            None => Ok(num(0.0)),
        })
        .collect();
    load(text, &times)
}

#[test]
fn roundtrip() {
    let lines = [
        "(1695658000.123456) can0 123#DEADBEEF",
        "(1695658000.123456) can0 12345678#0102",
        "(1695658000.123456) can0 123#R",
        "(1695658000.123456) can0 123#R4",
        "(1695658000.123456) can0 123##1000102030405060708090A0B",
        "(1695658000.123456) can0 7FF#",
    ];
    for l in lines {
        let m = parse(l).unwrap().unwrap();
        assert_eq!(write(&m, "can0"), l, "roundtrip of {l}");
    }
}

#[test]
fn lines_keep_what_counts() {
    let back = |m: &CanMsg| parse(&write(m, "can0"));
    // what stands behind the data is not written
    let mut m = CanMsg::new(num(1.0), 0x123, false, &[1, 2, 3, 4]);
    m.len = 2;
    m.brs = true;
    let r = back(&m).unwrap().unwrap();
    assert_eq!((r.id, r.len, r.brs), (0x123, 2, false));
    assert_eq!(r.data[..4], [1, 2, 0, 0]);
    // FD frames are never remote
    let mut m = CanMsg::new(num(1.0), 0x123, true, &[1; 12]);
    m.rtr = true;
    let r = back(&m).unwrap().unwrap();
    assert_eq!((r.fd, r.rtr, r.data().to_vec()), (true, false, vec![1; 12]));
    // remote frames ask for at most 8 bytes and hold none
    let mut m = CanMsg::new(num(1.0), 0x123, false, &[1; 20]);
    m.fd = false;
    m.rtr = true;
    let r = back(&m).unwrap().unwrap();
    assert_eq!((r.rtr, r.len), (true, 8));
    assert_eq!(r.data, [0; 64]);
    m.rtr = false;
    assert_eq!(back(&m).unwrap_err(), "classic payload > 8 bytes");
}

#[test]
fn screen_format() {
    let m = parse("  can0  1F334455   [4]  11 22 33 44").unwrap().unwrap();
    assert_eq!(m.id, 0x1F334455);
    assert!(m.ext);
    assert_eq!(m.data(), &[0x11, 0x22, 0x33, 0x44]);
}

#[test]
fn screen_format_details() {
    let m = parse("can0 123 [3] remote request").unwrap().unwrap();
    assert!(m.rtr);
    assert_eq!(m.len, 3);
    assert!(!m.ext);
    // no more bytes than the length says
    let m = parse("can0 123 [2] 11 22 33").unwrap().unwrap();
    assert_eq!(m.data(), &[0x11, 0x22]);
    assert_eq!(parse("can0 123").unwrap_err(), "unrecognized line");
    assert_eq!(parse("[2] 11 22").unwrap_err(), "missing id");
    assert_eq!(parse("can0 12G [1] 00").unwrap_err(), "bad id '12G': invalid digit found in string");
    assert_eq!(parse("can0 123 [x] 00").unwrap_err(), "bad length");
    assert_eq!(parse("can0 123 [1] zz").unwrap_err(), "bad data: invalid digit found in string");
}

#[test]
fn lines_without_frames() {
    for l in ["", "   ", "# comment", "// comment"] {
        assert!(parse(l).unwrap().is_none());
        assert!(stamp_text(l).is_none());
    }
}

#[test]
fn token_errors() {
    assert_eq!(parse("can0 20000123#00").unwrap_err(), "error frame");
    assert_eq!(parse("can0 1Z#00").unwrap_err(), "bad id '1Z': invalid digit found in string");
    assert_eq!(parse("can0 #00").unwrap_err(), "bad id '': cannot parse integer from empty string");
    assert_eq!(parse("can0 123##").unwrap_err(), "missing FD flags");
    assert_eq!(parse("can0 123##X00").unwrap_err(), "missing FD flags");
    assert_eq!(parse("can0 123#123").unwrap_err(), "odd-length hex '123'");
    assert_eq!(
        parse("can0 123#0G").unwrap_err(),
        "bad hex '0G': invalid digit found in string"
    );
    assert_eq!(parse("can0 123#001122334455667788").unwrap_err(), "classic payload > 8 bytes");
    let long = format!("can0 123##0{}", "00".repeat(65));
    assert_eq!(parse(&long).unwrap_err(), "FD payload > 64 bytes");
    assert_eq!(
        parse("(abc) can0 123#00").unwrap_err(),
        "bad timestamp 'abc': invalid float literal"
    );
}

#[test]
fn token_details() {
    // dots between bytes, small letters, flags beyond the first
    let m = parse("(1.5) can0 7ff#de.ad.be.ef").unwrap().unwrap();
    assert_eq!(m.data(), &[0xDE, 0xAD, 0xBE, 0xEF]);
    assert_eq!(m.ts, num(1.5));
    let m = parse("can0 123##3AA").unwrap().unwrap();
    assert!(m.fd && m.brs);
    let m = parse("can0 123##2AA").unwrap().unwrap();
    assert!(m.fd && !m.brs);
    assert_eq!(m.ts, num(0.0));
    // the length of a remote frame is cut to 8, anything else counts as none
    assert_eq!(parse("can0 123#R9").unwrap().unwrap().len, 8);
    assert_eq!(parse("can0 123#rx").unwrap().unwrap().len, 0);
    // bits above the ID are dropped
    assert_eq!(parse("can0 DFFFFFFF#").unwrap().unwrap().id, 0x1FFF_FFFF);
}

#[test]
fn lines_that_cut_characters_are_told_apart() {
    assert!(!can_read_line("can0 123#1é2"));
    assert!(!can_read_line("can0 123##01\u{20ac}"));
    assert!(can_read_line("can0 123#Ré"));
    assert!(can_read_line("// can0 123#1é2"));
    assert!(can_read_line("can0 123#é"));
    assert_eq!(parse("can0 123#é").unwrap_err(), "bad hex 'é': invalid digit found in string");
}

#[test]
fn loading_counts_what_it_skips() {
    let log = load_text("# log\r\n(1.0) can0 123#01\r\n\r\nnonsense\n(x) can0 1#\n(3.25) can0 124#02");
    assert_eq!(log.frames.len(), 2);
    assert_eq!(log.skipped, 2);
    assert_eq!(log.frames[0].data(), &[1]);
    assert_eq!(log.frames[1].id, 0x124);
    assert_eq!(log.duration(), num(3.25));
    let none = load_text("");
    assert_eq!((none.frames.len(), none.skipped, none.duration()), (0, 0, num(0.0)));
}

#[test]
fn recordings_load_back() {
    let mut frames = Vec::new();
    for i in 0..20u32 {
        let data: Vec<u8> = (0..(i % 9) as u8).collect();
        let mut m = CanMsg::new(num(100.0 + i as f64 / 4.0), 0x100 + i, i % 3 == 0, &data);
        if i % 5 == 4 {
            m = CanMsg::new(m.ts, m.id, m.ext, &[]);
            m.rtr = true;
            m.len = (i % 9) as u8;
        }
        m.dir = if i % 2 == 0 { Dir::Rx } else { Dir::Tx };
        frames.push(m);
    }
    let mut fd = CanMsg::new(num(200.0), 0x1FFF_FFFF, true, &[9; 48]);
    fd.brs = true;
    frames.push(fd);
    let mut text = String::new();
    for m in &frames {
        text.push_str(&write(m, "vcan_demo"));
        text.push('\n');
    }
    let log = load_text(&text);
    assert_eq!(log.skipped, 0);
    assert_eq!(log.frames.len(), frames.len());
    for (a, b) in log.frames.iter().zip(&frames) {
        assert_eq!((a.id, a.ext, a.rtr, a.fd, a.brs, a.len), (b.id, b.ext, b.rtr, b.fd, b.brs, b.len));
        assert_eq!(a.data, b.data);
        assert_eq!(a.ts, b.ts);
        assert_eq!(a.dir, Dir::Rx);
    }
}
