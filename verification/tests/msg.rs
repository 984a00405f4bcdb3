use can_explorer::msg::{
    can_read_hex, fd_len_ok, hex_bytes, parse_hex_bytes, parse_hex_id, CanMsg, Dir, MsgKey,
};
use can_explorer::number::{parse_i64, IntError, Real};

fn num(x: f64) -> Real {
    Real { bits: x.to_bits() }
}

#[test]
fn hex_parse() {
    assert_eq!(parse_hex_bytes("11 22 aa").unwrap(), vec![0x11, 0x22, 0xAA]);
    assert_eq!(parse_hex_bytes("1122AA").unwrap(), vec![0x11, 0x22, 0xAA]);
    assert_eq!(parse_hex_bytes("1 2 3").unwrap(), vec![1, 2, 3]);
    assert_eq!(parse_hex_bytes("").unwrap(), Vec::<u8>::new());
    assert_eq!(parse_hex_id("0x7ff").unwrap(), 0x7FF);
    assert_eq!(parse_hex_id("123h").unwrap(), 0x123);
}

#[test]
fn hex_bytes_with_separators() {
    assert_eq!(parse_hex_bytes("11,22:33.44").unwrap(), vec![0x11, 0x22, 0x33, 0x44]);
    assert_eq!(parse_hex_bytes("0x1122").unwrap(), vec![0x11, 0x22]);
    assert_eq!(parse_hex_bytes("0xA 0xB 0xC").unwrap(), vec![0xA, 0xB, 0xC]);
    assert_eq!(parse_hex_bytes("0x1 2,3").unwrap(), vec![1, 2, 3]);
    assert_eq!(parse_hex_bytes("\u{2003}11\u{a0}22").unwrap(), vec![0x11, 0x22]);
}

#[test]
fn hex_byte_errors() {
    assert_eq!(parse_hex_bytes("12 3G").unwrap_err(), "'3G': invalid digit found in string");
    assert_eq!(parse_hex_bytes("123").unwrap_err(), "'123': number too large to fit in target type");
    assert_eq!(parse_hex_bytes("0xAA 0xBB").unwrap_err(), "'0x': invalid digit found in string");
    assert_eq!(parse_hex_bytes("1 0x 2 3").unwrap_err(), "'0x': cannot parse integer from empty string");
    assert_eq!(parse_hex_bytes("11é").unwrap_err(), "'é': invalid digit found in string");
}

#[test]
fn texts_with_cut_characters_are_told_apart() {
    assert!(can_read_hex("11 22"));
    assert!(can_read_hex("11é"));
    assert!(!can_read_hex("1é2"));
    assert!(!can_read_hex("1\u{20ac}"));
}

#[test]
fn hex_text_reads_back() {
    for d in [vec![], vec![0u8], vec![0x0A, 0xFF, 0x10], (0..64).collect::<Vec<u8>>()] {
        let text = hex_bytes(&d);
        assert!(can_read_hex(&text));
        assert_eq!(parse_hex_bytes(&text).unwrap(), d);
    }
    assert_eq!(hex_bytes(&[0x11, 0x02, 0xAA]), "11 02 AA");
}

#[test]
fn ids() {
    assert_eq!(parse_hex_id(" 0X7FF ").unwrap(), 0x7FF);
    assert_eq!(parse_hex_id("0x0x12hH").unwrap(), 0x12);
    assert_eq!(
        parse_hex_id("100000000").unwrap_err(),
        "invalid ID '100000000': number too large to fit in target type"
    );
    assert_eq!(
        parse_hex_id("h").unwrap_err(),
        "invalid ID 'h': cannot parse integer from empty string"
    );
    assert_eq!(parse_hex_id("-1").unwrap_err(), "invalid ID '-1': invalid digit found in string");
    for (id, ext) in [(0u32, false), (0x7FF, false), (0x1FFF_FFFF, true), (0xFFFF_FFFF, true)] {
        let text = MsgKey { id, ext }.fmt_id();
        assert_eq!(parse_hex_id(&text).unwrap(), id);
    }
    assert_eq!(MsgKey { id: 0x1A, ext: false }.fmt_id(), "01A");
    assert_eq!(MsgKey { id: 0x1A, ext: true }.fmt_id(), "0000001A");
}

#[test]
fn codes_tell_keys_apart() {
    let a = MsgKey { id: 5, ext: false };
    let b = MsgKey { id: 5, ext: true };
    assert_eq!(a.code(), 5);
    assert_eq!(b.code(), 0x1_0000_0005);
    assert_ne!(a.code(), b.code());
}

#[test]
fn frames() {
    let m = CanMsg::new(num(1.5), 0x123, false, &[1, 2, 3]);
    assert_eq!(m.data(), &[1, 2, 3]);
    assert_eq!(m.data_hex(), "01 02 03");
    assert_eq!((m.fd, m.rtr, m.brs, m.dir), (false, false, false, Dir::Rx));
    assert_eq!(m.key(), MsgKey { id: 0x123, ext: false });
    assert_eq!(m.ts, num(1.5));

    let long = CanMsg::new(num(0.0), 1, true, &[7; 70]);
    assert_eq!(long.len, 64);
    assert!(long.fd);
    assert_eq!(long.data(), &[7; 64]);

    let mut remote = m;
    remote.rtr = true;
    assert_eq!(remote.data_hex(), "RTR");
}

#[test]
fn fd_lengths() {
    let ok: Vec<usize> = (0..=70).filter(|n| fd_len_ok(*n)).collect();
    assert_eq!(ok, vec![0, 1, 2, 3, 4, 5, 6, 7, 8, 12, 16, 20, 24, 32, 48, 64]);
}

#[test]
fn signed_numbers() {
    let read = |s: &str| parse_i64(&s.chars().collect::<Vec<char>>());
    assert_eq!(read("-9223372036854775808"), Some(i64::MIN));
    assert_eq!(read("9223372036854775807"), Some(i64::MAX));
    assert_eq!(read("9223372036854775808"), None);
    assert_eq!(read("-"), None);
    assert_eq!(read("+12"), Some(12));
    assert_eq!(IntError::TooSmall.text(), "number too small to fit in target type");
}

#[test]
fn reals_compare_as_numbers_do() {
    let v = [
        f64::NEG_INFINITY, -2.5, -0.0, 0.0, 1e-300, 1.0, 2.5, f64::MAX, f64::INFINITY, f64::NAN,
    ];
    for a in v {
        for b in v {
            assert_eq!(num(a).less(num(b)), a < b);
            let low = f64::from_bits(num(a).lower(num(b)).bits);
            let high = f64::from_bits(num(a).upper(num(b)).bits);
            assert!(low == a.min(b) || (low.is_nan() && a.min(b).is_nan()));
            assert!(high == a.max(b) || (high.is_nan() && a.max(b).is_nan()));
        }
        assert_eq!(num(a).is_nan(), a.is_nan());
        assert_eq!(num(a).nonneg(), a >= 0.0);
    }
}
