//! Reading and writing `candump -L` style log lines.
//!
//! Log line format: `(1695658000.123456) can0 123#DEADBEEF`
//!   * extended IDs use 8 hex digits: `12345678#00`
//!   * remote frames: `123#R` or `123#R4`
//!   * CAN FD: `123##<flags nibble><data>` (flag 1 = BRS, 2 = ESI)

use vstd::prelude::*;
use vstd::slice::slice_subrange;
use crate::msg::{
    data_frame, even_size, hex_pairs, id_text, is_plain, is_remote, law_what_is_read_back, least,
    pairs_whole, put_id, read_back, read_pairs, CanMsg, Dir, Frame, HexScan,
};
use crate::number::{
    decimal, digit_of, digit_value, hex_padded, is_hex_char, lemma_decimal, lemma_hex_padded,
    lemma_hex_width, parse_uint, parsed, put_decimal, put_hex, IntError, Real,
};
use crate::text::{
    chars_of, drop_back, drop_front, find, in_class, is_text, is_white, lemma_ascii_bytes,
    lemma_find, lemma_find_at, lemma_trimmed_same, lemma_words_around, lemma_words_single,
    lemma_words_within, lines, lower_all, lowered, position, put, put_chars, skip_back, skip_front,
    split_lines, split_words, starts_text, string_of, text_bytes, trim, trimmed, views, words,
    Class,
};

verus! {

/// Bytes as pairs of hexadecimal digits.
pub open spec fn plain_hex(d: Seq<u8>) -> Seq<char>
    decreases d.len(),
{
    if d.len() == 0 {
        Seq::empty()
    } else {
        plain_hex(d.drop_last()) + hex_padded(d.last() as int, 2)
    }
}

/// The frame part of a log line.
pub open spec fn frame_text(m: Frame) -> Seq<char> {
    let id = id_text(m.id, m.ext);
    if m.fd {
        id + "##"@ + seq![
            if m.brs {
                '1'
            } else {
                '0'
            },
        ] + plain_hex(m.data.take(m.len))
    } else if m.rtr {
        id + "#R"@ + (if m.len > 0 {
            decimal(m.len)
        } else {
            Seq::empty()
        })
    } else {
        id + "#"@ + plain_hex(m.data.take(m.len))
    }
}

/// A log line.
pub open spec fn line_text(m: Frame, stamp: Seq<char>, iface: Seq<char>) -> Seq<char> {
    "("@ + stamp + ") "@ + iface + " "@ + frame_text(m)
}

fn put_plain_hex(out: &mut Vec<char>, d: &[u8])
    ensures
        final(out)@ == old(out)@ + plain_hex(d@),
{
    let mut i: usize = 0;
    let ghost start = out@;
    assert(start + plain_hex(d@.take(0)) =~= start);
    while i < d.len()
        invariant
            i <= d@.len(),
            out@ == start + plain_hex(d@.take(i as int)),
        decreases d@.len() - i,
    {
        put_hex(out, d[i] as u64, 2);
        proof {
            let t = d@.take(i + 1);
            assert(t.drop_last() =~= d@.take(i as int));
            assert(t.last() == d@[i as int]);
            assert(out@ =~= start + plain_hex(t));
        }
        i = i + 1;
    }
    assert(d@.take(i as int) =~= d@);
}

/// Writes a log line; `stamp` is the time of the frame in seconds, as text.
pub fn format_line(msg: &CanMsg, stamp: &str, iface: &str) -> (r: String)
    requires
        msg.wf(),
    ensures
        r@ == line_text(msg@, stamp@, iface@),
{
    let mut out: Vec<char> = Vec::new();
    put(&mut out, "(");
    put(&mut out, stamp);
    put(&mut out, ") ");
    put(&mut out, iface);
    put(&mut out, " ");
    let ghost head = "("@ + stamp@ + ") "@ + iface@ + " "@;
    assert(out@ =~= head);
    put_id(&mut out, msg.id, msg.ext);
    if msg.fd {
        put(&mut out, "##");
        if msg.brs {
            out.push('1');
        } else {
            out.push('0');
        }
        put_plain_hex(&mut out, msg.data());
    } else if msg.rtr {
        put(&mut out, "#R");
        if msg.len > 0 {
            put_decimal(&mut out, msg.len as u64);
        }
    } else {
        put(&mut out, "#");
        put_plain_hex(&mut out, msg.data());
    }
    assert(out@ =~= head + frame_text(msg@));
    string_of(out.as_slice())
}

/// Reads pairs of hexadecimal digits.
pub open spec fn decoded(s: Seq<char>) -> Result<Seq<u8>, Seq<char>> {
    if text_bytes(s) % 2 != 0 {
        Err("odd-length hex '"@ + s + "'"@)
    } else {
        match hex_pairs(Seq::empty(), s) {
            HexScan::Bytes(d) => Ok(d),
            HexScan::Bad(_, e) => Err("bad hex '"@ + s + "': "@ + e.message()),
            HexScan::Cut => Err(Seq::empty()),
        }
    }
}

/// Whether [`decode_hex`] can read the text without cutting a character in two.
pub open spec fn decodable(s: Seq<char>) -> bool {
    text_bytes(s) % 2 == 0 ==> pairs_whole(s)
}

/// `s` without dots.
pub open spec fn undotted(s: Seq<char>) -> Seq<char>
    decreases s.len(),
{
    if s.len() == 0 {
        s
    } else if s.last() == '.' {
        undotted(s.drop_last())
    } else {
        undotted(s.drop_last()).push(s.last())
    }
}

/// The message about an ID that is no number.
pub open spec fn bad_id(s: Seq<char>, e: IntError) -> Seq<char> {
    "bad id '"@ + s + "': "@ + e.message()
}

/// A remote frame asking for `len` bytes.
pub open spec fn remote_frame(ts: Real, id: u32, ext: bool, len: int) -> Frame {
    Frame { rtr: true, len: len, ..data_frame(ts, id, ext, Seq::empty()) }
}

/// What stands behind the first `#` of a frame token.
pub open spec fn token_rest(tok: Seq<char>) -> Seq<char> {
    tok.skip(find(tok, Class::One('#')) + 1)
}

/// The digits that a frame token holds as data, where it holds any.
pub open spec fn token_data(tok: Seq<char>) -> Seq<char> {
    let rest = token_rest(tok);
    if rest.len() > 0 && rest[0] == '#' {
        rest.skip(2)
    } else {
        undotted(rest)
    }
}

/// The frame that a token such as `123#DEADBEEF` stands for.
pub open spec fn token_frame(ts: Real, tok: Seq<char>) -> Result<Frame, Seq<char>> {
    let id_str = tok.take(find(tok, Class::One('#')));
    let rest = token_rest(tok);
    match parsed(id_str, 16, u32::MAX as int) {
        Err(e) => Err(bad_id(id_str, e)),
        Ok(raw) => {
            let ext = id_str.len() > 3;
            let id = (raw % 0x2000_0000) as u32;
            if ext && (raw / 0x2000_0000) % 2 == 1 {
                Err("error frame"@)
            } else if rest.len() > 0 && rest[0] == '#' {
                if rest.len() < 2 || digit_value(rest[1]) >= 16 {
                    Err("missing FD flags"@)
                } else {
                    match decoded(rest.skip(2)) {
                        Err(e) => Err(e),
                        Ok(d) => if d.len() > 64 {
                            Err("FD payload > 64 bytes"@)
                        } else {
                            Ok(
                                Frame {
                                    fd: true,
                                    brs: digit_value(rest[1]) % 2 == 1,
                                    ..data_frame(ts, id, ext, d)
                                },
                            )
                        },
                    }
                }
            } else if rest.len() > 0 && (rest[0] == 'R' || rest[0] == 'r') {
                let len = match parsed(rest.skip(1), 10, 0xFF) {
                    Ok(n) => least(n, 8),
                    Err(_) => 0,
                };
                Ok(remote_frame(ts, id, ext, len))
            } else {
                match decoded(undotted(rest)) {
                    Err(e) => Err(e),
                    Ok(d) => if d.len() > 8 {
                        Err("classic payload > 8 bytes"@)
                    } else {
                        Ok(data_frame(ts, id, ext, d))
                    },
                }
            }
        },
    }
}

/// Whether [`parse_frame_token`] can read the token without cutting a character in two.
pub open spec fn token_readable(tok: Seq<char>) -> bool {
    let id_str = tok.take(find(tok, Class::One('#')));
    let rest = token_rest(tok);
    match parsed(id_str, 16, u32::MAX as int) {
        Err(_) => true,
        Ok(raw) => {
            ||| id_str.len() > 3 && (raw / 0x2000_0000) % 2 == 1
            ||| rest.len() > 0 && rest[0] == '#' && (rest.len() < 2 || digit_value(rest[1]) >= 16)
            ||| rest.len() > 0 && (rest[0] == 'R' || rest[0] == 'r')
            ||| decodable(token_data(tok))
        },
    }
}

/// Bytes from one hexadecimal number per token.
pub open spec fn token_bytes(acc: Seq<u8>, t: Seq<Seq<char>>) -> Result<Seq<u8>, IntError>
    decreases t.len(),
{
    if t.len() == 0 {
        Ok(acc)
    } else {
        match parsed(t[0], 16, 0xFF) {
            Ok(v) => token_bytes(acc.push(v as u8), t.skip(1)),
            Err(e) => Err(e),
        }
    }
}

/// Index of the first token that begins with `c`, or the number of tokens.
pub open spec fn first_starting(t: Seq<Seq<char>>, c: char) -> int
    decreases t.len(),
{
    if t.len() == 0 || (t[0].len() > 0 && t[0][0] == c) {
        0
    } else {
        1 + first_starting(t.skip(1), c)
    }
}

/// Index of the first token with a `#` in it, or the number of tokens.
pub open spec fn first_hash(t: Seq<Seq<char>>) -> int
    decreases t.len(),
{
    if t.len() == 0 || find(t[0], Class::One('#')) < t[0].len() {
        0
    } else {
        1 + first_hash(t.skip(1))
    }
}

/// The frame that tokens such as `can0 123 [4] 11 22 33 44` stand for.
pub open spec fn screen_frame(ts: Real, t: Seq<Seq<char>>) -> Result<Frame, Seq<char>> {
    let lb = first_starting(t, '[');
    if lb >= t.len() {
        Err("unrecognized line"@)
    } else if lb == 0 {
        Err("missing id"@)
    } else {
        match parsed(t[lb - 1], 16, u32::MAX as int) {
            Err(e) => Err(bad_id(t[lb - 1], e)),
            Ok(raw) => {
                let ext = t[lb - 1].len() > 3;
                let brackets = Class::Either('[', ']');
                match parsed(
                    skip_back(skip_front(t[lb], brackets), brackets),
                    10,
                    usize::MAX as int,
                ) {
                    Err(_) => Err("bad length"@),
                    Ok(n) => {
                        let rest = t.skip(lb + 1);
                        if rest.len() > 0 && lowered(rest[0]) == "remote"@ {
                            Ok(remote_frame(ts, raw as u32, ext, least(n, 8)))
                        } else {
                            match token_bytes(
                                Seq::empty(),
                                rest.take(least(n, rest.len() as int)),
                            ) {
                                Err(e) => Err("bad data: "@ + e.message()),
                                Ok(d) => Ok(data_frame(ts, raw as u32, ext, d)),
                            }
                        }
                    },
                }
            },
        }
    }
}

/// Lines that hold no frame: blank ones and comments.
pub open spec fn is_comment(t: Seq<char>) -> bool {
    t.len() == 0 || t[0] == '#' || "//"@.is_prefix_of(t)
}

/// Whether the first of the tokens is a time in parentheses.
pub open spec fn has_stamp(t: Seq<Seq<char>>) -> bool {
    t.len() > 0 && t[0].len() > 0 && t[0][0] == '('
}

/// The text of a time without its parentheses.
pub open spec fn stamp_inner(tok: Seq<char>) -> Seq<char> {
    skip_back(skip_front(tok, Class::One('(')), Class::One(')'))
}

/// The time that a line gives, as text.
pub open spec fn line_stamp(line: Seq<char>) -> Option<Seq<char>> {
    let t = trimmed(line);
    let w = words(t, Class::White);
    if !is_comment(t) && has_stamp(w) {
        Some(stamp_inner(w[0]))
    } else {
        None
    }
}

/// The tokens of a line behind its time.
pub open spec fn frame_tokens(line: Seq<char>) -> Seq<Seq<char>> {
    let w = words(trimmed(line), Class::White);
    if has_stamp(w) {
        w.skip(1)
    } else {
        w
    }
}

/// The frame that the tokens stand for, in either format.
pub open spec fn tokens_frame(ts: Real, t: Seq<Seq<char>>) -> Result<Frame, Seq<char>> {
    if first_hash(t) < t.len() {
        token_frame(ts, t[first_hash(t)])
    } else {
        screen_frame(ts, t)
    }
}

/// The message about a time that is no number.
pub open spec fn bad_stamp(inner: Seq<char>, e: Seq<char>) -> Seq<char> {
    "bad timestamp '"@ + inner + "': "@ + e
}

/// The number zero.
pub open spec fn zero() -> Real {
    Real { bits: 0 }
}

/// What a line stands for. `stamp` is the number that the line's time stands for, or
/// why it is none; a line without a time is at zero.
pub open spec fn line_frame(line: Seq<char>, stamp: Result<Real, Seq<char>>) -> Result<
    Option<Frame>,
    Seq<char>,
> {
    if is_comment(trimmed(line)) {
        Ok(None)
    } else {
        match (line_stamp(line), stamp) {
            (Some(inner), Err(e)) => Err(bad_stamp(inner, e)),
            (Some(_), Ok(ts)) => match tokens_frame(ts, frame_tokens(line)) {
                Ok(f) => Ok(Some(f)),
                Err(e) => Err(e),
            },
            (None, _) => match tokens_frame(zero(), frame_tokens(line)) {
                Ok(f) => Ok(Some(f)),
                Err(e) => Err(e),
            },
        }
    }
}

/// Whether [`parse_line`] can read the line without cutting a character in two.
pub open spec fn line_readable(line: Seq<char>) -> bool {
    let t = frame_tokens(line);
    !is_comment(trimmed(line)) && first_hash(t) < t.len() ==> token_readable(t[first_hash(t)])
}

fn fail(s: &str) -> (r: String)
    ensures
        r@ == s@,
{
    s.to_string()
}

fn decode_hex(s: &[char]) -> (r: Result<Vec<u8>, String>)
    requires
        decodable(s@),
    ensures
        match r {
            Ok(v) => decoded(s@) == Ok::<Seq<u8>, Seq<char>>(v@),
            Err(e) => decoded(s@) == Err::<Seq<u8>, Seq<char>>(e@),
        },
{
    let mut out: Vec<char> = Vec::new();
    if !even_size(s) {
        put(&mut out, "odd-length hex '");
        put_chars(&mut out, s);
        put(&mut out, "'");
        assert(out@ =~= "odd-length hex '"@ + s@ + "'"@);
        return Err(string_of(out.as_slice()));
    }
    match read_pairs(s) {
        Some(Ok(v)) => Ok(v),
        Some(Err(e)) => {
            put(&mut out, "bad hex '");
            put_chars(&mut out, s);
            put(&mut out, "': ");
            put(&mut out, e.1.text());
            assert(out@ =~= "bad hex '"@ + s@ + "': "@ + e.1.message());
            Err(string_of(out.as_slice()))
        },
        None => vstd::pervasive::unreached(),
    }
}

fn without_dots(s: &[char]) -> (r: Vec<char>)
    ensures
        r@ == undotted(s@),
{
    let mut v: Vec<char> = Vec::new();
    let mut i: usize = 0;
    while i < s.len()
        invariant
            i <= s@.len(),
            v@ == undotted(s@.take(i as int)),
        decreases s@.len() - i,
    {
        assert(s@.take(i + 1).drop_last() =~= s@.take(i as int));
        if s[i] != '.' {
            v.push(s[i]);
        }
        i = i + 1;
    }
    assert(s@.take(i as int) =~= s@);
    v
}

fn describe_bad_id(s: &[char], e: IntError) -> (r: String)
    ensures
        r@ == bad_id(s@, e),
{
    let mut out: Vec<char> = Vec::new();
    put(&mut out, "bad id '");
    put_chars(&mut out, s);
    put(&mut out, "': ");
    put(&mut out, e.text());
    assert(out@ =~= bad_id(s@, e));
    string_of(out.as_slice())
}

fn new_remote(ts: Real, id: u32, ext: bool, len: u8) -> (r: CanMsg)
    requires
        len <= 8,
    ensures
        r.wf(),
        r@ == remote_frame(ts, id, ext, len as int),
{
    let none: Vec<u8> = Vec::new();
    let mut m = CanMsg::new(ts, id, ext, none.as_slice());
    m.rtr = true;
    m.len = len;
    assert(none@ =~= Seq::<u8>::empty());
    m
}

/// The result of a parser, as its specification gives it.
pub open spec fn matches_frame(
    r: Result<CanMsg, String>,
    f: Result<Frame, Seq<char>>,
) -> bool {
    match r {
        Ok(m) => m.wf() && f == Ok::<Frame, Seq<char>>(m@),
        Err(e) => f == Err::<Frame, Seq<char>>(e@),
    }
}

fn parse_frame_token(ts: Real, tok: &[char]) -> (r: Result<CanMsg, String>)
    requires
        find(tok@, Class::One('#')) < tok@.len(),
        token_readable(tok@),
    ensures
        matches_frame(r, token_frame(ts, tok@)),
{
    let n: usize = tok.len();
    let h: usize = position(tok, Class::One('#'));
    let id_str = slice_subrange(tok, 0, h);
    let rest = slice_subrange(tok, h + 1, n);
    assert(id_str@ =~= tok@.take(h as int));
    assert(rest@ =~= token_rest(tok@));
    let raw: u32 = match parse_uint(id_str, 16, 0xFFFF_FFFF) {
        Ok(v) => v as u32,
        Err(e) => {
            return Err(describe_bad_id(id_str, e));
        },
    };
    let ext = id_str.len() > 3;
    if ext && (raw / 0x2000_0000) % 2 == 1 {
        return Err(fail("error frame"));
    }
    let id: u32 = raw % 0x2000_0000;
    if rest.len() > 0 && rest[0] == '#' {
        if rest.len() < 2 || digit_of(rest[1]) >= 16 {
            return Err(fail("missing FD flags"));
        }
        let flags: u32 = digit_of(rest[1]);
        let hex = slice_subrange(rest, 2, rest.len());
        assert(hex@ =~= rest@.skip(2));
        let d = match decode_hex(hex) {
            Ok(d) => d,
            Err(e) => {
                return Err(e);
            },
        };
        if d.len() > 64 {
            return Err(fail("FD payload > 64 bytes"));
        }
        let mut m = CanMsg::new(ts, id, ext, d.as_slice());
        m.fd = true;
        m.brs = flags % 2 == 1;
        return Ok(m);
    }
    if rest.len() > 0 && (rest[0] == 'R' || rest[0] == 'r') {
        let num = slice_subrange(rest, 1, rest.len());
        assert(num@ =~= rest@.skip(1));
        let len: u8 = match parse_uint(num, 10, 0xFF) {
            Ok(n) => if n < 8 {
                n as u8
            } else {
                8
            },
            Err(_) => 0,
        };
        return Ok(new_remote(ts, id, ext, len));
    }
    let hex = without_dots(rest);
    let d = match decode_hex(hex.as_slice()) {
        Ok(d) => d,
        Err(e) => {
            return Err(e);
        },
    };
    if d.len() > 8 {
        return Err(fail("classic payload > 8 bytes"));
    }
    Ok(CanMsg::new(ts, id, ext, d.as_slice()))
}

fn find_starting(t: &Vec<Vec<char>>, from: usize, c: char) -> (r: usize)
    requires
        from <= t@.len(),
    ensures
        from <= r <= t@.len(),
        r - from == first_starting(views(t@).skip(from as int), c),
    decreases t@.len() - from,
{
    let ghost s = views(t@).skip(from as int);
    if from == t.len() {
        return from;
    }
    assert(s[0] == t@[from as int]@);
    if t[from].len() > 0 && t[from][0] == c {
        return from;
    }
    assert(s.skip(1) =~= views(t@).skip(from + 1));
    find_starting(t, from + 1, c)
}

fn find_hash(t: &Vec<Vec<char>>, from: usize) -> (r: usize)
    requires
        from <= t@.len(),
    ensures
        from <= r <= t@.len(),
        r - from == first_hash(views(t@).skip(from as int)),
        r < t@.len() ==> find(t@[r as int]@, Class::One('#')) < t@[r as int]@.len(),
    decreases t@.len() - from,
{
    let ghost s = views(t@).skip(from as int);
    if from == t.len() {
        return from;
    }
    assert(s[0] == t@[from as int]@);
    if position(t[from].as_slice(), Class::One('#')) < t[from].len() {
        return from;
    }
    assert(s.skip(1) =~= views(t@).skip(from + 1));
    find_hash(t, from + 1)
}

fn read_tokens(t: &Vec<Vec<char>>, from: usize, to: usize) -> (r: Result<Vec<u8>, IntError>)
    requires
        from <= to <= t@.len(),
    ensures
        match r {
            Ok(v) => token_bytes(Seq::empty(), views(t@).subrange(from as int, to as int)) == Ok::<
                Seq<u8>,
                IntError,
            >(v@),
            Err(e) => token_bytes(Seq::empty(), views(t@).subrange(from as int, to as int))
                == Err::<Seq<u8>, IntError>(e),
        },
{
    let mut out: Vec<u8> = Vec::new();
    let mut i: usize = from;
    let ghost all = views(t@).subrange(from as int, to as int);
    while i < to
        invariant
            from <= i <= to,
            to <= t@.len(),
            all == views(t@).subrange(from as int, to as int),
            token_bytes(Seq::empty(), all) == token_bytes(
                out@,
                views(t@).subrange(i as int, to as int),
            ),
        decreases to - i,
    {
        let ghost s = views(t@).subrange(i as int, to as int);
        assert(s[0] == t@[i as int]@);
        assert(s.skip(1) =~= views(t@).subrange(i + 1, to as int));
        match parse_uint(t[i].as_slice(), 16, 0xFF) {
            Ok(v) => {
                out.push(v as u8);
            },
            Err(e) => {
                return Err(e);
            },
        }
        i = i + 1;
    }
    Ok(out)
}

fn parse_screen_format(ts: Real, t: &Vec<Vec<char>>, from: usize) -> (r: Result<CanMsg, String>)
    requires
        from <= t@.len(),
    ensures
        matches_frame(r, screen_frame(ts, views(t@).skip(from as int))),
{
    let ghost s = views(t@).skip(from as int);
    let lb: usize = find_starting(t, from, '[');
    if lb == t.len() {
        return Err(fail("unrecognized line"));
    }
    if lb == from {
        return Err(fail("missing id"));
    }
    let id_str = t[lb - 1].as_slice();
    assert(id_str@ == s[lb - from - 1]);
    let id: u32 = match parse_uint(id_str, 16, 0xFFFF_FFFF) {
        Ok(v) => v as u32,
        Err(e) => {
            return Err(describe_bad_id(id_str, e));
        },
    };
    let ext = id_str.len() > 3;
    let brackets = Class::Either('[', ']');
    assert(s[lb - from] == t@[lb as int]@);
    let num = drop_back(drop_front(t[lb].as_slice(), brackets), brackets);
    let n: usize = match parse_uint(num, 10, usize::MAX as u64) {
        Ok(v) => v as usize,
        Err(_) => {
            return Err(fail("bad length"));
        },
    };
    let ghost rest = s.skip(lb - from + 1);
    let first: usize = lb + 1;
    if first < t.len() {
        assert(rest[0] == t@[first as int]@);
        let l = lower_all(t[first].as_slice());
        if is_text(l.as_slice(), "remote") {
            let len: u8 = if n < 8 {
                n as u8
            } else {
                8
            };
            return Ok(new_remote(ts, id, ext, len));
        }
    }
    let to: usize = if n < t.len() - first {
        first + n
    } else {
        t.len()
    };
    assert(views(t@).subrange(first as int, to as int) =~= rest.take(
        least(n as int, rest.len() as int),
    ));
    match read_tokens(t, first, to) {
        Ok(d) => Ok(CanMsg::new(ts, id, ext, d.as_slice())),
        Err(e) => {
            let mut out: Vec<char> = Vec::new();
            put(&mut out, "bad data: ");
            put(&mut out, e.text());
            assert(out@ =~= "bad data: "@ + e.message());
            Err(string_of(out.as_slice()))
        },
    }
}

fn comment_line(t: &[char]) -> (r: bool)
    ensures
        r == is_comment(t@),
{
    t.len() == 0 || t[0] == '#' || starts_text(t, "//")
}

/// The time that a line gives, as text; `None` when the line has none.
pub fn stamp_text(line: &str) -> (r: Option<String>)
    ensures
        match r {
            Some(s) => line_stamp(line@) == Some(s@),
            None => line_stamp(line@) is None,
        },
{
    let all = chars_of(line);
    let t = trim(all.as_slice());
    if comment_line(t) {
        return None;
    }
    let w = split_words(t, Class::White);
    assert(views(w@).len() == w@.len());
    if w.len() == 0 {
        return None;
    }
    assert(views(w@)[0] == w@[0]@);
    if w[0].len() == 0 || w[0][0] != '(' {
        return None;
    }
    let inner = drop_back(drop_front(w[0].as_slice(), Class::One('(')), Class::One(')'));
    Some(string_of(inner))
}

/// Tests whether [`parse_line`] takes the line.
pub fn can_read_line(line: &str) -> (r: bool)
    ensures
        r == line_readable(line@),
{
    let all = chars_of(line);
    let t = trim(all.as_slice());
    if comment_line(t) {
        return true;
    }
    let w = split_words(t, Class::White);
    let ghost v = views(w@);
    let from: usize = if w.len() > 0 && w[0].len() > 0 && w[0][0] == '(' {
        1
    } else {
        0
    };
    assert(w@.len() > 0 ==> v[0] == w@[0]@);
    assert(v.skip(0) =~= v);
    let h: usize = find_hash(&w, from);
    if h == w.len() {
        return true;
    }
    assert(frame_tokens(line@)[h - from] == w@[h as int]@);
    can_read_token(w[h].as_slice())
}

fn can_read_token(tok: &[char]) -> (r: bool)
    requires
        find(tok@, Class::One('#')) < tok@.len(),
    ensures
        r == token_readable(tok@),
{
    let n: usize = tok.len();
    let h: usize = position(tok, Class::One('#'));
    let id_str = slice_subrange(tok, 0, h);
    let rest = slice_subrange(tok, h + 1, n);
    assert(id_str@ =~= tok@.take(h as int));
    assert(rest@ =~= token_rest(tok@));
    let raw: u64 = match parse_uint(id_str, 16, 0xFFFF_FFFF) {
        Ok(v) => v,
        Err(_) => {
            return true;
        },
    };
    if id_str.len() > 3 && (raw / 0x2000_0000) % 2 == 1 {
        return true;
    }
    if rest.len() > 0 && (rest[0] == 'R' || rest[0] == 'r') {
        return true;
    }
    if rest.len() > 0 && rest[0] == '#' {
        if rest.len() < 2 || digit_of(rest[1]) >= 16 {
            return true;
        }
        let hex = slice_subrange(rest, 2, rest.len());
        assert(hex@ =~= rest@.skip(2));
        return can_decode(hex);
    }
    let hex = without_dots(rest);
    can_decode(hex.as_slice())
}

fn can_decode(s: &[char]) -> (r: bool)
    ensures
        r == decodable(s@),
{
    if !even_size(s) {
        return true;
    }
    match read_pairs(s) {
        None => false,
        _ => true,
    }
}

/// The error of a reading of a time, as its specification gives it.
pub open spec fn stamp_view(stamp: Result<Real, String>) -> Result<Real, Seq<char>> {
    match stamp {
        Ok(v) => Ok(v),
        Err(e) => Err(e@),
    }
}

/// Reads one log line. `Ok(None)` for blank lines and comments. `stamp` is the number
/// that [`stamp_text`] of the line stands for, or why it is none.
pub fn parse_line(line: &str, stamp: &Result<Real, String>) -> (r: Result<Option<CanMsg>, String>)
    requires
        line_readable(line@),
    ensures
        match r {
            Ok(Some(m)) => m.wf() && line_frame(line@, stamp_view(*stamp)) == Ok::<
                Option<Frame>,
                Seq<char>,
            >(Some(m@)),
            Ok(None) => line_frame(line@, stamp_view(*stamp)) == Ok::<Option<Frame>, Seq<char>>(
                None,
            ),
            Err(e) => line_frame(line@, stamp_view(*stamp)) == Err::<Option<Frame>, Seq<char>>(e@),
        },
{
    let all = chars_of(line);
    let t = trim(all.as_slice());
    if comment_line(t) {
        return Ok(None);
    }
    let w = split_words(t, Class::White);
    let ghost v = views(w@);
    let mut from: usize = 0;
    let mut ts = Real { bits: 0 };
    assert(v.skip(0) =~= v);
    if w.len() > 0 && w[0].len() > 0 && w[0][0] == '(' {
        assert(v[0] == w@[0]@);
        match stamp {
            Ok(n) => {
                ts = *n;
            },
            Err(e) => {
                let inner = drop_back(
                    drop_front(w[0].as_slice(), Class::One('(')),
                    Class::One(')'),
                );
                let mut out: Vec<char> = Vec::new();
                put(&mut out, "bad timestamp '");
                put_chars(&mut out, inner);
                put(&mut out, "': ");
                put(&mut out, e.as_str());
                assert(out@ =~= bad_stamp(inner@, e@));
                return Err(string_of(out.as_slice()));
            },
        }
        from = 1;
    }
    assert(w@.len() > 0 ==> v[0] == w@[0]@);
    assert(v.skip(from as int) =~= frame_tokens(line@));
    let h: usize = find_hash(&w, from);
    let m = if h < w.len() {
        assert(frame_tokens(line@)[h - from] == w@[h as int]@);
        parse_frame_token(ts, w[h].as_slice())
    } else {
        parse_screen_format(ts, &w, from)
    };
    match m {
        Ok(m) => Ok(Some(m)),
        Err(e) => Err(e),
    }
}

/// The frames of some lines with the numbers that their times stand for, and how many
/// lines are no frame and no comment.
pub open spec fn log_of(l: Seq<Seq<char>>, stamps: Seq<Result<Real, Seq<char>>>) -> (Seq<Frame>, int)
    decreases l.len(),
{
    if l.len() == 0 {
        (Seq::empty(), 0)
    } else {
        let (frames, skipped) = log_of(l.drop_last(), stamps);
        match line_frame(l.last(), stamps[l.len() - 1]) {
            Ok(Some(f)) => (frames.push(f), skipped),
            Ok(None) => (frames, skipped),
            Err(_) => (frames, skipped + 1),
        }
    }
}

/// The contents of frames.
pub open spec fn frame_views(v: Seq<CanMsg>) -> Seq<Frame> {
    Seq::new(v.len(), |i: int| v[i]@)
}

/// A log loaded to be sent.
pub struct LoadedLog {
    pub frames: Vec<CanMsg>,
    pub skipped: usize,
}

/// The time at which a log ends.
pub open spec fn end_of(f: Seq<Frame>) -> Real {
    if f.len() == 0 {
        Real { bits: 0 }
    } else {
        f.last().ts
    }
}

impl LoadedLog {
    /// Time of the last frame, zero for an empty log.
    pub fn duration(&self) -> (r: Real)
        ensures
            r == (if self.frames@.len() == 0 {
                zero()
            } else {
                self.frames@.last().ts
            }),
            r == end_of(frame_views(self.frames@)),
    {
        let n: usize = self.frames.len();
        if n == 0 {
            Real { bits: 0 }
        } else {
            self.frames[n - 1].ts
        }
    }
}

/// The readings of times, as the specification gives them.
pub open spec fn stamp_views(v: Seq<Result<Real, String>>) -> Seq<Result<Real, Seq<char>>> {
    Seq::new(v.len(), |i: int| stamp_view(v[i]))
}

/// The time that each line of a log gives, as text.
pub fn stamps(text: &str) -> (r: Vec<Option<String>>)
    ensures
        r@.len() == lines(text@).len(),
        forall|i: int|
            0 <= i < r@.len() ==> match #[trigger] r@[i] {
                Some(s) => line_stamp(lines(text@)[i]) == Some(s@),
                None => line_stamp(lines(text@)[i]) is None,
            },
{
    let all = chars_of(text);
    let l = split_lines(all.as_slice());
    let mut out: Vec<Option<String>> = Vec::new();
    let mut i: usize = 0;
    while i < l.len()
        invariant
            i <= l@.len(),
            views(l@) == lines(text@),
            out@.len() == i,
            forall|j: int|
                0 <= j < i ==> match #[trigger] out@[j] {
                    Some(s) => line_stamp(lines(text@)[j]) == Some(s@),
                    None => line_stamp(lines(text@)[j]) is None,
                },
        decreases l@.len() - i,
    {
        assert(views(l@)[i as int] == l@[i as int]@);
        let line = string_of(l[i].as_slice());
        out.push(stamp_text(line.as_str()));
        i = i + 1;
    }
    assert(views(l@).len() == l@.len());
    out
}

/// Reads a log. `stamps` holds, for each line, the number that its time stands for, or
/// why that is none; see [`stamps`]. Lines that cannot be read are counted.
pub fn load(text: &str, stamps: &Vec<Result<Real, String>>) -> (r: LoadedLog)
    requires
        stamps@.len() == lines(text@).len(),
        forall|i: int| 0 <= i < lines(text@).len() ==> line_readable(#[trigger] lines(text@)[i]),
    ensures
        (frame_views(r.frames@), r.skipped as int) == log_of(lines(text@), stamp_views(stamps@)),
        forall|i: int| 0 <= i < r.frames@.len() ==> (#[trigger] r.frames@[i]).wf(),
{
    let all = chars_of(text);
    let l = split_lines(all.as_slice());
    let mut frames: Vec<CanMsg> = Vec::new();
    let mut skipped: usize = 0;
    let mut i: usize = 0;
    let ghost st = stamp_views(stamps@);
    let ghost ls = lines(text@);
    assert(frame_views(frames@) =~= Seq::<Frame>::empty());
    assert(views(l@).len() == l@.len());
    while i < l.len()
        invariant
            i <= l@.len(),
            skipped <= i,
            views(l@) == ls,
            ls.len() == l@.len(),
            stamps@.len() == ls.len(),
            st == stamp_views(stamps@),
            forall|j: int| 0 <= j < ls.len() ==> line_readable(#[trigger] ls[j]),
            (frame_views(frames@), skipped as int) == log_of(ls.take(i as int), st),
            forall|j: int| 0 <= j < frames@.len() ==> (#[trigger] frames@[j]).wf(),
        decreases l@.len() - i,
    {
        assert(ls[i as int] == l@[i as int]@);
        assert(ls.take(i + 1).drop_last() =~= ls.take(i as int));
        assert(st[i as int] == stamp_view(stamps@[i as int]));
        let line = string_of(l[i].as_slice());
        let ghost before = frame_views(frames@);
        match parse_line(line.as_str(), &stamps[i]) {
            Ok(Some(m)) => {
                frames.push(m);
                assert(frame_views(frames@) =~= before.push(m@));
            },
            Ok(None) => {},
            Err(_) => {
                skipped = skipped + 1;
            },
        }
        i = i + 1;
    }
    assert(ls.take(i as int) =~= ls);
    LoadedLog { frames, skipped }
}

/// Frames that come back from a log line: the ID fits its format, and classic frames with
/// data have at most 8 bytes.
pub open spec fn loggable(m: Frame) -> bool {
    &&& if m.ext {
        m.id <= 0x1FFF_FFFF
    } else {
        m.id <= 0xFFF
    }
    &&& 0 <= m.len <= 64
    &&& m.data.len() == 64
    &&& m.fd || m.rtr || m.len <= 8
}

/// Texts that can stand as the time of a line.
pub open spec fn is_stamp(s: Seq<char>) -> bool {
    &&& forall|i: int| 0 <= i < s.len() ==> !is_white(#[trigger] s[i])
    &&& s.len() > 0 ==> s[0] != '(' && s.last() != ')'
}

/// Names that can stand as the interface of a line.
pub open spec fn is_iface(s: Seq<char>) -> bool {
    forall|i: int| 0 <= i < s.len() ==> #[trigger] s[i] != '#'
}

pub proof fn lemma_plain_hex(d: Seq<u8>)
    ensures
        plain_hex(d).len() == 2 * d.len(),
        forall|i: int| 0 <= i < plain_hex(d).len() ==> is_hex_char(#[trigger] plain_hex(d)[i]),
    decreases d.len(),
{
    if d.len() > 0 {
        let b = d.last() as int;
        lemma_plain_hex(d.drop_last());
        lemma_hex_padded(b, 2, 0xFF);
        lemma_hex_width(b, 2);
        assert forall|i: int| 0 <= i < plain_hex(d).len() implies is_hex_char(
            #[trigger] plain_hex(d)[i],
        ) by {
            let n = plain_hex(d.drop_last()).len();
            if i < n {
                assert(plain_hex(d)[i] == plain_hex(d.drop_last())[i]);
            } else {
                assert(plain_hex(d)[i] == hex_padded(b, 2)[i - n]);
            }
        }
    }
}

/// The first byte's digits come first.
pub proof fn lemma_plain_hex_front(d: Seq<u8>)
    requires
        d.len() > 0,
    ensures
        plain_hex(d) == hex_padded(d[0] as int, 2) + plain_hex(d.skip(1)),
    decreases d.len(),
{
    if d.len() == 1 {
        assert(d.drop_last() =~= Seq::<u8>::empty());
        assert(d.skip(1) =~= Seq::<u8>::empty());
        assert(plain_hex(d) =~= hex_padded(d[0] as int, 2) + plain_hex(d.skip(1)));
    } else {
        let e = d.drop_last();
        lemma_plain_hex_front(e);
        assert(e.skip(1) =~= d.skip(1).drop_last());
        assert(plain_hex(d) =~= hex_padded(d[0] as int, 2) + plain_hex(d.skip(1)));
    }
}

/// Bytes written in hexadecimal read back.
pub proof fn lemma_hex_pairs_back(acc: Seq<u8>, d: Seq<u8>)
    ensures
        hex_pairs(acc, plain_hex(d)) == HexScan::Bytes(acc + d),
    decreases d.len(),
{
    let s = plain_hex(d);
    if d.len() == 0 {
        assert(acc + d =~= acc);
    } else {
        let b = d[0] as int;
        lemma_plain_hex_front(d);
        lemma_hex_padded(b, 2, 0xFF);
        lemma_hex_width(b, 2);
        let h = hex_padded(b, 2);
        assert(s.take(2) =~= h);
        assert(s.skip(2) =~= plain_hex(d.skip(1)));
        assert(is_hex_char(h[0]) && is_hex_char(h[1]));
        assert(s[0] == h[0] && s[1] == h[1]);
        lemma_hex_pairs_back(acc.push(d[0]), d.skip(1));
        assert(acc.push(d[0]) + d.skip(1) =~= acc + d);
    }
}

/// Bytes written in hexadecimal decode to themselves.
pub proof fn law_hex_decodes_back(d: Seq<u8>)
    ensures
        decoded(plain_hex(d)) == Ok::<Seq<u8>, Seq<char>>(d),
        decodable(plain_hex(d)),
{
    lemma_plain_hex(d);
    let s = plain_hex(d);
    assert forall|i: int| 0 <= i < s.len() implies (#[trigger] s[i] as int) < 0x80 by {
        assert(is_hex_char(s[i]));
    }
    lemma_ascii_bytes(s);
    lemma_hex_pairs_back(Seq::empty(), d);
    assert(Seq::<u8>::empty() + d =~= d);
}

proof fn lemma_undotted_same(s: Seq<char>)
    requires
        forall|i: int| 0 <= i < s.len() ==> #[trigger] s[i] != '.',
    ensures
        undotted(s) == s,
    decreases s.len(),
{
    if s.len() > 0 {
        let t = s.drop_last();
        assert forall|i: int| 0 <= i < t.len() implies #[trigger] t[i] != '.' by {
            assert(t[i] == s[i]);
        }
        lemma_undotted_same(t);
        assert(t.push(s.last()) =~= s);
    }
}

proof fn lemma_id_text(id: u32, ext: bool)
    requires
        ext || id <= 0xFFF,
    ensures
        parsed(id_text(id, ext), 16, u32::MAX as int) == Ok::<int, IntError>(id as int),
        id_text(id, ext).len() == if ext {
            8int
        } else {
            3int
        },
        forall|i: int| 0 <= i < id_text(id, ext).len() ==> is_hex_char(#[trigger] id_text(id, ext)[i]),
{
    let w: nat = if ext {
        8
    } else {
        3
    };
    lemma_hex_padded(id as int, w as int, u32::MAX as int);
    lemma_hex_width(id as int, w);
}

proof fn lemma_token_split(m: Frame)
    requires
        loggable(m),
    ensures
        ({
            let s = frame_text(m);
            let id = id_text(m.id, m.ext);
            let n = id.len() as int;
            &&& n < s.len()
            &&& find(s, Class::One('#')) == n
            &&& s.take(n) == id
            &&& token_rest(s) == s.skip(n + 1)
        }),
{
    let s = frame_text(m);
    let id = id_text(m.id, m.ext);
    let n = id.len() as int;
    let k = Class::One('#');
    lemma_id_text(m.id, m.ext);
    reveal_strlit("#");
    reveal_strlit("##");
    reveal_strlit("#R");
    assert forall|j: int| 0 <= j < n implies !in_class(k, #[trigger] s[j]) by {
        assert(s[j] == id[j]);
        assert(is_hex_char(id[j]));
    }
    assert(s[n] == '#');
    lemma_find_at(s, k, n);
    assert(s.take(n) =~= id);
}

proof fn lemma_fd_rest(m: Frame)
    requires
        loggable(m),
        m.fd,
    ensures
        ({
            let rest = token_rest(frame_text(m));
            &&& rest.len() >= 2
            &&& rest[0] == '#'
            &&& rest[1] == if m.brs {
                '1'
            } else {
                '0'
            }
            &&& rest.skip(2) == plain_hex(m.data.take(m.len))
        }),
{
    lemma_token_split(m);
    reveal_strlit("##");
    assert(token_rest(frame_text(m)).skip(2) =~= plain_hex(m.data.take(m.len)));
}

proof fn lemma_remote_rest(m: Frame)
    requires
        loggable(m),
        is_remote(m),
    ensures
        ({
            let rest = token_rest(frame_text(m));
            &&& rest.len() >= 1
            &&& rest[0] == 'R'
            &&& rest.skip(1) == if m.len > 0 {
                decimal(m.len)
            } else {
                Seq::empty()
            }
        }),
{
    lemma_token_split(m);
    reveal_strlit("#R");
    let tail = if m.len > 0 {
        decimal(m.len)
    } else {
        Seq::empty()
    };
    assert(token_rest(frame_text(m)).skip(1) =~= tail);
}

proof fn lemma_data_rest(m: Frame)
    requires
        loggable(m),
        !m.fd,
        !m.rtr,
    ensures
        ({
            let rest = token_rest(frame_text(m));
            &&& rest == plain_hex(m.data.take(m.len))
            &&& undotted(rest) == rest
            &&& rest.len() > 0 ==> is_hex_char(rest[0])
        }),
{
    let d = m.data.take(m.len);
    lemma_token_split(m);
    lemma_plain_hex(d);
    reveal_strlit("#");
    let rest = token_rest(frame_text(m));
    assert(rest =~= plain_hex(d));
    assert forall|i: int| 0 <= i < rest.len() implies #[trigger] rest[i] != '.' by {
        assert(is_hex_char(plain_hex(d)[i]));
    }
    lemma_undotted_same(rest);
    if rest.len() > 0 {
        assert(is_hex_char(plain_hex(d)[0]));
    }
}

/// The ID of a frame's token.
proof fn lemma_token_id(m: Frame)
    requires
        loggable(m),
    ensures
        ({
            let id_str = frame_text(m).take(find(frame_text(m), Class::One('#')));
            &&& parsed(id_str, 16, u32::MAX as int) == Ok::<int, IntError>(m.id as int)
            &&& (id_str.len() > 3) == m.ext
            &&& m.id % 0x2000_0000 == m.id
            &&& (m.id as int / 0x2000_0000) % 2 == 0
        }),
{
    lemma_token_split(m);
    lemma_id_text(m.id, m.ext);
}

proof fn lemma_fd_token(m: Frame, ts: Real)
    requires
        loggable(m),
        m.fd,
    ensures
        token_frame(ts, frame_text(m)) == Ok::<Frame, Seq<char>>(read_back(m, ts)),
        token_readable(frame_text(m)),
{
    let d = m.data.take(m.len);
    lemma_token_id(m);
    lemma_fd_rest(m);
    law_hex_decodes_back(d);
    assert(Frame { fd: true, brs: m.brs, ..data_frame(ts, m.id, m.ext, d) } == read_back(m, ts));
}

proof fn lemma_remote_token(m: Frame, ts: Real)
    requires
        loggable(m),
        is_remote(m),
    ensures
        token_frame(ts, frame_text(m)) == Ok::<Frame, Seq<char>>(read_back(m, ts)),
        token_readable(frame_text(m)),
{
    lemma_token_id(m);
    lemma_remote_rest(m);
    if m.len > 0 {
        lemma_decimal(m.len, 0xFF);
    }
    assert(remote_frame(ts, m.id, m.ext, least(m.len, 8)) == read_back(m, ts));
}

proof fn lemma_data_token(m: Frame, ts: Real)
    requires
        loggable(m),
        !m.fd,
        !m.rtr,
    ensures
        token_frame(ts, frame_text(m)) == Ok::<Frame, Seq<char>>(read_back(m, ts)),
        token_readable(frame_text(m)),
{
    let d = m.data.take(m.len);
    lemma_token_id(m);
    lemma_data_rest(m);
    law_hex_decodes_back(d);
    assert(data_frame(ts, m.id, m.ext, d) == read_back(m, ts));
}

/// The token of a frame reads back; of a plain frame, all of it.
pub proof fn law_token_roundtrip(m: Frame, ts: Real)
    requires
        loggable(m),
    ensures
        token_frame(ts, frame_text(m)) == Ok::<Frame, Seq<char>>(read_back(m, ts)),
        is_plain(m) ==> read_back(m, ts) == (Frame { ts, dir: Dir::Rx, ..m }),
        token_readable(frame_text(m)),
        find(frame_text(m), Class::One('#')) < frame_text(m).len(),
{
    lemma_token_split(m);
    law_what_is_read_back(m, ts);
    if m.fd {
        lemma_fd_token(m, ts);
    } else if m.rtr {
        lemma_remote_token(m, ts);
    } else {
        lemma_data_token(m, ts);
    }
}

proof fn lemma_frame_text_chars(m: Frame)
    requires
        loggable(m),
    ensures
        frame_text(m).len() > 0,
        forall|i: int| 0 <= i < frame_text(m).len() ==> !is_white(#[trigger] frame_text(m)[i]),
{
    let s = frame_text(m);
    let id = id_text(m.id, m.ext);
    let n = id.len() as int;
    let d = m.data.take(m.len);
    lemma_id_text(m.id, m.ext);
    lemma_plain_hex(d);
    reveal_strlit("#");
    reveal_strlit("##");
    reveal_strlit("#R");
    if !m.fd && m.rtr && m.len > 0 {
        lemma_decimal(m.len, 0xFF);
    }
    assert forall|i: int| 0 <= i < s.len() implies !is_white(#[trigger] s[i]) by {
        if i < n {
            assert(s[i] == id[i]);
            assert(is_hex_char(id[i]));
        } else if m.fd {
            if i >= n + 3 {
                assert(s[i] == plain_hex(d)[i - n - 3]);
                assert(is_hex_char(plain_hex(d)[i - n - 3]));
            }
        } else if m.rtr {
            if i >= n + 2 {
                assert(s[i] == decimal(m.len)[i - n - 2]);
            }
        } else if i >= n + 1 {
            assert(s[i] == plain_hex(d)[i - n - 1]);
            assert(is_hex_char(plain_hex(d)[i - n - 1]));
        }
    }
}

proof fn lemma_first_hash(t: Seq<Seq<char>>, n: int)
    requires
        0 <= n < t.len(),
        find(t[n], Class::One('#')) < t[n].len(),
        forall|w: int, i: int| 0 <= w < n && 0 <= i < t[w].len() ==> #[trigger] t[w][i] != '#',
    ensures
        first_hash(t) == n,
    decreases n,
{
    if n > 0 {
        lemma_find(t[0], Class::One('#'));
        let f = find(t[0], Class::One('#'));
        if f < t[0].len() {
            assert(t[0][f] != '#');
        }
        let u = t.skip(1);
        assert(u[n - 1] == t[n]);
        assert forall|w: int, i: int| 0 <= w < n - 1 && 0 <= i < u[w].len() implies #[trigger] u[w][i]
            != '#' by {
            assert(u[w] == t[w + 1]);
            assert(t[w + 1][i] != '#');
        }
        lemma_first_hash(u, n - 1);
    }
}

proof fn lemma_stamp_inside(stamp: Seq<char>)
    requires
        is_stamp(stamp),
    ensures
        skip_back(skip_front(("("@ + stamp).push(')'), Class::One('(')), Class::One(')')) == stamp,
{
    reveal_strlit("(");
    let head = ("("@ + stamp).push(')');
    let inner = stamp.push(')');
    assert(head[0] == '(');
    assert(head.skip(1) =~= inner);
    assert(skip_front(inner, Class::One('(')) == inner);
    assert(skip_front(head, Class::One('(')) == inner);
    assert(inner.drop_last() =~= stamp);
    assert(skip_back(stamp, Class::One(')')) == stamp);
    assert(skip_back(inner, Class::One(')')) == stamp);
}

proof fn lemma_line_words(stamp: Seq<char>, iface: Seq<char>, f: Seq<char>)
    requires
        is_stamp(stamp),
        f.len() > 0,
        forall|i: int| 0 <= i < f.len() ==> !is_white(#[trigger] f[i]),
    ensures
        ({
            let head = ("("@ + stamp).push(')');
            words(head.push(' ') + (iface.push(' ') + f), Class::White) == seq![head] + (words(
                iface,
                Class::White,
            ) + seq![f])
        }),
{
    reveal_strlit("(");
    let k = Class::White;
    let head = ("("@ + stamp).push(')');
    lemma_words_around(head, ' ', iface.push(' ') + f, k);
    lemma_words_around(iface, ' ', f, k);
    assert forall|i: int| 0 <= i < head.len() implies !in_class(k, #[trigger] head[i]) by {
        if 0 < i < head.len() - 1 {
            assert(head[i] == stamp[i - 1]);
        }
    }
    lemma_words_single(head, k);
    lemma_words_single(f, k);
}

/// A line that was written reads back: the frame, received at the time that the line's
/// stamp stands for, and the stamp itself. ID, format, kind and length of the frame come
/// back, and its bytes unless it is a remote frame; a remote frame asks for at most 8 bytes.
/// Of a plain frame all comes back.
#[verifier::spinoff_prover]
pub proof fn law_line_roundtrip(m: Frame, stamp: Seq<char>, iface: Seq<char>, ts: Real)
    requires
        loggable(m),
        is_stamp(stamp),
        is_iface(iface),
    ensures
        line_readable(line_text(m, stamp, iface)),
        line_stamp(line_text(m, stamp, iface)) == Some(stamp),
        line_frame(line_text(m, stamp, iface), Ok(ts)) == Ok::<Option<Frame>, Seq<char>>(
            Some(read_back(m, ts)),
        ),
        read_back(m, ts).len == if is_remote(m) {
            least(m.len, 8)
        } else {
            m.len
        },
        !is_remote(m) ==> read_back(m, ts).data.take(m.len) == m.data.take(m.len),
        is_plain(m) ==> read_back(m, ts) == (Frame { ts, dir: Dir::Rx, ..m }),
{
    let s = line_text(m, stamp, iface);
    let f = frame_text(m);
    let k = Class::White;
    reveal_strlit("(");
    reveal_strlit(") ");
    reveal_strlit(" ");
    reveal_strlit("//");
    lemma_frame_text_chars(m);
    law_token_roundtrip(m, ts);
    law_what_is_read_back(m, ts);
    let head = ("("@ + stamp).push(')');
    assert(s[0] == '(');
    assert(s.last() == f.last());
    lemma_trimmed_same(s);
    if "//"@.is_prefix_of(s) {
        assert(s.subrange(0, 2)[0] == "//"@[0]);
    }
    assert(s =~= head.push(' ') + (iface.push(' ') + f));
    lemma_line_words(stamp, iface, f);
    let wi = words(iface, k);
    let w = words(s, k);
    assert(w == seq![head] + (wi + seq![f]));
    assert(w[0] == head);
    assert(head[0] == '(');
    let t = frame_tokens(s);
    assert(t =~= wi + seq![f]);
    assert(t[wi.len() as int] == f);
    lemma_words_within(iface, k, '#');
    assert forall|x: int, i: int| 0 <= x < wi.len() && 0 <= i < t[x].len() implies #[trigger] t[x][i]
        != '#' by {
        assert(t[x] == wi[x]);
        assert(wi[x][i] != '#');
    }
    lemma_first_hash(t, wi.len() as int);
    lemma_stamp_inside(stamp);
}

/// A recording: one line per frame, each with the time that stands at its place.
pub open spec fn recorded(f: Seq<Frame>, stamps: Seq<Seq<char>>, iface: Seq<char>) -> Seq<char>
    decreases f.len(),
{
    if f.len() == 0 {
        Seq::empty()
    } else {
        recorded(f.drop_last(), stamps, iface) + line_text(
            f.last(),
            stamps[f.len() - 1],
            iface,
        ).push('\n')
    }
}

/// What is written for lines: each with a line feed behind it.
pub open spec fn written(l: Seq<Seq<char>>) -> Seq<char>
    decreases l.len(),
{
    if l.len() == 0 {
        Seq::empty()
    } else {
        written(l.drop_last()) + l.last().push('\n')
    }
}

/// A recording is what is written for the log lines of its frames, in their order.
pub proof fn law_recording_is_its_lines(f: Seq<Frame>, stamps: Seq<Seq<char>>, iface: Seq<char>)
    ensures
        written(Seq::new(f.len(), |i: int| line_text(f[i], stamps[i], iface))) == recorded(
            f,
            stamps,
            iface,
        ),
    decreases f.len(),
{
    if f.len() > 0 {
        let l = Seq::new(f.len(), |i: int| line_text(f[i], stamps[i], iface));
        let g = f.drop_last();
        law_recording_is_its_lines(g, stamps, iface);
        assert(l.drop_last() =~= Seq::new(g.len(), |i: int| line_text(g[i], stamps[i], iface)));
    }
}

/// One more line at the end of a text.
proof fn lemma_lines_append(t: Seq<char>, l: Seq<char>)
    requires
        t.len() == 0 || t.last() == '\n',
        forall|i: int| 0 <= i < l.len() ==> #[trigger] l[i] != '\n',
        l.len() > 0 ==> l.last() != '\r',
    ensures
        lines(t + l.push('\n')) == lines(t).push(l),
    decreases t.len(),
{
    let k = Class::One('\n');
    let s = t + l.push('\n');
    if t.len() == 0 {
        let n = l.len() as int;
        assert(s =~= l.push('\n'));
        assert forall|j: int| 0 <= j < n implies !in_class(k, #[trigger] s[j]) by {
            assert(s[j] == l[j]);
        }
        lemma_find_at(s, k, n);
        assert(s.take(n) =~= l);
        assert(s.skip(n + 1) =~= Seq::<char>::empty());
        assert(lines(s.skip(n + 1)) =~= Seq::<Seq<char>>::empty());
        assert(lines(s) =~= lines(t).push(l));
    } else {
        lemma_find(t, k);
        let n = find(t, k);
        assert(in_class(k, t[t.len() - 1]));
        assert(n < t.len());
        assert forall|j: int| 0 <= j < n implies !in_class(k, #[trigger] s[j]) by {
            assert(s[j] == t[j]);
        }
        assert(s[n] == t[n]);
        lemma_find_at(s, k, n);
        let rest = t.skip(n + 1);
        assert(s.take(n) =~= t.take(n));
        assert(s.skip(n + 1) =~= rest + l.push('\n'));
        lemma_lines_append(rest, l);
        assert(lines(s) =~= lines(t).push(l));
    }
}

/// A recording loads back: every frame, received at the time that its stamp stands for, and
/// no line is skipped. Of plain frames all comes back.
pub proof fn law_recording_loads_back(
    f: Seq<Frame>,
    stamps: Seq<Seq<char>>,
    iface: Seq<char>,
    times: Seq<Real>,
)
    requires
        stamps.len() == f.len(),
        times.len() == f.len(),
        forall|i: int| 0 <= i < f.len() ==> loggable(#[trigger] f[i]),
        forall|i: int| 0 <= i < stamps.len() ==> is_stamp(#[trigger] stamps[i]),
        is_iface(iface),
        forall|i: int| 0 <= i < iface.len() ==> #[trigger] iface[i] != '\n',
    ensures
        lines(recorded(f, stamps, iface)).len() == f.len(),
        forall|i: int|
            0 <= i < f.len() ==> line_stamp(#[trigger] lines(recorded(f, stamps, iface))[i]) == Some(
                stamps[i],
            ),
        forall|i: int|
            0 <= i < f.len() ==> line_readable(#[trigger] lines(recorded(f, stamps, iface))[i]),
        log_of(
            lines(recorded(f, stamps, iface)),
            Seq::new(f.len(), |i: int| Ok::<Real, Seq<char>>(times[i])),
        ) == (Seq::new(f.len(), |i: int| read_back(f[i], times[i])), 0int),
        forall|i: int|
            0 <= i < f.len() && is_plain(#[trigger] f[i]) ==> read_back(f[i], times[i]) == (Frame {
                ts: times[i],
                dir: Dir::Rx,
                ..f[i]
            }),
{
    let st = Seq::new(f.len(), |i: int| Ok::<Real, Seq<char>>(times[i]));
    lemma_recorded(f, stamps, iface, times, st, f.len() as int);
    assert(f.take(f.len() as int) =~= f);
    assert forall|i: int| 0 <= i < f.len() && is_plain(#[trigger] f[i]) implies read_back(
        f[i],
        times[i],
    ) == (Frame { ts: times[i], dir: Dir::Rx, ..f[i] }) by {
        assert(loggable(f[i]));
        law_what_is_read_back(f[i], times[i]);
    }
}

proof fn lemma_recorded(
    f: Seq<Frame>,
    stamps: Seq<Seq<char>>,
    iface: Seq<char>,
    times: Seq<Real>,
    st: Seq<Result<Real, Seq<char>>>,
    n: int,
)
    requires
        stamps.len() == f.len(),
        times.len() == f.len(),
        st.len() == f.len(),
        0 <= n <= f.len(),
        forall|i: int| 0 <= i < f.len() ==> loggable(#[trigger] f[i]),
        forall|i: int| 0 <= i < stamps.len() ==> is_stamp(#[trigger] stamps[i]),
        forall|i: int| 0 <= i < st.len() ==> #[trigger] st[i] == Ok::<Real, Seq<char>>(times[i]),
        is_iface(iface),
        forall|i: int| 0 <= i < iface.len() ==> #[trigger] iface[i] != '\n',
    ensures
        ({
            let text = recorded(f.take(n), stamps, iface);
            &&& text.len() == 0 || text.last() == '\n'
            &&& lines(text).len() == n
            &&& forall|i: int|
                0 <= i < n ==> #[trigger] lines(text)[i] == line_text(f[i], stamps[i], iface)
            &&& forall|i: int| 0 <= i < n ==> line_stamp(#[trigger] lines(text)[i]) == Some(stamps[i])
            &&& forall|i: int| 0 <= i < n ==> line_readable(#[trigger] lines(text)[i])
            &&& log_of(lines(text), st) == (
                Seq::new(n as nat, |i: int| read_back(f[i], times[i])),
                0int,
            )
        }),
    decreases n,
{
    let done = Seq::new(n as nat, |i: int| read_back(f[i], times[i]));
    if n == 0 {
        assert(f.take(0) =~= Seq::<Frame>::empty());
        assert(done =~= Seq::<Frame>::empty());
    } else {
        let m = f[n - 1];
        let stamp = stamps[n - 1];
        let before = recorded(f.take(n - 1), stamps, iface);
        let l = line_text(m, stamp, iface);
        lemma_recorded(f, stamps, iface, times, st, n - 1);
        assert(f.take(n).drop_last() =~= f.take(n - 1));
        assert(f.take(n).last() == m);
        assert(loggable(m) && is_stamp(stamp));
        law_line_roundtrip(m, stamp, iface, times[n - 1]);
        lemma_one_line(m, stamp, iface);
        lemma_lines_append(before, l);
        let ls = lines(recorded(f.take(n), stamps, iface));
        assert(ls == lines(before).push(l));
        assert(ls.drop_last() =~= lines(before));
        assert(st[n - 1] == Ok::<Real, Seq<char>>(times[n - 1]));
        assert(log_of(ls, st).0 =~= done);
        assert forall|i: int| 0 <= i < n implies #[trigger] ls[i] == line_text(
            f[i],
            stamps[i],
            iface,
        ) by {
            if i < n - 1 {
                assert(ls[i] == lines(before)[i]);
            }
        }
        assert forall|i: int| 0 <= i < n implies line_stamp(#[trigger] ls[i]) == Some(stamps[i])
            && line_readable(ls[i]) by {
            if i < n - 1 {
                assert(ls[i] == lines(before)[i]);
            }
        }
    }
}

/// A log line is one line.
proof fn lemma_one_line(m: Frame, stamp: Seq<char>, iface: Seq<char>)
    requires
        loggable(m),
        is_stamp(stamp),
        forall|i: int| 0 <= i < iface.len() ==> #[trigger] iface[i] != '\n',
    ensures
        ({
            let l = line_text(m, stamp, iface);
            &&& forall|i: int| 0 <= i < l.len() ==> #[trigger] l[i] != '\n'
            &&& l.len() > 0
            &&& l.last() != '\r'
        }),
{
    let l = line_text(m, stamp, iface);
    let t = frame_text(m);
    reveal_strlit("(");
    reveal_strlit(") ");
    reveal_strlit(" ");
    lemma_frame_text_chars(m);
    let a = stamp.len() as int;
    let b = iface.len() as int;
    assert(l.len() == a + b + 4 + t.len());
    assert forall|i: int| 0 <= i < l.len() implies #[trigger] l[i] != '\n' by {
        if 1 <= i < 1 + a {
            assert(l[i] == stamp[i - 1]);
        } else if 3 + a <= i < 3 + a + b {
            assert(l[i] == iface[i - 3 - a]);
        } else if i >= 4 + a + b {
            assert(l[i] == t[i - 4 - a - b]);
        }
    }
    assert(l.last() == t[t.len() - 1]);
}

/// Bytes as one token of two hexadecimal digits each.
pub open spec fn hex_tokens(d: Seq<u8>) -> Seq<Seq<char>> {
    Seq::new(d.len(), |i: int| hex_padded(d[i] as int, 2))
}

proof fn lemma_hex_tokens_back(acc: Seq<u8>, d: Seq<u8>)
    ensures
        token_bytes(acc, hex_tokens(d)) == Ok::<Seq<u8>, IntError>(acc + d),
    decreases d.len(),
{
    if d.len() == 0 {
        assert(acc + d =~= acc);
    } else {
        lemma_hex_padded(d[0] as int, 2, 0xFF);
        assert(hex_tokens(d).skip(1) =~= hex_tokens(d.skip(1)));
        lemma_hex_tokens_back(acc.push(d[0]), d.skip(1));
        assert(acc.push(d[0]) + d.skip(1) =~= acc + d);
    }
}

proof fn lemma_first_starting(t: Seq<Seq<char>>, c: char, n: int)
    requires
        0 <= n < t.len(),
        forall|i: int| 0 <= i < n ==> (#[trigger] t[i]).len() > 0 && t[i][0] != c,
        t[n].len() > 0,
        t[n][0] == c,
    ensures
        first_starting(t, c) == n,
    decreases n,
{
    if n > 0 {
        assert(t[0][0] != c);
        let u = t.skip(1);
        assert forall|i: int| 0 <= i < n - 1 implies (#[trigger] u[i]).len() > 0 && u[i][0] != c by {
            assert(u[i] == t[i + 1]);
        }
        assert(u[n - 1] == t[n]);
        lemma_first_starting(u, c, n - 1);
    }
}

/// A length in brackets.
pub open spec fn bracketed(n: int) -> Seq<char> {
    seq!['['] + decimal(n) + seq![']']
}

proof fn lemma_bracketed(n: int)
    requires
        0 <= n <= 64,
    ensures
        bracketed(n).len() > 0,
        bracketed(n)[0] == '[',
        ({
            let k = Class::Either('[', ']');
            parsed(skip_back(skip_front(bracketed(n), k), k), 10, usize::MAX as int) == Ok::<
                int,
                IntError,
            >(n)
        }),
        forall|i: int|
            0 <= i < bracketed(n).len() ==> !is_white(#[trigger] bracketed(n)[i]) && bracketed(n)[i]
                != '#',
{
    let k = Class::Either('[', ']');
    let b = bracketed(n);
    let d = decimal(n);
    lemma_decimal(n, usize::MAX as int);
    let inner = d.push(']');
    assert(b.skip(1) =~= inner);
    assert(!in_class(k, inner[0]));
    assert(skip_front(inner, k) == inner);
    assert(skip_front(b, k) == inner);
    assert(inner.drop_last() =~= d);
    assert(!in_class(k, d.last()));
    assert(skip_back(d, k) == d);
    assert(skip_back(inner, k) == d);
    assert forall|i: int| 0 <= i < b.len() implies !is_white(#[trigger] b[i]) && b[i] != '#' by {
        if 0 < i < b.len() - 1 {
            assert(b[i] == d[i - 1]);
        }
    }
}

/// The tokens of a frame in the format that is shown on a screen: what stands in front, such
/// as the interface, then the ID, the length in brackets and one number per byte, and
/// whatever follows.
pub open spec fn screen_tokens(
    front: Seq<Seq<char>>,
    id: u32,
    ext: bool,
    d: Seq<u8>,
    after: Seq<Seq<char>>,
) -> Seq<Seq<char>> {
    front + seq![id_text(id, ext), bracketed(d.len() as int)] + hex_tokens(d) + after
}

/// Whether tokens can stand in front of the ID.
pub open spec fn fronts(t: Seq<Seq<char>>) -> bool {
    forall|i: int| 0 <= i < t.len() ==> (#[trigger] t[i]).len() > 0 && t[i][0] != '['
}

/// A frame in the format that is shown on a screen reads back: its ID and format, its length
/// and all of its bytes, whatever stands in front and behind.
pub proof fn law_screen_format_reads_back(
    ts: Real,
    front: Seq<Seq<char>>,
    id: u32,
    ext: bool,
    d: Seq<u8>,
    after: Seq<Seq<char>>,
)
    requires
        ext || id <= 0xFFF,
        d.len() <= 64,
        fronts(front),
        d.len() == 0 ==> after.len() == 0,
    ensures
        screen_frame(ts, screen_tokens(front, id, ext, d, after)) matches Ok(f) && f.id == id && f.ext
            == ext && f.len == d.len() && f.data.len() == 64 && f.data.take(f.len) == d && !f.rtr
            && !f.brs && f.fd == (d.len() > 8) && f.ts == ts && f.dir == Dir::Rx,
{
    let t = screen_tokens(front, id, ext, d, after);
    let lb: int = front.len() as int + 1;
    lemma_id_text(id, ext);
    lemma_bracketed(d.len() as int);
    assert(t[lb - 1] == id_text(id, ext));
    assert(t[lb] == bracketed(d.len() as int));
    assert forall|i: int| 0 <= i < lb implies (#[trigger] t[i]).len() > 0 && t[i][0] != '[' by {
        if i < front.len() {
            assert(t[i] == front[i]);
        } else {
            assert(is_hex_char(id_text(id, ext)[0]));
        }
    }
    lemma_first_starting(t, '[', lb);
    let rest = t.skip(lb + 1);
    assert(rest =~= hex_tokens(d) + after);
    assert(rest.take(d.len() as int) =~= hex_tokens(d));
    lemma_hex_tokens_back(Seq::empty(), d);
    assert(Seq::<u8>::empty() + d =~= d);
    reveal_strlit("remote");
    if rest.len() > 0 {
        assert(rest[0] == hex_padded(d[0] as int, 2));
        lemma_hex_width(d[0] as int, 2);
        assert(lowered(rest[0]).len() == 2);
        assert("remote"@.len() == 6);
    }
    assert(data_frame(ts, id, ext, d).data.take(d.len() as int) =~= d);
}

/// A remote frame in the format that is shown on a screen reads back: its ID and format and
/// the length that it asks for, at most 8, however the word is written.
pub proof fn law_remote_screen_format_reads_back(
    ts: Real,
    front: Seq<Seq<char>>,
    id: u32,
    ext: bool,
    n: int,
    word: Seq<char>,
    after: Seq<Seq<char>>,
)
    requires
        ext || id <= 0xFFF,
        0 <= n <= 64,
        fronts(front),
        lowered(word) == "remote"@,
    ensures
        screen_frame(
            ts,
            front + seq![id_text(id, ext), bracketed(n), word] + after,
        ) matches Ok(f) && f.id == id && f.ext == ext && f.rtr && !f.fd && f.len == (if n < 8 {
            n
        } else {
            8
        }) && f.data == Seq::new(64, |i: int| 0u8) && f.ts == ts,
{
    let t = front + seq![id_text(id, ext), bracketed(n), word] + after;
    let lb: int = front.len() as int + 1;
    lemma_id_text(id, ext);
    lemma_bracketed(n);
    assert(t[lb - 1] == id_text(id, ext));
    assert(t[lb] == bracketed(n));
    assert forall|i: int| 0 <= i < lb implies (#[trigger] t[i]).len() > 0 && t[i][0] != '[' by {
        if i < front.len() {
            assert(t[i] == front[i]);
        } else {
            assert(is_hex_char(id_text(id, ext)[0]));
        }
    }
    lemma_first_starting(t, '[', lb);
    assert(t.skip(lb + 1)[0] == word);
    assert(remote_frame(ts, id, ext, least(n, 8)).data =~= Seq::new(64, |i: int| 0u8));
}

/// Tokens with a space between each two.
pub open spec fn spaced(t: Seq<Seq<char>>) -> Seq<char>
    decreases t.len(),
{
    if t.len() == 0 {
        Seq::empty()
    } else if t.len() == 1 {
        t[0]
    } else {
        spaced(t.drop_last()).push(' ') + t.last()
    }
}

/// Whether tokens are words without a mark that makes them a frame of the other format.
pub open spec fn plain_tokens(t: Seq<Seq<char>>) -> bool {
    forall|i: int| #![trigger t[i]]
        0 <= i < t.len() ==> t[i].len() > 0 && forall|j: int|
            0 <= j < t[i].len() ==> !is_white(#[trigger] t[i][j]) && t[i][j] != '#'
}

proof fn lemma_spaced(t: Seq<Seq<char>>)
    requires
        t.len() > 0,
        plain_tokens(t),
    ensures
        words(spaced(t), Class::White) == t,
        spaced(t).len() > 0,
        spaced(t)[0] == t[0][0],
        spaced(t).last() == t.last().last(),
        trimmed(spaced(t)) == spaced(t),
    decreases t.len(),
{
    let k = Class::White;
    let s = spaced(t);
    let l = t.last();
    assert(t[t.len() - 1].len() > 0);
    assert forall|i: int| 0 <= i < l.len() implies !in_class(k, #[trigger] l[i]) by {
        assert(!is_white(t[t.len() - 1][i]));
    }
    lemma_words_single(l, k);
    if t.len() == 1 {
        assert(t =~= seq![l]);
    } else {
        let u = t.drop_last();
        assert forall|i: int| #![trigger u[i]]
            0 <= i < u.len() implies u[i].len() > 0 && forall|j: int|
            0 <= j < u[i].len() ==> !is_white(#[trigger] u[i][j]) && u[i][j] != '#' by {
            assert(u[i] == t[i]);
        }
        lemma_spaced(u);
        lemma_words_around(spaced(u), ' ', l, k);
        assert(words(s, k) =~= t);
    }
    assert(t[0].len() > 0);
    assert(!is_white(t[0][0]));
    lemma_trimmed_same(s);
}

proof fn lemma_no_hash(t: Seq<Seq<char>>)
    requires
        plain_tokens(t),
    ensures
        first_hash(t) == t.len(),
    decreases t.len(),
{
    if t.len() > 0 {
        let w = t[0];
        lemma_find(w, Class::One('#'));
        let f = find(w, Class::One('#'));
        if f < w.len() {
            assert(w[f] != '#');
        }
        let u = t.skip(1);
        assert forall|i: int| #![trigger u[i]]
            0 <= i < u.len() implies u[i].len() > 0 && forall|j: int|
            0 <= j < u[i].len() ==> !is_white(#[trigger] u[i][j]) && u[i][j] != '#' by {
            assert(u[i] == t[i + 1]);
        }
        lemma_no_hash(u);
    }
}

/// A line as `candump` shows it on a screen, such as `can0 123 [4] 11 22 33 44`, reads back as
/// the frame: its ID and format, its length and all of its bytes. Without a time the frame is
/// at zero.
pub proof fn law_screen_line_reads_back(
    iface: Seq<char>,
    id: u32,
    ext: bool,
    d: Seq<u8>,
    stamp: Result<Real, Seq<char>>,
)
    requires
        ext || id <= 0xFFF,
        d.len() <= 64,
        iface.len() > 0,
        iface[0] != '[' && iface[0] != '(',
        iface[0] != '/',
        forall|i: int| 0 <= i < iface.len() ==> !is_white(#[trigger] iface[i]) && iface[i] != '#',
    ensures
        line_frame(
            spaced(screen_tokens(seq![iface], id, ext, d, Seq::empty())),
            stamp,
        ) matches Ok(Some(f)) && f.id == id && f.ext == ext && f.len == d.len() && f.data.take(f.len)
            == d && !f.rtr && f.ts.bits == 0,
{
    let none = Seq::<Seq<char>>::empty();
    let t = screen_tokens(seq![iface], id, ext, d, none);
    lemma_id_text(id, ext);
    lemma_bracketed(d.len() as int);
    assert forall|i: int| #![trigger t[i]]
        0 <= i < t.len() implies t[i].len() > 0 && forall|j: int|
        0 <= j < t[i].len() ==> !is_white(#[trigger] t[i][j]) && t[i][j] != '#' by {
        if i == 0 {
            assert(t[i] == iface);
        } else if i == 1 {
            assert(t[i] == id_text(id, ext));
            assert forall|j: int| 0 <= j < t[i].len() implies !is_white(#[trigger] t[i][j]) && t[i][j]
                != '#' by {
                assert(is_hex_char(id_text(id, ext)[j]));
            }
        } else if i == 2 {
            assert(t[i] == bracketed(d.len() as int));
        } else {
            let b = d[i - 3] as int;
            assert(t[i] == hex_padded(b, 2));
            lemma_hex_padded(b, 2, 0xFF);
            lemma_hex_width(b, 2);
            assert forall|j: int| 0 <= j < t[i].len() implies !is_white(#[trigger] t[i][j]) && t[i][j]
                != '#' by {
                assert(is_hex_char(hex_padded(b, 2)[j]));
            }
        }
    }
    lemma_spaced(t);
    lemma_no_hash(t);
    law_screen_format_reads_back(zero(), seq![iface], id, ext, d, none);
    let s = spaced(t);
    assert(t[0] == iface);
    reveal_strlit("//");
    if "//"@.is_prefix_of(s) {
        assert(s.subrange(0, 2)[0] == "//"@[0]);
    }
}

proof fn lemma_id_split(id: u32, ext: bool, r: Seq<char>)
    requires
        ext || id <= 0xFFF,
    ensures
        ({
            let s = id_text(id, ext).push('#') + r;
            let p = find(s, Class::One('#'));
            &&& p < s.len()
            &&& s.take(p) == id_text(id, ext)
            &&& (s.take(p).len() > 3) == ext
            &&& token_rest(s) == r
            &&& parsed(s.take(p), 16, u32::MAX as int) == Ok::<int, IntError>(id as int)
        }),
{
    let w = id_text(id, ext);
    let s = w.push('#') + r;
    let n = w.len() as int;
    let k = Class::One('#');
    lemma_id_text(id, ext);
    assert forall|j: int| 0 <= j < n implies !in_class(k, #[trigger] s[j]) by {
        assert(s[j] == w[j]);
        assert(is_hex_char(w[j]));
    }
    assert(s[n] == '#');
    lemma_find_at(s, k, n);
    assert(s.take(n) =~= w);
    assert(s.skip(n + 1) =~= r);
}

/// An FD token holds flags and data: the lowest bit of the flags is the bit rate switch,
/// whatever the other flags say, and up to 64 bytes follow; more are refused.
pub proof fn law_fd_tokens(ts: Real, id: u32, ext: bool, flags: char, d: Seq<u8>)
    requires
        if ext {
            id <= 0x1FFF_FFFF
        } else {
            id <= 0xFFF
        },
        '0' <= flags <= '9' || 'A' <= flags <= 'F' || 'a' <= flags <= 'f',
    ensures
        ({
            let r = token_frame(ts, id_text(id, ext).push('#') + (seq!['#', flags] + plain_hex(d)));
            let odd = flags == '1' || flags == '3' || flags == '5' || flags == '7' || flags == '9'
                || flags == 'B' || flags == 'D' || flags == 'F' || flags == 'b' || flags == 'd'
                || flags == 'f';
            &&& d.len() <= 64 ==> (r matches Ok(f) && f.id == id && f.ext == ext && f.fd && f.brs == odd
                && !f.rtr && f.len == d.len() && f.data.take(f.len) == d && f.ts == ts)
            &&& d.len() > 64 ==> r is Err
        }),
{
    let rest = seq!['#', flags] + plain_hex(d);
    lemma_id_split(id, ext, rest);
    law_hex_decodes_back(d);
    assert(rest.skip(2) =~= plain_hex(d));
    assert(rest[1] == flags);
    if d.len() <= 64 {
        assert(data_frame(ts, id, ext, d).data.take(d.len() as int) =~= d);
    }
}

/// A classic token holds up to 8 bytes, however they are grouped with dots; more are refused.
pub proof fn law_data_tokens(ts: Real, id: u32, ext: bool, d: Seq<u8>, text: Seq<char>)
    requires
        if ext {
            id <= 0x1FFF_FFFF
        } else {
            id <= 0xFFF
        },
        undotted(text) == plain_hex(d),
        text.len() > 0 ==> is_hex_char(text[0]) || text[0] == '.',
    ensures
        ({
            let r = token_frame(ts, id_text(id, ext).push('#') + text);
            &&& d.len() <= 8 ==> (r matches Ok(f) && f.id == id && f.ext == ext && !f.fd && !f.brs
                && !f.rtr && f.len == d.len() && f.data.take(f.len) == d && f.ts == ts)
            &&& d.len() > 8 ==> r is Err
        }),
{
    lemma_id_split(id, ext, text);
    law_hex_decodes_back(d);
    if d.len() <= 8 {
        assert(data_frame(ts, id, ext, d).data.take(d.len() as int) =~= d);
    }
}

/// Dots between the digits of a token mean nothing.
pub proof fn law_dots_mean_nothing(a: Seq<char>, b: Seq<char>)
    ensures
        undotted(a.push('.') + b) == undotted(a + b),
        forall|i: int| 0 <= i < undotted(a).len() ==> #[trigger] undotted(a)[i] != '.',
        (forall|i: int| 0 <= i < a.len() ==> #[trigger] a[i] != '.') ==> undotted(a) == a,
    decreases b.len(),
{
    if b.len() == 0 {
        assert((a.push('.') + b).drop_last() =~= a);
        assert(a + b =~= a);
        lemma_undotted_clean(a);
        if forall|i: int| 0 <= i < a.len() ==> #[trigger] a[i] != '.' {
            lemma_undotted_same(a);
        }
    } else {
        law_dots_mean_nothing(a, b.drop_last());
        assert((a.push('.') + b).drop_last() =~= a.push('.') + b.drop_last());
        assert((a + b).drop_last() =~= a + b.drop_last());
    }
}

proof fn lemma_undotted_clean(s: Seq<char>)
    ensures
        forall|i: int| 0 <= i < undotted(s).len() ==> #[trigger] undotted(s)[i] != '.',
    decreases s.len(),
{
    if s.len() > 0 {
        let t = undotted(s.drop_last());
        lemma_undotted_clean(s.drop_last());
        assert forall|i: int| 0 <= i < undotted(s).len() implies #[trigger] undotted(s)[i] != '.' by {
            if i < t.len() {
                assert(undotted(s)[i] == t[i]);
            }
        }
    }
}

/// A remote token asks for the length that stands behind its mark, at most 8, or for none;
/// the mark may be small.
pub proof fn law_remote_tokens(ts: Real, id: u32, ext: bool, mark: char, n: int)
    requires
        if ext {
            id <= 0x1FFF_FFFF
        } else {
            id <= 0xFFF
        },
        mark == 'R' || mark == 'r',
        0 <= n <= 0xFF,
    ensures
        token_frame(ts, id_text(id, ext).push('#') + (seq![mark] + decimal(n))) matches Ok(f) && f.rtr
            && f.id == id && f.ext == ext && f.len == (if n < 8 {
            n
        } else {
            8
        }) && !f.fd,
        token_frame(ts, id_text(id, ext).push('#') + seq![mark]) matches Ok(f) && f.rtr && f.id == id
            && f.ext == ext && f.len == 0 && !f.fd,
{
    let rest = seq![mark] + decimal(n);
    lemma_id_split(id, ext, rest);
    lemma_id_split(id, ext, seq![mark]);
    lemma_decimal(n, 0xFF);
    assert(rest.skip(1) =~= decimal(n));
    assert(seq![mark].skip(1) =~= Seq::<char>::empty());
}

/// An extended ID with the error flag is no frame.
pub proof fn law_error_frames_are_refused(ts: Real, id: u32, rest: Seq<char>)
    requires
        (id / 0x2000_0000) % 2 == 1,
    ensures
        token_frame(ts, id_text(id, true).push('#') + rest) is Err,
{
    lemma_id_split(id, true, rest);
}

/// How many lines hold neither a frame nor an error: blank ones and comments.
pub open spec fn blank_lines(l: Seq<Seq<char>>) -> int
    decreases l.len(),
{
    if l.len() == 0 {
        0
    } else {
        blank_lines(l.drop_last()) + if is_comment(trimmed(l.last())) {
            1int
        } else {
            0int
        }
    }
}

/// Every line of a log is a frame, is counted as skipped, or is a comment; and a log that is
/// put behind another one adds its frames behind the others.
pub proof fn law_every_line_is_accounted_for(
    l: Seq<Seq<char>>,
    stamps: Seq<Result<Real, Seq<char>>>,
)
    requires
        stamps.len() == l.len(),
    ensures
        log_of(l, stamps).0.len() + log_of(l, stamps).1 + blank_lines(l) == l.len(),
        log_of(l, stamps).1 >= 0,
        l.len() > 0 ==> ({
            let n = l.len() - 1;
            let before = log_of(l.take(n), stamps.take(n)).0;
            let after = log_of(l, stamps).0;
            &&& after.take(before.len() as int) == before
            &&& line_frame(l[n], stamps[n]) matches Ok(Some(f)) ==> after.len() == before.len() + 1
                && after.last() == f
            &&& !(line_frame(l[n], stamps[n]) matches Ok(Some(_))) ==> after == before
        }),
    decreases l.len(),
{
    if l.len() > 0 {
        let n = l.len() - 1;
        law_every_line_is_accounted_for(l.take(n), stamps.take(n));
        assert(l.drop_last() =~= l.take(n));
        lemma_log_stamps(l.take(n), stamps, stamps.take(n));
        let before = log_of(l.take(n), stamps.take(n)).0;
        let after = log_of(l, stamps).0;
        assert(after.take(before.len() as int) =~= before);
    }
}

proof fn lemma_log_stamps(
    l: Seq<Seq<char>>,
    a: Seq<Result<Real, Seq<char>>>,
    b: Seq<Result<Real, Seq<char>>>,
)
    requires
        forall|i: int| 0 <= i < l.len() ==> #[trigger] a[i] == b[i],
    ensures
        log_of(l, a) == log_of(l, b),
    decreases l.len(),
{
    if l.len() > 0 {
        lemma_log_stamps(l.drop_last(), a, b);
        assert(a[l.len() - 1] == b[l.len() - 1]);
    }
}

/// Lines that begin with `#` or `//`, behind any white space, are comments, and so are blank
/// lines: they hold no frame and are no error.
pub proof fn law_comments_are_passed_over(
    space: Seq<char>,
    text: Seq<char>,
    stamp: Result<Real, Seq<char>>,
)
    requires
        forall|i: int| 0 <= i < space.len() ==> is_white(#[trigger] space[i]),
    ensures
        line_frame(space + (seq!['#'] + text), stamp) == Ok::<Option<Frame>, Seq<char>>(None),
        line_frame(space + (seq!['/', '/'] + text), stamp) == Ok::<Option<Frame>, Seq<char>>(None),
        line_frame(space, stamp) == Ok::<Option<Frame>, Seq<char>>(None),
{
    let a = seq!['#'] + text;
    let b = seq!['/', '/'] + text;
    let e = Seq::<char>::empty();
    crate::text::lemma_skip_space(space, a);
    crate::text::lemma_skip_space(space, b);
    crate::text::lemma_skip_space(space, e);
    assert(space + e =~= space);
    crate::text::lemma_skip_back_front(a, Class::White, 1);
    crate::text::lemma_skip_back_front(b, Class::White, 2);
    reveal_strlit("//");
    let t = trimmed(space + b);
    assert(t.subrange(0, 2) =~= "//"@);
}

/// What is said of an ID or a time that cannot be read names it and the reason; a remote frame
/// has a length and no data.
pub proof fn law_texts_are_named(s: Seq<char>, e: IntError, why: Seq<char>, ts: Real, id: u32, ext: bool, len: int)
    ensures
        bad_id(s, e) == "bad id '"@ + s + seq!['\'', ':', ' '] + e.message(),
        bad_stamp(s, why) == "bad timestamp '"@ + s + seq!['\'', ':', ' '] + why,
        ({
            let m = remote_frame(ts, id, ext, len);
            &&& m.rtr && !m.fd && m.len == len && m.id == id && m.ext == ext && m.ts == ts
            &&& forall|i: int| 0 <= i < 64 ==> #[trigger] m.data[i] == 0
        }),
        zero().bits == 0,
{
    reveal_strlit("': ");
    assert("': "@ =~= seq!['\'', ':', ' ']);
}

/// A log ends with its last frame, whatever came before.
pub proof fn law_logs_end_with_their_last_frame(f: Seq<Frame>, m: Frame)
    ensures
        end_of(f.push(m)) == m.ts,
        end_of(Seq::empty()).bits == 0,
{
}

} // verus!
