//! CAN frames, independent of the interface that they came from.

use vstd::prelude::*;
use vstd::slice::slice_subrange;
use vstd::array::array_as_slice;
use crate::candump::{lemma_hex_pairs_back, lemma_plain_hex, plain_hex};
use crate::number::{
    digits, hex_padded, is_hex_char, lemma_hex_padded, parse_uint, parsed, put_hex, IntError, Real,
};
use crate::text::{
    char_bytes, chars_of, drop_back, drop_prefixes, is_white, lemma_ascii_bytes, lemma_trimmed_same,
    put, put_chars, skip_back, skip_prefixes, split_words, string_of, text_bytes, trim, trimmed,
    views, white, words, Class,
};

verus! {

/// Whether a frame was received or sent.
#[derive(Debug, Clone, Copy, PartialEq, Eq, Structural)]
pub enum Dir {
    Rx,
    Tx,
}

/// What identifies a message: its ID and the ID's format.
#[derive(Debug, Clone, Copy, PartialEq, Eq, Hash, PartialOrd, Ord, Structural)]
pub struct MsgKey {
    pub id: u32,
    pub ext: bool,
}

/// An ID as text: eight hexadecimal digits when extended, three otherwise.
pub open spec fn id_text(id: u32, ext: bool) -> Seq<char> {
    hex_padded(
        id as int,
        if ext {
            8
        } else {
            3
        },
    )
}

/// Appends an ID.
pub fn put_id(out: &mut Vec<char>, id: u32, ext: bool)
    ensures
        final(out)@ == old(out)@ + id_text(id, ext),
{
    if ext {
        put_hex(out, id as u64, 8);
    } else {
        put_hex(out, id as u64, 3);
    }
}

impl MsgKey {
    /// The key as one integer: the ID, with bit 32 set for extended IDs.
    pub open spec fn code_spec(self) -> u64 {
        if self.ext {
            (0x1_0000_0000 + self.id) as u64
        } else {
            self.id as u64
        }
    }

    /// The key as one integer: the ID, with bit 32 set for extended IDs.
    pub fn code(&self) -> (r: u64)
        ensures
            r == self.code_spec(),
    {
        if self.ext {
            0x1_0000_0000 + self.id as u64
        } else {
            self.id as u64
        }
    }

    /// The ID in hexadecimal.
    pub fn fmt_id(&self) -> (r: String)
        ensures
            r@ == id_text(self.id, self.ext),
    {
        let mut out: Vec<char> = Vec::new();
        put_id(&mut out, self.id, self.ext);
        assert(Seq::<char>::empty() + id_text(self.id, self.ext) =~= id_text(self.id, self.ext));
        string_of(out.as_slice())
    }
}

/// Different keys have different codes.
pub proof fn law_codes_tell_keys_apart(a: MsgKey, b: MsgKey)
    ensures
        a.code_spec() == b.code_spec() <==> a == b,
{
}

/// One frame. Bytes of `data` from `len` on are zero in every frame built here.
#[derive(Debug, Clone, Copy)]
pub struct CanMsg {
    /// Seconds since the Unix epoch.
    pub ts: Real,
    pub id: u32,
    pub ext: bool,
    pub rtr: bool,
    pub fd: bool,
    pub brs: bool,
    pub dir: Dir,
    pub len: u8,
    pub data: [u8; 64],
}

/// `d`, cut to 64 bytes and filled up with zeros to 64.
pub open spec fn padded_data(d: Seq<u8>) -> Seq<u8> {
    Seq::new(
        64,
        |i: int|
            if i < d.len() {
                d[i]
            } else {
                0
            },
    )
}

/// The smaller of two lengths.
pub open spec fn least(a: int, b: int) -> int {
    if a < b {
        a
    } else {
        b
    }
}

/// The greater of two lengths.
pub open spec fn greatest(a: int, b: int) -> int {
    if a > b {
        a
    } else {
        b
    }
}

/// The contents of a frame.
#[verifier::ext_equal]
pub ghost struct Frame {
    pub ts: Real,
    pub id: u32,
    pub ext: bool,
    pub rtr: bool,
    pub fd: bool,
    pub brs: bool,
    pub dir: Dir,
    pub len: int,
    pub data: Seq<u8>,
}

impl View for CanMsg {
    type V = Frame;

    open spec fn view(&self) -> Frame {
        Frame {
            ts: self.ts,
            id: self.id,
            ext: self.ext,
            rtr: self.rtr,
            fd: self.fd,
            brs: self.brs,
            dir: self.dir,
            len: self.len as int,
            data: self.data@,
        }
    }
}

/// A received data frame with the given bytes (the first 64 of them).
pub open spec fn data_frame(ts: Real, id: u32, ext: bool, d: Seq<u8>) -> Frame {
    Frame {
        ts,
        id,
        ext,
        rtr: false,
        fd: d.len() > 8,
        brs: false,
        dir: Dir::Rx,
        len: least(d.len() as int, 64),
        data: padded_data(d),
    }
}

/// Whether a frame is a remote one; FD frames never are.
pub open spec fn is_remote(m: Frame) -> bool {
    m.rtr && !m.fd
}

/// What comes back of a frame that was written as text and read again at a time: classic
/// frames have no bit rate switch and a length of at most 8, remote frames no data, and what
/// stands behind the data of others is gone.
pub open spec fn read_back(m: Frame, ts: Real) -> Frame {
    let len = if m.fd {
        m.len
    } else {
        least(m.len, 8)
    };
    Frame {
        ts,
        dir: Dir::Rx,
        rtr: is_remote(m),
        brs: m.fd && m.brs,
        len,
        data: padded_data(
            if is_remote(m) {
                Seq::empty()
            } else {
                m.data.take(len)
            },
        ),
        ..m
    }
}

/// Whether text holds all of a frame: nothing stands behind the data, remote frames have
/// none and are not FD frames, and classic frames have at most 8 bytes and no bit rate
/// switch.
pub open spec fn is_plain(m: Frame) -> bool {
    &&& m.data == padded_data(
        if m.rtr {
            Seq::empty()
        } else {
            m.data.take(m.len)
        },
    )
    &&& if m.fd {
        !m.rtr
    } else {
        !m.brs && m.len <= 8
    }
}

/// A frame that was written as text and read again has its ID, its format and its kind. It
/// has its length, unless it is a classic frame of more than 8 bytes, and its bytes, unless it
/// is a remote frame. Its remote mark and bit rate switch come back where they mean
/// something. A plain frame comes back as it was.
pub proof fn law_what_is_read_back(m: Frame, ts: Real)
    requires
        0 <= m.len <= 64,
        m.data.len() == 64,
    ensures
        read_back(m, ts).id == m.id,
        read_back(m, ts).ext == m.ext,
        read_back(m, ts).fd == m.fd,
        m.fd || m.len <= 8 ==> read_back(m, ts).len == m.len,
        !is_remote(m) ==> read_back(m, ts).data.take(read_back(m, ts).len) == m.data.take(
            read_back(m, ts).len,
        ),
        !m.fd ==> read_back(m, ts).rtr == m.rtr,
        m.fd ==> read_back(m, ts).brs == m.brs,
        is_plain(m) ==> read_back(m, ts) == (Frame { ts, dir: Dir::Rx, ..m }),
        is_plain(read_back(m, ts)),
{
    let r = read_back(m, ts);
    if !is_remote(m) {
        assert(r.data.take(r.len) =~= m.data.take(r.len));
    }
    assert(r.data =~= padded_data(
        if r.rtr {
            Seq::empty()
        } else {
            r.data.take(r.len)
        },
    ));
}

impl CanMsg {
    /// The length fits the data.
    pub open spec fn wf(self) -> bool {
        self.len <= 64
    }

    /// The bytes that the frame carries.
    pub open spec fn payload(self) -> Seq<u8> {
        self.data@.take(self.len as int)
    }

    /// What identifies the message.
    pub open spec fn key_spec(self) -> MsgKey {
        MsgKey { id: self.id, ext: self.ext }
    }

    /// A received data frame with the given bytes (the first 64 of them).
    pub fn new(ts: Real, id: u32, ext: bool, data: &[u8]) -> (r: Self)
        ensures
            r.wf(),
            r@ == data_frame(ts, id, ext, data@),
            r.payload() == data@.take(least(data@.len() as int, 64)),
    {
        let mut buf: [u8; 64] = [0u8;64];
        let len: usize = if data.len() < 64 {
            data.len()
        } else {
            64
        };
        let mut i: usize = 0;
        while i < len
            invariant
                i <= len,
                len <= 64,
                len <= data@.len(),
                forall|j: int| 0 <= j < i ==> buf@[j] == data@[j],
                forall|j: int| i <= j < 64 ==> buf@[j] == 0,
            decreases len - i,
        {
            buf[i] = data[i];
            i = i + 1;
        }
        assert(buf@ =~= padded_data(data@));
        assert(buf@.take(len as int) =~= data@.take(len as int));
        CanMsg {
            ts,
            id,
            ext,
            rtr: false,
            fd: len > 8,
            brs: false,
            dir: Dir::Rx,
            len: len as u8,
            data: buf,
        }
    }

    /// What identifies the message.
    pub fn key(&self) -> (r: MsgKey)
        ensures
            r == self.key_spec(),
    {
        MsgKey { id: self.id, ext: self.ext }
    }

    /// The bytes that the frame carries.
    pub fn data(&self) -> (r: &[u8])
        requires
            self.wf(),
        ensures
            r@ == self.payload(),
    {
        let all = array_as_slice(&self.data);
        slice_subrange(all, 0, self.len as usize)
    }

    /// The bytes in hexadecimal, or `RTR` for a remote frame.
    pub fn data_hex(&self) -> (r: String)
        requires
            self.wf(),
        ensures
            r@ == (if self.rtr {
                "RTR"@
            } else {
                spaced_hex(self.payload())
            }),
    {
        if self.rtr {
            return "RTR".to_string();
        }
        hex_bytes(self.data())
    }
}

/// Bytes as pairs of hexadecimal digits with spaces between.
pub open spec fn spaced_hex(d: Seq<u8>) -> Seq<char>
    decreases d.len(),
{
    if d.len() == 0 {
        Seq::empty()
    } else if d.len() == 1 {
        hex_padded(d[0] as int, 2)
    } else {
        spaced_hex(d.drop_last()).push(' ') + hex_padded(d.last() as int, 2)
    }
}

/// Bytes as pairs of hexadecimal digits with spaces between, e.g. `11 22 AA`.
pub fn hex_bytes(data: &[u8]) -> (r: String)
    ensures
        r@ == spaced_hex(data@),
{
    let mut out: Vec<char> = Vec::new();
    let mut i: usize = 0;
    while i < data.len()
        invariant
            i <= data@.len(),
            out@ == spaced_hex(data@.take(i as int)),
        decreases data@.len() - i,
    {
        let ghost before = out@;
        if i > 0 {
            out.push(' ');
        }
        put_hex(&mut out, data[i] as u64, 2);
        proof {
            let t = data@.take(i + 1);
            assert(t.drop_last() =~= data@.take(i as int));
            assert(t.last() == data@[i as int]);
            if i == 0 {
                assert(before =~= Seq::<char>::empty());
                assert(out@ =~= spaced_hex(t));
            }
        }
        i = i + 1;
    }
    assert(data@.take(i as int) =~= data@);
    string_of(out.as_slice())
}

/// Result of reading a text as pairs of hexadecimal digits.
pub ghost enum HexScan {
    /// Every pair was read.
    Bytes(Seq<u8>),
    /// This pair is not a byte.
    Bad(Seq<char>, IntError),
    /// Two bytes of the UTF-8 text from here do not hold whole characters.
    Cut,
}

/// Reads `s` two UTF-8 bytes at a time, each pair as one hexadecimal byte.
pub open spec fn hex_pairs(acc: Seq<u8>, s: Seq<char>) -> HexScan
    decreases s.len(),
{
    if s.len() == 0 {
        HexScan::Bytes(acc)
    } else if char_bytes(s[0]) == 2 {
        HexScan::Bad(s.take(1), IntError::Digit)
    } else if char_bytes(s[0]) > 2 || s.len() < 2 || char_bytes(s[1]) > 1 {
        HexScan::Cut
    } else {
        match parsed(s.take(2), 16, 0xFF) {
            Ok(v) => hex_pairs(acc.push(v as u8), s.skip(2)),
            Err(e) => HexScan::Bad(s.take(2), e),
        }
    }
}

/// Whether the pairs of a text hold whole characters, up to the first that is no byte.
pub open spec fn pairs_whole(s: Seq<char>) -> bool {
    !(hex_pairs(Seq::empty(), s) is Cut)
}

/// Bytes that a character takes in UTF-8.
pub fn utf8_size(c: char) -> (r: usize)
    ensures
        r == char_bytes(c),
{
    let n: u32 = c as u32;
    if n < 0x80 {
        1
    } else if n < 0x800 {
        2
    } else if n < 0x10000 {
        3
    } else {
        4
    }
}

/// Whether a text takes an even number of bytes in UTF-8.
pub fn even_size(s: &[char]) -> (r: bool)
    ensures
        r == (text_bytes(s@) % 2 == 0),
{
    let mut even = true;
    let mut i: usize = 0;
    while i < s.len()
        invariant
            i <= s@.len(),
            even == (text_bytes(s@.take(i as int)) % 2 == 0),
        decreases s@.len() - i,
    {
        assert(s@.take(i + 1).drop_last() =~= s@.take(i as int));
        if utf8_size(s[i]) % 2 == 1 {
            even = !even;
        }
        i = i + 1;
    }
    assert(s@.take(i as int) =~= s@);
    even
}

/// Reads pairs of hexadecimal digits; the error is the pair that is no byte.
/// Reads nothing past a pair that would cut a character: that is reported as `None`.
pub fn read_pairs(s: &[char]) -> (r: Option<Result<Vec<u8>, (Vec<char>, IntError)>>)
    ensures
        match r {
            Some(Ok(v)) => hex_pairs(Seq::empty(), s@) == HexScan::Bytes(v@),
            Some(Err(e)) => hex_pairs(Seq::empty(), s@) == HexScan::Bad(e.0@, e.1),
            None => hex_pairs(Seq::empty(), s@) is Cut,
        },
{
    let mut out: Vec<u8> = Vec::new();
    let mut i: usize = 0;
    assert(s@.skip(0) =~= s@);
    while i < s.len()
        invariant
            i <= s@.len(),
            hex_pairs(Seq::empty(), s@) == hex_pairs(out@, s@.skip(i as int)),
        decreases s@.len() - i,
    {
        let rest = slice_subrange(s, i, s.len());
        assert(rest@ =~= s@.skip(i as int));
        let n: usize = utf8_size(rest[0]);
        if n == 2 {
            let w = crate::text::copied(slice_subrange(rest, 0, 1));
            assert(w@ =~= rest@.take(1));
            return Some(Err((w, IntError::Digit)));
        }
        if n > 2 || rest.len() < 2 || utf8_size(rest[1]) > 1 {
            return None;
        }
        let pair = slice_subrange(rest, 0, 2);
        assert(pair@ =~= rest@.take(2));
        match parse_uint(pair, 16, 0xFF) {
            Ok(v) => {
                out.push(v as u8);
            },
            Err(e) => {
                return Some(Err((crate::text::copied(pair), e)));
            },
        }
        i = i + 2;
        assert(rest@.skip(2) =~= s@.skip(i as int));
    }
    Some(Ok(out))
}

/// Characters that may stand between bytes.
pub open spec fn is_separator(c: char) -> bool {
    is_white(c) || c == ',' || c == ':' || c == '.'
}

/// `s` without separators.
pub open spec fn unseparated(s: Seq<char>) -> Seq<char>
    decreases s.len(),
{
    if s.len() == 0 {
        s
    } else if is_separator(s.last()) {
        unseparated(s.drop_last())
    } else {
        unseparated(s.drop_last()).push(s.last())
    }
}

/// The digits of a text of bytes: no separators, no `0x` in front.
pub open spec fn hex_digits_of(s: Seq<char>) -> Seq<char> {
    skip_prefixes(skip_prefixes(unseparated(s), "0x"@), "0X"@)
}

/// The message about a piece that is no byte.
pub open spec fn piece_error(piece: Seq<char>, e: IntError) -> Seq<char> {
    "'"@ + piece + "': "@ + e.message()
}

/// One byte per word.
pub open spec fn word_bytes(acc: Seq<u8>, w: Seq<Seq<char>>) -> Result<Seq<u8>, Seq<char>>
    decreases w.len(),
{
    if w.len() == 0 {
        Ok(acc)
    } else {
        match parsed(skip_prefixes(w[0], "0x"@), 16, 0xFF) {
            Ok(v) => word_bytes(acc.push(v as u8), w.skip(1)),
            Err(e) => Err(piece_error(w[0], e)),
        }
    }
}

/// The bytes that a text in hexadecimal means: pairs of digits, or, when the digits do
/// not pair up, one byte per word.
pub open spec fn hex_text(s: Seq<char>) -> Result<Seq<u8>, Seq<char>> {
    if text_bytes(hex_digits_of(s)) % 2 != 0 {
        word_bytes(Seq::empty(), words(s, Class::WhiteOr(',')))
    } else {
        match hex_pairs(Seq::empty(), hex_digits_of(s)) {
            HexScan::Bytes(b) => Ok(b),
            HexScan::Bad(pair, e) => Err(piece_error(pair, e)),
            HexScan::Cut => Err(Seq::empty()),
        }
    }
}

/// Whether [`parse_hex_bytes`] can read the text without cutting a character in two.
pub open spec fn hex_readable(s: Seq<char>) -> bool {
    text_bytes(hex_digits_of(s)) % 2 == 0 ==> pairs_whole(hex_digits_of(s))
}

/// The message about a piece that is no byte.
pub fn describe_piece(piece: &[char], e: IntError) -> (r: String)
    ensures
        r@ == piece_error(piece@, e),
{
    let mut out: Vec<char> = Vec::new();
    put(&mut out, "'");
    put_chars(&mut out, piece);
    put(&mut out, "': ");
    put(&mut out, e.text());
    assert(out@ =~= piece_error(piece@, e));
    string_of(out.as_slice())
}

fn without_separators(s: &[char]) -> (r: Vec<char>)
    ensures
        r@ == unseparated(s@),
{
    let mut v: Vec<char> = Vec::new();
    let mut i: usize = 0;
    while i < s.len()
        invariant
            i <= s@.len(),
            v@ == unseparated(s@.take(i as int)),
        decreases s@.len() - i,
    {
        let c = s[i];
        assert(s@.take(i + 1).drop_last() =~= s@.take(i as int));
        if !(white(c) || c == ',' || c == ':' || c == '.') {
            v.push(c);
        }
        i = i + 1;
    }
    assert(s@.take(i as int) =~= s@);
    v
}

fn parse_words(w: &Vec<Vec<char>>) -> (r: Result<Vec<u8>, String>)
    ensures
        match r {
            Ok(v) => word_bytes(Seq::empty(), views(w@)) == Ok::<Seq<u8>, Seq<char>>(v@),
            Err(e) => word_bytes(Seq::empty(), views(w@)) == Err::<Seq<u8>, Seq<char>>(e@),
        },
{
    let mut out: Vec<u8> = Vec::new();
    let mut i: usize = 0;
    assert(views(w@).skip(0) =~= views(w@));
    proof {
        reveal_strlit("0x");
    }
    while i < w.len()
        invariant
            i <= w@.len(),
            "0x"@.len() == 2,
            word_bytes(Seq::empty(), views(w@)) == word_bytes(out@, views(w@).skip(i as int)),
        decreases w@.len() - i,
    {
        assert(views(w@).skip(i as int)[0] == w@[i as int]@);
        assert(views(w@).skip(i as int).skip(1) =~= views(w@).skip(i + 1));
        let t = drop_prefixes(w[i].as_slice(), "0x");
        match parse_uint(t, 16, 0xFF) {
            Ok(v) => {
                out.push(v as u8);
            },
            Err(e) => {
                return Err(describe_piece(w[i].as_slice(), e));
            },
        }
        i = i + 1;
    }
    Ok(out)
}

fn digits_of(s: &[char]) -> (r: Vec<char>)
    ensures
        r@ == hex_digits_of(s@),
{
    proof {
        reveal_strlit("0x");
        reveal_strlit("0X");
    }
    let v = without_separators(s);
    crate::text::copied(drop_prefixes(drop_prefixes(v.as_slice(), "0x"), "0X"))
}

/// Tests whether [`parse_hex_bytes`] takes the text.
pub fn can_read_hex(s: &str) -> (r: bool)
    ensures
        r == hex_readable(s@),
{
    let all = chars_of(s);
    let d = digits_of(all.as_slice());
    if !even_size(d.as_slice()) {
        return true;
    }
    match read_pairs(d.as_slice()) {
        None => false,
        _ => true,
    }
}

/// Reads bytes in hexadecimal: `11 22 33`, `112233`, `11,22,33`, `1 2 3`.
pub fn parse_hex_bytes(s: &str) -> (r: Result<Vec<u8>, String>)
    requires
        hex_readable(s@),
    ensures
        match r {
            Ok(v) => hex_text(s@) == Ok::<Seq<u8>, Seq<char>>(v@),
            Err(e) => hex_text(s@) == Err::<Seq<u8>, Seq<char>>(e@),
        },
{
    let all = chars_of(s);
    let d = digits_of(all.as_slice());
    if !even_size(d.as_slice()) {
        let w = split_words(all.as_slice(), Class::WhiteOr(','));
        return parse_words(&w);
    }
    match read_pairs(d.as_slice()) {
        Some(Ok(v)) => Ok(v),
        Some(Err(e)) => Err(describe_piece(e.0.as_slice(), e.1)),
        None => vstd::pervasive::unreached(),
    }
}

/// The digits of an ID: trimmed, without `0x` in front or `h` behind.
pub open spec fn id_digits(s: Seq<char>) -> Seq<char> {
    skip_back(
        skip_prefixes(skip_prefixes(trimmed(s), "0x"@), "0X"@),
        Class::Either('h', 'H'),
    )
}

/// Reads an ID in hexadecimal: `7ff`, `0x7FF`, `123h`.
pub fn parse_hex_id(s: &str) -> (r: Result<u32, String>)
    ensures
        match r {
            Ok(v) => parsed(id_digits(s@), 16, u32::MAX as int) == Ok::<int, IntError>(v as int),
            Err(e) => parsed(id_digits(s@), 16, u32::MAX as int) matches Err(k) && e@
                == "invalid ID '"@ + s@ + "': "@ + k.message(),
        },
{
    proof {
        reveal_strlit("0x");
        reveal_strlit("0X");
    }
    let all = chars_of(s);
    let t = drop_prefixes(drop_prefixes(trim(all.as_slice()), "0x"), "0X");
    let t = drop_back(t, Class::Either('h', 'H'));
    match parse_uint(t, 16, 0xFFFF_FFFF) {
        Ok(v) => Ok(v as u32),
        Err(k) => {
            let mut out: Vec<char> = Vec::new();
            put(&mut out, "invalid ID '");
            put(&mut out, s);
            put(&mut out, "': ");
            put(&mut out, k.text());
            assert(out@ =~= "invalid ID '"@ + s@ + "': "@ + k.message());
            Err(string_of(out.as_slice()))
        },
    }
}

proof fn lemma_unseparated_add(a: Seq<char>, b: Seq<char>)
    ensures
        unseparated(a + b) == unseparated(a) + unseparated(b),
    decreases b.len(),
{
    if b.len() == 0 {
        assert(a + b =~= a);
        assert(unseparated(a) + unseparated(b) =~= unseparated(a));
    } else {
        assert((a + b).drop_last() =~= a + b.drop_last());
        lemma_unseparated_add(a, b.drop_last());
        assert(unseparated(a + b) =~= unseparated(a) + unseparated(b));
    }
}

proof fn lemma_unseparated_hex(s: Seq<char>)
    requires
        forall|i: int| 0 <= i < s.len() ==> is_hex_char(#[trigger] s[i]),
    ensures
        unseparated(s) == s,
    decreases s.len(),
{
    if s.len() > 0 {
        let t = s.drop_last();
        assert forall|i: int| 0 <= i < t.len() implies is_hex_char(#[trigger] t[i]) by {
            assert(t[i] == s[i]);
        }
        lemma_unseparated_hex(t);
        assert(is_hex_char(s[s.len() - 1]));
        assert(t.push(s.last()) =~= s);
    }
}

proof fn lemma_unspaced(d: Seq<u8>)
    ensures
        unseparated(spaced_hex(d)) == plain_hex(d),
    decreases d.len(),
{
    if d.len() > 0 {
        let h = hex_padded(d.last() as int, 2);
        lemma_hex_padded(d.last() as int, 2, 0xFF);
        lemma_unseparated_hex(h);
        if d.len() == 1 {
            assert(plain_hex(d.drop_last()) =~= Seq::<char>::empty());
            assert(plain_hex(d) =~= h);
        } else {
            let before = spaced_hex(d.drop_last());
            lemma_unspaced(d.drop_last());
            lemma_unseparated_add(before.push(' '), h);
            assert(before.push(' ').drop_last() =~= before);
        }
    }
}

/// Digits have no `0x` in front.
proof fn lemma_no_prefix(s: Seq<char>)
    requires
        forall|i: int| 0 <= i < s.len() ==> is_hex_char(#[trigger] s[i]),
    ensures
        skip_prefixes(skip_prefixes(s, "0x"@), "0X"@) == s,
{
    reveal_strlit("0x");
    reveal_strlit("0X");
    if "0x"@.is_prefix_of(s) {
        assert(s.subrange(0, 2)[1] == "0x"@[1]);
        assert(is_hex_char(s[1]));
    }
    if "0X"@.is_prefix_of(s) {
        assert(s.subrange(0, 2)[1] == "0X"@[1]);
        assert(is_hex_char(s[1]));
    }
}

/// Bytes written with [`hex_bytes`] read back.
pub proof fn law_hex_text_reads_back(d: Seq<u8>)
    ensures
        hex_readable(spaced_hex(d)),
        hex_text(spaced_hex(d)) == Ok::<Seq<u8>, Seq<char>>(d),
{
    let s = plain_hex(d);
    lemma_unspaced(d);
    lemma_plain_hex(d);
    lemma_no_prefix(s);
    assert forall|i: int| 0 <= i < s.len() implies (#[trigger] s[i] as int) < 0x80 by {
        assert(is_hex_char(s[i]));
    }
    lemma_ascii_bytes(s);
    lemma_hex_pairs_back(Seq::empty(), d);
    assert(Seq::<u8>::empty() + d =~= d);
}

/// IDs written in hexadecimal, with zeros in front or without, read back.
pub proof fn law_id_reads_back(id: u32, ext: bool)
    ensures
        parsed(id_digits(id_text(id, ext)), 16, u32::MAX as int) == Ok::<int, IntError>(id as int),
        parsed(id_digits(digits(id as int, 16)), 16, u32::MAX as int) == Ok::<int, IntError>(id as int),
{
    assert(hex_padded(id as int, 0) =~= digits(id as int, 16));
    lemma_padded_id(id, 0);
    lemma_padded_id(id, 3);
    lemma_padded_id(id, 8);
}

proof fn lemma_padded_id(id: u32, w: int)
    ensures
        parsed(id_digits(hex_padded(id as int, w)), 16, u32::MAX as int) == Ok::<int, IntError>(
            id as int,
        ),
{
    let s = hex_padded(id as int, w);
    lemma_hex_padded(id as int, w, u32::MAX as int);
    assert(is_hex_char(s[0]));
    assert(is_hex_char(s[s.len() - 1]));
    lemma_trimmed_same(s);
    lemma_no_prefix(s);
}

/// The lengths that a CAN FD frame can have.
pub open spec fn fd_len(len: int) -> bool {
    0 <= len <= 8 || len == 12 || len == 16 || len == 20 || len == 24 || len == 32 || len == 48 || len
        == 64
}

/// Whether a CAN FD frame can have this length.
pub fn fd_len_ok(len: usize) -> (r: bool)
    ensures
        r == fd_len(len as int),
{
    len <= 8 || len == 12 || len == 16 || len == 20 || len == 24 || len == 32 || len == 48 || len
        == 64
}

/// Codes sort keys: standard IDs before extended ones, and within a format by number.
pub proof fn law_codes_sort_keys(a: MsgKey, b: MsgKey)
    ensures
        a.ext == b.ext ==> (a.code_spec() < b.code_spec() <==> a.id < b.id),
        !a.ext && b.ext ==> a.code_spec() < b.code_spec(),
{
}

/// A new frame holds the bytes that it was given, up to 64 of them, in their order and nothing
/// behind them. It is a received data frame, an FD frame when it has more than 8 bytes.
pub proof fn law_new_frame_holds_its_bytes(ts: Real, id: u32, ext: bool, d: Seq<u8>, i: int)
    requires
        0 <= i < 64,
    ensures
        ({
            let m = data_frame(ts, id, ext, d);
            &&& m.ts == ts && m.id == id && m.ext == ext && m.dir == Dir::Rx
            &&& !m.rtr && !m.brs && (m.fd <==> d.len() > 8)
            &&& d.len() <= 64 ==> m.len == d.len()
            &&& d.len() > 64 ==> m.len == 64
            &&& m.data.len() == 64
            &&& i < d.len() ==> m.data[i] == d[i]
            &&& i >= d.len() ==> m.data[i] == 0
        }),
{
}

/// Bytes read the same however they are separated: any text that holds their digits, and
/// nothing else but separators, stands for them, with `0x` in front of it or without.
pub proof fn law_separators_mean_nothing(d: Seq<u8>, s: Seq<char>)
    requires
        unseparated(s) == plain_hex(d) || unseparated(s) == seq!['0', 'x'] + plain_hex(d)
            || unseparated(s) == seq!['0', 'X'] + plain_hex(d),
    ensures
        hex_readable(s),
        hex_text(s) == Ok::<Seq<u8>, Seq<char>>(d),
{
    let p = plain_hex(d);
    lemma_plain_hex(d);
    lemma_no_prefix(p);
    lemma_prefixed(p);
    assert forall|i: int| 0 <= i < p.len() implies (#[trigger] p[i] as int) < 0x80 by {
        assert(is_hex_char(p[i]));
    }
    lemma_ascii_bytes(p);
    lemma_hex_pairs_back(Seq::empty(), d);
    assert(Seq::<u8>::empty() + d =~= d);
    assert(hex_digits_of(s) == p);
}

/// White space, commas, colons and dots separate bytes wherever they stand.
pub proof fn law_separators(a: Seq<char>, c: char, b: Seq<char>)
    requires
        is_white(c) || c == ',' || c == ':' || c == '.',
    ensures
        unseparated(a.push(c) + b) == unseparated(a + b),
{
    lemma_unseparated_add(a.push(c), b);
    lemma_unseparated_add(a, b);
    assert(a.push(c).drop_last() =~= a);
}

/// A prefix in front of digits is skipped.
proof fn lemma_prefixed(s: Seq<char>)
    requires
        forall|i: int| 0 <= i < s.len() ==> is_hex_char(#[trigger] s[i]),
    ensures
        skip_prefixes(skip_prefixes(seq!['0', 'x'] + s, "0x"@), "0X"@) == s,
        skip_prefixes(skip_prefixes(seq!['0', 'X'] + s, "0x"@), "0X"@) == s,
{
    reveal_strlit("0x");
    reveal_strlit("0X");
    lemma_no_prefix(s);
    let a = seq!['0', 'x'] + s;
    let b = seq!['0', 'X'] + s;
    assert(a.subrange(0, 2) =~= "0x"@);
    assert(b.subrange(0, 2) =~= "0X"@);
    assert(a.skip(2) =~= s);
    assert(b.skip(2) =~= s);
    if "0x"@.is_prefix_of(b) {
        assert(b.subrange(0, 2)[1] == "0x"@[1]);
    }
    if "0x"@.is_prefix_of(s) {
        assert(s.subrange(0, 2)[1] == "0x"@[1]);
        assert(is_hex_char(s[1]));
    }
    assert(skip_prefixes(a, "0x"@) == skip_prefixes(s, "0x"@));
    assert(skip_prefixes(s, "0x"@) == s);
    assert(skip_prefixes(b, "0X"@) == skip_prefixes(s, "0X"@));
}

/// Where the digits of a text do not pair up, each word is one byte.
pub proof fn law_words_are_bytes(s: Seq<char>, d: Seq<u8>)
    requires
        text_bytes(hex_digits_of(s)) % 2 == 1,
        words(s, Class::WhiteOr(',')) == Seq::new(d.len(), |i: int| digits(d[i] as int, 16)),
    ensures
        hex_text(s) == Ok::<Seq<u8>, Seq<char>>(d),
{
    lemma_word_bytes(Seq::empty(), d);
    assert(Seq::<u8>::empty() + d =~= d);
}

proof fn lemma_word_bytes(acc: Seq<u8>, d: Seq<u8>)
    ensures
        word_bytes(acc, Seq::new(d.len(), |i: int| digits(d[i] as int, 16))) == Ok::<
            Seq<u8>,
            Seq<char>,
        >(acc + d),
    decreases d.len(),
{
    let w = Seq::new(d.len(), |i: int| digits(d[i] as int, 16));
    if d.len() == 0 {
        assert(acc + d =~= acc);
    } else {
        let t = d.skip(1);
        assert(w.skip(1) =~= Seq::new(t.len(), |i: int| digits(t[i] as int, 16)));
        assert(hex_padded(d[0] as int, 0) =~= digits(d[0] as int, 16));
        lemma_hex_padded(d[0] as int, 0, 0xFF);
        reveal_strlit("0x");
        if "0x"@.is_prefix_of(w[0]) {
            assert(w[0].subrange(0, 2)[1] == "0x"@[1]);
            assert(is_hex_char(w[0][1]));
        }
        lemma_word_bytes(acc.push(d[0]), t);
        assert(acc.push(d[0]) + t =~= acc + d);
    }
}

/// An ID reads back with `0x` in front, with `h` behind, and with both.
pub proof fn law_id_forms_read_back(id: u32, ext: bool)
    ensures
        ({
            let t = id_text(id, ext);
            let reads = |s: Seq<char>|
                parsed(id_digits(s), 16, u32::MAX as int) == Ok::<int, IntError>(id as int);
            &&& reads(seq!['0', 'x'] + t) && reads(seq!['0', 'X'] + t)
            &&& reads(t.push('h')) && reads(t.push('H'))
            &&& reads((seq!['0', 'x'] + t).push('h')) && reads((seq!['0', 'X'] + t).push('H'))
        }),
{
    let t = id_text(id, ext);
    lemma_id_form(id, ext, Seq::empty(), Seq::empty());
    lemma_id_form(id, ext, seq!['0', 'x'], Seq::empty());
    lemma_id_form(id, ext, seq!['0', 'X'], Seq::empty());
    lemma_id_form(id, ext, Seq::empty(), seq!['h']);
    lemma_id_form(id, ext, Seq::empty(), seq!['H']);
    lemma_id_form(id, ext, seq!['0', 'x'], seq!['h']);
    lemma_id_form(id, ext, seq!['0', 'X'], seq!['H']);
    assert(seq!['0', 'x'] + t + Seq::<char>::empty() =~= seq!['0', 'x'] + t);
    assert(seq!['0', 'X'] + t + Seq::<char>::empty() =~= seq!['0', 'X'] + t);
    assert(Seq::<char>::empty() + t + seq!['h'] =~= t.push('h'));
    assert(Seq::<char>::empty() + t + seq!['H'] =~= t.push('H'));
    assert(seq!['0', 'x'] + t + seq!['h'] =~= (seq!['0', 'x'] + t).push('h'));
    assert(seq!['0', 'X'] + t + seq!['H'] =~= (seq!['0', 'X'] + t).push('H'));
}

proof fn lemma_id_form(id: u32, ext: bool, p: Seq<char>, q: Seq<char>)
    requires
        p.len() == 0 || p == seq!['0', 'x'] || p == seq!['0', 'X'],
        q.len() == 0 || q == seq!['h'] || q == seq!['H'],
    ensures
        parsed(id_digits(p + id_text(id, ext) + q), 16, u32::MAX as int) == Ok::<int, IntError>(
            id as int,
        ),
{
    let w: int = if ext {
        8
    } else {
        3
    };
    let t = id_text(id, ext);
    let s = p + t + q;
    let u = t + q;
    let k = Class::Either('h', 'H');
    lemma_hex_padded(id as int, w, u32::MAX as int);
    assert(is_hex_char(t[0]));
    assert(is_hex_char(t[t.len() - 1]));
    assert(s.last() == (if q.len() > 0 {
        q[0]
    } else {
        t[t.len() - 1]
    }));
    assert(s[0] == (if p.len() > 0 {
        p[0]
    } else {
        t[0]
    }));
    lemma_trimmed_same(s);
    reveal_strlit("0x");
    reveal_strlit("0X");
    assert(u.len() > 1);
    assert(u[1] == t[1]) by {
        assert(t.len() >= 3);
    }
    assert(is_hex_char(t[1]));
    if "0x"@.is_prefix_of(u) {
        assert(u.subrange(0, 2)[1] == "0x"@[1]);
    }
    if "0X"@.is_prefix_of(u) {
        assert(u.subrange(0, 2)[1] == "0X"@[1]);
    }
    assert(skip_prefixes(u, "0x"@) == u);
    assert(skip_prefixes(u, "0X"@) == u);
    if p.len() == 0 {
        assert(s =~= u);
    } else if p == seq!['0', 'x'] {
        assert(s.subrange(0, 2) =~= "0x"@);
        assert(s.skip(2) =~= u);
        assert(skip_prefixes(s, "0x"@) == skip_prefixes(u, "0x"@));
    } else {
        assert(s.subrange(0, 2) =~= "0X"@);
        assert(s.skip(2) =~= u);
        if "0x"@.is_prefix_of(s) {
            assert(s.subrange(0, 2)[1] == "0x"@[1]);
        }
        assert(skip_prefixes(s, "0X"@) == skip_prefixes(u, "0X"@));
    }
    assert(skip_back(t, k) == t);
    if q.len() == 0 {
        assert(u =~= t);
    } else {
        assert(u.drop_last() =~= t);
        assert(u.last() == q[0]);
    }
}

/// CAN FD frames have up to 8 bytes, above that up to 24 bytes in steps of 4, and above that
/// 32, 48 or 64 bytes.
pub proof fn law_fd_lengths(n: int)
    ensures
        fd_len(n) == (0 <= n <= 8 || (8 < n <= 24 && n % 4 == 0) || (24 < n <= 64 && n % 16 == 0)),
{
}

/// What is said of a piece that is no byte names the piece and the reason.
pub proof fn law_pieces_are_named(piece: Seq<char>, e: IntError)
    ensures
        piece_error(piece, e) == seq!['\''] + piece + seq!['\'', ':', ' '] + e.message(),
{
    reveal_strlit("'");
    reveal_strlit("': ");
    assert("'"@ =~= seq!['\'']);
    assert("': "@ =~= seq!['\'', ':', ' ']);
}

/// The code of a key is its ID, with the bit above its 32 bits set for an extended one.
pub proof fn law_codes_hold_keys(k: MsgKey)
    ensures
        k.code_spec() as int % 0x1_0000_0000 == k.id,
        k.code_spec() as int / 0x1_0000_0000 == if k.ext {
            1int
        } else {
            0int
        },
{
}

} // verus!
