//! Text as sequences of characters: trimming, splitting, searching, case.

use vstd::prelude::*;
use vstd::slice::slice_subrange;
use vstd::utf8::{decode_utf8, valid_utf8};

verus! {

/// `String::push`: appends one character.
pub assume_specification[ String::push ](s: &mut String, c: char)
    ensures
        final(s)@ == old(s)@.push(c),
;

/// `std::str::from_utf8`: the text that the bytes hold, or that they are not valid UTF-8.
#[verifier::external_body]
pub(crate) fn utf8_text(b: &[u8]) -> (r: Option<String>)
    ensures
        match r {
            Some(s) => valid_utf8(b@) && s@ == decode_utf8(b@),
            None => !valid_utf8(b@),
        },
{
    std::str::from_utf8(b).ok().map(|s| s.to_string())
}

/// The characters of a string slice.
pub fn chars_of(s: &str) -> (r: Vec<char>)
    ensures
        r@ == s@,
{
    let mut v: Vec<char> = Vec::new();
    for c in it: s.chars()
        invariant
            it.seq() == s@,
            v@ == s@.take(it.index()),
    {
        proof {
            assert(s@.take(it.index() + 1) =~= s@.take(it.index()).push(c));
        }
        v.push(c);
    }
    assert(s@.take(s@.len() as int) =~= s@);
    v
}

/// A string made of the given characters.
pub fn string_of(s: &[char]) -> (r: String)
    ensures
        r@ == s@,
{
    let mut out = String::new();
    let mut i: usize = 0;
    while i < s.len()
        invariant
            i <= s@.len(),
            out@ == s@.take(i as int),
        decreases s@.len() - i,
    {
        assert(s@.take(i + 1) =~= s@.take(i as int).push(s@[i as int]));
        out.push(s[i]);
        i = i + 1;
    }
    assert(s@.take(s@.len() as int) =~= s@);
    out
}


/// A set of characters to trim, skip or split at.
#[derive(Clone, Copy)]
pub enum Class {
    /// Unicode white space.
    White,
    /// One character.
    One(char),
    /// Either of two characters.
    Either(char, char),
    /// White space or one more character.
    WhiteOr(char),
}

/// The characters with the Unicode property `White_Space`.
pub open spec fn is_white(c: char) -> bool {
    let n = c as int;
    ||| 9 <= n <= 13
    ||| n == 0x20
    ||| n == 0x85
    ||| n == 0xA0
    ||| n == 0x1680
    ||| 0x2000 <= n <= 0x200A
    ||| n == 0x2028
    ||| n == 0x2029
    ||| n == 0x202F
    ||| n == 0x205F
    ||| n == 0x3000
}

pub open spec fn in_class(k: Class, c: char) -> bool {
    match k {
        Class::White => is_white(c),
        Class::One(a) => c == a,
        Class::Either(a, b) => c == a || c == b,
        Class::WhiteOr(a) => is_white(c) || c == a,
    }
}

/// Whether `c` is white space.
pub fn white(c: char) -> (r: bool)
    ensures
        r == is_white(c),
{
    let n: u32 = c as u32;
    (9 <= n && n <= 13) || n == 0x20 || n == 0x85 || n == 0xA0 || n == 0x1680 || (0x2000 <= n && n
        <= 0x200A) || n == 0x2028 || n == 0x2029 || n == 0x202F || n == 0x205F || n == 0x3000
}

/// Whether `c` belongs to `k`.
pub fn belongs(k: Class, c: char) -> (r: bool)
    ensures
        r == in_class(k, c),
{
    match k {
        Class::White => white(c),
        Class::One(a) => c == a,
        Class::Either(a, b) => c == a || c == b,
        Class::WhiteOr(a) => white(c) || c == a,
    }
}

/// `s` without its leading characters of class `k`.
pub open spec fn skip_front(s: Seq<char>, k: Class) -> Seq<char>
    decreases s.len(),
{
    if s.len() > 0 && in_class(k, s[0]) {
        skip_front(s.skip(1), k)
    } else {
        s
    }
}

/// `s` without its trailing characters of class `k`.
pub open spec fn skip_back(s: Seq<char>, k: Class) -> Seq<char>
    decreases s.len(),
{
    if s.len() > 0 && in_class(k, s.last()) {
        skip_back(s.drop_last(), k)
    } else {
        s
    }
}

/// `s` without white space at either end.
pub open spec fn trimmed(s: Seq<char>) -> Seq<char> {
    skip_back(skip_front(s, Class::White), Class::White)
}

/// `s` without leading copies of `p`.
pub open spec fn skip_prefixes(s: Seq<char>, p: Seq<char>) -> Seq<char>
    decreases s.len(),
{
    if p.len() > 0 && p.is_prefix_of(s) {
        skip_prefixes(s.skip(p.len() as int), p)
    } else {
        s
    }
}

/// Position of the first character of class `k`, or the length when there is none.
pub open spec fn find(s: Seq<char>, k: Class) -> int
    decreases s.len(),
{
    if s.len() == 0 || in_class(k, s[0]) {
        0
    } else {
        1 + find(s.skip(1), k)
    }
}

/// The non-empty pieces of `s` between characters of class `k`.
pub open spec fn words(s: Seq<char>, k: Class) -> Seq<Seq<char>>
    decreases s.len(),
{
    let t = skip_front(s, k);
    if t.len() == 0 {
        Seq::empty()
    } else {
        proof {
            lemma_skip_front(s, k);
            lemma_find(t, k);
        }
        seq![t.take(find(t, k))] + words(t.skip(find(t, k)), k)
    }
}

/// A line without the carriage return that ends it.
pub open spec fn chomp(s: Seq<char>) -> Seq<char> {
    if s.len() > 0 && s.last() == '\r' {
        s.drop_last()
    } else {
        s
    }
}

/// The lines of a text: each ends at a line feed, optionally preceded by a carriage
/// return; the last one may lack its line feed.
pub open spec fn lines(s: Seq<char>) -> Seq<Seq<char>>
    decreases s.len(),
{
    let n = find(s, Class::One('\n'));
    if s.len() == 0 {
        Seq::empty()
    } else if n >= s.len() {
        seq![s]
    } else {
        proof {
            lemma_find(s, Class::One('\n'));
        }
        seq![chomp(s.take(n))] + lines(s.skip(n + 1))
    }
}

/// The views of a list of strings.
pub open spec fn views(v: Seq<Vec<char>>) -> Seq<Seq<char>> {
    Seq::new(v.len(), |i: int| v[i]@)
}

pub open spec fn lower(c: char) -> char {
    if 'A' <= c <= 'Z' {
        (c as int + 32) as char
    } else {
        c
    }
}

pub open spec fn upper(c: char) -> char {
    if 'a' <= c <= 'z' {
        (c as int - 32) as char
    } else {
        c
    }
}

/// `s` with the ASCII capitals made small.
pub open spec fn lowered(s: Seq<char>) -> Seq<char> {
    Seq::new(s.len(), |i: int| lower(s[i]))
}

/// `s` with the ASCII small letters made capitals.
pub open spec fn uppered(s: Seq<char>) -> Seq<char> {
    Seq::new(s.len(), |i: int| upper(s[i]))
}

/// Whether `p` occurs somewhere in `s`.
pub open spec fn has_piece(s: Seq<char>, p: Seq<char>) -> bool {
    exists|i: int| 0 <= i <= s.len() - p.len() && #[trigger] s.subrange(i, i + p.len()) == p
}

/// Bytes that a character takes in UTF-8.
pub open spec fn char_bytes(c: char) -> int {
    let n = c as int;
    if n < 0x80 {
        1
    } else if n < 0x800 {
        2
    } else if n < 0x10000 {
        3
    } else {
        4
    }
}

/// Bytes that a text takes in UTF-8.
pub open spec fn text_bytes(s: Seq<char>) -> int
    decreases s.len(),
{
    if s.len() == 0 {
        0
    } else {
        text_bytes(s.drop_last()) + char_bytes(s.last())
    }
}

pub proof fn lemma_skip_front(s: Seq<char>, k: Class)
    ensures
        skip_front(s, k).len() <= s.len(),
        skip_front(s, k) == s.skip(s.len() - skip_front(s, k).len()),
        skip_front(s, k).len() > 0 ==> !in_class(k, skip_front(s, k)[0]),
    decreases s.len(),
{
    if s.len() > 0 && in_class(k, s[0]) {
        lemma_skip_front(s.skip(1), k);
        let t = skip_front(s, k);
        assert(s.skip(1).skip(s.len() - 1 - t.len()) =~= s.skip(s.len() - t.len()));
    } else {
        assert(s.skip(0) =~= s);
    }
}

pub proof fn lemma_find(s: Seq<char>, k: Class)
    ensures
        0 <= find(s, k) <= s.len(),
        find(s, k) < s.len() ==> in_class(k, s[find(s, k)]),
        forall|j: int| 0 <= j < find(s, k) ==> !in_class(k, #[trigger] s[j]),
        s.len() > 0 && !in_class(k, s[0]) ==> find(s, k) > 0,
    decreases s.len(),
{
    if s.len() == 0 || in_class(k, s[0]) {
    } else {
        lemma_find(s.skip(1), k);
        assert forall|j: int| 0 <= j < find(s, k) implies !in_class(k, #[trigger] s[j]) by {
            if j > 0 {
                assert(s[j] == s.skip(1)[j - 1]);
            }
        }
    }
}

/// `find` is the one position with no earlier member of the class.
pub proof fn lemma_find_at(s: Seq<char>, k: Class, n: int)
    requires
        0 <= n <= s.len(),
        n < s.len() ==> in_class(k, s[n]),
        forall|j: int| 0 <= j < n ==> !in_class(k, #[trigger] s[j]),
    ensures
        find(s, k) == n,
{
    lemma_find(s, k);
    let f = find(s, k);
    if f < n {
        assert(!in_class(k, s[f]));
    } else if n < f {
        assert(!in_class(k, s[n]));
    }
}

/// Skipping from a position reached by skipping gives the same rest.
pub proof fn lemma_skip_front_step(s: Seq<char>, k: Class, n: int)
    requires
        0 <= n <= s.len(),
        forall|j: int| 0 <= j < n ==> in_class(k, #[trigger] s[j]),
    ensures
        skip_front(s, k) == skip_front(s.skip(n), k),
    decreases n,
{
    if n == 0 {
        assert(s.skip(0) =~= s);
    } else {
        assert(in_class(k, s[0]));
        lemma_skip_front_step(s.skip(1), k, n - 1);
        assert(s.skip(1).skip(n - 1) =~= s.skip(n));
    }
}

pub proof fn lemma_skip_back_step(s: Seq<char>, k: Class, n: int)
    requires
        0 <= n <= s.len(),
        forall|j: int| n <= j < s.len() ==> in_class(k, #[trigger] s[j]),
    ensures
        skip_back(s, k) == skip_back(s.take(n), k),
    decreases s.len() - n,
{
    if n == s.len() {
        assert(s.take(n) =~= s);
    } else {
        assert(in_class(k, s[s.len() - 1]));
        assert forall|j: int| n <= j < s.drop_last().len() implies in_class(
            k,
            #[trigger] s.drop_last()[j],
        ) by {
            assert(s.drop_last()[j] == s[j]);
        }
        lemma_skip_back_step(s.drop_last(), k, n);
        assert(s.drop_last().take(n) =~= s.take(n));
    }
}

/// Removes leading characters of class `k`.
pub fn drop_front(s: &[char], k: Class) -> (r: &[char])
    ensures
        r@ == skip_front(s@, k),
{
    let mut i: usize = 0;
    while i < s.len() && belongs(k, s[i])
        invariant
            i <= s@.len(),
            forall|j: int| 0 <= j < i ==> in_class(k, #[trigger] s@[j]),
        decreases s@.len() - i,
    {
        i = i + 1;
    }
    proof {
        lemma_skip_front_step(s@, k, i as int);
    }
    slice_subrange(s, i, s.len())
}

/// Removes trailing characters of class `k`.
pub fn drop_back(s: &[char], k: Class) -> (r: &[char])
    ensures
        r@ == skip_back(s@, k),
{
    let mut n: usize = s.len();
    while n > 0 && belongs(k, s[n - 1])
        invariant
            n <= s@.len(),
            forall|j: int| n <= j < s@.len() ==> in_class(k, #[trigger] s@[j]),
        decreases n,
    {
        n = n - 1;
    }
    proof {
        lemma_skip_back_step(s@, k, n as int);
    }
    slice_subrange(s, 0, n)
}

/// Removes white space at both ends.
pub fn trim(s: &[char]) -> (r: &[char])
    ensures
        r@ == trimmed(s@),
{
    drop_back(drop_front(s, Class::White), Class::White)
}

/// Position of the first character of class `k`, or the length.
pub fn position(s: &[char], k: Class) -> (r: usize)
    ensures
        r == find(s@, k),
        r <= s@.len(),
{
    let mut i: usize = 0;
    while i < s.len() && !belongs(k, s[i])
        invariant
            i <= s@.len(),
            forall|j: int| 0 <= j < i ==> !in_class(k, #[trigger] s@[j]),
        decreases s@.len() - i,
    {
        i = i + 1;
    }
    proof {
        lemma_find_at(s@, k, i as int);
    }
    i
}

/// Whether two texts are the same.
pub fn same(a: &[char], b: &[char]) -> (r: bool)
    ensures
        r == (a@ == b@),
{
    if a.len() != b.len() {
        return false;
    }
    let mut i: usize = 0;
    while i < a.len()
        invariant
            i <= a@.len(),
            a@.len() == b@.len(),
            forall|j: int| 0 <= j < i ==> a@[j] == b@[j],
        decreases a@.len() - i,
    {
        if a[i] != b[i] {
            return false;
        }
        i = i + 1;
    }
    assert(a@ =~= b@);
    true
}

/// Whether a text is the given literal.
pub fn is_text(a: &[char], b: &str) -> (r: bool)
    ensures
        r == (a@ == b@),
{
    let v = chars_of(b);
    same(a, v.as_slice())
}

/// Whether `s` begins with `p`.
pub fn starts(s: &[char], p: &[char]) -> (r: bool)
    ensures
        r == p@.is_prefix_of(s@),
{
    if p.len() > s.len() {
        return false;
    }
    same(slice_subrange(s, 0, p.len()), p)
}

/// Whether `s` begins with the given literal.
pub fn starts_text(s: &[char], p: &str) -> (r: bool)
    ensures
        r == p@.is_prefix_of(s@),
{
    let v = chars_of(p);
    starts(s, v.as_slice())
}

/// Removes leading copies of `p`.
pub fn drop_prefixes<'a>(s: &'a [char], p: &str) -> (r: &'a [char])
    requires
        p@.len() > 0,
    ensures
        r@ == skip_prefixes(s@, p@),
{
    let v = chars_of(p);
    let mut r: &'a [char] = s;
    while starts(r, v.as_slice())
        invariant
            v@ == p@,
            p@.len() > 0,
            skip_prefixes(r@, p@) == skip_prefixes(s@, p@),
        decreases r@.len(),
    {
        r = slice_subrange(r, v.len(), r.len());
    }
    r
}

/// A copy of the characters.
pub fn copied(s: &[char]) -> (r: Vec<char>)
    ensures
        r@ == s@,
{
    let mut v: Vec<char> = Vec::new();
    v.extend_from_slice(s);
    assert(v@ =~= s@);
    v
}

/// The pieces of `s` between characters of class `k`, without the empty ones.
pub fn split_words(s: &[char], k: Class) -> (r: Vec<Vec<char>>)
    ensures
        views(r@) == words(s@, k),
{
    let mut out: Vec<Vec<char>> = Vec::new();
    let mut rest: &[char] = drop_front(s, k);
    assert(views(out@) =~= Seq::<Seq<char>>::empty());
    proof {
        lemma_skip_front(s@, k);
        lemma_words_skip(s@, k);
    }
    while rest.len() > 0
        invariant
            words(s@, k) == views(out@) + words(rest@, k),
            rest@.len() > 0 ==> !in_class(k, rest@[0]),
        decreases rest@.len(),
    {
        let n: usize = position(rest, k);
        let ghost before = rest@;
        let ghost done = views(out@);
        proof {
            lemma_find(rest@, k);
            lemma_skip_front(rest@, k);
            assert(skip_front(rest@, k) == rest@);
        }
        let w = copied(slice_subrange(rest, 0, n));
        out.push(w);
        rest = drop_front(slice_subrange(rest, n, rest.len()), k);
        proof {
            lemma_skip_front(before.skip(n as int), k);
            lemma_words_skip(before.skip(n as int), k);
            assert(before.subrange(0, n as int) =~= before.take(n as int));
            assert(before.subrange(n as int, before.len() as int) =~= before.skip(n as int));
            assert(views(out@) =~= done.push(before.take(n as int)));
            assert(words(s@, k) =~= views(out@) + words(rest@, k));
        }
    }
    assert(words(rest@, k) =~= Seq::<Seq<char>>::empty());
    assert(views(out@) + Seq::<Seq<char>>::empty() =~= views(out@));
    out
}

pub proof fn lemma_words_skip(s: Seq<char>, k: Class)
    ensures
        words(s, k) == words(skip_front(s, k), k),
{
    lemma_skip_front(s, k);
    let t = skip_front(s, k);
    assert(skip_front(t, k) == t);
}

/// The lines of a text.
pub fn split_lines(s: &[char]) -> (r: Vec<Vec<char>>)
    ensures
        views(r@) == lines(s@),
{
    let k = Class::One('\n');
    let mut out: Vec<Vec<char>> = Vec::new();
    let mut i: usize = 0;
    assert(views(out@) =~= Seq::<Seq<char>>::empty());
    assert(s@.skip(0) =~= s@);
    assert(lines(s@) =~= views(out@) + lines(s@.skip(0)));
    while i < s.len()
        invariant
            i <= s@.len(),
            k == Class::One('\n'),
            lines(s@) == views(out@) + lines(s@.skip(i as int)),
        decreases s@.len() - i,
    {
        let rest = slice_subrange(s, i, s.len());
        let ghost done = views(out@);
        let n: usize = position(rest, k);
        assert(rest@ =~= s@.skip(i as int));
        if n == rest.len() {
            let w = copied(rest);
            out.push(w);
            i = s.len();
            proof {
                assert(views(out@) =~= done.push(rest@));
                assert(s@.skip(i as int) =~= Seq::<char>::empty());
                assert(lines(s@) =~= views(out@) + lines(s@.skip(i as int)));
            }
        } else {
            let mut e: usize = n;
            if e > 0 && rest[e - 1] == '\r' {
                e = e - 1;
            }
            let w = copied(slice_subrange(rest, 0, e));
            out.push(w);
            i = i + n + 1;
            proof {
                assert(w@ =~= chomp(rest@.take(n as int)));
                assert(views(out@) =~= done.push(w@));
                assert(rest@.skip(n + 1) =~= s@.skip(i as int));
                assert(lines(s@) =~= views(out@) + lines(s@.skip(i as int)));
            }
        }
    }
    assert(lines(s@.skip(i as int)) =~= Seq::<Seq<char>>::empty());
    assert(views(out@) + Seq::<Seq<char>>::empty() =~= views(out@));
    out
}

/// The ASCII small letter for a capital.
pub fn to_lower(c: char) -> (r: char)
    ensures
        r == lower(c),
{
    if 'A' <= c && c <= 'Z' {
        (c as u8 + 32) as char
    } else {
        c
    }
}

/// The ASCII capital for a small letter.
pub fn to_upper(c: char) -> (r: char)
    ensures
        r == upper(c),
{
    if 'a' <= c && c <= 'z' {
        (c as u8 - 32) as char
    } else {
        c
    }
}

/// A copy with the ASCII capitals made small.
pub fn lower_all(s: &[char]) -> (r: Vec<char>)
    ensures
        r@ == lowered(s@),
{
    let mut v: Vec<char> = Vec::new();
    let mut i: usize = 0;
    while i < s.len()
        invariant
            i <= s@.len(),
            v@ == lowered(s@).take(i as int),
        decreases s@.len() - i,
    {
        v.push(to_lower(s[i]));
        i = i + 1;
        assert(v@ =~= lowered(s@).take(i as int));
    }
    assert(v@ =~= lowered(s@));
    v
}

/// A copy with the ASCII small letters made capitals.
pub fn upper_all(s: &[char]) -> (r: Vec<char>)
    ensures
        r@ == uppered(s@),
{
    let mut v: Vec<char> = Vec::new();
    let mut i: usize = 0;
    while i < s.len()
        invariant
            i <= s@.len(),
            v@ == uppered(s@).take(i as int),
        decreases s@.len() - i,
    {
        v.push(to_upper(s[i]));
        i = i + 1;
        assert(v@ =~= uppered(s@).take(i as int));
    }
    assert(v@ =~= uppered(s@));
    v
}

/// Whether `p` occurs in `s`.
pub fn contains_piece(s: &[char], p: &[char]) -> (r: bool)
    ensures
        r == has_piece(s@, p@),
{
    if p.len() > s.len() {
        return false;
    }
    let last: usize = s.len() - p.len();
    let mut i: usize = 0;
    while i <= last
        invariant
            last + p.len() == s.len(),
            i <= last + 1,
            forall|j: int| 0 <= j < i ==> #[trigger] s@.subrange(j, j + p@.len()) != p@,
        decreases last + 1 - i,
    {
        if same(slice_subrange(s, i, i + p.len()), p) {
            assert(s@.subrange(i as int, i + p@.len()) == p@);
            return true;
        }
        if i == last {
            return false;
        }
        i = i + 1;
    }
    false
}

/// Appends a text.
pub fn put(out: &mut Vec<char>, s: &str)
    ensures
        final(out)@ == old(out)@ + s@,
{
    let v = chars_of(s);
    put_chars(out, v.as_slice());
}

/// Appends characters.
pub fn put_chars(out: &mut Vec<char>, s: &[char])
    ensures
        final(out)@ == old(out)@ + s@,
{
    out.extend_from_slice(s);
    assert(out@ =~= old(out)@ + s@);
}

/// `n` copies of a character.
pub open spec fn fill(c: char, n: int) -> Seq<char> {
    Seq::new(
        if n > 0 {
            n as nat
        } else {
            0
        },
        |i: int| c,
    )
}

/// Appends `n` copies of a character.
pub fn put_fill(out: &mut Vec<char>, c: char, n: usize)
    ensures
        final(out)@ == old(out)@ + fill(c, n as int),
{
    let mut i: usize = 0;
    let ghost start = out@;
    assert(start + fill(c, 0) =~= start);
    while i < n
        invariant
            i <= n,
            out@ == start + fill(c, i as int),
        decreases n - i,
    {
        out.push(c);
        i = i + 1;
        assert(out@ =~= start + fill(c, i as int));
    }
}

/// `s` made at least `w` long by `c` in front.
pub open spec fn right_aligned(s: Seq<char>, w: int, c: char) -> Seq<char> {
    fill(c, w - s.len()) + s
}

/// `s` made at least `w` long by spaces behind.
pub open spec fn left_aligned(s: Seq<char>, w: int) -> Seq<char> {
    s + fill(' ', w - s.len())
}

/// Appends `s`, made at least `w` long by `c` in front.
pub fn put_right(out: &mut Vec<char>, s: &[char], w: usize, c: char)
    ensures
        final(out)@ == old(out)@ + right_aligned(s@, w as int, c),
{
    if s.len() < w {
        put_fill(out, c, w - s.len());
    } else {
        assert(old(out)@ + fill(c, w - s@.len()) =~= old(out)@);
    }
    put_chars(out, s);
    assert(out@ =~= old(out)@ + right_aligned(s@, w as int, c));
}

/// Appends `s`, made at least `w` long by spaces behind.
pub fn put_left(out: &mut Vec<char>, s: &[char], w: usize)
    ensures
        final(out)@ == old(out)@ + left_aligned(s@, w as int),
{
    put_chars(out, s);
    if s.len() < w {
        put_fill(out, ' ', w - s.len());
    }
    assert(out@ =~= old(out)@ + left_aligned(s@, w as int));
}

/// A text without characters of the class is one word.
pub proof fn lemma_words_single(s: Seq<char>, k: Class)
    requires
        s.len() > 0,
        forall|i: int| 0 <= i < s.len() ==> !in_class(k, #[trigger] s[i]),
    ensures
        words(s, k) == seq![s],
{
    assert(!in_class(k, s[0]));
    lemma_find_at(s, k, s.len() as int);
    assert(s.take(s.len() as int) =~= s);
    assert(s.skip(s.len() as int) =~= Seq::<char>::empty());
    assert(words(Seq::<char>::empty(), k) =~= Seq::<Seq<char>>::empty());
    assert(words(s, k) =~= seq![s]);
}

/// The words on both sides of a character of the class.
pub proof fn lemma_words_around(a: Seq<char>, c: char, b: Seq<char>, k: Class)
    requires
        in_class(k, c),
    ensures
        words(a.push(c) + b, k) == words(a, k) + words(b, k),
    decreases a.len(),
{
    let s = a.push(c) + b;
    if a.len() == 0 {
        assert(s[0] == c);
        assert(s.skip(1) =~= b);
        lemma_words_skip(s, k);
        lemma_words_skip(b, k);
        assert(skip_front(s, k) == skip_front(b, k));
        assert(words(a, k) =~= Seq::<Seq<char>>::empty());
        assert(words(s, k) =~= words(a, k) + words(b, k));
    } else if in_class(k, a[0]) {
        assert(s[0] == a[0]);
        assert(s.skip(1) =~= a.skip(1).push(c) + b);
        lemma_words_around(a.skip(1), c, b, k);
        lemma_words_skip(s, k);
        lemma_words_skip(a, k);
        lemma_words_skip(s.skip(1), k);
        lemma_words_skip(a.skip(1), k);
    } else {
        assert(s[0] == a[0]);
        lemma_find(a, k);
        let n = find(a, k);
        assert forall|j: int| 0 <= j < n implies !in_class(k, #[trigger] s[j]) by {
            assert(s[j] == a[j]);
        }
        assert(s[n] == (if n < a.len() {
            a[n]
        } else {
            c
        }));
        lemma_find_at(s, k, n);
        assert(s.take(n) =~= a.take(n));
        assert(s.skip(n) =~= a.skip(n).push(c) + b);
        lemma_words_around(a.skip(n), c, b, k);
        assert(words(s, k) == seq![a.take(n)] + (words(a.skip(n), k) + words(b, k)));
        assert(words(a, k) == seq![a.take(n)] + words(a.skip(n), k));
        assert(words(s, k) =~= words(a, k) + words(b, k));
    }
}

/// Words hold only characters of the text.
pub proof fn lemma_words_within(s: Seq<char>, k: Class, c: char)
    requires
        forall|i: int| 0 <= i < s.len() ==> #[trigger] s[i] != c,
    ensures
        forall|w: int, i: int|
            0 <= w < words(s, k).len() && 0 <= i < words(s, k)[w].len() ==> #[trigger] words(s, k)[w][i]
                != c,
    decreases s.len(),
{
    lemma_skip_front(s, k);
    let t = skip_front(s, k);
    if t.len() > 0 {
        lemma_find(t, k);
        let n = find(t, k);
        let rest = t.skip(n);
        assert forall|i: int| 0 <= i < rest.len() implies #[trigger] rest[i] != c by {
            assert(rest[i] == s[s.len() - t.len() + n + i]);
        }
        lemma_words_within(rest, k, c);
        assert forall|w: int, i: int|
            0 <= w < words(s, k).len() && 0 <= i < words(s, k)[w].len() implies #[trigger] words(
            s,
            k,
        )[w][i] != c by {
            if w == 0 {
                assert(words(s, k)[0] == t.take(n));
                assert(t.take(n)[i] == s[s.len() - t.len() + i]);
            } else {
                assert(words(s, k)[w] == words(rest, k)[w - 1]);
            }
        }
    }
}

/// A text with no white space at its ends is its own trimming.
pub proof fn lemma_trimmed_same(s: Seq<char>)
    requires
        s.len() > 0,
        !is_white(s[0]),
        !is_white(s.last()),
    ensures
        trimmed(s) == s,
{
}

/// An ASCII text takes one byte per character.
pub proof fn lemma_ascii_bytes(s: Seq<char>)
    requires
        forall|i: int| 0 <= i < s.len() ==> (#[trigger] s[i] as int) < 0x80,
    ensures
        text_bytes(s) == s.len(),
    decreases s.len(),
{
    if s.len() > 0 {
        assert forall|i: int| 0 <= i < s.drop_last().len() implies (#[trigger] s.drop_last()[i] as int)
            < 0x80 by {
            assert(s.drop_last()[i] == s[i]);
        }
        lemma_ascii_bytes(s.drop_last());
    }
}

/// Whether a text comes before another in a dictionary.
pub open spec fn text_before(a: Seq<char>, b: Seq<char>) -> bool
    decreases a.len(),
{
    if b.len() == 0 {
        false
    } else if a.len() == 0 {
        true
    } else if a[0] != b[0] {
        a[0] < b[0]
    } else {
        text_before(a.skip(1), b.skip(1))
    }
}

pub proof fn lemma_text_trans(a: Seq<char>, b: Seq<char>, c: Seq<char>)
    requires
        text_before(a, b),
        text_before(b, c),
    ensures
        text_before(a, c),
    decreases a.len(),
{
    if a.len() > 0 && b.len() > 0 && c.len() > 0 && a[0] == b[0] && b[0] == c[0] {
        lemma_text_trans(a.skip(1), b.skip(1), c.skip(1));
    }
}

pub proof fn lemma_text_irrefl(a: Seq<char>)
    ensures
        !text_before(a, a),
    decreases a.len(),
{
    if a.len() > 0 {
        lemma_text_irrefl(a.skip(1));
    }
}

pub proof fn lemma_text_total(a: Seq<char>, b: Seq<char>)
    ensures
        a == b || text_before(a, b) || text_before(b, a),
    decreases a.len(),
{
    if a.len() == 0 || b.len() == 0 {
        if a.len() == 0 && b.len() == 0 {
            assert(a =~= b);
        }
    } else if a[0] == b[0] {
        lemma_text_total(a.skip(1), b.skip(1));
        if a.skip(1) == b.skip(1) {
            assert(a =~= seq![a[0]] + a.skip(1));
            assert(b =~= seq![b[0]] + b.skip(1));
        }
    }
}

pub proof fn lemma_text_asym(a: Seq<char>, b: Seq<char>)
    ensures
        !(text_before(a, b) && text_before(b, a)),
{
    if text_before(a, b) && text_before(b, a) {
        lemma_text_trans(a, b, a);
        lemma_text_irrefl(a);
    }
}

/// Whether a text comes before another in a dictionary.
pub fn text_less(a: &[char], b: &[char]) -> (r: bool)
    ensures
        r == text_before(a@, b@),
{
    let mut i: usize = 0;
    assert(a@.skip(0) =~= a@);
    assert(b@.skip(0) =~= b@);
    loop
        invariant
            i <= a@.len(),
            i <= b@.len(),
            text_before(a@, b@) == text_before(a@.skip(i as int), b@.skip(i as int)),
        decreases a@.len() - i,
    {
        if i >= b.len() {
            return false;
        }
        if i >= a.len() {
            return true;
        }
        assert(a@.skip(i as int)[0] == a@[i as int]);
        assert(b@.skip(i as int)[0] == b@[i as int]);
        if a[i] != b[i] {
            return a[i] < b[i];
        }
        assert(a@.skip(i as int).skip(1) =~= a@.skip(i + 1));
        assert(b@.skip(i as int).skip(1) =~= b@.skip(i + 1));
        i = i + 1;
    }
}

/// A text that stands at some place of another is a piece of it.
pub proof fn lemma_piece_at(s: Seq<char>, p: Seq<char>, i: int)
    requires
        0 <= i <= s.len(),
        p.is_prefix_of(s.skip(i)),
    ensures
        has_piece(s, p),
{
    assert(s.subrange(i, i + p.len()) =~= p);
}

/// A piece of a text stands at some place of it.
pub proof fn lemma_piece_somewhere(s: Seq<char>, p: Seq<char>)
    requires
        has_piece(s, p),
    ensures
        exists|i: int| 0 <= i <= s.len() && p.is_prefix_of(#[trigger] s.skip(i)),
{
    let i = choose|i: int| 0 <= i <= s.len() - p.len() && #[trigger] s.subrange(i, i + p.len()) == p;
    assert(s.skip(i).subrange(0, p.len() as int) =~= p);
}

/// White space in front of a text that does not begin with it is skipped.
pub proof fn lemma_skip_space(space: Seq<char>, s: Seq<char>)
    requires
        forall|i: int| 0 <= i < space.len() ==> is_white(#[trigger] space[i]),
        s.len() > 0 ==> !is_white(s[0]),
    ensures
        skip_front(space + s, Class::White) == s,
    decreases space.len(),
{
    let t = space + s;
    if space.len() == 0 {
        assert(t =~= s);
    } else {
        assert(t[0] == space[0]);
        let u = space.skip(1);
        assert(t.skip(1) =~= u + s);
        assert forall|i: int| 0 <= i < u.len() implies is_white(#[trigger] u[i]) by {
            assert(u[i] == space[i + 1]);
        }
        lemma_skip_space(u, s);
    }
}

/// Skipping at the end leaves the front as it is, up to the last character that stays.
pub proof fn lemma_skip_back_front(s: Seq<char>, k: Class, n: int)
    requires
        0 < n <= s.len(),
        !in_class(k, s[n - 1]),
    ensures
        n <= skip_back(s, k).len() <= s.len(),
        skip_back(s, k) == s.take(skip_back(s, k).len() as int),
    decreases s.len(),
{
    if in_class(k, s.last()) {
        assert(n < s.len());
        lemma_skip_back_front(s.drop_last(), k, n);
        let m = skip_back(s, k).len() as int;
        assert(s.drop_last().take(m) =~= s.take(m));
    } else {
        assert(s.take(s.len() as int) =~= s);
    }
}

/// A text that is aligned to the right ends with itself; in front of it stands only the
/// filling, as much as is missing.
pub proof fn law_right_aligned(s: Seq<char>, w: int, c: char)
    ensures
        ({
            let r = right_aligned(s, w, c);
            &&& s.len() >= w ==> r == s
            &&& s.len() < w ==> r.len() == w
            &&& r.len() >= s.len() && r.skip(r.len() - s.len()) == s
            &&& forall|i: int| 0 <= i < r.len() - s.len() ==> #[trigger] r[i] == c
        }),
{
    let r = right_aligned(s, w, c);
    assert(r.skip(r.len() - s.len()) =~= s);
    if s.len() >= w {
        assert(r =~= s);
    }
}

/// A text that is aligned to the left begins with itself; behind it stand only spaces, as
/// many as are missing.
pub proof fn law_left_aligned(s: Seq<char>, w: int)
    ensures
        ({
            let r = left_aligned(s, w);
            &&& s.len() >= w ==> r == s
            &&& s.len() < w ==> r.len() == w
            &&& r.len() >= s.len() && r.take(s.len() as int) == s
            &&& forall|i: int| s.len() <= i < r.len() ==> #[trigger] r[i] == ' '
        }),
{
    let r = left_aligned(s, w);
    assert(r.take(s.len() as int) =~= s);
    if s.len() >= w {
        assert(r =~= s);
    }
}

/// Small and capital letters differ in nothing else: a change of case leaves the length, and
/// all but letters of the other case, as they are, and can be done once for all.
pub proof fn law_case(s: Seq<char>, i: int)
    requires
        0 <= i < s.len(),
    ensures
        lowered(s).len() == s.len() && uppered(s).len() == s.len(),
        'A' <= s[i] <= 'Z' ==> lowered(s)[i] as int == s[i] as int + 32 && uppered(s)[i] == s[i],
        'a' <= s[i] <= 'z' ==> uppered(s)[i] as int == s[i] as int - 32 && lowered(s)[i] == s[i],
        !('A' <= s[i] <= 'Z') && !('a' <= s[i] <= 'z') ==> lowered(s)[i] == s[i] && uppered(s)[i]
            == s[i],
        lowered(uppered(s)) == lowered(s),
        uppered(lowered(s)) == uppered(s),
        lowered(lowered(s)) == lowered(s),
{
    assert(lowered(uppered(s)) =~= lowered(s));
    assert(uppered(lowered(s)) =~= uppered(s));
    assert(lowered(lowered(s)) =~= lowered(s));
}

/// Trimming takes off white space at both ends and nothing else.
pub proof fn law_trimmed(s: Seq<char>)
    ensures
        ({
            let t = trimmed(s);
            &&& t.len() > 0 ==> !is_white(t[0]) && !is_white(t.last())
            &&& exists|a: int|
                {
                    &&& 0 <= a <= a + t.len() <= s.len()
                    &&& t == #[trigger] s.subrange(a, a + t.len())
                    &&& forall|i: int| 0 <= i < a ==> is_white(#[trigger] s[i])
                    &&& forall|i: int| a + t.len() <= i < s.len() ==> is_white(#[trigger] s[i])
                }
        }),
{
    let f = skip_front(s, Class::White);
    lemma_skip_front(s, Class::White);
    lemma_skipped_front(s, Class::White);
    lemma_skipped_back(f, Class::White);
    let t = trimmed(s);
    let a = s.len() - f.len();
    assert(t =~= s.subrange(a, a + t.len()));
    assert forall|i: int| a + t.len() <= i < s.len() implies is_white(#[trigger] s[i]) by {
        assert(f[i - a] == s[i]);
    }
    if t.len() > 0 {
        assert(t[0] == f[0]);
    }
}

proof fn lemma_skipped_front(s: Seq<char>, k: Class)
    ensures
        forall|i: int| 0 <= i < s.len() - skip_front(s, k).len() ==> in_class(k, #[trigger] s[i]),
    decreases s.len(),
{
    if s.len() > 0 && in_class(k, s[0]) {
        let t = s.skip(1);
        lemma_skipped_front(t, k);
        assert forall|i: int| 0 <= i < s.len() - skip_front(s, k).len() implies in_class(
            k,
            #[trigger] s[i],
        ) by {
            if i > 0 {
                assert(t[i - 1] == s[i]);
            }
        }
    }
}

proof fn lemma_skipped_back(s: Seq<char>, k: Class)
    ensures
        skip_back(s, k).len() <= s.len(),
        skip_back(s, k) == s.take(skip_back(s, k).len() as int),
        skip_back(s, k).len() > 0 ==> !in_class(k, skip_back(s, k).last()),
        forall|i: int| skip_back(s, k).len() <= i < s.len() ==> in_class(k, #[trigger] s[i]),
    decreases s.len(),
{
    if s.len() > 0 && in_class(k, s.last()) {
        let t = s.drop_last();
        lemma_skipped_back(t, k);
        let n = skip_back(s, k).len() as int;
        assert(t.take(n) =~= s.take(n));
        assert forall|i: int| n <= i < s.len() implies in_class(k, #[trigger] s[i]) by {
            if i < t.len() {
                assert(t[i] == s[i]);
            }
        }
    } else {
        assert(s.take(s.len() as int) =~= s);
    }
}

/// The characters that count as white space on a line: space, tab, and the ends of lines.
pub proof fn law_white_space(c: char)
    ensures
        c == ' ' || c == '\t' || c == '\n' || c == '\r' ==> is_white(c),
        '!' <= c <= '~' ==> !is_white(c),
{
}

/// A text is the words of its parts: separators between them count once or many times alike,
/// and a text without separators is one word.
pub proof fn law_words(a: Seq<char>, c: char, b: Seq<char>, k: Class)
    requires
        in_class(k, c),
    ensures
        words(a.push(c) + b, k) == words(a, k) + words(b, k),
        a.len() > 0 && (forall|i: int| 0 <= i < a.len() ==> !in_class(k, #[trigger] a[i])) ==> words(
            a,
            k,
        ) == seq![a],
        words(Seq::<char>::empty(), k).len() == 0,
{
    lemma_words_around(a, c, b, k);
    if a.len() > 0 && (forall|i: int| 0 <= i < a.len() ==> !in_class(k, #[trigger] a[i])) {
        lemma_words_single(a, k);
    }
}

/// Dictionary order: texts go by their first difference, and a text comes before any longer
/// one that begins with it.
pub proof fn law_text_order(p: Seq<char>, a: char, b: char, x: Seq<char>, y: Seq<char>)
    ensures
        a < b ==> text_before(p.push(a) + x, p.push(b) + y),
        text_before(p, p.push(a) + x),
        !text_before(p, p),
    decreases p.len(),
{
    lemma_text_irrefl(p);
    let s = p.push(a) + x;
    let t = p.push(b) + y;
    if p.len() > 0 {
        let q = p.skip(1);
        law_text_order(q, a, b, x, y);
        assert(s.skip(1) =~= q.push(a) + x);
        assert(t.skip(1) =~= q.push(b) + y);
        assert(s[0] == p[0] && t[0] == p[0]);
    } else {
        assert(s[0] == a && t[0] == b);
    }
}

/// The lines of a text: one up to each line feed, without a carriage return before it, and
/// what is behind the last one if there is anything.
pub proof fn law_lines(a: Seq<char>, b: Seq<char>)
    requires
        forall|i: int| 0 <= i < a.len() ==> #[trigger] a[i] != '\n',
    ensures
        lines(Seq::empty()).len() == 0,
        a.len() > 0 ==> lines(a) == seq![a],
        a.len() == 0 || a.last() != '\r' ==> lines(a.push('\n') + b) == seq![a] + lines(b),
        lines(a.push('\r').push('\n') + b) == seq![a] + lines(b),
{
    let k = Class::One('\n');
    lemma_find_at(a, k, a.len() as int);
    let s = a.push('\n') + b;
    assert forall|j: int| 0 <= j < a.len() implies !in_class(k, #[trigger] s[j]) by {
        assert(s[j] == a[j]);
    }
    lemma_find_at(s, k, a.len() as int);
    assert(s.take(a.len() as int) =~= a);
    assert(s.skip(a.len() as int + 1) =~= b);
    let c = a.push('\r');
    let t = c.push('\n') + b;
    assert forall|j: int| 0 <= j < c.len() implies !in_class(k, #[trigger] t[j]) by {
        assert(t[j] == c[j]);
        if j < a.len() {
            assert(c[j] == a[j]);
        }
    }
    lemma_find_at(t, k, c.len() as int);
    assert(t.take(c.len() as int) =~= c);
    assert(t.skip(c.len() as int + 1) =~= b);
    assert(c.drop_last() =~= a);
}

} // verus!
