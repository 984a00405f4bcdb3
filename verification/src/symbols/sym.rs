//! PEAK PCAN Symbol files, format version 5/6.

use std::collections::HashMap;
use vstd::prelude::*;
use vstd::slice::slice_subrange;
use crate::msg::MsgKey;
use crate::number::{
    decimal, digit_char, digits, lemma_decimal, lemma_digit_char, lemma_scan_digits, parse_i64,
    parse_uint, parsed, parsed_signed, put_decimal, scan, IntError,
};
use crate::symbols::bits::{sawtooth, signed_value};
use crate::symbols::format::ValueColumn;
use crate::symbols::{
    arranged_messages, message_views, names, plain_signal, signal_views, table, MessageDef,
    MessageModel, Number, SigKind, SignalDef, SignalModel, SymbolDb,
};
use crate::text::{
    chars_of, copied, drop_back, drop_front, find, in_class, is_text, is_white, law_trimmed,
    lemma_find, lemma_find_at, lemma_skip_front, lemma_trimmed_same, lines, lower_all, lowered, position, put, put_chars, same, skip_back, skip_front, split_lines,
    starts_text, string_of, trim, trimmed, upper_all, uppered, views, white, Class,
};

verus! {

/// How many quotes stand in a text.
pub open spec fn quotes(s: Seq<char>) -> int
    decreases s.len(),
{
    if s.len() == 0 {
        0
    } else {
        quotes(s.drop_last()) + if s.last() == '"' {
            1int
        } else {
            0int
        }
    }
}

/// Whether a comment begins here: `//` outside of quotes.
pub open spec fn is_comment_at(s: Seq<char>, i: int) -> bool {
    i + 1 < s.len() && s[i] == '/' && s[i + 1] == '/' && quotes(s.take(i)) % 2 == 0
}

/// Where the first comment from `i` on begins, or the length.
pub open spec fn comment_from(s: Seq<char>, i: int) -> int
    decreases s.len() - i,
{
    if i >= s.len() {
        s.len() as int
    } else if is_comment_at(s, i) {
        i
    } else {
        comment_from(s, i + 1)
    }
}

/// A line without its comment.
pub open spec fn uncommented(s: Seq<char>) -> Seq<char> {
    s.take(comment_from(s, 0))
}

proof fn lemma_comment_from(s: Seq<char>, i: int)
    requires
        0 <= i <= s.len(),
    ensures
        i <= comment_from(s, i) <= s.len(),
        comment_from(s, i) < s.len() ==> is_comment_at(s, comment_from(s, i)),
        forall|j: int| i <= j < comment_from(s, i) ==> !#[trigger] is_comment_at(s, j),
    decreases s.len() - i,
{
    if i < s.len() && !is_comment_at(s, i) {
        lemma_comment_from(s, i + 1);
    }
}

/// Only a comment is taken off: what is left is the front of the line, up to the first
/// `//` with an even number of quotes before it, or all of it where there is none. Nothing
/// in it is a comment, so taking comments off once more changes nothing.
pub proof fn law_only_the_comment_goes(s: Seq<char>)
    ensures
        uncommented(s).is_prefix_of(s),
        uncommented(s) == s || uncommented(s).len() < s.len(),
        uncommented(s).len() < s.len() ==> is_comment_at(s, uncommented(s).len() as int),
        forall|i: int| 0 <= i < uncommented(s).len() ==> !#[trigger] is_comment_at(s, i),
        forall|i: int|
            0 <= i < uncommented(s).len() ==> !#[trigger] is_comment_at(uncommented(s), i),
        uncommented(uncommented(s)) == uncommented(s),
{
    let u = uncommented(s);
    lemma_comment_from(s, 0);
    assert forall|i: int| 0 <= i < u.len() implies !#[trigger] is_comment_at(u, i) by {
        if is_comment_at(u, i) {
            assert(u.take(i) =~= s.take(i));
            assert(is_comment_at(s, i));
        }
    }
    lemma_comment_from(u, 0);
    assert(u.take(u.len() as int) =~= u);
    if u.len() == s.len() {
        assert(u =~= s);
    }
}

/// A line without its comment: `//` outside of quotes and what follows.
pub fn strip_comment(s: &[char]) -> (r: &[char])
    ensures
        r@ == uncommented(s@),
        r@.is_prefix_of(s@),
        r@ == s@ || is_comment_at(s@, r@.len() as int),
        forall|i: int| 0 <= i < r@.len() ==> !#[trigger] is_comment_at(r@, i),
        uncommented(r@) == r@,
{
    let mut quoted = false;
    let mut i: usize = 0;
    let n: usize = s.len();
    assert(s@.take(0) =~= Seq::<char>::empty());
    while i < n
        invariant
            n == s@.len(),
            i <= n,
            quoted == (quotes(s@.take(i as int)) % 2 != 0),
            comment_from(s@, 0) == comment_from(s@, i as int),
        decreases n - i,
    {
        assert(s@.take(i + 1).drop_last() =~= s@.take(i as int));
        if s[i] == '"' {
            quoted = !quoted;
        } else if s[i] == '/' && !quoted && n - i > 1 && s[i + 1] == '/' {
            let r = slice_subrange(s, 0, i);
            assert(r@ =~= s@.take(i as int));
            proof {
                law_only_the_comment_goes(s@);
            }
            return r;
        }
        i = i + 1;
    }
    assert(s@.take(n as int) =~= s@);
    proof {
        law_only_the_comment_goes(s@);
    }
    s
}

/// Progress in splitting a line into tokens.
pub ghost struct TokenState {
    pub done: Seq<Seq<char>>,
    pub current: Seq<char>,
    pub quoted: bool,
    /// Whether a token has begun, be it empty.
    pub begun: bool,
}

/// What has been found in a text read so far: white space ends a token, unless it is
/// quoted; quotes are dropped.
pub open spec fn token_state(s: Seq<char>) -> TokenState
    decreases s.len(),
{
    if s.len() == 0 {
        TokenState { done: Seq::empty(), current: Seq::empty(), quoted: false, begun: false }
    } else {
        let t = token_state(s.drop_last());
        let c = s.last();
        if c == '"' {
            TokenState { quoted: !t.quoted, begun: true, ..t }
        } else if is_white(c) && !t.quoted {
            if t.begun {
                TokenState {
                    done: t.done.push(t.current),
                    current: Seq::empty(),
                    begun: false,
                    ..t
                }
            } else {
                t
            }
        } else {
            TokenState { current: t.current.push(c), begun: true, ..t }
        }
    }
}

/// The tokens of a line: split at white space, with "quoted strings" kept together.
pub open spec fn tokens(s: Seq<char>) -> Seq<Seq<char>> {
    let t = token_state(s);
    if t.begun {
        t.done.push(t.current)
    } else {
        t.done
    }
}

fn tokenize(s: &[char]) -> (r: Vec<Vec<char>>)
    ensures
        views(r@) == tokens(s@),
{
    let mut out: Vec<Vec<char>> = Vec::new();
    let mut cur: Vec<char> = Vec::new();
    let mut quoted = false;
    let mut begun = false;
    let mut i: usize = 0;
    assert(views(out@) =~= Seq::<Seq<char>>::empty());
    while i < s.len()
        invariant
            i <= s@.len(),
            token_state(s@.take(i as int)) == (TokenState {
                done: views(out@),
                current: cur@,
                quoted,
                begun,
            }),
        decreases s@.len() - i,
    {
        let c = s[i];
        let ghost done = views(out@);
        proof {
            assert(s@.take(i + 1).drop_last() =~= s@.take(i as int));
            assert(s@.take(i + 1).last() == c);
        }
        if c == '"' {
            quoted = !quoted;
            begun = true;
        } else if white(c) && !quoted {
            if begun {
                let w = copied(cur.as_slice());
                out.push(w);
                cur = Vec::new();
                begun = false;
                assert(views(out@) =~= done.push(w@));
                assert(cur@ =~= Seq::<char>::empty());
            }
        } else {
            cur.push(c);
            begun = true;
        }
        i = i + 1;
    }
    assert(s@.take(i as int) =~= s@);
    if begun {
        let ghost done = views(out@);
        let ghost last = cur@;
        out.push(cur);
        assert(views(out@) =~= done.push(last));
    }
    out
}

/// A number: hexadecimal with `h` behind or `0x` in front, binary with `b` behind, or
/// decimal.
pub open spec fn sym_num(s: Seq<char>) -> Result<int, IntError> {
    let t = trimmed(s);
    let max = u64::MAX as int;
    if t.len() > 0 && (t.last() == 'h' || t.last() == 'H') {
        parsed(t.drop_last(), 16, max)
    } else if "0x"@.is_prefix_of(t) {
        parsed(t.skip(2), 16, max)
    } else if t.len() > 0 && (t.last() == 'b' || t.last() == 'B') {
        parsed(t.drop_last(), 2, max)
    } else {
        parsed(t, 10, max)
    }
}

fn parse_sym_num(s: &[char]) -> (r: Result<u64, IntError>)
    ensures
        match r {
            Ok(v) => sym_num(s@) == Ok::<int, IntError>(v as int),
            Err(e) => sym_num(s@) == Err::<int, IntError>(e),
        },
{
    proof {
        reveal_strlit("0x");
    }
    let t = trim(s);
    let n: usize = t.len();
    if n > 0 && (t[n - 1] == 'h' || t[n - 1] == 'H') {
        let d = slice_subrange(t, 0, n - 1);
        assert(d@ =~= t@.drop_last());
        parse_uint(d, 16, u64::MAX)
    } else if starts_text(t, "0x") {
        let d = slice_subrange(t, 2, n);
        assert(d@ =~= t@.skip(2));
        parse_uint(d, 16, u64::MAX)
    } else if n > 0 && (t[n - 1] == 'b' || t[n - 1] == 'B') {
        let d = slice_subrange(t, 0, n - 1);
        assert(d@ =~= t@.drop_last());
        parse_uint(d, 2, u64::MAX)
    } else {
        parse_uint(t, 10, u64::MAX)
    }
}

/// A 64-bit number taken as a signed one.
pub open spec fn as_signed(n: int) -> int {
    if n >= 0x8000_0000_0000_0000 {
        n - 0x1_0000_0000_0000_0000
    } else {
        n
    }
}

/// The number of an enumeration's entry.
pub open spec fn enum_key(s: Seq<char>) -> Option<i64> {
    match sym_num(s) {
        Ok(n) => Some(as_signed(n) as i64),
        Err(_) => match parsed_signed(s) {
            Some(n) => Some(n as i64),
            None => None,
        },
    }
}

/// The text of an entry, behind its `=`, and what follows it.
pub open spec fn enum_text(after: Seq<char>) -> (Seq<char>, Seq<char>) {
    let a = skip_front(after, Class::White);
    if a.len() > 0 && a[0] == '"' {
        let q = a.skip(1);
        let end = find(q, Class::One('"'));
        (
            q.take(end),
            if end < q.len() {
                q.skip(end + 1)
            } else {
                Seq::empty()
            },
        )
    } else {
        let end = find(a, Class::One(','));
        (trimmed(a.take(end)), a.skip(end))
    }
}

pub proof fn lemma_enum_text(after: Seq<char>)
    ensures
        enum_text(after).1.len() <= after.len(),
{
    let a = skip_front(after, Class::White);
    lemma_skip_front(after, Class::White);
    lemma_find(a, Class::One(','));
    if a.len() > 0 {
        lemma_find(a.skip(1), Class::One('"'));
    }
}

/// The entries of an enumeration.
pub open spec fn enum_entries(acc: Map<i64, Seq<char>>, s: Seq<char>) -> Map<i64, Seq<char>>
    decreases s.len(),
{
    let e = find(s, Class::One('='));
    if e >= s.len() {
        acc
    } else {
        let k = trimmed(skip_front(trimmed(s.take(e)), Class::One(',')));
        let (text, next) = enum_text(s.skip(e + 1));
        proof {
            lemma_find(s, Class::One('='));
            lemma_enum_text(s.skip(e + 1));
        }
        match enum_key(k) {
            Some(n) => enum_entries(acc.insert(n, text), next),
            None => enum_entries(acc, next),
        }
    }
}

/// An enumeration such as `enum Name(0="Off", 1="On")`: its name and entries.
pub open spec fn sym_enum(line: Seq<char>) -> Option<(Seq<char>, Map<i64, Seq<char>>)> {
    let t = trimmed(line);
    if !"enum"@.is_prefix_of(t) {
        None
    } else {
        let rest = trimmed(t.skip(4));
        let p = find(rest, Class::One('('));
        if p >= rest.len() {
            None
        } else {
            let body = skip_back(skip_back(rest.skip(p + 1), Class::White), Class::One(')'));
            Some((trimmed(rest.take(p)), enum_entries(Map::empty(), body)))
        }
    }
}

fn signed_of(n: u64) -> (r: i64)
    ensures
        r == as_signed(n as int),
{
    if n >= 0x8000_0000_0000_0000 {
        (n as i128 - 0x1_0000_0000_0000_0000) as i64
    } else {
        n as i64
    }
}

fn parse_enum_key(s: &[char]) -> (r: Option<i64>)
    ensures
        r == enum_key(s@),
{
    match parse_sym_num(s) {
        Ok(n) => Some(signed_of(n)),
        Err(_) => parse_i64(s),
    }
}

fn parse_enum_text(after: &[char]) -> (r: (Vec<char>, Vec<char>))
    ensures
        (r.0@, r.1@) == enum_text(after@),
{
    let a = drop_front(after, Class::White);
    let n: usize = a.len();
    if n > 0 && a[0] == '"' {
        let q = slice_subrange(a, 1, n);
        assert(q@ =~= a@.skip(1));
        let m: usize = q.len();
        let end: usize = position(q, Class::One('"'));
        let text = copied(slice_subrange(q, 0, end));
        assert(text@ =~= q@.take(end as int));
        if end < m {
            let next = copied(slice_subrange(q, end + 1, m));
            assert(next@ =~= q@.skip(end + 1));
            (text, next)
        } else {
            let next: Vec<char> = Vec::new();
            assert(next@ =~= Seq::<char>::empty());
            (text, next)
        }
    } else {
        let end: usize = position(a, Class::One(','));
        let front = slice_subrange(a, 0, end);
        assert(front@ =~= a@.take(end as int));
        let text = copied(trim(front));
        let next = copied(slice_subrange(a, end, n));
        assert(next@ =~= a@.skip(end as int));
        (text, next)
    }
}

fn parse_enum_entries(body: &[char]) -> (r: HashMap<i64, String>)
    ensures
        table(r@) == enum_entries(Map::empty(), body@),
{
    broadcast use vstd::std_specs::hash::group_hash_axioms;

    let mut m: HashMap<i64, String> = HashMap::new();
    let mut rest: Vec<char> = copied(body);
    assert(table(m@) =~= Map::<i64, Seq<char>>::empty());
    loop
        invariant
            enum_entries(Map::empty(), body@) == enum_entries(table(m@), rest@),
        ensures
            table(m@) == enum_entries(Map::empty(), body@),
        decreases rest@.len(),
    {
        let n: usize = rest.len();
        let e: usize = position(rest.as_slice(), Class::One('='));
        if e >= n {
            break;
        }
        let ghost before = table(m@);
        let front = slice_subrange(rest.as_slice(), 0, e);
        let after = slice_subrange(rest.as_slice(), e + 1, n);
        assert(front@ =~= rest@.take(e as int));
        assert(after@ =~= rest@.skip(e + 1));
        let k = trim(drop_front(trim(front), Class::One(',')));
        let (text, next) = parse_enum_text(after);
        proof {
            lemma_enum_text(after@);
        }
        match parse_enum_key(k) {
            Some(key) => {
                let t = string_of(text.as_slice());
                m.insert(key, t);
                assert(table(m@) =~= before.insert(key, text@));
            },
            None => {},
        }
        rest = next;
    }
    m
}

fn parse_sym_enum(line: &[char]) -> (r: Option<(Vec<char>, HashMap<i64, String>)>)
    ensures
        match r {
            Some(e) => sym_enum(line@) == Some((e.0@, table(e.1@))),
            None => sym_enum(line@) is None,
        },
{
    proof {
        reveal_strlit("enum");
    }
    let t = trim(line);
    if !starts_text(t, "enum") {
        return None;
    }
    let tail = slice_subrange(t, 4, t.len());
    assert(tail@ =~= t@.skip(4));
    let rest = trim(tail);
    let n: usize = rest.len();
    let p: usize = position(rest, Class::One('('));
    if p >= n {
        return None;
    }
    let inner = slice_subrange(rest, p + 1, n);
    assert(inner@ =~= rest@.skip(p + 1));
    let body = drop_back(drop_back(inner, Class::White), Class::One(')'));
    let front = slice_subrange(rest, 0, p);
    assert(front@ =~= rest@.take(p as int));
    let name = copied(trim(front));
    Some((name, parse_enum_entries(body)))
}

/// A signal of the `{SIGNALS}` section, to be placed in messages.
pub ghost struct Template {
    pub kind_name: Seq<char>,
    pub size: u32,
    pub opts: Seq<Seq<char>>,
}

/// Enumerations by name.
pub type Enums = Map<Seq<char>, Map<i64, Seq<char>>>;

/// What the sections before the messages define.
pub ghost struct Definitions {
    pub section: Seq<char>,
    /// An enumeration that goes on in the next line.
    pub pending: Seq<char>,
    pub enums: Enums,
    pub templates: Map<Seq<char>, Template>,
}

/// A number, or a default where the text is none.
pub open spec fn number_or(s: Seq<char>, max: int, default: int) -> int {
    match parsed(s, 10, max) {
        Ok(v) => v,
        Err(_) => default,
    }
}

/// What one more line adds to an enumeration.
pub open spec fn enum_line(d: Definitions, line: Seq<char>) -> Definitions {
    if "enum"@.is_prefix_of(line) || d.pending.len() > 0 {
        let pending = (d.pending + line).push(' ');
        let end = skip_back(pending, Class::White);
        if end.len() > 0 && end.last() == ')' {
            match sym_enum(pending) {
                Some((name, values)) => Definitions {
                    pending: Seq::empty(),
                    enums: d.enums.insert(name, values),
                    ..d
                },
                None => Definitions { pending: Seq::empty(), ..d },
            }
        } else {
            Definitions { pending, ..d }
        }
    } else {
        d
    }
}

/// What one line of the `{SIGNALS}` section defines.
pub open spec fn template_line(d: Definitions, line: Seq<char>) -> Definitions {
    let t = tokens(line.skip(4));
    if "Sig="@.is_prefix_of(line) && t.len() >= 3 {
        Definitions {
            templates: d.templates.insert(
                t[0],
                Template {
                    kind_name: t[1],
                    size: number_or(t[2], u32::MAX as int, 8) as u32,
                    opts: t.skip(3),
                },
            ),
            ..d
        }
    } else {
        d
    }
}

/// A line without comment and without white space at its ends.
pub open spec fn clean(raw: Seq<char>) -> Seq<char> {
    trimmed(uncommented(raw))
}

/// What some lines define.
pub open spec fn definitions(l: Seq<Seq<char>>) -> Definitions
    decreases l.len(),
{
    if l.len() == 0 {
        Definitions {
            section: Seq::empty(),
            pending: Seq::empty(),
            enums: Map::empty(),
            templates: Map::empty(),
        }
    } else {
        let d = definitions(l.drop_last());
        let line = clean(l.last());
        if line.len() > 0 && line[0] == '{' {
            Definitions { section: uppered(line), ..d }
        } else if d.section == "{ENUMS}"@ {
            enum_line(d, line)
        } else if d.section == "{SIGNALS}"@ {
            template_line(d, line)
        } else {
            d
        }
    }
}

struct EnumDef {
    name: Vec<char>,
    values: HashMap<i64, String>,
}

struct TemplateDef {
    name: Vec<char>,
    kind_name: Vec<char>,
    size: u32,
    opts: Vec<Vec<char>>,
}

/// Enumerations in the order of their definition; of two with the same name the later
/// one counts.
closed spec fn enum_map(v: Seq<EnumDef>) -> Enums
    decreases v.len(),
{
    if v.len() == 0 {
        Map::empty()
    } else {
        enum_map(v.drop_last()).insert(v.last().name@, table(v.last().values@))
    }
}

closed spec fn template_map(v: Seq<TemplateDef>) -> Map<Seq<char>, Template>
    decreases v.len(),
{
    if v.len() == 0 {
        Map::empty()
    } else {
        let t = v.last();
        template_map(v.drop_last()).insert(
            t.name@,
            Template { kind_name: t.kind_name@, size: t.size, opts: views(t.opts@) },
        )
    }
}

fn find_enum<'a>(v: &'a Vec<EnumDef>, name: &[char]) -> (r: Option<&'a EnumDef>)
    ensures
        match r {
            Some(e) => enum_map(v@).dom().contains(name@) && enum_map(v@)[name@] == table(e.values@),
            None => !enum_map(v@).dom().contains(name@),
        },
{
    let mut i: usize = v.len();
    assert(v@.take(i as int) =~= v@);
    while i > 0
        invariant
            i <= v@.len(),
            enum_map(v@).dom().contains(name@) == enum_map(v@.take(i as int)).dom().contains(name@),
            enum_map(v@).dom().contains(name@) ==> enum_map(v@)[name@] == enum_map(
                v@.take(i as int),
            )[name@],
        decreases i,
    {
        assert(v@.take(i as int).drop_last() =~= v@.take(i - 1));
        assert(v@.take(i as int).last() == v@[i - 1]);
        if same(v[i - 1].name.as_slice(), name) {
            return Some(&v[i - 1]);
        }
        i = i - 1;
    }
    None
}

fn find_template<'a>(v: &'a Vec<TemplateDef>, name: &[char]) -> (r: Option<&'a TemplateDef>)
    ensures
        match r {
            Some(t) => template_map(v@).dom().contains(name@) && template_map(v@)[name@] == (
            Template { kind_name: t.kind_name@, size: t.size, opts: views(t.opts@) }),
            None => !template_map(v@).dom().contains(name@),
        },
{
    let mut i: usize = v.len();
    assert(v@.take(i as int) =~= v@);
    while i > 0
        invariant
            i <= v@.len(),
            template_map(v@).dom().contains(name@) == template_map(v@.take(i as int)).dom().contains(
                name@,
            ),
            template_map(v@).dom().contains(name@) ==> template_map(v@)[name@] == template_map(
                v@.take(i as int),
            )[name@],
        decreases i,
    {
        assert(v@.take(i as int).drop_last() =~= v@.take(i - 1));
        assert(v@.take(i as int).last() == v@[i - 1]);
        if same(v[i - 1].name.as_slice(), name) {
            return Some(&v[i - 1]);
        }
        i = i - 1;
    }
    None
}

fn parse_or(s: &[char], max: u64, default: u64) -> (r: u64)
    requires
        default <= max,
    ensures
        r == number_or(s@, max as int, default as int),
        r <= max,
{
    match parse_uint(s, 10, max) {
        Ok(v) => v,
        Err(_) => default,
    }
}

fn copied_from(v: &Vec<Vec<char>>, from: usize) -> (r: Vec<Vec<char>>)
    requires
        from <= v@.len(),
    ensures
        views(r@) == views(v@).skip(from as int),
{
    let mut out: Vec<Vec<char>> = Vec::new();
    let mut i: usize = from;
    let ghost want = views(v@).skip(from as int);
    assert(views(out@) =~= want.take(0));
    while i < v.len()
        invariant
            from <= i <= v@.len(),
            want == views(v@).skip(from as int),
            views(out@) == want.take(i - from),
        decreases v@.len() - i,
    {
        let ghost before = views(out@);
        let w = copied(v[i].as_slice());
        out.push(w);
        assert(want[i - from] == w@);
        i = i + 1;
        assert(views(out@) =~= before.push(w@));
        assert(views(out@) =~= want.take(i - from));
    }
    assert(want.take(i - from) =~= want);
    out
}

/// What the sections before the messages define, as the second pass needs it.
struct Defs {
    section: Vec<char>,
    pending: Vec<char>,
    enums: Vec<EnumDef>,
    templates: Vec<TemplateDef>,
}

impl Defs {
    closed spec fn model(self) -> Definitions {
        Definitions {
            section: self.section@,
            pending: self.pending@,
            enums: enum_map(self.enums@),
            templates: template_map(self.templates@),
        }
    }

    fn add_enum_line(&mut self, line: &[char])
        ensures
            final(self).model() == enum_line(old(self).model(), line@),
    {
        if starts_text(line, "enum") || self.pending.len() > 0 {
            let ghost before = self.pending@;
            put_chars(&mut self.pending, line);
            self.pending.push(' ');
            assert(self.pending@ =~= (before + line@).push(' '));
            let end = drop_back(self.pending.as_slice(), Class::White);
            let n: usize = end.len();
            if n > 0 && end[n - 1] == ')' {
                match parse_sym_enum(self.pending.as_slice()) {
                    Some((name, values)) => {
                        let ghost v = self.enums@;
                        let e = EnumDef { name, values };
                        self.enums.push(e);
                        assert(self.enums@.drop_last() =~= v);
                    },
                    None => {},
                }
                self.pending = Vec::new();
                assert(self.pending@ =~= Seq::<char>::empty());
            }
        }
    }

    fn add_template_line(&mut self, line: &[char])
        ensures
            final(self).model() == template_line(old(self).model(), line@),
    {
        proof {
            reveal_strlit("Sig=");
        }
        if !starts_text(line, "Sig=") {
            return;
        }
        let rest = slice_subrange(line, 4, line.len());
        assert(rest@ =~= line@.skip(4));
        let t = tokenize(rest);
        assert(views(t@).len() == t@.len());
        if t.len() >= 3 {
            let ghost v = self.templates@;
            assert(views(t@)[0] == t@[0]@);
            assert(views(t@)[1] == t@[1]@);
            assert(views(t@)[2] == t@[2]@);
            let e = TemplateDef {
                name: copied(t[0].as_slice()),
                kind_name: copied(t[1].as_slice()),
                size: parse_or(t[2].as_slice(), 0xFFFF_FFFF, 8) as u32,
                opts: copied_from(&t, 3),
            };
            self.templates.push(e);
            assert(self.templates@.drop_last() =~= v);
        }
    }

    fn read(l: &Vec<Vec<char>>) -> (r: Defs)
        ensures
            r.model() == definitions(views(l@)),
    {
        let mut d = Defs {
            section: Vec::new(),
            pending: Vec::new(),
            enums: Vec::new(),
            templates: Vec::new(),
        };
        let ghost all = views(l@);
        let mut i: usize = 0;
        proof {
            assert(d.section@ =~= Seq::<char>::empty());
            assert(d.pending@ =~= Seq::<char>::empty());
        }
        while i < l.len()
            invariant
                i <= l@.len(),
                all == views(l@),
                d.model() == definitions(all.take(i as int)),
            decreases l@.len() - i,
        {
            proof {
                assert(all.take(i + 1).drop_last() =~= all.take(i as int));
                assert(all.take(i + 1).last() == l@[i as int]@);
            }
            let line = trim(strip_comment(l[i].as_slice()));
            if line.len() > 0 && line[0] == '{' {
                d.section = upper_all(line);
            } else if is_text(d.section.as_slice(), "{ENUMS}") {
                d.add_enum_line(line);
            } else if is_text(d.section.as_slice(), "{SIGNALS}") {
                d.add_template_line(line);
            }
            i = i + 1;
        }
        assert(all.take(i as int) =~= all);
        d
    }
}

/// Converts a Motorola start bit of a symbol file into the position of the highest bit in
/// sawtooth order.
pub fn sym_motorola_start(start: u32) -> (r: u32)
    ensures
        r == sawtooth(start as int),
{
    8 * (start / 8) + (7 - start % 8)
}

/// The conversion undoes itself.
pub proof fn law_motorola_start_undoes_itself(start: int)
    requires
        start >= 0,
    ensures
        sawtooth(sawtooth(start)) == start,
{
    let q = start / 8;
    let r = start % 8;
    let p = 8 * q + 7 - r;
    assert(p / 8 == q && p % 8 == 7 - r) by (nonlinear_arith)
        requires
            p == 8 * q + 7 - r,
            0 <= r < 8,
    ;
}

/// A signal with the type that a symbol file names.
pub open spec fn with_type(s: SignalModel, kind_name: Seq<char>) -> SignalModel {
    let t = lowered(kind_name);
    if t == "signed"@ {
        SignalModel { signed: true, ..s }
    } else if t == "float"@ {
        SignalModel { kind: SigKind::Float32, ..s }
    } else if t == "double"@ {
        SignalModel { kind: SigKind::Float64, ..s }
    } else {
        s
    }
}

/// A signal with one more option.
pub open spec fn with_option(s: SignalModel, o: Seq<char>, enums: Enums) -> SignalModel {
    if lowered(o) == "-m"@ {
        if s.little_endian {
            SignalModel {
                little_endian: false,
                start_bit: sawtooth(s.start_bit as int) as u32,
                ..s
            }
        } else {
            s
        }
    } else if "/u:"@.is_prefix_of(o) {
        SignalModel { unit: o.skip(3), ..s }
    } else if "/f:"@.is_prefix_of(o) {
        SignalModel { factor_text: Some(o.skip(3)), ..s }
    } else if "/o:"@.is_prefix_of(o) {
        SignalModel { offset_text: Some(o.skip(3)), ..s }
    } else if "/e:"@.is_prefix_of(o) && enums.dom().contains(o.skip(3)) {
        SignalModel { values: enums[o.skip(3)], ..s }
    } else {
        s
    }
}

/// A signal with options.
pub open spec fn with_options(s: SignalModel, opts: Seq<Seq<char>>, enums: Enums) -> SignalModel
    decreases opts.len(),
{
    if opts.len() == 0 {
        s
    } else {
        with_option(with_options(s, opts.drop_last(), enums), opts.last(), enums)
    }
}

fn apply_sym_type(sd: &mut SignalDef, kind_name: &[char])
    ensures
        final(sd)@ == with_type(old(sd)@, kind_name@),
{
    let t = lower_all(kind_name);
    if is_text(t.as_slice(), "signed") {
        sd.signed = true;
    } else if is_text(t.as_slice(), "float") {
        sd.kind = SigKind::Float32;
    } else if is_text(t.as_slice(), "double") {
        sd.kind = SigKind::Float64;
    }
}

fn apply_sym_opt(sd: &mut SignalDef, o: &[char], enums: &Vec<EnumDef>)
    ensures
        final(sd)@ == with_option(old(sd)@, o@, enum_map(enums@)),
{
    proof {
        reveal_strlit("/u:");
        reveal_strlit("/f:");
        reveal_strlit("/o:");
        reveal_strlit("/e:");
    }
    let l = lower_all(o);
    if is_text(l.as_slice(), "-m") {
        if sd.little_endian {
            sd.little_endian = false;
            sd.start_bit = sym_motorola_start(sd.start_bit);
        }
    } else if starts_text(o, "/u:") {
        let v = slice_subrange(o, 3, o.len());
        assert(v@ =~= o@.skip(3));
        sd.unit = string_of(v);
    } else if starts_text(o, "/f:") {
        let v = slice_subrange(o, 3, o.len());
        assert(v@ =~= o@.skip(3));
        sd.factor_text = Some(string_of(v));
    } else if starts_text(o, "/o:") {
        let v = slice_subrange(o, 3, o.len());
        assert(v@ =~= o@.skip(3));
        sd.offset_text = Some(string_of(v));
    } else if starts_text(o, "/e:") {
        let v = slice_subrange(o, 3, o.len());
        assert(v@ =~= o@.skip(3));
        match find_enum(enums, v) {
            Some(e) => {
                sd.values = e.values.clone();
            },
            None => {},
        }
    }
}

fn apply_sym_opts(sd: &mut SignalDef, opts: &Vec<Vec<char>>, from: usize, enums: &Vec<EnumDef>)
    requires
        from <= opts@.len(),
    ensures
        final(sd)@ == with_options(
            old(sd)@,
            views(opts@).skip(from as int),
            enum_map(enums@),
        ),
{
    let ghost start = sd@;
    let ghost all = views(opts@).skip(from as int);
    let mut i: usize = from;
    while i < opts.len()
        invariant
            from <= i <= opts@.len(),
            all == views(opts@).skip(from as int),
            sd@ == with_options(start, all.take(i - from), enum_map(enums@)),
        decreases opts@.len() - i,
    {
        proof {
            let t = all.take(i - from + 1);
            assert(t.drop_last() =~= all.take(i - from));
            assert(t.last() == opts@[i as int]@);
        }
        apply_sym_opt(sd, opts[i].as_slice(), enums);
        i = i + 1;
    }
    assert(all.take(i - from) =~= all);
}

/// A block of the message sections.
#[verifier::ext_equal]
pub ghost struct BlockModel {
    pub name: Seq<char>,
    pub id: Option<u32>,
    pub ext: bool,
    pub dlc: u8,
    /// The multiplexor with its value for this block.
    pub mux: Option<(SignalModel, u64)>,
    pub signals: Seq<SignalModel>,
}

/// A signal at a range such as `16,8`: start bit and size.
pub open spec fn ranged(name: Seq<char>, s: Seq<char>) -> Result<SignalModel, Seq<char>> {
    let c = find(s, Class::One(','));
    if c >= s.len() {
        Err("bad bit range"@)
    } else {
        match (parsed(s.take(c), 10, u32::MAX as int), parsed(s.skip(c + 1), 10, u32::MAX as int)) {
            (Err(e), _) => Err(e.message()),
            (Ok(_), Err(e)) => Err(e.message()),
            (Ok(start), Ok(size)) => Ok(plain_signal(name, start as u32, size as u32, true)),
        }
    }
}

/// The tokens from `n` on.
pub open spec fn rest_from(t: Seq<Seq<char>>, n: int) -> Seq<Seq<char>> {
    if n <= t.len() {
        t.skip(n)
    } else {
        Seq::empty()
    }
}

/// The message about a signal without a definition.
pub open spec fn unknown_signal(name: Seq<char>) -> Seq<char> {
    "unknown signal '"@ + name + "'"@
}

/// `Sig=Name start [options]`: a signal of the `{SIGNALS}` section.
pub open spec fn sig_signal(t: Seq<Seq<char>>, d: Definitions) -> Result<SignalModel, Seq<char>> {
    if !d.templates.dom().contains(t[0]) {
        Err(unknown_signal(t[0]))
    } else {
        let p = d.templates[t[0]];
        match parsed(t[1], 10, u32::MAX as int) {
            Err(e) => Err(e.message()),
            Ok(start) => Ok(
                with_options(
                    with_options(
                        with_type(plain_signal(t[0], start as u32, p.size, true), p.kind_name),
                        p.opts,
                        d.enums,
                    ),
                    rest_from(t, 2),
                    d.enums,
                ),
            ),
        }
    }
}

/// `Mux=Name start,size value [options]`: the multiplexor and its value.
pub open spec fn mux_signal(t: Seq<Seq<char>>, d: Definitions) -> Result<
    (SignalModel, u64),
    Seq<char>,
> {
    match ranged(t[0], t[1]) {
        Err(e) => Err(e),
        Ok(s) => {
            let value = if t.len() > 2 {
                sym_num(t[2])
            } else {
                Ok(0)
            };
            match value {
                Err(e) => Err(e.message()),
                Ok(v) => Ok((with_options(s, rest_from(t, 3), d.enums), v as u64)),
            }
        },
    }
}

/// `Var=Name type start,size [options]`: a signal.
pub open spec fn var_signal(t: Seq<Seq<char>>, d: Definitions) -> Result<SignalModel, Seq<char>> {
    if t.len() < 3 {
        Err("too few fields"@)
    } else {
        match ranged(t[0], t[2]) {
            Err(e) => Err(e),
            Ok(s) => Ok(with_options(with_type(s, t[1]), rest_from(t, 3), d.enums)),
        }
    }
}

/// A block with one more signal, described by `v` behind the word `k`.
pub open spec fn signal_line(b: BlockModel, k: Seq<char>, v: Seq<char>, d: Definitions) -> Result<
    BlockModel,
    Seq<char>,
> {
    let t = tokens(v);
    if t.len() < 2 {
        Err("too few fields"@)
    } else if k == "Mux"@ {
        match mux_signal(t, d) {
            Err(e) => Err(e),
            Ok(m) => Ok(BlockModel { mux: Some(m), ..b }),
        }
    } else {
        match if k == "Sig"@ {
            sig_signal(t, d)
        } else {
            var_signal(t, d)
        } {
            Err(e) => Err(e),
            Ok(s) => Ok(BlockModel { signals: b.signals.push(s), ..b }),
        }
    }
}

/// A block with one more line `word=value`.
pub open spec fn block_line(b: BlockModel, line: Seq<char>, d: Definitions) -> Result<
    BlockModel,
    Seq<char>,
> {
    let e = find(line, Class::One('='));
    if e >= line.len() {
        Ok(b)
    } else {
        let k = trimmed(line.take(e));
        let v = trimmed(line.skip(e + 1));
        if k == "ID"@ {
            match sym_num(v.take(find(v, Class::One('-')))) {
                Err(e) => Err(e.message()),
                Ok(n) => Ok(BlockModel { id: Some((n % 0x1_0000_0000) as u32), ..b }),
            }
        } else if k == "Type"@ {
            Ok(BlockModel { ext: lowered(v) == "extended"@, ..b })
        } else if k == "DLC"@ || k == "Len"@ {
            Ok(BlockModel { dlc: number_or(v, 0xFF, 8) as u8, ..b })
        } else if k == "Var"@ || k == "Mux"@ || k == "Sig"@ {
            signal_line(b, k, v, d)
        } else {
            Ok(b)
        }
    }
}

/// Whether a section holds messages.
pub open spec fn is_message_section(line: Seq<char>) -> bool {
    let s = uppered(line);
    s == "{SEND}"@ || s == "{RECEIVE}"@ || s == "{SENDRECEIVE}"@
}

/// A block with nothing but a name.
pub open spec fn new_block(name: Seq<char>) -> BlockModel {
    BlockModel { name, id: None, ext: false, dlc: 8, mux: None, signals: Seq::empty() }
}

/// The message about a line that cannot be read.
pub open spec fn line_error(n: int, raw: Seq<char>, cause: Seq<char>) -> Seq<char> {
    "line "@ + decimal(n) + ": "@ + trimmed(raw) + ": "@ + cause
}

/// The blocks in some lines, and whether the last section of them holds messages.
pub open spec fn blocks_of(l: Seq<Seq<char>>, d: Definitions) -> Result<
    (Seq<BlockModel>, bool),
    Seq<char>,
>
    decreases l.len(),
{
    if l.len() == 0 {
        Ok((Seq::empty(), false))
    } else {
        match blocks_of(l.drop_last(), d) {
            Err(e) => Err(e),
            Ok((blocks, inside)) => {
                let line = clean(l.last());
                if line.len() == 0 {
                    Ok((blocks, inside))
                } else if line[0] == '{' {
                    Ok((blocks, is_message_section(line)))
                } else if !inside {
                    Ok((blocks, inside))
                } else if line[0] == '[' && line.last() == ']' {
                    Ok((blocks.push(new_block(line.subrange(1, line.len() - 1))), inside))
                } else if blocks.len() == 0 {
                    Ok((blocks, inside))
                } else {
                    match block_line(blocks.last(), line, d) {
                        Err(cause) => Err(line_error(l.len() as int, l.last(), cause)),
                        Ok(b) => Ok((blocks.drop_last().push(b), inside)),
                    }
                }
            },
        }
    }
}

/// The key of a block's message: IDs over 7FF are extended in any case.
pub open spec fn block_key(b: BlockModel, id: u32) -> MsgKey {
    MsgKey { id, ext: b.ext || id > 0x7FF }
}

/// The definition of a message without signals.
pub open spec fn empty_message(b: BlockModel, key: MsgKey) -> MessageModel {
    MessageModel {
        name: b.name,
        key,
        dlc: b.dlc,
        mux: None,
        mux_names: Map::empty(),
        signals: Seq::empty(),
        comment: None,
        max_lines: 0,
        name_width: 0,
        value_column: ValueColumn { int_width: 0, frac_width: 0, text_width: 0 },
    }
}

/// Signals that are there at a value of the multiplexor.
pub open spec fn at_mux(signals: Seq<SignalModel>, v: u64) -> Seq<SignalModel> {
    Seq::new(signals.len(), |i: int| SignalModel { mux: Some(v), ..signals[i] })
}

/// A message with one more block. A block with a multiplexor is one variant of the
/// message: the first such block gives the multiplexor, each its name and signals.
pub open spec fn with_block(m: MessageModel, b: BlockModel) -> MessageModel {
    match b.mux {
        Some((s, v)) => MessageModel {
            mux: match m.mux {
                Some(x) => Some(x),
                None => Some(s),
            },
            mux_names: m.mux_names.insert(v, b.name),
            signals: m.signals + at_mux(b.signals, v),
            ..m
        },
        None => MessageModel { signals: m.signals + b.signals, ..m },
    }
}

/// The messages that blocks make, under the codes of their keys; blocks without an ID make
/// none, blocks with the same key one.
pub open spec fn merged(blocks: Seq<BlockModel>) -> Map<u64, MessageModel>
    decreases blocks.len(),
{
    if blocks.len() == 0 {
        Map::empty()
    } else {
        let before = merged(blocks.drop_last());
        let b = blocks.last();
        match b.id {
            None => before,
            Some(id) => {
                let key = block_key(b, id);
                let code = key.code_spec();
                let m = if before.dom().contains(code) {
                    before[code]
                } else {
                    empty_message(b, key)
                };
                before.insert(code, with_block(m, b))
            },
        }
    }
}

/// The messages of a symbol file, their lines and names arranged, or why it cannot be
/// read.
pub open spec fn sym_messages(text: Seq<char>) -> Result<Map<u64, MessageModel>, Seq<char>> {
    let l = lines(text);
    match blocks_of(l, definitions(l)) {
        Ok((blocks, _)) => Ok(arranged_messages(merged(blocks))),
        Err(e) => Err(e),
    }
}

struct Block {
    name: String,
    id: Option<u32>,
    ext: bool,
    dlc: u8,
    mux: Option<(SignalDef, u64)>,
    signals: Vec<SignalDef>,
}

impl Block {
    closed spec fn model(self) -> BlockModel {
        BlockModel {
            name: self.name@,
            id: self.id,
            ext: self.ext,
            dlc: self.dlc,
            mux: match self.mux {
                Some((s, v)) => Some((s@, v)),
                None => None,
            },
            signals: signal_views(self.signals@),
        }
    }
}

closed spec fn block_views(v: Seq<Block>) -> Seq<BlockModel> {
    Seq::new(v.len(), |i: int| v[i].model())
}

fn fail(s: &str) -> (r: Vec<char>)
    ensures
        r@ == s@,
{
    chars_of(s)
}

fn parse_range(name: &[char], s: &[char]) -> (r: Result<SignalDef, Vec<char>>)
    ensures
        match r {
            Ok(sd) => ranged(name@, s@) == Ok::<SignalModel, Seq<char>>(sd@),
            Err(e) => ranged(name@, s@) == Err::<SignalModel, Seq<char>>(e@),
        },
{
    let n: usize = s.len();
    let c: usize = position(s, Class::One(','));
    if c >= n {
        return Err(fail("bad bit range"));
    }
    let a = slice_subrange(s, 0, c);
    let b = slice_subrange(s, c + 1, n);
    assert(a@ =~= s@.take(c as int));
    assert(b@ =~= s@.skip(c + 1));
    let start: u64 = match parse_uint(a, 10, 0xFFFF_FFFF) {
        Ok(v) => v,
        Err(e) => {
            return Err(fail(e.text()));
        },
    };
    let size: u64 = match parse_uint(b, 10, 0xFFFF_FFFF) {
        Ok(v) => v,
        Err(e) => {
            return Err(fail(e.text()));
        },
    };
    Ok(SignalDef::plain(string_of(name), start as u32, size as u32, true))
}

fn from_or_end(t: &Vec<Vec<char>>, n: usize) -> (r: usize)
    ensures
        r <= t@.len(),
        views(t@).skip(r as int) == rest_from(views(t@), n as int),
{
    assert(views(t@).len() == t@.len());
    if n <= t.len() {
        n
    } else {
        assert(views(t@).skip(t@.len() as int) =~= Seq::<Seq<char>>::empty());
        t.len()
    }
}

fn parse_sig(t: &Vec<Vec<char>>, d: &Defs) -> (r: Result<SignalDef, Vec<char>>)
    requires
        t@.len() >= 2,
    ensures
        match r {
            Ok(sd) => sig_signal(views(t@), d.model()) == Ok::<SignalModel, Seq<char>>(sd@),
            Err(e) => sig_signal(views(t@), d.model()) == Err::<SignalModel, Seq<char>>(e@),
        },
{
    assert(views(t@)[0] == t@[0]@);
    assert(views(t@)[1] == t@[1]@);
    let p = match find_template(&d.templates, t[0].as_slice()) {
        Some(p) => p,
        None => {
            let mut out: Vec<char> = Vec::new();
            put(&mut out, "unknown signal '");
            put_chars(&mut out, t[0].as_slice());
            put(&mut out, "'");
            assert(out@ =~= unknown_signal(t@[0]@));
            return Err(out);
        },
    };
    let start: u64 = match parse_uint(t[1].as_slice(), 10, 0xFFFF_FFFF) {
        Ok(v) => v,
        Err(e) => {
            return Err(fail(e.text()));
        },
    };
    let mut sd = SignalDef::plain(string_of(t[0].as_slice()), start as u32, p.size, true);
    apply_sym_type(&mut sd, p.kind_name.as_slice());
    assert(views(p.opts@).skip(0) =~= views(p.opts@));
    apply_sym_opts(&mut sd, &p.opts, 0, &d.enums);
    let from: usize = from_or_end(t, 2);
    apply_sym_opts(&mut sd, t, from, &d.enums);
    Ok(sd)
}

fn parse_mux(t: &Vec<Vec<char>>, d: &Defs) -> (r: Result<(SignalDef, u64), Vec<char>>)
    requires
        t@.len() >= 2,
    ensures
        match r {
            Ok((sd, v)) => mux_signal(views(t@), d.model()) == Ok::<(SignalModel, u64), Seq<char>>(
                (sd@, v),
            ),
            Err(e) => mux_signal(views(t@), d.model()) == Err::<(SignalModel, u64), Seq<char>>(e@),
        },
{
    assert(views(t@)[0] == t@[0]@);
    assert(views(t@)[1] == t@[1]@);
    let mut sd = match parse_range(t[0].as_slice(), t[1].as_slice()) {
        Ok(sd) => sd,
        Err(e) => {
            return Err(e);
        },
    };
    let mut v: u64 = 0;
    if t.len() > 2 {
        assert(views(t@)[2] == t@[2]@);
        match parse_sym_num(t[2].as_slice()) {
            Ok(n) => {
                v = n;
            },
            Err(e) => {
                return Err(fail(e.text()));
            },
        }
    }
    let from: usize = from_or_end(t, 3);
    apply_sym_opts(&mut sd, t, from, &d.enums);
    Ok((sd, v))
}

fn parse_var(t: &Vec<Vec<char>>, d: &Defs) -> (r: Result<SignalDef, Vec<char>>)
    ensures
        match r {
            Ok(sd) => var_signal(views(t@), d.model()) == Ok::<SignalModel, Seq<char>>(sd@),
            Err(e) => var_signal(views(t@), d.model()) == Err::<SignalModel, Seq<char>>(e@),
        },
{
    assert(views(t@).len() == t@.len());
    if t.len() < 3 {
        return Err(fail("too few fields"));
    }
    assert(views(t@)[0] == t@[0]@);
    assert(views(t@)[1] == t@[1]@);
    assert(views(t@)[2] == t@[2]@);
    let mut sd = match parse_range(t[0].as_slice(), t[2].as_slice()) {
        Ok(sd) => sd,
        Err(e) => {
            return Err(e);
        },
    };
    apply_sym_type(&mut sd, t[1].as_slice());
    let from: usize = from_or_end(t, 3);
    apply_sym_opts(&mut sd, t, from, &d.enums);
    Ok(sd)
}

impl Block {
    fn push_signal(&mut self, sd: SignalDef)
        ensures
            final(self).model() == (BlockModel {
                signals: old(self).model().signals.push(sd@),
                ..old(self).model()
            }),
    {
        let ghost before = signal_views(self.signals@);
        self.signals.push(sd);
        assert(signal_views(self.signals@) =~= before.push(sd@));
    }

    fn add_signal(&mut self, k: &[char], v: &[char], d: &Defs) -> (r: Result<(), Vec<char>>)
        ensures
            match r {
                Ok(_) => signal_line(old(self).model(), k@, v@, d.model()) == Ok::<
                    BlockModel,
                    Seq<char>,
                >(final(self).model()),
                Err(e) => signal_line(old(self).model(), k@, v@, d.model()) == Err::<
                    BlockModel,
                    Seq<char>,
                >(e@),
            },
    {
        let t = tokenize(v);
        assert(views(t@).len() == t@.len());
        if t.len() < 2 {
            return Err(fail("too few fields"));
        }
        if is_text(k, "Mux") {
            match parse_mux(&t, d) {
                Ok(m) => {
                    self.mux = Some(m);
                    Ok(())
                },
                Err(e) => Err(e),
            }
        } else {
            let s = if is_text(k, "Sig") {
                parse_sig(&t, d)
            } else {
                parse_var(&t, d)
            };
            match s {
                Ok(sd) => {
                    self.push_signal(sd);
                    Ok(())
                },
                Err(e) => Err(e),
            }
        }
    }

    fn add_line(&mut self, line: &[char], d: &Defs) -> (r: Result<(), Vec<char>>)
        ensures
            match r {
                Ok(_) => block_line(old(self).model(), line@, d.model()) == Ok::<
                    BlockModel,
                    Seq<char>,
                >(final(self).model()),
                Err(e) => block_line(old(self).model(), line@, d.model()) == Err::<
                    BlockModel,
                    Seq<char>,
                >(e@),
            },
    {
        let n: usize = line.len();
        let e: usize = position(line, Class::One('='));
        if e >= n {
            return Ok(());
        }
        let front = slice_subrange(line, 0, e);
        let back = slice_subrange(line, e + 1, n);
        assert(front@ =~= line@.take(e as int));
        assert(back@ =~= line@.skip(e + 1));
        let k = trim(front);
        let v = trim(back);
        if is_text(k, "ID") {
            let c: usize = position(v, Class::One('-'));
            let first = slice_subrange(v, 0, c);
            assert(first@ =~= v@.take(c as int));
            match parse_sym_num(first) {
                Ok(id) => {
                    self.id = Some((id % 0x1_0000_0000) as u32);
                    Ok(())
                },
                Err(x) => Err(fail(x.text())),
            }
        } else if is_text(k, "Type") {
            let l = lower_all(v);
            self.ext = is_text(l.as_slice(), "extended");
            Ok(())
        } else if is_text(k, "DLC") || is_text(k, "Len") {
            self.dlc = parse_or(v, 0xFF, 8) as u8;
            Ok(())
        } else if is_text(k, "Var") || is_text(k, "Mux") || is_text(k, "Sig") {
            self.add_signal(k, v, d)
        } else {
            Ok(())
        }
    }
}

fn describe_line(n: usize, raw: &[char], cause: &[char]) -> (r: String)
    ensures
        r@ == line_error(n as int, raw@, cause@),
{
    let mut out: Vec<char> = Vec::new();
    put(&mut out, "line ");
    put_decimal(&mut out, n as u64);
    put(&mut out, ": ");
    put_chars(&mut out, trim(raw));
    put(&mut out, ": ");
    put_chars(&mut out, cause);
    assert(out@ =~= line_error(n as int, raw@, cause@));
    string_of(out.as_slice())
}

fn read_blocks(l: &Vec<Vec<char>>, d: &Defs) -> (r: Result<Vec<Block>, String>)
    ensures
        match r {
            Ok(b) => blocks_of(views(l@), d.model()) matches Ok((x, _)) && x == block_views(b@),
            Err(e) => blocks_of(views(l@), d.model()) == Err::<(Seq<BlockModel>, bool), Seq<char>>(
                e@,
            ),
        },
{
    let mut blocks: Vec<Block> = Vec::new();
    let mut inside = false;
    let ghost all = views(l@);
    let mut i: usize = 0;
    assert(block_views(blocks@) =~= Seq::<BlockModel>::empty());
    while i < l.len()
        invariant
            i <= l@.len(),
            all == views(l@),
            blocks_of(all.take(i as int), d.model()) == Ok::<(Seq<BlockModel>, bool), Seq<char>>(
                (block_views(blocks@), inside),
            ),
        decreases l@.len() - i,
    {
        let ghost before = block_views(blocks@);
        proof {
            assert(all.take(i + 1).drop_last() =~= all.take(i as int));
            assert(all.take(i + 1).last() == l@[i as int]@);
        }
        let raw = l[i].as_slice();
        let line = trim(strip_comment(raw));
        let n: usize = line.len();
        if n == 0 {
        } else if line[0] == '{' {
            let s = upper_all(line);
            inside = is_text(s.as_slice(), "{SEND}") || is_text(s.as_slice(), "{RECEIVE}")
                || is_text(s.as_slice(), "{SENDRECEIVE}");
        } else if !inside {
        } else if line[0] == '[' && line[n - 1] == ']' {
            let name = slice_subrange(line, 1, n - 1);
            let b = Block {
                name: string_of(name),
                id: None,
                ext: false,
                dlc: 8,
                mux: None,
                signals: Vec::new(),
            };
            assert(signal_views(b.signals@) =~= Seq::<SignalModel>::empty());
            blocks.push(b);
            assert(block_views(blocks@) =~= before.push(b.model()));
        } else {
            match blocks.pop() {
                None => {
                    assert(before.len() == 0);
                },
                Some(mut b) => {
                    assert(before.last() == b.model());
                    match b.add_line(line, d) {
                        Ok(_) => {
                            blocks.push(b);
                            assert(block_views(blocks@) =~= before.drop_last().push(b.model()));
                        },
                        Err(cause) => {
                            let e = describe_line(i + 1, raw, cause.as_slice());
                            proof {
                                lemma_blocks_error(all, d.model(), i + 1);
                            }
                            return Err(e);
                        },
                    }
                },
            }
        }
        i = i + 1;
    }
    assert(all.take(i as int) =~= all);
    Ok(blocks)
}

/// An error in the first lines is the error of all of them.
proof fn lemma_blocks_error(l: Seq<Seq<char>>, d: Definitions, n: int)
    requires
        0 <= n <= l.len(),
        blocks_of(l.take(n), d) is Err,
    ensures
        blocks_of(l, d) == blocks_of(l.take(n), d),
    decreases l.len(),
{
    if n == l.len() {
        assert(l.take(n) =~= l);
    } else {
        assert(l.drop_last().take(n) =~= l.take(n));
        lemma_blocks_error(l.drop_last(), d, n);
    }
}

fn append_signals(signals: &mut Vec<SignalDef>, more: &Vec<SignalDef>, mux: Option<u64>)
    ensures
        signal_views(final(signals)@) == signal_views(old(signals)@) + (match mux {
            Some(v) => at_mux(signal_views(more@), v),
            None => signal_views(more@),
        }),
{
    let ghost start = signal_views(signals@);
    let ghost add = match mux {
        Some(v) => at_mux(signal_views(more@), v),
        None => signal_views(more@),
    };
    let mut i: usize = 0;
    assert(start + add.take(0) =~= start);
    while i < more.len()
        invariant
            i <= more@.len(),
            add == (match mux {
                Some(v) => at_mux(signal_views(more@), v),
                None => signal_views(more@),
            }),
            signal_views(signals@) == start + add.take(i as int),
        decreases more@.len() - i,
    {
        let ghost before = signal_views(signals@);
        let mut s = more[i].clone();
        match mux {
            Some(v) => {
                s.mux = Some(v);
            },
            None => {},
        }
        assert(s@ == add[i as int]);
        let ghost m = s@;
        signals.push(s);
        i = i + 1;
        assert(signal_views(signals@) =~= before.push(m));
        assert(signal_views(signals@) =~= start + add.take(i as int));
    }
    assert(add.take(i as int) =~= add);
}

fn merge_block(m: &mut MessageDef, b: &Block)
    ensures
        final(m)@ == with_block(old(m)@, b.model()),
{
    broadcast use vstd::std_specs::hash::group_hash_axioms;

    match &b.mux {
        Some(p) => {
            let v: u64 = p.1;
            if m.mux.is_none() {
                m.mux = Some(p.0.clone());
            }
            let ghost before = m.mux_names@;
            m.mux_names.insert(v, b.name.clone());
            assert(names(m.mux_names@) =~= names(before).insert(v, b.name@));
            append_signals(&mut m.signals, &b.signals, Some(v));
        },
        None => {
            append_signals(&mut m.signals, &b.signals, None);
        },
    }
}

fn new_message(b: &Block, key: MsgKey) -> (r: MessageDef)
    ensures
        r@ == empty_message(b.model(), key),
{
    broadcast use vstd::std_specs::hash::group_hash_axioms;

    let m = MessageDef {
        name: b.name.clone(),
        key,
        dlc: b.dlc,
        mux: None,
        mux_names: HashMap::new(),
        signals: Vec::new(),
        comment: None,
        max_lines: 0,
        name_width: 0,
        value_column: ValueColumn { int_width: 0, frac_width: 0, text_width: 0 },
    };
    assert(names(m.mux_names@) =~= Map::<u64, Seq<char>>::empty());
    assert(signal_views(m.signals@) =~= Seq::<SignalModel>::empty());
    m
}

fn merge_blocks(blocks: &Vec<Block>) -> (r: SymbolDb)
    ensures
        r@ == merged(block_views(blocks@)),
        r.source is None,
        r.wf(),
{
    broadcast use vstd::std_specs::hash::group_hash_axioms;

    let mut db = SymbolDb { source: None, messages: HashMap::new() };
    let ghost all = block_views(blocks@);
    let mut i: usize = 0;
    assert(db@ =~= Map::<u64, MessageModel>::empty());
    while i < blocks.len()
        invariant
            i <= blocks@.len(),
            all == block_views(blocks@),
            db@ == merged(all.take(i as int)),
            db.source is None,
            db.wf(),
        decreases blocks@.len() - i,
    {
        let ghost before = db.messages@;
        let b = &blocks[i];
        proof {
            assert(all.take(i + 1).drop_last() =~= all.take(i as int));
            assert(all.take(i + 1).last() == b.model());
        }
        match b.id {
            None => {},
            Some(id) => {
                let key = MsgKey { id, ext: b.ext || id > 0x7FF };
                let code: u64 = key.code();
                assert(message_views(before).dom().contains(code) == before.dom().contains(code));
                let mut m = match db.messages.remove(&code) {
                    Some(m) => m,
                    None => new_message(b, key),
                };
                assert(m@.key == key) by {
                    if before.dom().contains(code) {
                        assert(message_views(before).dom().contains(code));
                    }
                }
                merge_block(&mut m, b);
                let ghost mv = m@;
                db.messages.insert(code, m);
                assert(db@ =~= message_views(before).insert(code, mv));
            },
        }
        i = i + 1;
    }
    assert(all.take(i as int) =~= all);
    db
}

/// Signals in some blocks, multiplexors included.
spec fn weight(blocks: Seq<BlockModel>) -> int
    decreases blocks.len(),
{
    if blocks.len() == 0 {
        0
    } else {
        weight(blocks.drop_last()) + block_weight(blocks.last())
    }
}

spec fn block_weight(b: BlockModel) -> int {
    b.signals.len() + if b.mux is Some {
        1int
    } else {
        0int
    }
}

/// Each signal stands on a line of its own.
proof fn lemma_block_weights(l: Seq<Seq<char>>, d: Definitions)
    ensures
        blocks_of(l, d) matches Ok((blocks, _)) ==> weight(blocks) <= l.len(),
    decreases l.len(),
{
    if l.len() > 0 {
        lemma_block_weights(l.drop_last(), d);
        match (blocks_of(l.drop_last(), d), blocks_of(l, d)) {
            (Ok((before, _)), Ok((after, _))) => {
                if after.len() > before.len() {
                    assert(after.drop_last() =~= before);
                } else if after != before {
                    assert(after.drop_last() =~= before.drop_last());
                    assert(block_weight(after.last()) <= block_weight(before.last()) + 1);
                }
            },
            _ => {},
        }
    }
}

/// A message has no more signals than its blocks.
proof fn lemma_message_weights(blocks: Seq<BlockModel>)
    ensures
        forall|c: u64| #[trigger]
            merged(blocks).dom().contains(c) ==> merged(blocks)[c].all_signals().len() <= weight(
                blocks,
            ),
        weight(blocks) >= 0,
    decreases blocks.len(),
{
    if blocks.len() > 0 {
        let t = blocks.drop_last();
        let b = blocks.last();
        lemma_message_weights(t);
        assert forall|c: u64| #[trigger] merged(blocks).dom().contains(c) implies merged(
            blocks,
        )[c].all_signals().len() <= weight(blocks) by {
            match b.id {
                Some(id) if c == block_key(b, id).code_spec() => {
                    let m = if merged(t).dom().contains(c) {
                        merged(t)[c]
                    } else {
                        empty_message(b, block_key(b, id))
                    };
                    assert(m.all_signals().len() <= weight(t));
                    assert(with_block(m, b).all_signals().len() <= m.all_signals().len()
                        + block_weight(b));
                },
                _ => {
                    assert(merged(t).dom().contains(c));
                },
            }
        }
    }
}

/// Reads a symbol file. The scaling and formats of the values are left to
/// [`SymbolDb::finalize`].
pub fn parse_sym(text: &str) -> (r: Result<SymbolDb, String>)
    ensures
        match r {
            Ok(db) => db.wf() && db.source is None && sym_messages(text@) == Ok::<
                Map<u64, MessageModel>,
                Seq<char>,
            >(db@),
            Err(e) => sym_messages(text@) == Err::<Map<u64, MessageModel>, Seq<char>>(e@),
        },
{
    let all = chars_of(text);
    let l = split_lines(all.as_slice());
    let d = Defs::read(&l);
    match read_blocks(&l, &d) {
        Ok(b) => {
            let mut db = merge_blocks(&b);
            proof {
                assert(l@.len() == l.len());
                lemma_block_weights(views(l@), d.model());
                lemma_message_weights(block_views(b@));
            }
            db.arrange();
            Ok(db)
        },
        Err(e) => Err(e),
    }
}

/// A type word, in any case, decides how the bits of a signal are read and nothing else:
/// `float` reads 32 bits as a single-precision number, `double` 64 bits as a double-precision
/// one, `signed` any bits as a two's complement; every other word leaves the signal as it is.
pub proof fn law_type_words(s: SignalModel, w: Seq<char>, raw: u64)
    ensures
        with_type(s, "float"@).kind == SigKind::Float32,
        with_type(s, "double"@).kind == SigKind::Float64,
        with_type(s, "signed"@).signed,
        lowered(w) == "float"@ ==> {
            &&& with_type(s, w) == SignalModel { kind: SigKind::Float32, ..s }
            &&& s.size == 32 ==> with_type(s, w).number(raw) == Number::Float32(raw as u32)
        },
        lowered(w) == "double"@ ==> {
            &&& with_type(s, w) == SignalModel { kind: SigKind::Float64, ..s }
            &&& s.size == 64 ==> with_type(s, w).number(raw) == Number::Float64(raw)
        },
        lowered(w) == "signed"@ ==> {
            &&& with_type(s, w) == SignalModel { signed: true, ..s }
            &&& s.kind == SigKind::Int ==> with_type(s, w).number(raw) == Number::Signed(
                signed_value(raw as int, s.size as nat) as i64,
            )
        },
        lowered(w) != "float"@ && lowered(w) != "double"@ && lowered(w) != "signed"@ ==> with_type(
            s,
            w,
        ) == s,
        with_type(s, uppered(w)) == with_type(s, w),
        with_type(s, lowered(w)) == with_type(s, w),
{
    reveal_strlit("float");
    reveal_strlit("double");
    reveal_strlit("signed");
    assert(lowered("float"@) =~= "float"@);
    assert(lowered("double"@) =~= "double"@);
    assert(lowered("signed"@) =~= "signed"@);
    assert("float"@.len() == 5 && "double"@.len() == 6 && "signed"@.len() == 6);
    assert("double"@[0] != "signed"@[0]);
    assert(lowered(uppered(w)) =~= lowered(w));
    assert(lowered(lowered(w)) =~= lowered(w));
}

/// Each option sets the one thing that it names: `-m`, in any case, turns an Intel signal
/// into a Motorola one that begins at the same byte, with the bits of the byte counted from
/// the other end; `/u:`, `/f:` and `/o:` set the unit and the texts of factor and offset;
/// `/e:` takes the values of the enumeration that it names.
#[verifier::spinoff_prover]
pub proof fn law_options(s: SignalModel, o: Seq<char>, v: Seq<char>, enums: Enums)
    ensures
        lowered(o) == "-m"@ ==> {
            let t = with_option(s, o, enums);
            &&& !t.little_endian
            &&& s.little_endian ==> t.start_bit as int / 8 == s.start_bit as int / 8
                && t.start_bit as int % 8 + s.start_bit as int % 8 == 7
            &&& !s.little_endian ==> t == s
            &&& t == SignalModel { little_endian: t.little_endian, start_bit: t.start_bit, ..s }
            &&& with_option(t, o, enums) == t
        },
        with_option(s, "/u:"@ + v, enums) == (SignalModel { unit: v, ..s }),
        with_option(s, "/f:"@ + v, enums) == (SignalModel { factor_text: Some(v), ..s }),
        with_option(s, "/o:"@ + v, enums) == (SignalModel { offset_text: Some(v), ..s }),
        enums.dom().contains(v) ==> with_option(s, "/e:"@ + v, enums) == (SignalModel {
            values: enums[v],
            ..s
        }),
        !enums.dom().contains(v) ==> with_option(s, "/e:"@ + v, enums) == s,
        lowered(o) != "-m"@ && !"/u:"@.is_prefix_of(o) && !"/f:"@.is_prefix_of(o)
            && !"/o:"@.is_prefix_of(o) && !"/e:"@.is_prefix_of(o) ==> with_option(s, o, enums) == s,
{
    reveal_strlit("-m");
    reveal_strlit("/u:");
    reveal_strlit("/f:");
    reveal_strlit("/o:");
    reveal_strlit("/e:");
    let n = s.start_bit as int;
    assert(0 <= 8 * (n / 8) + 7 - n % 8 <= u32::MAX);
    let (a, b, c, e) = ("/u:"@ + v, "/f:"@ + v, "/o:"@ + v, "/e:"@ + v);
    assert(a.skip(3) =~= v && b.skip(3) =~= v && c.skip(3) =~= v && e.skip(3) =~= v);
    assert(lowered(a)[0] == '/' && lowered(b)[0] == '/' && lowered(c)[0] == '/' && lowered(e)[0]
        == '/');
    assert("-m"@[0] == '-');
    assert(a[1] == 'u' && b[1] == 'f' && c[1] == 'o' && e[1] == 'e');
    assert("/u:"@[1] == 'u' && "/f:"@[1] == 'f' && "/o:"@[1] == 'o' && "/e:"@[1] == 'e');
    assert("/u:"@ =~= a.subrange(0, 3));
    assert("/f:"@ =~= b.subrange(0, 3));
    assert("/o:"@ =~= c.subrange(0, 3));
    assert("/e:"@ =~= e.subrange(0, 3));
    assert(!"/u:"@.is_prefix_of(b) && !"/u:"@.is_prefix_of(c) && !"/u:"@.is_prefix_of(e));
    assert(!"/f:"@.is_prefix_of(c) && !"/f:"@.is_prefix_of(e) && !"/o:"@.is_prefix_of(e));
}

/// Options are taken one after the other, so that of two that set the same thing the later
/// one counts. None of them touches the name, the width, the type or the multiplexor value.
pub proof fn law_options_in_order(s: SignalModel, a: Seq<Seq<char>>, b: Seq<Seq<char>>, enums: Enums)
    ensures
        with_options(s, a + b, enums) == with_options(with_options(s, a, enums), b, enums),
        with_options(s, Seq::empty(), enums) == s,
        a.len() == 1 ==> with_options(s, a, enums) == with_option(s, a[0], enums),
        ({
            let t = with_options(s, a, enums);
            &&& t.name == s.name && t.size == s.size && t.signed == s.signed && t.kind == s.kind
            &&& t.mux == s.mux && t.factor == s.factor && t.offset == s.offset && t.fmt == s.fmt
        }),
    decreases a.len() + b.len(),
{
    if b.len() > 0 {
        law_options_in_order(s, a, b.drop_last(), enums);
        assert((a + b).drop_last() =~= a + b.drop_last());
    } else {
        assert(a + b =~= a);
        if a.len() > 0 {
            law_options_in_order(s, a.drop_last(), b, enums);
            if a.len() == 1 {
                assert(a.drop_last().len() == 0);
            }
        }
    }
}

proof fn lemma_no_white(s: Seq<char>)
    requires
        forall|i: int| 0 <= i < s.len() ==> '!' <= #[trigger] s[i] <= '~',
    ensures
        trimmed(s) == s,
{
    if s.len() > 0 {
        assert('!' <= s[0] <= '~');
        assert('!' <= s.last() <= '~');
        lemma_trimmed_same(s);
    }
}

proof fn lemma_digit_text(n: int, radix: int)
    requires
        2 <= radix <= 16,
        0 <= n <= u64::MAX,
    ensures
        parsed(digits(n, radix), radix, u64::MAX as int) == Ok::<int, IntError>(n),
        digits(n, radix).len() > 0,
        forall|i: int| 0 <= i < digits(n, radix).len() ==> '0' <= #[trigger] digits(n, radix)[i] <= 'F',
        radix <= 10 ==> forall|i: int|
            0 <= i < digits(n, radix).len() ==> '0' <= #[trigger] digits(n, radix)[i] <= '9',
{
    let s = digits(n, radix);
    lemma_scan_digits(n, radix, u64::MAX as int);
    assert forall|i: int| 0 <= i < s.len() implies '0' <= #[trigger] s[i] <= 'F' by {
        let v = choose|v: int| 0 <= v < radix && #[trigger] digits(n, radix)[i] == #[trigger] digit_char(v);
        lemma_digit_char(v);
    }
    if radix <= 10 {
        assert forall|i: int| 0 <= i < s.len() implies '0' <= #[trigger] s[i] <= '9' by {
            let v = choose|v: int| 0 <= v < radix && #[trigger] digits(n, radix)[i] == #[trigger] digit_char(v);
            lemma_digit_char(v);
        }
    }
    assert('0' <= s[0] <= 'F');
}

/// A number reads back from each way to write it: its hexadecimal digits with `h` behind or
/// `0x` in front, its binary digits with `b` behind, or its decimal digits; white space
/// around it means nothing.
#[verifier::spinoff_prover]
pub proof fn law_number_forms(n: int, s: Seq<char>)
    requires
        0 <= n <= u64::MAX,
    ensures
        sym_num(digits(n, 16).push('h')) == Ok::<int, IntError>(n),
        sym_num(digits(n, 16).push('H')) == Ok::<int, IntError>(n),
        sym_num("0x"@ + digits(n, 16)) == Ok::<int, IntError>(n),
        sym_num(digits(n, 2).push('b')) == Ok::<int, IntError>(n),
        sym_num(digits(n, 2).push('B')) == Ok::<int, IntError>(n),
        sym_num(decimal(n)) == Ok::<int, IntError>(n),
        sym_num(trimmed(s)) == sym_num(s),
{
    reveal_strlit("0x");
    let h = digits(n, 16);
    let b = digits(n, 2);
    lemma_digit_text(n, 16);
    lemma_digit_text(n, 2);
    lemma_decimal(n, u64::MAX as int);
    let d = decimal(n);
    lemma_no_white(h.push('h'));
    lemma_no_white(h.push('H'));
    lemma_no_white(b.push('b'));
    lemma_no_white(b.push('B'));
    lemma_no_white(d);
    let x = "0x"@ + h;
    assert(x[0] == '0' && x[1] == 'x' && x.last() == h.last());
    lemma_no_white(x);
    assert(h.push('h').drop_last() =~= h && h.push('H').drop_last() =~= h);
    assert(b.push('b').drop_last() =~= b && b.push('B').drop_last() =~= b);
    assert(x.skip(2) =~= h);
    assert("0x"@ =~= x.subrange(0, 2));
    assert("0x"@[1] == 'x');
    assert(!"0x"@.is_prefix_of(b.push('b')) && !"0x"@.is_prefix_of(b.push('B')));
    assert(!"0x"@.is_prefix_of(d));
    assert('0' <= h.last() <= 'F' && '0' <= d.last() <= '9');
    law_trimmed(s);
    if trimmed(s).len() > 0 {
        lemma_trimmed_same(trimmed(s));
    }
}

/// A range reads back: its two decimal numbers are the start bit and the width of an unsigned
/// Intel signal without scaling, unit or values. A text without a comma is none.
pub proof fn law_bit_ranges(name: Seq<char>, start: u32, size: u32, s: Seq<char>)
    ensures
        ranged(name, decimal(start as int).push(',') + decimal(size as int)) matches Ok(r) && {
            &&& r.name == name && r.start_bit == start && r.size == size && r.little_endian
            &&& !r.signed && r.kind == SigKind::Int && r.factor_text is None && r.offset_text is None
            &&& r.unit.len() == 0 && r.mux is None
            &&& forall|k: i64| !r.values.dom().contains(k)
        },
        (forall|i: int| 0 <= i < s.len() ==> #[trigger] s[i] != ',') ==> ranged(name, s) == Err::<
            SignalModel,
            Seq<char>,
        >("bad bit range"@),
{
    let a = decimal(start as int);
    let b = decimal(size as int);
    lemma_decimal(start as int, u32::MAX as int);
    lemma_decimal(size as int, u32::MAX as int);
    let t = a.push(',') + b;
    assert forall|j: int| 0 <= j < a.len() implies !in_class(Class::One(','), #[trigger] t[j]) by {
        assert(t[j] == a[j]);
    }
    lemma_find_at(t, Class::One(','), a.len() as int);
    assert(t.take(a.len() as int) =~= a);
    assert(t.skip(a.len() as int + 1) =~= b);
    if forall|i: int| 0 <= i < s.len() ==> #[trigger] s[i] != ',' {
        lemma_find_at(s, Class::One(','), s.len() as int);
    }
}

proof fn lemma_token_run(s: Seq<char>, w: Seq<char>)
    requires
        forall|i: int|
            0 <= i < w.len() ==> #[trigger] w[i] != '"' && (!is_white(w[i]) || token_state(s).quoted),
    ensures
        token_state(s + w) == (TokenState {
            current: token_state(s).current + w,
            begun: token_state(s).begun || w.len() > 0,
            ..token_state(s)
        }),
    decreases w.len(),
{
    let t = token_state(s);
    if w.len() == 0 {
        assert(s + w =~= s);
        assert(t.current + w =~= t.current);
    } else {
        let v = w.drop_last();
        lemma_token_run(s, v);
        assert((s + w).drop_last() =~= s + v);
        assert((s + w).last() == w.last());
        assert(w[w.len() - 1] != '"');
        assert((t.current + v).push(w.last()) =~= t.current + w);
    }
}

proof fn lemma_token_rest(s: Seq<char>, b: Seq<char>)
    requires
        !token_state(s).quoted,
        !token_state(s).begun,
        token_state(s).current.len() == 0,
    ensures
        token_state(s + b) == (TokenState {
            done: token_state(s).done + token_state(b).done,
            ..token_state(b)
        }),
    decreases b.len(),
{
    let t = token_state(s);
    if b.len() == 0 {
        assert(s + b =~= s);
        assert(t.done + token_state(b).done =~= t.done);
        assert(t.current =~= token_state(b).current);
    } else {
        lemma_token_rest(s, b.drop_last());
        assert((s + b).drop_last() =~= s + b.drop_last());
        assert((s + b).last() == b.last());
        let u = token_state(b.drop_last());
        assert((t.done + u.done).push(u.current) =~= t.done + u.done.push(u.current));
    }
}

proof fn lemma_token_step(s: Seq<char>, c: char)
    ensures
        token_state(s.push(c)) == ({
            let t = token_state(s);
            if c == '"' {
                TokenState { quoted: !t.quoted, begun: true, ..t }
            } else if is_white(c) && !t.quoted {
                if t.begun {
                    TokenState {
                        done: t.done.push(t.current),
                        current: Seq::empty(),
                        begun: false,
                        ..t
                    }
                } else {
                    t
                }
            } else {
                TokenState { current: t.current.push(c), begun: true, ..t }
            }
        }),
{
    assert(s.push(c).drop_last() =~= s);
}

/// White space splits a line into tokens, however much of it there is; within quotes it does
/// not, and the quotes themselves are no part of the token. An empty pair of quotes is a
/// token too.
#[verifier::spinoff_prover]
pub proof fn law_tokens(p: Seq<char>, q: Seq<char>, c: char, rest: Seq<char>)
    requires
        is_white(c),
        forall|i: int| 0 <= i < p.len() ==> #[trigger] p[i] != '"' && !is_white(p[i]),
        forall|i: int| 0 <= i < q.len() ==> #[trigger] q[i] != '"',
    ensures
        tokens(Seq::empty()).len() == 0,
        tokens(seq![c] + rest) == tokens(rest),
        p.len() > 0 ==> {
            &&& tokens(p) == seq![p]
            &&& tokens(p.push(c) + rest) == seq![p] + tokens(rest)
        },
        ({
            let k = p.push('"') + q.push('"');
            &&& tokens(k) == seq![p + q]
            &&& tokens(k.push(c) + rest) == seq![p + q] + tokens(rest)
        }),
{
    let e = Seq::<char>::empty();
    assert(token_state(e).done =~= Seq::empty());
    assert(seq![c] =~= e.push(c));
    lemma_token_step(e, c);
    lemma_token_rest(seq![c], rest);
    assert(token_state(seq![c]).done + token_state(rest).done =~= token_state(rest).done);
    lemma_token_run(e, p);
    assert(e + p =~= p);
    let none = Seq::<Seq<char>>::empty();
    if p.len() > 0 {
        lemma_token_step(p, c);
        assert(none.push(p) =~= seq![p]);
        lemma_token_rest(p.push(c), rest);
        assert(tokens(p.push(c) + rest) =~= seq![p] + tokens(rest));
    }
    lemma_token_step(p, '"');
    lemma_token_run(p.push('"'), q);
    lemma_token_step(p.push('"') + q, '"');
    let k = p.push('"') + q.push('"');
    assert(k =~= (p.push('"') + q).push('"'));
    assert(none.push(p + q) =~= seq![p + q]);
    lemma_token_step(k, c);
    lemma_token_rest(k.push(c), rest);
    assert(tokens(k.push(c) + rest) =~= seq![p + q] + tokens(rest));
}

/// The number of an entry reads back, be it negative or not.
pub proof fn law_entry_numbers(n: i64)
    ensures
        n >= 0 ==> enum_key(decimal(n as int)) == Some(n),
        n >= 0 ==> enum_key(digits(n as int, 16).push('h')) == Some(n),
        n < 0 ==> enum_key(seq!['-'] + decimal(-n)) == Some(n),
{
    let max: int = 0x8000_0000_0000_0000;
    if n >= 0 {
        law_number_forms(n as int, Seq::empty());
    } else {
        lemma_decimal(-n, max);
        let d = decimal(-n);
        let s = seq!['-'] + d;
        assert(s.skip(1) =~= d);
        assert('0' <= d[0] <= '9');
        assert(parsed(d, 10, max) == scan(0, d, 10, max));
        assert(forall|i: int| 0 < i < s.len() ==> s[i] == d[i - 1]);
        lemma_no_white(s);
        reveal_strlit("0x");
        assert(s[0] == '-' && "0x"@[0] == '0');
        assert(!"0x"@.is_prefix_of(s));
        assert(s.last() == d.last());
        assert('0' <= d.last() <= '9');
        assert(sym_num(s) is Err);
    }
}

proof fn lemma_entry_key(sep: Seq<char>, n: i64)
    requires
        n >= 0,
        sep == Seq::<char>::empty() || sep == seq![','] || sep == seq![',', ' '],
    ensures
        trimmed(skip_front(trimmed(sep + decimal(n as int)), Class::One(','))) == decimal(n as int),
{
    let d = decimal(n as int);
    lemma_decimal(n as int, i64::MAX as int);
    assert('0' <= d[0] <= '9' && '0' <= d.last() <= '9');
    lemma_trimmed_same(d);
    let s = sep + d;
    assert(s.last() == d.last());
    if sep.len() == 0 {
        assert(s =~= d);
        assert(skip_front(d, Class::One(',')) == d);
    } else {
        assert(s[0] == ',');
        lemma_trimmed_same(s);
        let t = s.skip(1);
        assert(skip_front(s, Class::One(',')) == skip_front(t, Class::One(',')));
        if sep.len() == 1 {
            assert(t =~= d);
            assert(skip_front(d, Class::One(',')) == d);
        } else {
            assert(t =~= seq![' '] + d);
            assert(t[0] == ' ');
            assert(skip_front(t, Class::One(',')) == t);
            assert(t.skip(1) =~= d);
            assert(skip_front(t, Class::White) == skip_front(d, Class::White));
        }
    }
}

proof fn lemma_key_chars(sep: Seq<char>, n: i64)
    requires
        n >= 0,
        sep == Seq::<char>::empty() || sep == seq![','] || sep == seq![',', ' '],
    ensures
        forall|j: int|
            0 <= j < (sep + decimal(n as int)).len() ==> #[trigger] (sep + decimal(n as int))[j] != '=',
{
    let d = decimal(n as int);
    lemma_decimal(n as int, i64::MAX as int);
    let k = sep + d;
    assert forall|j: int| 0 <= j < k.len() implies #[trigger] k[j] != '=' by {
        if j >= sep.len() {
            assert(k[j] == d[j - sep.len()]);
        }
    }
}

proof fn lemma_quoted_text(text: Seq<char>, rest: Seq<char>)
    requires
        forall|i: int| 0 <= i < text.len() ==> #[trigger] text[i] != '"',
    ensures
        enum_text(text.push('"').insert(0, '"') + rest) == (text, rest),
{
    let after = text.push('"').insert(0, '"') + rest;
    assert(after[0] == '"');
    assert(skip_front(after, Class::White) == after);
    let q = after.skip(1);
    assert(q =~= text.push('"') + rest);
    assert forall|j: int| 0 <= j < text.len() implies !in_class(Class::One('"'), #[trigger] q[j]) by {
        assert(q[j] == text[j]);
    }
    lemma_find_at(q, Class::One('"'), text.len() as int);
    assert(q.take(text.len() as int) =~= text);
    assert(q.skip(text.len() as int + 1) =~= rest);
}

proof fn lemma_bare_text(text: Seq<char>, rest: Seq<char>)
    requires
        text.len() > 0,
        forall|i: int| 0 <= i < text.len() ==> #[trigger] text[i] != ',',
        text[0] != '"' && !is_white(text[0]) && !is_white(text.last()),
    ensures
        enum_text(text.push(',') + rest) == (text, seq![','] + rest),
{
    let after = text.push(',') + rest;
    assert(after[0] == text[0]);
    assert(skip_front(after, Class::White) == after);
    assert forall|j: int| 0 <= j < text.len() implies !in_class(
        Class::One(','),
        #[trigger] after[j],
    ) by {
        assert(after[j] == text[j]);
    }
    lemma_find_at(after, Class::One(','), text.len() as int);
    assert(after.take(text.len() as int) =~= text);
    assert(after.skip(text.len() as int) =~= seq![','] + rest);
    lemma_trimmed_same(text);
}

proof fn lemma_entry(
    acc: Map<i64, Seq<char>>,
    sep: Seq<char>,
    n: i64,
    after: Seq<char>,
)
    requires
        n >= 0,
        sep == Seq::<char>::empty() || sep == seq![','] || sep == seq![',', ' '],
    ensures
        enum_entries(acc, (sep + decimal(n as int)).push('=') + after) == enum_entries(
            acc.insert(n, enum_text(after).0),
            enum_text(after).1,
        ),
{
    let k = sep + decimal(n as int);
    let s = k.push('=') + after;
    lemma_entry_key(sep, n);
    law_entry_numbers(n);
    lemma_key_chars(sep, n);
    lemma_entry_parts(k, after);
    assert(s.take(k.len() as int) =~= k);
    assert(s.skip(k.len() as int + 1) =~= after);
}

/// An enumeration holds each of its entries: a number, `=` and a text in quotes, or a text
/// up to the next comma; of two entries with the same number the later one counts.
pub proof fn law_entries(
    acc: Map<i64, Seq<char>>,
    sep: Seq<char>,
    n: i64,
    text: Seq<char>,
    rest: Seq<char>,
)
    requires
        n >= 0,
        sep == Seq::<char>::empty() || sep == seq![','] || sep == seq![',', ' '],
    ensures
        (forall|i: int| 0 <= i < text.len() ==> #[trigger] text[i] != '"') ==> enum_entries(
            acc,
            (sep + decimal(n as int)).push('=') + (text.push('"').insert(0, '"') + rest),
        ) == enum_entries(acc.insert(n, text), rest),
        (forall|i: int| 0 <= i < text.len() ==> #[trigger] text[i] != ',') && text.len() > 0
            && text[0] != '"' && !is_white(text[0]) && !is_white(text.last()) ==> enum_entries(
            acc,
            (sep + decimal(n as int)).push('=') + (text.push(',') + rest),
        ) == enum_entries(acc.insert(n, text), seq![','] + rest),
        (forall|i: int| 0 <= i < rest.len() ==> #[trigger] rest[i] != '=') ==> enum_entries(acc, rest)
            == acc,
{
    if forall|i: int| 0 <= i < text.len() ==> #[trigger] text[i] != '"' {
        lemma_quoted_text(text, rest);
        lemma_entry(acc, sep, n, text.push('"').insert(0, '"') + rest);
    }
    if (forall|i: int| 0 <= i < text.len() ==> #[trigger] text[i] != ',') && text.len() > 0 && text[0]
        != '"' && !is_white(text[0]) && !is_white(text.last()) {
        lemma_bare_text(text, rest);
        lemma_entry(acc, sep, n, text.push(',') + rest);
    }
    if forall|i: int| 0 <= i < rest.len() ==> #[trigger] rest[i] != '=' {
        lemma_find_at(rest, Class::One('='), rest.len() as int);
    }
}

proof fn lemma_entry_parts(k: Seq<char>, after: Seq<char>)
    requires
        forall|j: int| 0 <= j < k.len() ==> #[trigger] k[j] != '=',
    ensures
        find(k.push('=') + after, Class::One('=')) == k.len(),
{
    let s = k.push('=') + after;
    assert forall|j: int| 0 <= j < k.len() implies !in_class(Class::One('='), #[trigger] s[j]) by {
        assert(s[j] == k[j]);
    }
    lemma_find_at(s, Class::One('='), k.len() as int);
}

/// A definition `enum Name(body)` gives the name between the word and the bracket, and the
/// entries of the body. A line that does not begin with the word gives none.
#[verifier::spinoff_prover]
pub proof fn law_enumerations(name: Seq<char>, body: Seq<char>, s: Seq<char>)
    requires
        name.len() > 0 && !is_white(name[0]) && !is_white(name.last()),
        forall|i: int| 0 <= i < name.len() ==> #[trigger] name[i] != '(',
        body.len() > 0 && body.last() != ')' && !is_white(body.last()),
    ensures
        sym_enum("enum "@ + name.push('(') + body.push(')')) == Some(
            (name, enum_entries(Map::empty(), body)),
        ),
        s.len() > 0 && !is_white(s[0]) && s[0] != 'e' ==> sym_enum(s) is None,
{
    reveal_strlit("enum ");
    reveal_strlit("enum");
    let line = "enum "@ + name.push('(') + body.push(')');
    assert(line[0] == 'e' && line.last() == ')');
    lemma_trimmed_same(line);
    assert("enum"@ =~= line.subrange(0, 4));
    let behind = line.skip(4);
    let rest = name.push('(') + body.push(')');
    assert(behind =~= seq![' '] + rest);
    assert(behind[0] == ' ' && behind.skip(1) =~= rest);
    assert(rest[0] == name[0] && rest.last() == ')');
    assert(skip_front(behind, Class::White) == skip_front(rest, Class::White));
    lemma_trimmed_same(rest);
    assert forall|j: int| 0 <= j < name.len() implies !in_class(
        Class::One('('),
        #[trigger] rest[j],
    ) by {
        assert(rest[j] == name[j]);
    }
    lemma_find_at(rest, Class::One('('), name.len() as int);
    assert(rest.take(name.len() as int) =~= name);
    lemma_trimmed_same(name);
    let b = rest.skip(name.len() as int + 1);
    assert(b =~= body.push(')'));
    assert(b.last() == ')');
    assert(skip_back(b, Class::White) == b);
    assert(b.drop_last() =~= body);
    assert(skip_back(body, Class::One(')')) == body);
    if s.len() > 0 && !is_white(s[0]) && s[0] != 'e' {
        law_trimmed(s);
        let t = trimmed(s);
        if t.len() > 0 && "enum"@.is_prefix_of(t) {
            let a = choose|a: int|
                {
                    &&& 0 <= a <= a + t.len() <= s.len()
                    &&& t == #[trigger] s.subrange(a, a + t.len())
                    &&& forall|i: int| 0 <= i < a ==> is_white(#[trigger] s[i])
                    &&& forall|i: int| a + t.len() <= i < s.len() ==> is_white(#[trigger] s[i])
                };
            if a > 0 {
                assert(is_white(s[0]));
            }
            assert(t[0] == s[0]);
            assert("enum"@[0] == 'e');
            assert("enum"@ =~= t.subrange(0, 4));
            assert(t.subrange(0, 4)[0] == 'e');
        }
    }
}

/// An enumeration may be broken over two lines: the two give what one line with a space
/// between them gives. Lines that belong to no enumeration change nothing.
#[verifier::spinoff_prover]
pub proof fn law_enumerations_over_lines(d: Definitions, a: Seq<char>, b: Seq<char>)
    requires
        d.pending.len() == 0,
    ensures
        "enum"@.is_prefix_of(a) && a.last() != ')' && !is_white(a.last()) ==> enum_line(
            enum_line(d, a),
            b,
        ) == enum_line(d, a.push(' ') + b),
        !"enum"@.is_prefix_of(a) ==> enum_line(d, a) == d,
        "enum"@.is_prefix_of(a) && a.last() == ')' ==> {
            &&& enum_line(d, a).pending.len() == 0
            &&& match sym_enum(a.push(' ')) {
                Some((name, values)) => {
                    &&& enum_line(d, a).enums.dom().contains(name)
                    &&& enum_line(d, a).enums[name] == values
                    &&& forall|k: Seq<char>|
                        k != name ==> #[trigger] enum_line(d, a).enums.dom().contains(k)
                            == d.enums.dom().contains(k) && enum_line(d, a).enums[k] == d.enums[k]
                },
                None => enum_line(d, a).enums == d.enums,
            }
        },
        enum_line(d, a).templates == d.templates && enum_line(d, a).section == d.section,
{
    reveal_strlit("enum");
    if "enum"@.is_prefix_of(a) {
        assert("enum"@ =~= a.subrange(0, 4));
        let p = a.push(' ');
        assert(d.pending + a =~= a);
        assert((d.pending + a).push(' ') =~= p);
        assert(p.drop_last() =~= a);
        assert(skip_back(p, Class::White) == skip_back(a, Class::White));
        if a.last() != ')' && !is_white(a.last()) {
            assert(skip_back(a, Class::White) == a);
            let e = enum_line(d, a);
            assert(e.pending == p);
            let one = p + b;
            assert("enum"@.is_prefix_of(one)) by {
                assert("enum"@ =~= one.subrange(0, 4));
            }
            assert((d.pending + one).push(' ') =~= (p + b).push(' '));
            assert(Definitions { pending: Seq::empty(), ..e } == Definitions { pending: Seq::empty(), ..d });
        }
        if a.last() == ')' {
            assert(skip_back(a, Class::White) == a);
        }
    }
}

/// A signal of the `{SIGNALS}` section is kept under its name, with its type, its width and
/// its options; a width that is no number counts as 8 bits.
#[verifier::spinoff_prover]
pub proof fn law_signal_templates(d: Definitions, name: Seq<char>, w: Seq<char>, size: Seq<char>, n: u32)
    requires
        name.len() > 0 && w.len() > 0 && size.len() > 0,
        forall|i: int| 0 <= i < name.len() ==> #[trigger] name[i] != '"' && !is_white(name[i]),
        forall|i: int| 0 <= i < w.len() ==> #[trigger] w[i] != '"' && !is_white(w[i]),
        forall|i: int| 0 <= i < size.len() ==> #[trigger] size[i] != '"' && !is_white(size[i]),
    ensures
        ({
            let r = template_line(d, "Sig="@ + (name.push(' ') + (w.push(' ') + size)));
            let t = r.templates[name];
            &&& r.templates.dom().contains(name)
            &&& t.kind_name == w && t.opts.len() == 0
            &&& size == decimal(n as int) ==> t.size == n
            &&& parsed(size, 10, u32::MAX as int) is Err ==> t.size == 8
            &&& forall|k: Seq<char>|
                k != name ==> #[trigger] r.templates.dom().contains(k) == d.templates.dom().contains(k)
                    && r.templates[k] == d.templates[k]
            &&& r.enums == d.enums && r.section == d.section && r.pending == d.pending
        }),
{
    reveal_strlit("Sig=");
    let rest = name.push(' ') + (w.push(' ') + size);
    let line = "Sig="@ + rest;
    assert("Sig="@ =~= line.subrange(0, 4));
    assert(line.skip(4) =~= rest);
    law_tokens(name, Seq::empty(), ' ', w.push(' ') + size);
    law_tokens(w, Seq::empty(), ' ', size);
    law_tokens(size, Seq::empty(), ' ', size);
    assert(tokens(rest) =~= seq![name, w, size]);
    if size == decimal(n as int) {
        lemma_decimal(n as int, u32::MAX as int);
    }
}

/// A heading in braces, in any case, opens a section and defines nothing; outside of the
/// sections for enumerations and signals nothing is defined.
pub proof fn law_sections(l: Seq<Seq<char>>, raw: Seq<char>)
    ensures
        ({
            let d = definitions(l);
            let r = definitions(l.push(raw));
            let line = trimmed(uncommented(raw));
            let heading = line.len() > 0 && line[0] == '{';
            &&& heading ==> r == Definitions { section: uppered(line), ..d }
            &&& !heading ==> r.section == d.section
            &&& !heading && d.section != "{ENUMS}"@ && d.section != "{SIGNALS}"@ ==> r == d
            &&& !heading && d.section == "{ENUMS}"@ ==> r == enum_line(d, line)
            &&& !heading && d.section == "{SIGNALS}"@ ==> r == template_line(d, line)
        }),
        definitions(Seq::empty()).section.len() == 0,
        forall|k: Seq<char>| !#[trigger] definitions(Seq::empty()).enums.dom().contains(k),
        forall|k: Seq<char>| !#[trigger] definitions(Seq::empty()).templates.dom().contains(k),
{
    assert(l.push(raw).drop_last() =~= l);
    reveal_strlit("{ENUMS}");
    reveal_strlit("{SIGNALS}");
    assert("{ENUMS}"@.len() != "{SIGNALS}"@.len());
}

/// Messages stand in the sections for sending, receiving and both, in any case, and in no
/// other.
pub proof fn law_message_sections(line: Seq<char>)
    ensures
        is_message_section(line) == (lowered(line) == "{send}"@ || lowered(line) == "{receive}"@
            || lowered(line) == "{sendreceive}"@),
{
    reveal_strlit("{SEND}");
    reveal_strlit("{RECEIVE}");
    reveal_strlit("{SENDRECEIVE}");
    reveal_strlit("{send}");
    reveal_strlit("{receive}");
    reveal_strlit("{sendreceive}");
    assert(lowered("{SEND}"@) =~= "{send}"@ && uppered("{send}"@) =~= "{SEND}"@);
    assert(lowered("{RECEIVE}"@) =~= "{receive}"@ && uppered("{receive}"@) =~= "{RECEIVE}"@);
    assert(lowered("{SENDRECEIVE}"@) =~= "{sendreceive}"@);
    assert(uppered("{sendreceive}"@) =~= "{SENDRECEIVE}"@);
    assert(lowered(uppered(line)) =~= lowered(line));
    assert(uppered(lowered(line)) =~= uppered(line));
}

proof fn lemma_line_parts(word: Seq<char>, v: Seq<char>)
    requires
        forall|i: int| 0 <= i < word.len() ==> '!' <= #[trigger] word[i] <= '~' && word[i] != '=',
        v.len() > 0 && !is_white(v[0]) && !is_white(v.last()),
    ensures
        ({
            let line = word.push('=') + v;
            let e = find(line, Class::One('='));
            &&& e == word.len()
            &&& trimmed(line.take(e)) == word
            &&& trimmed(line.skip(e + 1)) == v
        }),
{
    let line = word.push('=') + v;
    lemma_entry_parts(word, v);
    assert(line.take(word.len() as int) =~= word);
    assert(line.skip(word.len() as int + 1) =~= v);
    lemma_no_white(word);
    lemma_trimmed_same(v);
}

/// The line with the ID of a block sets the ID and nothing else; of a range of IDs the first
/// one counts.
#[verifier::spinoff_prover]
pub proof fn law_id_lines(b: BlockModel, n: u32, m: u32, d: Definitions)
    ensures
        block_line(b, "ID="@ + digits(n as int, 16).push('h'), d) == Ok::<BlockModel, Seq<char>>(
            BlockModel { id: Some(n), ..b },
        ),
        block_line(
            b,
            "ID="@ + (digits(n as int, 16).push('h').push('-') + digits(m as int, 16).push('h')),
            d,
        ) == Ok::<BlockModel, Seq<char>>(BlockModel { id: Some(n), ..b }),
{
    reveal_strlit("ID=");
    reveal_strlit("ID");
    assert("ID="@ =~= "ID"@.push('='));
    let x = digits(n as int, 16).push('h');
    let y = digits(m as int, 16).push('h');
    lemma_digit_text(n as int, 16);
    lemma_digit_text(m as int, 16);
    law_number_forms(n as int, x);
    assert('0' <= x[0] <= 'F' && x.last() == 'h' && y.last() == 'h');
    lemma_line_parts("ID"@, x);
    assert forall|j: int| 0 <= j < x.len() implies !in_class(Class::One('-'), #[trigger] x[j]) by {
        if j < x.len() - 1 {
            assert('0' <= digits(n as int, 16)[j] <= 'F');
        }
    }
    lemma_find_at(x, Class::One('-'), x.len() as int);
    assert(x.take(x.len() as int) =~= x);
    let z = x.push('-') + y;
    assert(z[0] == x[0] && z.last() == 'h');
    lemma_line_parts("ID"@, z);
    assert forall|j: int| 0 <= j < x.len() implies !in_class(Class::One('-'), #[trigger] z[j]) by {
        assert(z[j] == x[j]);
    }
    lemma_find_at(z, Class::One('-'), x.len() as int);
    assert(z.take(x.len() as int) =~= x);
}

/// The type of a block is extended only where its line says so, in any case. A line without
/// `=` sets nothing.
pub proof fn law_type_lines(b: BlockModel, v: Seq<char>, d: Definitions)
    requires
        v.len() > 0 && !is_white(v[0]) && !is_white(v.last()),
    ensures
        block_line(b, "Type="@ + v, d) == Ok::<BlockModel, Seq<char>>(
            BlockModel { ext: lowered(v) == "extended"@, ..b },
        ),
        (forall|i: int| 0 <= i < v.len() ==> #[trigger] v[i] != '=') ==> block_line(b, v, d) == Ok::<
            BlockModel,
            Seq<char>,
        >(b),
{
    reveal_strlit("ID");
    reveal_strlit("Type=");
    reveal_strlit("Type");
    assert("Type="@ =~= "Type"@.push('='));
    assert("ID"@.len() != "Type"@.len());
    lemma_line_parts("Type"@, v);
    if forall|i: int| 0 <= i < v.len() ==> #[trigger] v[i] != '=' {
        lemma_find_at(v, Class::One('='), v.len() as int);
    }
}

/// The length of a block is the number on its `DLC` or `Len` line; a text that is no number
/// counts as 8.
#[verifier::spinoff_prover]
pub proof fn law_length_lines(b: BlockModel, n: u8, v: Seq<char>, d: Definitions)
    requires
        v.len() > 0 && !is_white(v[0]) && !is_white(v.last()),
        parsed(v, 10, 0xFF) is Err,
    ensures
        block_line(b, "DLC="@ + decimal(n as int), d) == Ok::<BlockModel, Seq<char>>(
            BlockModel { dlc: n, ..b },
        ),
        block_line(b, "Len="@ + decimal(n as int), d) == Ok::<BlockModel, Seq<char>>(
            BlockModel { dlc: n, ..b },
        ),
        block_line(b, "DLC="@ + v, d) == Ok::<BlockModel, Seq<char>>(BlockModel { dlc: 8, ..b }),
        block_line(b, "Len="@ + v, d) == Ok::<BlockModel, Seq<char>>(BlockModel { dlc: 8, ..b }),
{
    lemma_decimal(n as int, 0xFF);
    let c = decimal(n as int);
    assert('0' <= c[0] <= '9' && '0' <= c.last() <= '9');
    lemma_length_line(b, c, d);
    lemma_length_line(b, v, d);
}

#[verifier::spinoff_prover]
proof fn lemma_length_line(b: BlockModel, v: Seq<char>, d: Definitions)
    requires
        v.len() > 0 && !is_white(v[0]) && !is_white(v.last()),
    ensures
        block_line(b, "DLC="@ + v, d) == Ok::<BlockModel, Seq<char>>(
            BlockModel { dlc: number_or(v, 0xFF, 8) as u8, ..b },
        ),
        block_line(b, "Len="@ + v, d) == Ok::<BlockModel, Seq<char>>(
            BlockModel { dlc: number_or(v, 0xFF, 8) as u8, ..b },
        ),
{
    reveal_strlit("ID");
    reveal_strlit("Type");
    reveal_strlit("DLC=");
    reveal_strlit("DLC");
    reveal_strlit("Len=");
    reveal_strlit("Len");
    assert("DLC="@ =~= "DLC"@.push('='));
    assert("Len="@ =~= "Len"@.push('='));
    assert("ID"@.len() == 2 && "Type"@.len() == 4 && "DLC"@.len() == 3 && "Len"@.len() == 3);
    lemma_line_parts("DLC"@, v);
    lemma_line_parts("Len"@, v);
}

/// A variable of a block becomes its last signal, of the type, at the place and of the width
/// that its line gives; the block has the signals that it had and is otherwise the same.
#[verifier::spinoff_prover]
pub proof fn law_variable_lines(
    b: BlockModel,
    name: Seq<char>,
    w: Seq<char>,
    start: u32,
    size: u32,
    raw: u64,
    d: Definitions,
)
    requires
        name.len() > 0 && w.len() > 0,
        forall|i: int| 0 <= i < name.len() ==> #[trigger] name[i] != '"' && !is_white(name[i]),
        forall|i: int| 0 <= i < w.len() ==> #[trigger] w[i] != '"' && !is_white(w[i]),
    ensures
        block_line(
            b,
            "Var="@ + (name.push(' ') + (w.push(' ') + (decimal(start as int).push(',') + decimal(
                size as int,
            )))),
            d,
        ) matches Ok(r) && {
            let s = r.signals.last();
            &&& r == BlockModel { signals: r.signals, ..b }
            &&& r.signals == b.signals.push(s)
            &&& s.name == name && s.start_bit == start && s.size == size && s.little_endian
            &&& lowered(w) == "float"@ && size == 32 ==> s.number(raw) == Number::Float32(raw as u32)
            &&& lowered(w) == "double"@ && size == 64 ==> s.number(raw) == Number::Float64(raw)
            &&& lowered(w) == "signed"@ ==> s.number(raw) == Number::Signed(
                signed_value(raw as int, size as nat) as i64,
            )
            &&& lowered(w) == "unsigned"@ ==> s.number(raw) == Number::Unsigned(raw)
        },
{
    reveal_strlit("unsigned");
    reveal_strlit("float");
    reveal_strlit("double");
    reveal_strlit("signed");
    assert("unsigned"@.len() == 8 && "float"@.len() == 5 && "double"@.len() == 6 && "signed"@.len()
        == 6);
    let at = decimal(start as int).push(',') + decimal(size as int);
    let v = name.push(' ') + (w.push(' ') + at);
    lemma_decimal(start as int, u32::MAX as int);
    lemma_decimal(size as int, u32::MAX as int);
    let c = decimal(size as int);
    assert forall|i: int| 0 <= i < at.len() implies #[trigger] at[i] != '"' && !is_white(at[i]) by {
        let a = decimal(start as int);
        if i < a.len() {
            assert('0' <= a[i] <= '9');
        } else if i > a.len() {
            assert(at[i] == c[i - a.len() - 1]);
        }
    }
    law_tokens(name, Seq::empty(), ' ', w.push(' ') + at);
    law_tokens(w, Seq::empty(), ' ', at);
    law_tokens(at, Seq::empty(), ' ', at);
    assert(tokens(v) =~= seq![name, w, at]);
    assert(v[0] == name[0] && v.last() == c.last());
    assert('0' <= c.last() <= '9');
    lemma_var_word(v);
    law_bit_ranges(name, start, size, at);
    law_type_words(plain_signal(name, start, size, true), w, raw);
    let t = tokens(v);
    assert(rest_from(t, 3).len() == 0);
    assert(with_options(with_type(plain_signal(name, start, size, true), w), rest_from(t, 3), d.enums)
        == with_type(plain_signal(name, start, size, true), w));
    assert(ranged(name, at) matches Ok(r) && r.name == name);
    let s = with_type(plain_signal(name, start, size, true), w);
    assert(ranged(name, at) == Ok::<SignalModel, Seq<char>>(plain_signal(name, start, size, true)))
        by {
        lemma_ranged(name, start, size);
    }
    assert(b.signals.push(s).last() == s);
}

proof fn lemma_ranged(name: Seq<char>, start: u32, size: u32)
    ensures
        ranged(name, decimal(start as int).push(',') + decimal(size as int)) == Ok::<
            SignalModel,
            Seq<char>,
        >(plain_signal(name, start, size, true)),
{
    let a = decimal(start as int);
    let b = decimal(size as int);
    lemma_decimal(start as int, u32::MAX as int);
    lemma_decimal(size as int, u32::MAX as int);
    let t = a.push(',') + b;
    assert forall|j: int| 0 <= j < a.len() implies !in_class(Class::One(','), #[trigger] t[j]) by {
        assert(t[j] == a[j]);
    }
    lemma_find_at(t, Class::One(','), a.len() as int);
    assert(t.take(a.len() as int) =~= a);
    assert(t.skip(a.len() as int + 1) =~= b);
}

proof fn lemma_var_word(v: Seq<char>)
    requires
        v.len() > 0 && !is_white(v[0]) && !is_white(v.last()),
    ensures
        forall|b: BlockModel, d: Definitions|
            #[trigger] block_line(b, "Var="@ + v, d) == signal_line(b, "Var"@, v, d),
        "Var"@ != "Mux"@ && "Var"@ != "Sig"@,
{
    reveal_strlit("ID");
    reveal_strlit("Type");
    reveal_strlit("DLC");
    reveal_strlit("Len");
    reveal_strlit("Var");
    reveal_strlit("Var=");
    reveal_strlit("Mux");
    reveal_strlit("Sig");
    assert("Var="@ =~= "Var"@.push('='));
    assert("ID"@.len() == 2 && "Type"@.len() == 4 && "DLC"@[0] == 'D' && "Len"@[0] == 'L');
    assert("Var"@[0] == 'V' && "Mux"@[0] == 'M' && "Sig"@[0] == 'S' && "Var"@.len() == 3);
    lemma_line_parts("Var"@, v);
}

/// A signal that a message takes from the `{SIGNALS}` section has the width, the type and the
/// options defined there, at the start bit that the message gives; options of the message
/// come after those of the definition. A signal without a definition is refused.
pub proof fn law_placed_signals(t: Seq<Seq<char>>, d: Definitions, start: u32)
    requires
        t.len() >= 2,
        t[1] == decimal(start as int),
    ensures
        d.templates.dom().contains(t[0]) ==> (sig_signal(t, d) matches Ok(s) && {
            let p = d.templates[t[0]];
            &&& s.name == t[0] && s.size == p.size
            &&& p.opts.len() == 0 && t.len() == 2 ==> s.start_bit == start && s.little_endian
            &&& lowered(p.kind_name) == "float"@ ==> s.kind == SigKind::Float32
            &&& lowered(p.kind_name) == "double"@ ==> s.kind == SigKind::Float64
            &&& s.signed == (lowered(p.kind_name) == "signed"@)
            &&& s == with_options(
                with_type(plain_signal(t[0], start, p.size, true), p.kind_name),
                p.opts + t.skip(2),
                d.enums,
            )
        }),
        !d.templates.dom().contains(t[0]) ==> sig_signal(t, d) == Err::<SignalModel, Seq<char>>(
            "unknown signal '"@ + t[0] + "'"@,
        ),
{
    lemma_decimal(start as int, u32::MAX as int);
    if d.templates.dom().contains(t[0]) {
        let p = d.templates[t[0]];
        let s = with_type(plain_signal(t[0], start, p.size, true), p.kind_name);
        law_type_words(plain_signal(t[0], start, p.size, true), p.kind_name, 0);
        law_options_in_order(s, p.opts, t.skip(2), d.enums);
        law_options_in_order(s, p.opts + t.skip(2), t.skip(2), d.enums);
        reveal_strlit("float");
        reveal_strlit("double");
        reveal_strlit("signed");
        assert("float"@.len() == 5 && "double"@.len() == 6 && "signed"@.len() == 6);
        assert("double"@[0] == 'd' && "signed"@[0] == 's');
    }
}

/// A multiplexor has the value that follows its range, or 0; its options come behind.
pub proof fn law_multiplexor_lines(t: Seq<Seq<char>>, d: Definitions, start: u32, size: u32, v: u64)
    requires
        t.len() >= 2,
        t[1] == decimal(start as int).push(',') + decimal(size as int),
        t.len() > 2 ==> t[2] == digits(v as int, 16).push('h'),
    ensures
        mux_signal(t, d) matches Ok(m) && {
            &&& m.0.name == t[0] && m.0.size == size && !m.0.signed && m.0.kind == SigKind::Int
            &&& t.len() <= 3 ==> m.0.start_bit == start && m.0.little_endian
            &&& t.len() == 2 ==> m.1 == 0
            &&& t.len() > 2 ==> m.1 == v
            &&& t.len() > 3 ==> m.0 == with_options(
                plain_signal(t[0], start, size, true),
                t.skip(3),
                d.enums,
            )
        },
{
    lemma_ranged(t[0], start, size);
    law_number_forms(v as int, Seq::empty());
    law_options_in_order(
        plain_signal(t[0], start, size, true),
        rest_from(t, 3),
        Seq::empty(),
        d.enums,
    );
}

/// A heading in square brackets opens a block with that name, without an ID, of 8 bytes; a
/// line within a block adds to the last block alone; lines outside of the sections for
/// messages, empty lines and comments add nothing. The first line that cannot be read is
/// named by its number.
#[verifier::spinoff_prover]
pub proof fn law_blocks(l: Seq<Seq<char>>, raw: Seq<char>, name: Seq<char>, d: Definitions)
    ensures
        match blocks_of(l, d) {
            Err(e) => blocks_of(l.push(raw), d) == Err::<(Seq<BlockModel>, bool), Seq<char>>(e),
            Ok((bs, inside)) => {
                let line = trimmed(uncommented(raw));
                let r = blocks_of(l.push(raw), d);
                let heading = line.len() > 0 && line[0] == '{';
                let opening = line.len() > 0 && line[0] == '[' && line.last() == ']';
                &&& line.len() == 0 ==> r == blocks_of(l, d)
                &&& heading ==> r == Ok::<(Seq<BlockModel>, bool), Seq<char>>(
                    (
                        bs,
                        lowered(line) == "{send}"@ || lowered(line) == "{receive}"@ || lowered(line)
                            == "{sendreceive}"@,
                    ),
                )
                &&& !heading && !inside ==> r == blocks_of(l, d)
                &&& inside && line == (seq!['['] + name).push(']') ==> (r matches Ok(x) && {
                    let b = x.0.last();
                    &&& x.1 && x.0 == bs.push(b)
                    &&& b.name == name && b.id is None && !b.ext && b.dlc == 8 && b.mux is None
                    &&& b.signals.len() == 0
                })
                &&& inside && line.len() > 0 && !heading && !opening ==> {
                    if bs.len() == 0 {
                        r == blocks_of(l, d)
                    } else {
                        match block_line(bs.last(), line, d) {
                            Ok(b) => r == Ok::<(Seq<BlockModel>, bool), Seq<char>>(
                                (bs.update(bs.len() - 1, b), true),
                            ),
                            Err(cause) => r == Err::<(Seq<BlockModel>, bool), Seq<char>>(
                                "line "@ + decimal(l.len() as int + 1) + ": "@ + trimmed(raw) + ": "@ + cause,
                            ),
                        }
                    }
                }
            },
        },
{
    assert(l.push(raw).drop_last() =~= l);
    match blocks_of(l, d) {
        Err(_) => {},
        Ok((bs, inside)) => {
            let line = trimmed(uncommented(raw));
            law_message_sections(line);
            if inside && line == (seq!['['] + name).push(']') {
                assert(line[0] == '[' && line.last() == ']');
                assert(line.subrange(1, line.len() - 1) =~= name);
            }
            if bs.len() > 0 && block_line(bs.last(), line, d) is Ok {
                let b = block_line(bs.last(), line, d)->Ok_0;
                assert(bs.drop_last().push(b) =~= bs.update(bs.len() - 1, b));
            }
        },
    }
}

/// A block without an ID makes no message. One with an ID adds to the message of its key,
/// extended where it says so or where the ID does not fit in 11 bits: the first block of a
/// message gives its name, length and multiplexor, each adds its signals behind those that
/// are there. The signals of a block with a multiplexor are there at its value only, and the
/// message has the block's name at that value. No other message changes.
pub proof fn law_blocks_make_messages(blocks: Seq<BlockModel>, b: BlockModel, i: int)
    ensures
        b.id is None ==> merged(blocks.push(b)) == merged(blocks),
        b.id matches Some(id) ==> {
            let before = merged(blocks);
            let after = merged(blocks.push(b));
            let key = MsgKey { id, ext: b.ext || id > 0x7FF };
            let code = key.code_spec();
            let known = before.dom().contains(code);
            let m = after[code];
            let old = before[code];
            let n: int = if known {
                old.signals.len() as int
            } else {
                0
            };
            &&& after.dom().contains(code)
            &&& forall|k: u64|
                k != code ==> #[trigger] after.dom().contains(k) == before.dom().contains(k) && after[k]
                    == before[k]
            &&& !known ==> m.name == b.name && m.key == key && m.dlc == b.dlc && m.comment is None
            &&& known ==> m.name == old.name && m.key == old.key && m.dlc == old.dlc
            &&& m.signals.len() == n + b.signals.len()
            &&& 0 <= i < n ==> m.signals[i] == old.signals[i]
            &&& 0 <= i < b.signals.len() ==> match b.mux {
                Some((_, v)) => m.signals[n + i] == SignalModel { mux: Some(v), ..b.signals[i] },
                None => m.signals[n + i] == b.signals[i],
            }
            &&& match b.mux {
                Some((s, v)) => {
                    &&& m.mux_names.dom().contains(v) && m.mux_names[v] == b.name
                    &&& m.mux == if known && old.mux is Some {
                        old.mux
                    } else {
                        Some(s)
                    }
                },
                None => known ==> m.mux == old.mux && m.mux_names == old.mux_names,
            }
        },
{
    assert(blocks.push(b).drop_last() =~= blocks);
}

/// Quotes are counted wherever they stand.
pub proof fn law_quotes(a: Seq<char>, b: Seq<char>)
    ensures
        quotes(a + b) == quotes(a) + quotes(b),
        a.len() == 1 ==> quotes(a) == if a[0] == '"' {
            1int
        } else {
            0int
        },
        (forall|i: int| 0 <= i < b.len() ==> #[trigger] b[i] != '"') ==> quotes(b) == 0,
    decreases b.len(),
{
    if b.len() == 0 {
        assert(a + b =~= a);
    } else {
        law_quotes(a, b.drop_last());
        assert((a + b).drop_last() =~= a + b.drop_last());
        if forall|i: int| 0 <= i < b.len() ==> #[trigger] b[i] != '"' {
            assert(b[b.len() - 1] != '"');
            assert forall|i: int| 0 <= i < b.drop_last().len() implies #[trigger] b.drop_last()[i]
                != '"' by {
                assert(b.drop_last()[i] == b[i]);
            }
        }
    }
    if a.len() == 1 {
        assert(quotes(a.drop_last()) == 0);
    }
}

/// Two slashes outside of quotes begin a comment; within quotes they do not.
#[verifier::spinoff_prover]
pub proof fn law_comments_and_quotes(a: Seq<char>, b: Seq<char>)
    requires
        uncommented(a) == a,
    ensures
        quotes(a) % 2 == 0 && (a.len() == 0 || a.last() != '/') ==> uncommented(
            a.push('/').push('/') + b,
        ) == a,
        quotes(a) % 2 == 1 && (forall|i: int| 0 <= i < b.len() ==> #[trigger] b[i] != '"')
            ==> uncommented(a + b) == a + b,
{
    lemma_comment_from(a, 0);
    if quotes(a) % 2 == 0 && (a.len() == 0 || a.last() != '/') {
        let s = a.push('/').push('/') + b;
        let n = a.len() as int;
        lemma_comment_from(s, 0);
        assert(s.take(n) =~= a);
        assert(is_comment_at(s, n));
        let c = comment_from(s, 0);
        if c < n {
            assert(is_comment_at(s, c));
            assert(s.take(c) =~= a.take(c));
            if c + 1 < n {
                assert(is_comment_at(a, c));
            } else {
                assert(a.last() == s[c]);
            }
        }
    }
    if quotes(a) % 2 == 1 && (forall|i: int| 0 <= i < b.len() ==> #[trigger] b[i] != '"') {
        let s = a + b;
        lemma_comment_from(s, 0);
        let c = comment_from(s, 0);
        if c < s.len() {
            assert(is_comment_at(s, c));
            if c + 1 < a.len() {
                assert(s.take(c) =~= a.take(c));
                assert(is_comment_at(a, c));
            } else if c < a.len() {
                assert(s.take(c) =~= a.drop_last());
                assert(a.last() == '/');
            } else {
                let d = b.take(c - a.len());
                assert(s.take(c) =~= a + d);
                assert forall|i: int| 0 <= i < d.len() implies #[trigger] d[i] != '"' by {
                    assert(d[i] == b[i]);
                }
                law_quotes(a, d);
            }
        }
        assert(s.take(s.len() as int) =~= s);
    }
}

/// A 64-bit number taken as a signed one differs from it by nothing or by 2 to the 64th, and
/// is in the range of signed numbers.
pub proof fn law_taken_as_signed(n: int)
    requires
        0 <= n <= u64::MAX,
    ensures
        i64::MIN <= as_signed(n) <= i64::MAX,
        as_signed(n) == n || as_signed(n) == n - u64::MAX - 1,
        enum_key(digits(n, 16).push('h')) == Some(as_signed(n) as i64),
{
    law_number_forms(n, Seq::empty());
}

} // verus!
