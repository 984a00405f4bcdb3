//! Symbol databases: names for messages and signals in their data.
//!
//! Supported formats:
//!   * Vector DBC, see [`dbc`]
//!   * PEAK PCAN Symbol files (format version 5/6), see [`sym`]
//!
//! All signal start bits use the DBC convention: for Intel (little-endian) signals it is
//! the LSB position, for Motorola (big-endian) signals it is the MSB position in
//! "sawtooth" bit numbering.

use std::collections::HashMap;
use vstd::prelude::*;
use vstd::arithmetic::power2::pow2;
use vstd::utf8::{decode_utf8, valid_utf8};
use crate::msg::{greatest, least, CanMsg, MsgKey};
use crate::number::Real;
use crate::text::{
    chars_of, drop_front, is_text, left_aligned, lower_all, lowered, put, put_left, skip_front,
    starts_text, string_of, utf8_text, Class,
};
use crate::symbols::bits::{extract_bits, power_of_two, raw_value, sign_extend, signed_value};
use crate::symbols::dbc::{dbc_parsed, messages_of, parse_dbc};
use crate::symbols::format::{column_of, opt_view, ValueColumn, ValueFormat, MAX_DECIMALS};
use crate::symbols::sym::{parse_sym, sym_messages};

pub mod bits;
pub mod dbc;
pub mod format;
pub mod sym;

verus! {

/// How the bits of a signal are read.
#[derive(Debug, Clone, Copy, PartialEq, Eq, Structural)]
pub enum SigKind {
    Int,
    Float32,
    Float64,
}

/// The definition of a signal.
#[derive(Debug)]
pub struct SignalDef {
    pub name: String,
    pub start_bit: u32,
    pub size: u32,
    pub little_endian: bool,
    pub signed: bool,
    pub kind: SigKind,
    pub factor: Real,
    pub offset: Real,
    /// The factor as a symbol file gives it, until [`SignalDef::finalize`] sets `factor`.
    pub factor_text: Option<String>,
    /// The offset as a symbol file gives it, until [`SignalDef::finalize`] sets `offset`.
    pub offset_text: Option<String>,
    pub unit: String,
    /// Only decoded when the message's multiplexor equals this value.
    pub mux: Option<u64>,
    pub values: HashMap<i64, String>,
    /// Fixed-width display format, computed by [`SignalDef::finalize`].
    pub fmt: ValueFormat,
}

/// What a signal's definition says.
#[verifier::ext_equal]
pub ghost struct SignalModel {
    pub name: Seq<char>,
    pub start_bit: u32,
    pub size: u32,
    pub little_endian: bool,
    pub signed: bool,
    pub kind: SigKind,
    pub factor: Real,
    pub offset: Real,
    pub factor_text: Option<Seq<char>>,
    pub offset_text: Option<Seq<char>>,
    pub unit: Seq<char>,
    pub mux: Option<u64>,
    pub values: Map<i64, Seq<char>>,
    pub fmt: ValueFormat,
}

/// The contents of a value table.
pub open spec fn table(m: Map<i64, String>) -> Map<i64, Seq<char>> {
    Map::new(|k: i64| m.dom().contains(k), |k: i64| m[k]@)
}

/// The contents of an optional text.
pub open spec fn text_view(t: Option<String>) -> Option<Seq<char>> {
    match t {
        Some(s) => Some(s@),
        None => None,
    }
}

impl View for SignalDef {
    type V = SignalModel;

    open spec fn view(&self) -> SignalModel {
        SignalModel {
            name: self.name@,
            start_bit: self.start_bit,
            size: self.size,
            little_endian: self.little_endian,
            signed: self.signed,
            kind: self.kind,
            factor: self.factor,
            offset: self.offset,
            factor_text: text_view(self.factor_text),
            offset_text: text_view(self.offset_text),
            unit: self.unit@,
            mux: self.mux,
            values: table(self.values@),
            fmt: self.fmt,
        }
    }
}

/// A copy of an optional text.
pub fn copy_text(t: &Option<String>) -> (r: Option<String>)
    ensures
        text_view(r) == text_view(*t),
{
    match t {
        Some(s) => Some(s.clone()),
        None => None,
    }
}

impl Clone for SignalDef {
    fn clone(&self) -> (r: Self)
        ensures
            r@ == self@,
    {
        SignalDef {
            name: self.name.clone(),
            start_bit: self.start_bit,
            size: self.size,
            little_endian: self.little_endian,
            signed: self.signed,
            kind: self.kind,
            factor: self.factor,
            offset: self.offset,
            factor_text: copy_text(&self.factor_text),
            offset_text: copy_text(&self.offset_text),
            unit: self.unit.clone(),
            mux: self.mux,
            values: self.values.clone(),
            fmt: self.fmt,
        }
    }
}

/// The number one.
pub open spec fn one() -> Real {
    Real { bits: 0x3FF0_0000_0000_0000 }
}

/// A signal with nothing but a name and a place: unsigned, unscaled, without unit.
pub open spec fn plain_signal(
    name: Seq<char>,
    start_bit: u32,
    size: u32,
    little_endian: bool,
) -> SignalModel {
    SignalModel {
        name,
        start_bit,
        size,
        little_endian,
        signed: false,
        kind: SigKind::Int,
        factor: one(),
        offset: Real { bits: 0 },
        factor_text: None,
        offset_text: None,
        unit: Seq::empty(),
        mux: None,
        values: Map::empty(),
        fmt: ValueFormat { width: 0, decimals: 0, text_width: 0 },
    }
}

/// The numbers about a signal that take floating point: its scaling, the decimals that
/// the factor and the offset need, and the lengths of the physical values at the ends of
/// [`SignalDef::raw_range`], without sign, with that many decimals.
#[derive(Debug, Clone, Copy)]
pub struct SignalNumbers {
    pub factor: Real,
    pub offset: Real,
    pub factor_decimals: usize,
    pub offset_decimals: usize,
    pub low_len: usize,
    pub high_len: usize,
    /// Whether either end is below zero.
    pub negative: bool,
}

impl SignalNumbers {
    /// The decimals are within bounds, as those from [`format::decimals_for`] are.
    pub open spec fn wf(self) -> bool {
        self.factor_decimals <= MAX_DECIMALS && self.offset_decimals <= MAX_DECIMALS
    }

    /// Decimals that the signal is shown with.
    pub open spec fn decimals_spec(self) -> int {
        greatest(self.factor_decimals as int, self.offset_decimals as int)
    }

    /// Decimals that the signal is shown with.
    pub fn decimals(&self) -> (r: usize)
        ensures
            r == self.decimals_spec(),
    {
        if self.factor_decimals > self.offset_decimals {
            self.factor_decimals
        } else {
            self.offset_decimals
        }
    }
}

/// Whether `w` is the length of the longest text in a table (0 for an empty one).
pub open spec fn is_widest(values: Map<i64, Seq<char>>, w: int) -> bool {
    &&& forall|k: i64| #[trigger] values.dom().contains(k) ==> values[k].len() <= w
    &&& w == 0 || exists|k: i64| #[trigger] values.dom().contains(k) && values[k].len() == w
    &&& w >= 0
}

/// The length of the longest text in a table.
pub open spec fn widest(values: Map<i64, Seq<char>>) -> int {
    choose|w: int| is_widest(values, w)
}

pub proof fn lemma_widest(values: Map<i64, Seq<char>>, w: int)
    requires
        is_widest(values, w),
    ensures
        widest(values) == w,
{
    let v = widest(values);
    assert(is_widest(values, v));
    if v != 0 {
        let k = choose|k: i64| #[trigger] values.dom().contains(k) && values[k].len() == v;
        assert(values.dom().contains(k));
    }
    if w != 0 {
        let k = choose|k: i64| #[trigger] values.dom().contains(k) && values[k].len() == w;
        assert(values.dom().contains(k));
    }
}

fn longest_text(values: &HashMap<i64, String>) -> (r: usize)
    ensures
        r == widest(table(values@)),
        is_widest(table(values@), r as int),
{
    broadcast use vstd::std_specs::hash::group_hash_axioms;

    let ghost t = table(values@);
    let mut w: usize = 0;
    for s in it: values.values()
        invariant
            it.seq().unref().to_set() == values@.values(),
            forall|i: int| 0 <= i < it.index() ==> it.seq().unref()[i]@.len() <= w,
            w == 0 || exists|i: int| 0 <= i < it.index() && #[trigger] it.seq().unref()[i]@.len() == w,
    {
        let ghost prev = w;
        let n: usize = chars_of(s.as_str()).len();
        if n > w {
            w = n;
        }
        proof {
            let q = it.seq().unref();
            assert(q[it.index()]@.len() == n);
            if prev != 0 && w == prev {
                let i = choose|i: int| 0 <= i < it.index() && #[trigger] q[i]@.len() == prev;
                assert(q[i]@.len() == w);
            }
        }
    }
    proof {
        let q = vstd::std_specs::iter::IteratorSpec::remaining(
            &vstd::std_specs::hash::spec_values_iter(values),
        ).unref();
        assert forall|k: i64| #[trigger] t.dom().contains(k) implies t[k].len() <= w by {
            assert(values@.dom().contains(k));
            assert(values@.values().contains(values@[k]));
            assert(q.to_set().contains(values@[k]));
            let i = choose|i: int| 0 <= i < q.len() && q[i] == values@[k];
            assert(q[i]@.len() <= w);
        }
        if w != 0 {
            let i = choose|i: int| 0 <= i < q.len() && #[trigger] q[i]@.len() == w;
            assert(q.to_set().contains(q[i]));
            assert(values@.values().contains(q[i]));
            let k = choose|k: i64| #[trigger] values@.dom().contains(k) && values@[k] == q[i];
            assert(t.dom().contains(k) && t[k].len() == w);
        }
        assert(is_widest(t, w as int));
        lemma_widest(t, w as int);
    }
    w
}

/// The display format of a signal.
pub open spec fn format_of(s: SignalModel, n: SignalNumbers) -> ValueFormat {
    if s.kind != SigKind::Int {
        ValueFormat { width: 14, decimals: MAX_DECIMALS, text_width: widest(s.values) as usize }
    } else {
        ValueFormat {
            width: least(
                greatest(n.low_len as int, n.high_len as int) + if n.negative {
                    1int
                } else {
                    0int
                },
                24,
            ) as usize,
            decimals: n.decimals_spec() as usize,
            text_width: widest(s.values) as usize,
        }
    }
}

impl ValueFormat {
    /// The format of a signal: IEEE floats get a generous fixed width, other signals one
    /// that fits the wider end of their range.
    pub fn for_signal(sig: &SignalDef, n: &SignalNumbers) -> (r: Self)
        ensures
            r == format_of(sig@, *n),
            is_widest(sig@.values, r.text_width as int),
    {
        let text_width: usize = longest_text(&sig.values);
        if sig.kind != SigKind::Int {
            return ValueFormat { width: 14, decimals: MAX_DECIMALS, text_width };
        }
        let longer: usize = if n.low_len > n.high_len {
            n.low_len
        } else {
            n.high_len
        };
        let width: usize = if longer >= 24 {
            24
        } else if n.negative {
            longer + 1
        } else {
            longer
        };
        ValueFormat { width, decimals: n.decimals(), text_width }
    }
}

/// A signal's value before scaling.
#[derive(Debug, Clone, Copy, PartialEq, Eq, Structural)]
pub enum Number {
    Signed(i64),
    Unsigned(u64),
    /// The bits of a single-precision number.
    Float32(u32),
    /// The bits of a double-precision number.
    Float64(u64),
}

/// A decoded signal. Its physical value is `number * factor + offset`.
#[derive(Debug)]
pub struct DecodedSignal {
    pub name: String,
    pub raw: u64,
    pub number: Number,
    pub factor: Real,
    pub offset: Real,
    pub unit: String,
    pub text: Option<String>,
    pub fmt: ValueFormat,
}

/// What a decoded signal says.
#[verifier::ext_equal]
pub ghost struct DecodedModel {
    pub name: Seq<char>,
    pub raw: u64,
    pub number: Number,
    pub factor: Real,
    pub offset: Real,
    pub unit: Seq<char>,
    pub text: Option<Seq<char>>,
    pub fmt: ValueFormat,
}

impl View for DecodedSignal {
    type V = DecodedModel;

    open spec fn view(&self) -> DecodedModel {
        DecodedModel {
            name: self.name@,
            raw: self.raw,
            number: self.number,
            factor: self.factor,
            offset: self.offset,
            unit: self.unit@,
            text: text_view(self.text),
            fmt: self.fmt,
        }
    }
}

impl SignalModel {
    /// The raw bits of the signal.
    pub open spec fn raw(self, data: Seq<u8>) -> Option<int> {
        raw_value(data, self.start_bit as int, self.size as int, self.little_endian)
    }

    /// The integer that looks up the value table: none for floats.
    pub open spec fn integer(self, raw: u64) -> Option<int> {
        if self.kind == SigKind::Float32 && self.size == 32 {
            None
        } else if self.kind == SigKind::Float64 && self.size == 64 {
            None
        } else if self.signed {
            Some(signed_value(raw as int, self.size as nat))
        } else {
            Some(signed_value(raw as int, 64))
        }
    }

    /// The value before scaling.
    pub open spec fn number(self, raw: u64) -> Number {
        if self.kind == SigKind::Float32 && self.size == 32 {
            Number::Float32(raw as u32)
        } else if self.kind == SigKind::Float64 && self.size == 64 {
            Number::Float64(raw)
        } else if self.signed {
            Number::Signed(signed_value(raw as int, self.size as nat) as i64)
        } else {
            Number::Unsigned(raw)
        }
    }

    /// The value-table entry.
    pub open spec fn text(self, raw: u64) -> Option<Seq<char>> {
        match self.integer(raw) {
            Some(v) => if self.values.dom().contains(v as i64) {
                Some(self.values[v as i64])
            } else {
                None
            },
            None => None,
        }
    }

    /// The decoded signal, where its bits lie in the data.
    pub open spec fn decoded(self, data: Seq<u8>) -> Option<DecodedModel> {
        match self.raw(data) {
            None => None,
            Some(raw) => Some(
                DecodedModel {
                    name: self.name,
                    raw: raw as u64,
                    number: self.number(raw as u64),
                    factor: self.factor,
                    offset: self.offset,
                    unit: self.unit,
                    text: self.text(raw as u64),
                    fmt: self.fmt,
                },
            ),
        }
    }

    /// Whether the format leaves room for every text of the value table.
    pub open spec fn text_fits(self) -> bool {
        forall|k: i64| #[trigger]
            self.values.dom().contains(k) ==> self.values[k].len() <= self.fmt.text_width
    }

    /// The definition once its numbers are known.
    pub open spec fn finalized(self, n: SignalNumbers) -> SignalModel {
        SignalModel { factor: n.factor, offset: n.offset, fmt: format_of(self, n), ..self }
    }
}

impl SignalDef {
    /// A signal with nothing but a name and a place.
    pub fn plain(name: String, start_bit: u32, size: u32, little_endian: bool) -> (r: Self)
        ensures
            r@ == plain_signal(name@, start_bit, size, little_endian),
    {
        broadcast use vstd::std_specs::hash::group_hash_axioms;

        let values: HashMap<i64, String> = HashMap::new();
        assert(table(values@) =~= Map::<i64, Seq<char>>::empty());
        SignalDef {
            name,
            start_bit,
            size,
            little_endian,
            signed: false,
            kind: SigKind::Int,
            factor: Real { bits: 0x3FF0_0000_0000_0000 },
            offset: Real { bits: 0 },
            factor_text: None,
            offset_text: None,
            unit: String::new(),
            mux: None,
            values,
            fmt: ValueFormat { width: 0, decimals: 0, text_width: 0 },
        }
    }

    /// Sets the scaling and the display format once all numbers are known.
    pub fn finalize(&mut self, n: &SignalNumbers)
        ensures
            final(self)@ == old(self)@.finalized(*n),
            final(self)@.text_fits(),
    {
        let fmt = ValueFormat::for_signal(self, n);
        self.factor = n.factor;
        self.offset = n.offset;
        self.fmt = fmt;
    }

    /// Smallest and largest number that the signal's bits can hold.
    pub fn raw_range(&self) -> (r: (i128, i128))
        ensures
            ({
                let bits = least(greatest(self.size as int, 1), 64) as nat;
                if self.signed {
                    &&& r.0 == -(pow2((bits - 1) as nat) as int)
                    &&& r.1 == pow2((bits - 1) as nat) - 1
                } else {
                    &&& r.0 == 0
                    &&& r.1 == pow2(bits) - 1
                }
            }),
            ({
                let bits = if self.size < 1 {
                    1nat
                } else if self.size > 64 {
                    64nat
                } else {
                    self.size as nat
                };
                number_range(self.signed, bits) == (r.0 as int, r.1 as int)
            }),
    {
        let bits: u32 = if self.size < 1 {
            1
        } else if self.size > 64 {
            64
        } else {
            self.size
        };
        if self.signed {
            let p: i128 = power_of_two(bits - 1) as i128;
            (-p, p - 1)
        } else {
            let p: i128 = power_of_two(bits) as i128;
            (0, p - 1)
        }
    }

    /// Extracts the raw (un-scaled) integer bits of this signal.
    pub fn raw(&self, data: &[u8]) -> (r: Option<u64>)
        ensures
            match r {
                Some(v) => self@.raw(data@) == Some(v as int),
                None => self@.raw(data@) is None,
            },
    {
        extract_bits(data, self.start_bit, self.size, self.little_endian)
    }

    /// Decodes the signal; `None` when its bits do not lie in the data.
    pub fn decode(&self, data: &[u8]) -> (r: Option<DecodedSignal>)
        ensures
            match r {
                Some(d) => self@.decoded(data@) == Some(d@),
                None => self@.decoded(data@) is None,
            },
    {
        broadcast use vstd::std_specs::hash::group_hash_axioms;

        let raw: u64 = match self.raw(data) {
            Some(v) => v,
            None => {
                return None;
            },
        };
        let mut key: Option<i64> = None;
        let number: Number;
        if self.kind == SigKind::Float32 && self.size == 32 {
            number = Number::Float32(raw as u32);
        } else if self.kind == SigKind::Float64 && self.size == 64 {
            number = Number::Float64(raw);
        } else if self.signed {
            let v: i64 = sign_extend(raw, self.size);
            number = Number::Signed(v);
            key = Some(v);
        } else {
            number = Number::Unsigned(raw);
            key = Some(sign_extend(raw, 64));
        }
        let mut text: Option<String> = None;
        match key {
            Some(v) => {
                match self.values.get(&v) {
                    Some(t) => {
                        text = Some(t.clone());
                    },
                    None => {},
                }
            },
            None => {},
        }
        let r = DecodedSignal {
            name: self.name.clone(),
            raw,
            number,
            factor: self.factor,
            offset: self.offset,
            unit: self.unit.clone(),
            text,
            fmt: self.fmt,
        };
        assert(self@.text(raw) == text_view(r.text));
        Some(r)
    }
}

impl Clone for DecodedSignal {
    fn clone(&self) -> (r: Self)
        ensures
            r@ == self@,
    {
        DecodedSignal {
            name: self.name.clone(),
            raw: self.raw,
            number: self.number,
            factor: self.factor,
            offset: self.offset,
            unit: self.unit.clone(),
            text: copy_text(&self.text),
            fmt: self.fmt,
        }
    }
}

impl DecodedSignal {
    /// Fixed-width value (plus value-table text, if any), e.g. `  5354.00`; `digits` is
    /// the physical value with the format's decimals.
    pub fn display_value(&self, digits: &str) -> (r: String)
        ensures
            r@ == self.fmt.value_text(digits@, text_view(self.text)),
    {
        match &self.text {
            Some(t) => self.fmt.value(digits, Some(t.as_str())),
            None => self.fmt.value(digits, None),
        }
    }
}

/// The contents of strings.
pub open spec fn string_views(v: Seq<String>) -> Seq<Seq<char>> {
    Seq::new(v.len(), |i: int| v[i]@)
}

/// The contents of decoded signals.
pub open spec fn decoded_views(v: Seq<DecodedSignal>) -> Seq<DecodedModel> {
    Seq::new(v.len(), |i: int| v[i]@)
}

/// A space and the unit, where there is one.
pub open spec fn unit_part(unit: Seq<char>) -> Seq<char> {
    if unit.len() > 0 {
        seq![' '] + unit
    } else {
        Seq::empty()
    }
}

/// Name, value and unit of a signal on one line.
pub open spec fn compact_signal(d: DecodedModel, digits: Seq<char>) -> Seq<char> {
    d.name + seq![' '] + d.fmt.value_text(digits, d.text) + unit_part(d.unit)
}

/// Signals on one line.
pub open spec fn compact(sigs: Seq<DecodedModel>, digits: Seq<Seq<char>>) -> Seq<char>
    decreases sigs.len(),
{
    if sigs.len() == 0 {
        Seq::empty()
    } else {
        let n = sigs.len() - 1;
        compact(sigs.drop_last(), digits) + (if n > 0 {
            " | "@
        } else {
            Seq::empty()
        }) + compact_signal(sigs.last(), digits[n])
    }
}

/// One-line summary with fixed-width values: `RPM  5354.00 rpm | CoolantTemp  89 degC`.
/// `digits` holds the physical value of each signal with its format's decimals.
pub fn format_compact(sigs: &Vec<DecodedSignal>, digits: &Vec<String>) -> (r: String)
    requires
        digits@.len() == sigs@.len(),
    ensures
        r@ == compact(decoded_views(sigs@), string_views(digits@)),
{
    let mut out: Vec<char> = Vec::new();
    let mut i: usize = 0;
    let ghost all = decoded_views(sigs@);
    let ghost dg = string_views(digits@);
    while i < sigs.len()
        invariant
            i <= sigs@.len(),
            digits@.len() == sigs@.len(),
            all == decoded_views(sigs@),
            dg == string_views(digits@),
            out@ == compact(all.take(i as int), dg),
        decreases sigs@.len() - i,
    {
        let ghost before = out@;
        let s = &sigs[i];
        if i > 0 {
            put(&mut out, " | ");
        }
        put(&mut out, s.name.as_str());
        out.push(' ');
        let v = s.display_value(digits[i].as_str());
        put(&mut out, v.as_str());
        let unit = chars_of(s.unit.as_str());
        if unit.len() > 0 {
            out.push(' ');
            put(&mut out, s.unit.as_str());
        }
        proof {
            let t = all.take(i + 1);
            assert(t.drop_last() =~= all.take(i as int));
            assert(t.last() == s@);
            assert(dg[i as int] == digits@[i as int]@);
            let sep = if i > 0 {
                " | "@
            } else {
                Seq::empty()
            };
            assert(out@ =~= before + sep + compact_signal(s@, digits@[i as int]@));
        }
        i = i + 1;
    }
    assert(all.take(i as int) =~= all);
    string_of(out.as_slice())
}

/// The definition of a message.
#[derive(Debug)]
pub struct MessageDef {
    pub name: String,
    pub key: MsgKey,
    pub dlc: u8,
    pub mux: Option<SignalDef>,
    /// In symbol files each multiplexed variant has its own block name.
    pub mux_names: HashMap<u64, String>,
    pub signals: Vec<SignalDef>,
    pub comment: Option<String>,
    /// Most signals decoded at once (for multiplexed messages: across all
    /// multiplexor values). Views reserve this many lines so the height of a
    /// message never changes.
    pub max_lines: usize,
    /// Longest signal name, for aligning values into a column.
    pub name_width: usize,
    /// Shared value layout for all of this message's signals.
    pub value_column: ValueColumn,
}

/// What a message's definition says.
#[verifier::ext_equal]
pub ghost struct MessageModel {
    pub name: Seq<char>,
    pub key: MsgKey,
    pub dlc: u8,
    pub mux: Option<SignalModel>,
    pub mux_names: Map<u64, Seq<char>>,
    pub signals: Seq<SignalModel>,
    pub comment: Option<Seq<char>>,
    pub max_lines: int,
    pub name_width: int,
    pub value_column: ValueColumn,
}

/// The contents of a table of names.
pub open spec fn names(m: Map<u64, String>) -> Map<u64, Seq<char>> {
    Map::new(|k: u64| m.dom().contains(k), |k: u64| m[k]@)
}

/// The contents of signal definitions.
pub open spec fn signal_views(v: Seq<SignalDef>) -> Seq<SignalModel> {
    Seq::new(v.len(), |i: int| v[i]@)
}

/// The contents of an optional signal definition.
pub open spec fn signal_view(s: Option<SignalDef>) -> Option<SignalModel> {
    match s {
        Some(s) => Some(s@),
        None => None,
    }
}

impl View for MessageDef {
    type V = MessageModel;

    open spec fn view(&self) -> MessageModel {
        MessageModel {
            name: self.name@,
            key: self.key,
            dlc: self.dlc,
            mux: signal_view(self.mux),
            mux_names: names(self.mux_names@),
            signals: signal_views(self.signals@),
            comment: text_view(self.comment),
            max_lines: self.max_lines as int,
            name_width: self.name_width as int,
            value_column: self.value_column,
        }
    }
}

/// A copy of signal definitions.
pub fn copy_signals(v: &Vec<SignalDef>) -> (r: Vec<SignalDef>)
    ensures
        signal_views(r@) == signal_views(v@),
{
    let mut out: Vec<SignalDef> = Vec::new();
    let mut i: usize = 0;
    while i < v.len()
        invariant
            i <= v@.len(),
            signal_views(out@) == signal_views(v@).take(i as int),
        decreases v@.len() - i,
    {
        let ghost before = signal_views(out@);
        let s = v[i].clone();
        out.push(s);
        i = i + 1;
        assert(signal_views(out@) =~= before.push(s@));
        assert(signal_views(out@) =~= signal_views(v@).take(i as int));
    }
    assert(signal_views(out@) =~= signal_views(v@));
    out
}

impl Clone for MessageDef {
    fn clone(&self) -> (r: Self)
        ensures
            r@ == self@,
    {
        MessageDef {
            name: self.name.clone(),
            key: self.key,
            dlc: self.dlc,
            mux: match &self.mux {
                Some(m) => Some(m.clone()),
                None => None,
            },
            mux_names: self.mux_names.clone(),
            signals: copy_signals(&self.signals),
            comment: copy_text(&self.comment),
            max_lines: self.max_lines,
            name_width: self.name_width,
            value_column: self.value_column,
        }
    }
}

/// Whether a signal is there when the multiplexor has the given value.
pub open spec fn is_active(s: SignalModel, mux: Option<u64>) -> bool {
    s.mux is None || s.mux == mux
}

/// The signals that are there when the multiplexor has the given value, decoded.
pub open spec fn active_decoded(
    signals: Seq<SignalModel>,
    mux: Option<u64>,
    data: Seq<u8>,
) -> Seq<DecodedModel>
    decreases signals.len(),
{
    if signals.len() == 0 {
        Seq::empty()
    } else {
        let before = active_decoded(signals.drop_last(), mux, data);
        match signals.last().decoded(data) {
            Some(d) => if is_active(signals.last(), mux) {
                before.push(d)
            } else {
                before
            },
            None => before,
        }
    }
}

/// How many signals are there when the multiplexor has the given value.
pub open spec fn count_active(signals: Seq<SignalModel>, mux: Option<u64>) -> int
    decreases signals.len(),
{
    if signals.len() == 0 {
        0
    } else {
        count_active(signals.drop_last(), mux) + if is_active(signals.last(), mux) {
            1int
        } else {
            0int
        }
    }
}

/// The most signals that are there at once, over no multiplexor value and those of `some`.
pub open spec fn most_active(signals: Seq<SignalModel>, some: Seq<SignalModel>) -> int
    decreases some.len(),
{
    if some.len() == 0 {
        count_active(signals, None)
    } else {
        greatest(most_active(signals, some.drop_last()), count_active(signals, some.last().mux))
    }
}

/// Length of the longest name.
pub open spec fn longest_name(signals: Seq<SignalModel>) -> int
    decreases signals.len(),
{
    if signals.len() == 0 {
        0
    } else {
        greatest(longest_name(signals.drop_last()), signals.last().name.len() as int)
    }
}

/// The signals with their numbers.
pub open spec fn finalized_signals(
    signals: Seq<SignalModel>,
    n: Seq<SignalNumbers>,
) -> Seq<SignalModel> {
    Seq::new(signals.len(), |i: int| signals[i].finalized(n[i]))
}

/// Whether `after` is the message `before` with the given numbers of its signals: scaling,
/// formats and layout are set and all else is kept.
pub open spec fn is_finalized(
    before: MessageModel,
    numbers: Seq<SignalNumbers>,
    after: MessageModel,
) -> bool {
    &&& after.all_signals() == finalized_signals(before.all_signals(), numbers)
    &&& after.mux is Some == before.mux is Some
    &&& after.laid_out()
    &&& after.texts_fit()
    &&& after == MessageModel {
        mux: after.mux,
        signals: after.signals,
        max_lines: after.max_lines,
        name_width: after.name_width,
        value_column: after.value_column,
        ..before
    }
}

/// The display formats of signals.
pub open spec fn formats(signals: Seq<SignalModel>) -> Seq<ValueFormat> {
    Seq::new(signals.len(), |i: int| signals[i].fmt)
}

impl MessageModel {
    /// The multiplexor and the other signals.
    pub open spec fn all_signals(self) -> Seq<SignalModel> {
        match self.mux {
            Some(m) => seq![m] + self.signals,
            None => self.signals,
        }
    }

    /// The value of the multiplexor.
    pub open spec fn mux_value(self, data: Seq<u8>) -> Option<u64> {
        match self.mux {
            Some(m) => match m.raw(data) {
                Some(v) => Some(v as u64),
                None => None,
            },
            None => None,
        }
    }

    /// The decoded multiplexor, as a sequence.
    pub open spec fn mux_decoded(self, data: Seq<u8>) -> Seq<DecodedModel> {
        match self.mux {
            Some(m) => match m.decoded(data) {
                Some(d) => seq![d],
                None => Seq::empty(),
            },
            None => Seq::empty(),
        }
    }

    /// The decoded signals: the multiplexor, then those that its value selects.
    pub open spec fn decoded(self, data: Seq<u8>) -> Seq<DecodedModel> {
        self.mux_decoded(data) + active_decoded(self.signals, self.mux_value(data), data)
    }

    /// Signals that are there when the multiplexor has the given value, itself included.
    pub open spec fn lines_for(self, mux: Option<u64>) -> int {
        count_active(self.signals, mux) + if self.mux is Some {
            1int
        } else {
            0int
        }
    }

    /// Whether `n` is the most signals that are there at once.
    pub open spec fn is_most_lines(self, n: int) -> bool {
        &&& forall|v: Option<u64>| #[trigger] self.lines_for(v) <= n
        &&& exists|v: Option<u64>| #[trigger] self.lines_for(v) == n
    }

    /// The most signals that are there at once, the multiplexor included.
    pub open spec fn most_lines(self) -> int {
        most_active(self.signals, self.signals) + if self.mux is Some {
            1int
        } else {
            0int
        }
    }

    /// The message with its number of lines and the width of its names; both follow from
    /// the signals alone.
    pub open spec fn arranged(self) -> MessageModel {
        MessageModel {
            max_lines: self.most_lines(),
            name_width: longest_name(self.all_signals()),
            ..self
        }
    }

    /// Whether the layout is the one that the signals ask for.
    pub open spec fn laid_out(self) -> bool {
        &&& self.is_most_lines(self.max_lines)
        &&& self.name_width == longest_name(self.all_signals())
        &&& self.value_column.widths() == column_of(formats(self.all_signals()))
    }

    /// Whether every signal's format leaves room for its value table.
    pub open spec fn texts_fit(self) -> bool {
        forall|k: int| 0 <= k < self.all_signals().len() ==> (#[trigger] self.all_signals()[k]).text_fits()
    }

    /// The name for a frame: that of the multiplexed variant, where there is one.
    pub open spec fn name_spec(self, data: Seq<u8>) -> Seq<char> {
        match self.mux_value(data) {
            Some(v) => if self.mux_names.dom().contains(v) {
                self.mux_names[v]
            } else {
                self.name
            },
            None => self.name,
        }
    }

    /// One line of the layout.
    pub open spec fn line(self, d: DecodedModel, digits: Seq<char>) -> Seq<char> {
        left_aligned(d.name, self.name_width) + seq![' ', ' '] + self.value_column.rendered(
            digits,
            d.text,
        ) + unit_part(d.unit)
    }

    /// The lines of the layout: one per decoded signal, then empty ones.
    pub open spec fn lines(self, data: Seq<u8>, digits: Seq<Seq<char>>) -> Seq<Seq<char>> {
        let d = self.decoded(data);
        Seq::new(
            greatest(self.max_lines, d.len() as int) as nat,
            |i: int|
                if i < d.len() {
                    self.line(d[i], digits[i])
                } else {
                    Seq::empty()
                },
        )
    }
}

proof fn lemma_active_bound(signals: Seq<SignalModel>, mux: Option<u64>, data: Seq<u8>)
    ensures
        active_decoded(signals, mux, data).len() <= count_active(signals, mux),
    decreases signals.len(),
{
    if signals.len() > 0 {
        lemma_active_bound(signals.drop_last(), mux, data);
    }
}

proof fn lemma_most_active(signals: Seq<SignalModel>, some: Seq<SignalModel>)
    ensures
        count_active(signals, None) <= most_active(signals, some),
        forall|k: int|
            0 <= k < some.len() ==> count_active(signals, (#[trigger] some[k]).mux) <= most_active(
                signals,
                some,
            ),
        exists|v: Option<u64>| #[trigger] count_active(signals, v) == most_active(signals, some),
    decreases some.len(),
{
    if some.len() == 0 {
        assert(count_active(signals, None) == most_active(signals, some));
    } else {
        let t = some.drop_last();
        lemma_most_active(signals, t);
        assert forall|k: int| 0 <= k < some.len() implies count_active(
            signals,
            (#[trigger] some[k]).mux,
        ) <= most_active(signals, some) by {
            if k < t.len() {
                assert(t[k] == some[k]);
            }
        }
        let v = choose|v: Option<u64>| #[trigger] count_active(signals, v) == most_active(signals, t);
        if count_active(signals, v) != most_active(signals, some) {
            assert(count_active(signals, some.last().mux) == most_active(signals, some));
        }
    }
}

/// The number of lines of an arranged message is the most signals that any value of the
/// multiplexor shows, and its names are as wide as the longest of them.
pub proof fn law_arranged_lines(m: MessageModel)
    ensures
        m.arranged().is_most_lines(m.arranged().max_lines),
        forall|k: int|
            0 <= k < m.all_signals().len() ==> (#[trigger] m.all_signals()[k]).name.len()
                <= m.arranged().name_width,
        m.arranged().arranged() == m.arranged(),
{
    let all = m.signals;
    let a = m.arranged();
    lemma_most_active(all, all);
    let w = choose|v: Option<u64>| #[trigger] count_active(all, v) == most_active(all, all);
    assert(a.lines_for(w) == a.max_lines);
    assert forall|v: Option<u64>| #[trigger] a.lines_for(v) <= a.max_lines by {
        match v {
            None => {},
            Some(x) => {
                lemma_count_none(all, x);
                if exists|k: int| 0 <= k < all.len() && (#[trigger] all[k]).mux == Some(x) {
                    let k = choose|k: int| 0 <= k < all.len() && (#[trigger] all[k]).mux == Some(x);
                    assert(count_active(all, all[k].mux) <= most_active(all, all));
                }
            },
        }
    }
    assert forall|k: int| 0 <= k < m.all_signals().len() implies (#[trigger] m.all_signals()[k]).name.len()
        <= a.name_width by {
        lemma_longest_name(m.all_signals(), k);
    }
}

/// A message shows the same number of lines whatever data it has.
pub proof fn law_line_count(m: MessageModel, data: Seq<u8>, digits: Seq<Seq<char>>)
    requires
        m.laid_out(),
    ensures
        m.decoded(data).len() <= m.max_lines,
        m.lines(data, digits).len() == m.max_lines,
{
    lemma_active_bound(m.signals, m.mux_value(data), data);
    assert(m.lines_for(m.mux_value(data)) <= m.max_lines);
}

proof fn lemma_longest_name(signals: Seq<SignalModel>, k: int)
    requires
        0 <= k < signals.len(),
    ensures
        signals[k].name.len() <= longest_name(signals),
    decreases signals.len(),
{
    if k < signals.len() - 1 {
        lemma_longest_name(signals.drop_last(), k);
        assert(signals.drop_last()[k] == signals[k]);
    }
}

proof fn lemma_active_origin(signals: Seq<SignalModel>, mux: Option<u64>, data: Seq<u8>, i: int)
    requires
        0 <= i < active_decoded(signals, mux, data).len(),
    ensures
        exists|k: int|
            0 <= k < signals.len() && Some(active_decoded(signals, mux, data)[i])
                == #[trigger] signals[k].decoded(data),
    decreases signals.len(),
{
    let before = active_decoded(signals.drop_last(), mux, data);
    if i < before.len() {
        lemma_active_origin(signals.drop_last(), mux, data, i);
        let k = choose|k: int|
            0 <= k < signals.drop_last().len() && Some(before[i])
                == #[trigger] signals.drop_last()[k].decoded(data);
        assert(signals.drop_last()[k] == signals[k]);
        assert(Some(active_decoded(signals, mux, data)[i]) == signals[k].decoded(data));
    } else {
        let n = signals.len() - 1;
        assert(signals[n] == signals.last());
        assert(Some(active_decoded(signals, mux, data)[i]) == signals[n].decoded(data));
    }
}

/// Every decoded signal comes from one of the message's signals.
pub proof fn lemma_decoded_origin(m: MessageModel, data: Seq<u8>, i: int)
    requires
        0 <= i < m.decoded(data).len(),
    ensures
        exists|k: int|
            0 <= k < m.all_signals().len() && Some(m.decoded(data)[i])
                == #[trigger] m.all_signals()[k].decoded(data),
{
    let head = m.mux_decoded(data);
    if i < head.len() {
        assert(m.all_signals()[0] == m.mux->0);
        assert(Some(m.decoded(data)[i]) == m.all_signals()[0].decoded(data));
    } else {
        let mv = m.mux_value(data);
        lemma_active_origin(m.signals, mv, data, i - head.len());
        let k = choose|k: int|
            0 <= k < m.signals.len() && Some(active_decoded(m.signals, mv, data)[i - head.len()])
                == #[trigger] m.signals[k].decoded(data);
        let o = if m.mux is Some {
            1int
        } else {
            0int
        };
        assert(m.all_signals()[k + o] == m.signals[k]);
        assert(Some(m.decoded(data)[i]) == m.all_signals()[k + o].decoded(data));
    }
}

/// Units start in the same column on every line whose number fits its column.
pub proof fn law_units_line_up(m: MessageModel, data: Seq<u8>, digits: Seq<Seq<char>>, i: int)
    requires
        m.laid_out(),
        m.texts_fit(),
        0 <= i < m.decoded(data).len(),
        m.value_column.holds_digits(digits[i]),
    ensures
        m.lines(data, digits)[i].skip(m.name_width + 2 + m.value_column.total_width()) == unit_part(
            m.decoded(data)[i].unit,
        ),
{
    let d = m.decoded(data)[i];
    lemma_decoded_origin(m, data, i);
    let k = choose|k: int|
        0 <= k < m.all_signals().len() && Some(d) == #[trigger] m.all_signals()[k].decoded(data);
    let s = m.all_signals()[k];
    lemma_longest_name(m.all_signals(), k);
    assert(d.name == s.name);
    crate::symbols::format::law_column_fits(formats(m.all_signals()), k);
    if let Some(t) = d.text {
        let raw = s.raw(data)->Some_0 as u64;
        let v = s.integer(raw)->Some_0 as i64;
        assert(s.values.dom().contains(v) && t == s.values[v]);
    }
    crate::symbols::format::law_rendered_width(m.value_column, digits[i], d.text);
    law_line_count(m, data, digits);
    let w = m.name_width + 2 + m.value_column.total_width();
    let front = left_aligned(d.name, m.name_width) + seq![' ', ' '] + m.value_column.rendered(
        digits[i],
        d.text,
    );
    assert(front.len() == w);
    assert(m.line(d, digits[i]) =~= front + unit_part(d.unit));
    assert((front + unit_part(d.unit)).skip(w) =~= unit_part(d.unit));
}

proof fn lemma_count_none(signals: Seq<SignalModel>, v: u64)
    ensures
        0 <= count_active(signals, None) <= count_active(signals, Some(v)) <= signals.len(),
        (forall|i: int| 0 <= i < signals.len() ==> (#[trigger] signals[i]).mux != Some(v))
            ==> count_active(signals, Some(v)) == count_active(signals, None),
    decreases signals.len(),
{
    if signals.len() > 0 {
        let t = signals.drop_last();
        lemma_count_none(t, v);
        if forall|i: int| 0 <= i < signals.len() ==> (#[trigger] signals[i]).mux != Some(v) {
            assert forall|i: int| 0 <= i < t.len() implies (#[trigger] t[i]).mux != Some(v) by {
                assert(t[i] == signals[i]);
            }
            assert(signals[signals.len() - 1].mux != Some(v));
        }
    }
}

fn count(signals: &Vec<SignalDef>, mux: Option<u64>) -> (r: usize)
    ensures
        r == count_active(signal_views(signals@), mux),
        r <= signals@.len(),
{
    let mut n: usize = 0;
    let mut i: usize = 0;
    let ghost all = signal_views(signals@);
    while i < signals.len()
        invariant
            i <= signals@.len(),
            all == signal_views(signals@),
            n <= i,
            n == count_active(all.take(i as int), mux),
        decreases signals@.len() - i,
    {
        assert(all.take(i + 1).drop_last() =~= all.take(i as int));
        assert(all.take(i + 1).last() == signals@[i as int]@);
        let active = match (signals[i].mux, mux) {
            (None, _) => true,
            (Some(a), Some(b)) => a == b,
            (Some(_), None) => false,
        };
        if active {
            n = n + 1;
        }
        i = i + 1;
    }
    assert(all.take(i as int) =~= all);
    n
}

impl MessageDef {
    /// Decodes the multiplexor and the signals that its value selects.
    pub fn decode(&self, data: &[u8]) -> (r: Vec<DecodedSignal>)
        ensures
            decoded_views(r@) == self@.decoded(data@),
    {
        let mut out: Vec<DecodedSignal> = Vec::new();
        let mut mux: Option<u64> = None;
        match &self.mux {
            Some(m) => {
                mux = m.raw(data);
                match m.decode(data) {
                    Some(d) => {
                        out.push(d);
                    },
                    None => {},
                }
            },
            None => {},
        }
        let ghost head = self@.mux_decoded(data@);
        let ghost all = signal_views(self.signals@);
        let mut i: usize = 0;
        assert(mux == self@.mux_value(data@));
        assert(decoded_views(out@) =~= head);
        assert(decoded_views(out@) =~= head + active_decoded(all.take(0), mux, data@));
        while i < self.signals.len()
            invariant
                i <= self.signals@.len(),
                all == signal_views(self.signals@),
                decoded_views(out@) == head + active_decoded(all.take(i as int), mux, data@),
            decreases self.signals@.len() - i,
        {
            let ghost before = decoded_views(out@);
            let s = &self.signals[i];
            proof {
                assert(all.take(i + 1).drop_last() =~= all.take(i as int));
                assert(all.take(i + 1).last() == s@);
            }
            let active = match (s.mux, mux) {
                (None, _) => true,
                (Some(a), Some(b)) => a == b,
                (Some(_), None) => false,
            };
            if active {
                match s.decode(data) {
                    Some(d) => {
                        out.push(d);
                        assert(decoded_views(out@) =~= before.push(d@));
                        assert(decoded_views(out@) =~= head + active_decoded(
                            all.take(i + 1),
                            mux,
                            data@,
                        ));
                    },
                    None => {},
                }
            }
            i = i + 1;
        }
        assert(all.take(i as int) =~= all);
        out
    }

    /// The number of a message's signals, the multiplexor included.
    pub open spec fn signal_count(self) -> int {
        self.signals@.len() + if self.mux is Some {
            1int
        } else {
            0int
        }
    }

    fn finalize_signals(&mut self, numbers: &Vec<SignalNumbers>, skip: usize)
        requires
            skip + old(self).signals@.len() == numbers@.len(),
        ensures
            final(self)@.signals == finalized_signals(old(self)@.signals, numbers@.skip(skip as int)),
            final(self)@ == (MessageModel { signals: final(self)@.signals, ..old(self)@ }),
            final(self).mux == old(self).mux,
            forall|j: int|
                0 <= j < final(self)@.signals.len() ==> (#[trigger] final(self)@.signals[j]).text_fits(),
    {
        let ghost start = self@;
        let ghost n = numbers@.skip(skip as int);
        let mut i: usize = 0;
        let len: usize = self.signals.len();
        while i < len
            invariant
                i <= len,
                len == self.signals@.len(),
                len == start.signals.len(),
                skip + len == numbers.len(),
                n == numbers@.skip(skip as int),
                self@ == (MessageModel { signals: self@.signals, ..start }),
                self.mux == old(self).mux,
                forall|j: int| 0 <= j < i ==> self@.signals[j] == start.signals[j].finalized(n[j]),
                forall|j: int| i <= j < len ==> self@.signals[j] == start.signals[j],
                forall|j: int| 0 <= j < i ==> (#[trigger] self@.signals[j]).text_fits(),
            decreases len - i,
        {
            let ghost before = self@;
            assert(before.signals[i as int] == start.signals[i as int]);
            assert(n[i as int] == numbers@[skip + i]);
            self.signals[i].finalize(&numbers[skip + i]);
            assert(self@.signals =~= before.signals.update(
                i as int,
                start.signals[i as int].finalized(n[i as int]),
            ));
            i = i + 1;
        }
        assert(self@.signals =~= finalized_signals(start.signals, n));
    }

    fn most_lines(&self) -> (r: usize)
        requires
            self.signal_count() <= usize::MAX,
        ensures
            r == self@.most_lines(),
    {
        let extra: usize = if self.mux.is_some() {
            1
        } else {
            0
        };
        let ghost all = self@.signals;
        let mut best: usize = count(&self.signals, None);
        let mut i: usize = 0;
        while i < self.signals.len()
            invariant
                i <= self.signals@.len(),
                all == self@.signals,
                all == signal_views(self.signals@),
                best <= self.signals@.len(),
                best == most_active(all, all.take(i as int)),
            decreases self.signals@.len() - i,
        {
            assert(all.take(i + 1).drop_last() =~= all.take(i as int));
            assert(all.take(i + 1).last() == self.signals@[i as int]@);
            let c: usize = count(&self.signals, self.signals[i].mux);
            if c > best {
                best = c;
            }
            i = i + 1;
        }
        assert(all.take(i as int) =~= all);
        best + extra
    }

    fn widest_name(&self) -> (r: usize)
        ensures
            r == longest_name(self@.all_signals()),
    {
        let mut w: usize = 0;
        let ghost base: Seq<SignalModel> = match self@.mux {
            Some(m) => seq![m],
            None => Seq::empty(),
        };
        match &self.mux {
            Some(m) => {
                w = chars_of(m.name.as_str()).len();
                assert(base.drop_last() =~= Seq::<SignalModel>::empty());
                assert(longest_name(base.drop_last()) == 0);
                assert(base.last() == m@);
            },
            None => {},
        }
        let ghost all = self@.all_signals();
        let mut i: usize = 0;
        assert(all.take(base.len() + i) =~= base);
        while i < self.signals.len()
            invariant
                i <= self.signals@.len(),
                all == self@.all_signals(),
                base.len() <= 1,
                all.len() == base.len() + self.signals@.len(),
                forall|j: int| 0 <= j < self.signals@.len() ==> all[base.len() + j] == (
                #[trigger] self.signals@[j])@,
                w == longest_name(all.take(base.len() + i)),
            decreases self.signals@.len() - i,
        {
            let s = &self.signals[i];
            let n: usize = chars_of(s.name.as_str()).len();
            proof {
                let t = all.take(base.len() + i + 1);
                assert(t.drop_last() =~= all.take(base.len() + i));
                assert(t.last() == s@);
            }
            if n > w {
                w = n;
            }
            i = i + 1;
        }
        assert(all.take(base.len() + i) =~= all);
        w
    }

    /// Sets the number of lines and the width of the names, which follow from the signals.
    fn arrange(&mut self)
        requires
            old(self).signal_count() <= usize::MAX,
        ensures
            final(self)@ == old(self)@.arranged(),
            final(self).signal_count() == old(self).signal_count(),
    {
        let most: usize = self.most_lines();
        let width: usize = self.widest_name();
        self.max_lines = most;
        self.name_width = width;
    }

    fn all_formats(&self) -> (r: Vec<ValueFormat>)
        ensures
            r@ == formats(self@.all_signals()),
    {
        let mut out: Vec<ValueFormat> = Vec::new();
        match &self.mux {
            Some(m) => {
                out.push(m.fmt);
            },
            None => {},
        }
        let ghost o = out@.len();
        let mut i: usize = 0;
        while i < self.signals.len()
            invariant
                i <= self.signals@.len(),
                out@.len() == o + i,
                o == if self.mux is Some {
                    1nat
                } else {
                    0nat
                },
                self.mux matches Some(m) ==> out@[0] == m.fmt,
                forall|j: int| 0 <= j < i ==> out@[o + j] == (#[trigger] self.signals@[j]).fmt,
            decreases self.signals@.len() - i,
        {
            out.push(self.signals[i].fmt);
            i = i + 1;
        }
        proof {
            let f = formats(self@.all_signals());
            assert forall|k: int| 0 <= k < f.len() implies #[trigger] out@[k] == f[k] by {
                if k >= o {
                    assert(out@[o + (k - o)] == self.signals@[k - o].fmt);
                    assert(self@.all_signals()[k] == self.signals@[k - o]@);
                }
            }
            assert(out@ =~= f);
        }
        out
    }

    /// Sets the scaling and the layout once all numbers are known: one entry of
    /// `numbers` per signal, the multiplexor's first.
    pub fn finalize(&mut self, numbers: &Vec<SignalNumbers>)
        requires
            numbers@.len() == old(self).signal_count(),
            forall|i: int| 0 <= i < numbers@.len() ==> (#[trigger] numbers@[i]).wf(),
        ensures
            is_finalized(old(self)@, numbers@, final(self)@),
    {
        let ghost start = self@;
        let mut skip: usize = 0;
        match &mut self.mux {
            Some(m) => {
                m.finalize(&numbers[0]);
                skip = 1;
            },
            None => {},
        }
        assert(self@.signals == start.signals);
        self.finalize_signals(numbers, skip);
        proof {
            let f = finalized_signals(start.all_signals(), numbers@);
            assert forall|k: int| 0 <= k < f.len() implies #[trigger] self@.all_signals()[k] == f[k] by {
                if k >= skip {
                    assert(numbers@.skip(skip as int)[k - skip] == numbers@[k]);
                    assert(start.all_signals()[k] == start.signals[k - skip]);
                    assert(self@.signals[k - skip] == start.signals[k - skip].finalized(numbers@[k]));
                }
            }
            assert(self@.all_signals() =~= f);
        }
        let ghost before = self@;
        assert(self.signal_count() == numbers.len());
        self.arrange();
        let fmts = self.all_formats();
        assert forall|i: int| 0 <= i < fmts@.len() implies (#[trigger] fmts@[i]).decimals
            < usize::MAX by {
            assert(fmts@[i] == self@.all_signals()[i].fmt);
            assert(numbers@[i].wf());
        }
        let column = ValueColumn::fit(fmts.as_slice());
        self.value_column = column;
        proof {
            law_arranged_lines(before);
            let a = before.arranged();
            assert(self@.all_signals() == before.all_signals());
            assert forall|v: Option<u64>| self@.lines_for(v) == #[trigger] a.lines_for(v) by {}
            let v = choose|v: Option<u64>| #[trigger] a.lines_for(v) == a.max_lines;
            assert(self@.lines_for(v) == a.max_lines);
            assert forall|v: Option<u64>| #[trigger] self@.lines_for(v) <= a.max_lines by {
                assert(a.lines_for(v) <= a.max_lines);
            }
        }
    }

    /// Decodes `data` into lines of `name  value unit`, padded with blank lines to
    /// [`MessageDef::max_lines`]. Names, decimal points, value-table text and units each
    /// line up in their own column. `digits` holds the physical value of each decoded
    /// signal with its format's decimals.
    pub fn decode_lines(&self, data: &[u8], digits: &Vec<String>) -> (r: Vec<String>)
        requires
            digits@.len() == self@.decoded(data@).len(),
        ensures
            string_views(r@) == self@.lines(data@, string_views(digits@)),
    {
        let sigs = self.decode(data);
        let ghost d = self@.decoded(data@);
        assert(d.len() == sigs@.len());
        let ghost dg = string_views(digits@);
        let mut out: Vec<String> = Vec::new();
        let mut i: usize = 0;
        while i < sigs.len()
            invariant
                i <= sigs@.len(),
                d == decoded_views(sigs@),
                digits@.len() == sigs@.len(),
                dg == string_views(digits@),
                out@.len() == i,
                forall|j: int| 0 <= j < i ==> (#[trigger] out@[j])@ == self@.line(d[j], dg[j]),
            decreases sigs@.len() - i,
        {
            let s = &sigs[i];
            let mut l: Vec<char> = Vec::new();
            let name = chars_of(s.name.as_str());
            put_left(&mut l, name.as_slice(), self.name_width);
            l.push(' ');
            l.push(' ');
            let text: Option<&str> = match &s.text {
                Some(t) => Some(t.as_str()),
                None => None,
            };
            assert(opt_view(text) == text_view(s.text));
            let v = self.value_column.render(digits[i].as_str(), text);
            put(&mut l, v.as_str());
            let unit = chars_of(s.unit.as_str());
            if unit.len() > 0 {
                l.push(' ');
                put(&mut l, s.unit.as_str());
            }
            assert(d[i as int] == s@);
            assert(dg[i as int] == digits@[i as int]@);
            assert(l@ =~= self@.line(s@, digits@[i as int]@));
            out.push(string_of(l.as_slice()));
            i = i + 1;
        }
        while out.len() < self.max_lines
            invariant
                d.len() <= out@.len(),
                out@.len() <= greatest(self@.max_lines, d.len() as int),
                forall|j: int| 0 <= j < d.len() ==> (#[trigger] out@[j])@ == self@.line(d[j], dg[j]),
                forall|j: int| d.len() <= j < out@.len() ==> (#[trigger] out@[j])@.len() == 0,
            decreases self.max_lines - out@.len(),
        {
            out.push(String::new());
        }
        proof {
            let want = self@.lines(data@, dg);
            assert forall|j: int| 0 <= j < want.len() implies #[trigger] string_views(out@)[j]
                == want[j] by {
                assert(string_views(out@)[j] == out@[j]@);
                if j >= d.len() {
                    assert(out@[j]@ =~= Seq::<char>::empty());
                }
            }
            assert(string_views(out@) =~= want);
        }
        out
    }

    /// The message's name; for multiplexed messages that of the variant in `data`.
    pub fn name_for(&self, data: &[u8]) -> (r: &str)
        ensures
            r@ == self@.name_spec(data@),
    {
        broadcast use vstd::std_specs::hash::group_hash_axioms;

        match &self.mux {
            Some(m) => {
                match m.raw(data) {
                    Some(v) => {
                        match self.mux_names.get(&v) {
                            Some(n) => {
                                return n.as_str();
                            },
                            None => {},
                        }
                    },
                    None => {},
                }
            },
            None => {},
        }
        self.name.as_str()
    }
}

/// A symbol database; each message stands under the code of its key.
#[derive(Debug)]
pub struct SymbolDb {
    /// The file that the database was loaded from.
    pub source: Option<String>,
    pub messages: HashMap<u64, MessageDef>,
}

/// The contents of a symbol database.
pub open spec fn message_views(m: Map<u64, MessageDef>) -> Map<u64, MessageModel> {
    Map::new(|k: u64| m.dom().contains(k), |k: u64| m[k]@)
}

impl View for SymbolDb {
    type V = Map<u64, MessageModel>;

    open spec fn view(&self) -> Map<u64, MessageModel> {
        message_views(self.messages@)
    }
}

impl Default for SymbolDb {
    fn default() -> (r: Self)
        ensures
            r.source is None,
            r@ == Map::<u64, MessageModel>::empty(),
    {
        broadcast use vstd::std_specs::hash::group_hash_axioms;

        let r = SymbolDb { source: None, messages: HashMap::new() };
        assert(r@ =~= Map::<u64, MessageModel>::empty());
        r
    }
}

/// Whether numbers are there for a message: one entry per signal.
pub open spec fn has_numbers(m: MessageModel, numbers: Seq<SignalNumbers>) -> bool {
    &&& numbers.len() == m.all_signals().len()
    &&& forall|i: int| 0 <= i < numbers.len() ==> (#[trigger] numbers[i]).wf()
}

/// The messages with their lines and names arranged.
pub open spec fn arranged_messages(m: Map<u64, MessageModel>) -> Map<u64, MessageModel> {
    Map::new(|c: u64| m.dom().contains(c), |c: u64| m[c].arranged())
}

impl SymbolDb {
    /// Each message stands under its key.
    pub open spec fn wf(self) -> bool {
        forall|c: u64| #[trigger] self@.dom().contains(c) ==> self@[c].key.code_spec() == c
    }

    /// The codes of the messages, each once.
    pub(crate) fn codes(&self) -> (r: Vec<u64>)
        ensures
            r@.no_duplicates(),
            forall|c: u64| #[trigger] self@.dom().contains(c) == r@.contains(c),
    {
        broadcast use vstd::std_specs::hash::group_hash_axioms;

        let mut out: Vec<u64> = Vec::new();
        for c in it: self.messages.keys()
            invariant
                it.seq().unref().to_set() == self.messages@.dom(),
                it.seq().no_duplicates(),
                out@ == it.seq().unref().take(it.index()),
        {
            out.push(*c);
            assert(out@ =~= it.seq().unref().take(it.index() + 1));
        }
        proof {
            let q = vstd::std_specs::iter::IteratorSpec::remaining(
                &vstd::std_specs::hash::spec_keys_iter(&self.messages),
            );
            assert(out@ =~= q.unref());
            assert forall|i: int, j: int|
                0 <= i < out@.len() && 0 <= j < out@.len() && i != j implies out@[i] != out@[j] by {
                assert(q[i] != q[j]);
            }
            assert forall|c: u64| #[trigger] self@.dom().contains(c) == out@.contains(c) by {
                assert(out@.to_set().contains(c) == self.messages@.dom().contains(c));
            }
        }
        out
    }

    /// Sets the number of lines and the width of the names of every message.
    fn arrange(&mut self)
        requires
            forall|c: u64| #[trigger]
                old(self)@.dom().contains(c) ==> old(self)@[c].all_signals().len() <= usize::MAX,
        ensures
            final(self)@ == arranged_messages(old(self)@),
            final(self).source == old(self).source,
            old(self).wf() ==> final(self).wf(),
    {
        broadcast use vstd::std_specs::hash::group_hash_axioms;

        let codes = self.codes();
        let ghost start = self@;
        let mut i: usize = 0;
        while i < codes.len()
            invariant
                i <= codes@.len(),
                codes@.no_duplicates(),
                forall|c: u64| #[trigger] start.dom().contains(c) == codes@.contains(c),
                forall|c: u64| #[trigger]
                    start.dom().contains(c) ==> start[c].all_signals().len() <= usize::MAX,
                self.source == old(self).source,
                self@.dom() == start.dom(),
                forall|j: int|
                    0 <= j < codes@.len() ==> self@[#[trigger] codes@[j]] == (if j < i {
                        start[codes@[j]].arranged()
                    } else {
                        start[codes@[j]]
                    }),
            decreases codes@.len() - i,
        {
            let ghost model = self@;
            let c: u64 = codes[i];
            assert(start.dom().contains(c)) by {
                assert(codes@.contains(codes@[i as int]));
            }
            assert(model.dom().contains(c));
            match self.messages.remove(&c) {
                Some(mut m) => {
                    assert(m@ == start[c]);
                    assert(m.signal_count() == m@.all_signals().len());
                    m.arrange();
                    let ghost mv = m@;
                    self.messages.insert(c, m);
                    assert(self@ =~= model.insert(c, mv));
                    assert(self@.dom() =~= start.dom());
                },
                None => {},
            }
            i = i + 1;
        }
        proof {
            assert forall|c: u64| #[trigger] self@.dom().contains(c) implies self@[c]
                == start[c].arranged() by {
                let j = choose|j: int| 0 <= j < codes@.len() && codes@[j] == c;
                assert(self@[codes@[j]] == start[codes@[j]].arranged());
            }
            assert(self@ =~= arranged_messages(start));
        }
    }

    /// Sets scaling, formats and layout of every message once all numbers are known:
    /// under each code one entry per signal, the multiplexor's first.
    pub fn finalize(&mut self, numbers: &HashMap<u64, Vec<SignalNumbers>>)
        requires
            forall|c: u64| #[trigger]
                old(self)@.dom().contains(c) ==> numbers@.dom().contains(c) && has_numbers(
                    old(self)@[c],
                    numbers@[c]@,
                ),
        ensures
            final(self)@.dom() == old(self)@.dom(),
            forall|c: u64| #[trigger]
                old(self)@.dom().contains(c) ==> is_finalized(
                    old(self)@[c],
                    numbers@[c]@,
                    final(self)@[c],
                ),
            final(self).source == old(self).source,
            old(self).wf() ==> final(self).wf(),
    {
        broadcast use vstd::std_specs::hash::group_hash_axioms;

        let codes = self.codes();
        let ghost start = self@;
        let mut i: usize = 0;
        while i < codes.len()
            invariant
                i <= codes@.len(),
                codes@.no_duplicates(),
                forall|c: u64| #[trigger] start.dom().contains(c) == codes@.contains(c),
                forall|c: u64| #[trigger]
                    start.dom().contains(c) ==> numbers@.dom().contains(c) && has_numbers(
                        start[c],
                        numbers@[c]@,
                    ),
                self.source == old(self).source,
                self@.dom() == start.dom(),
                forall|j: int|
                    0 <= j < i ==> is_finalized(
                        start[#[trigger] codes@[j]],
                        numbers@[codes@[j]]@,
                        self@[codes@[j]],
                    ),
                forall|j: int|
                    i <= j < codes@.len() ==> self@[#[trigger] codes@[j]] == start[codes@[j]],
            decreases codes@.len() - i,
        {
            let ghost model = self@;
            let c: u64 = codes[i];
            assert(start.dom().contains(c)) by {
                assert(codes@.contains(codes@[i as int]));
            }
            assert(model.dom().contains(c));
            match (self.messages.remove(&c), numbers.get(&c)) {
                (Some(mut m), Some(n)) => {
                    assert(m@ == start[c]);
                    assert(m.signal_count() == m@.all_signals().len());
                    m.finalize(n);
                    let ghost mv = m@;
                    self.messages.insert(c, m);
                    assert(self@ =~= model.insert(c, mv));
                    assert(self@.dom() =~= start.dom());
                },
                _ => {},
            }
            i = i + 1;
        }
        proof {
            assert forall|c: u64| #[trigger] start.dom().contains(c) implies is_finalized(
                start[c],
                numbers@[c]@,
                self@[c],
            ) by {
                let j = choose|j: int| 0 <= j < codes@.len() && codes@[j] == c;
                assert(is_finalized(start[codes@[j]], numbers@[codes@[j]]@, self@[codes@[j]]));
            }
        }
    }

    /// The definition of a message.
    pub fn get(&self, key: MsgKey) -> (r: Option<&MessageDef>)
        ensures
            match r {
                Some(m) => self@.dom().contains(key.code_spec()) && self@[key.code_spec()] == m@,
                None => !self@.dom().contains(key.code_spec()),
            },
    {
        broadcast use vstd::std_specs::hash::group_hash_axioms;

        self.messages.get(&key.code())
    }

    /// The name of a frame's message.
    pub fn name(&self, msg: &CanMsg) -> (r: Option<&str>)
        requires
            msg.wf(),
        ensures
            match r {
                Some(n) => self@.dom().contains(msg.key_spec().code_spec()) && n@
                    == self@[msg.key_spec().code_spec()].name_spec(msg.payload()),
                None => !self@.dom().contains(msg.key_spec().code_spec()),
            },
    {
        match self.get(msg.key()) {
            Some(m) => Some(m.name_for(msg.data())),
            None => None,
        }
    }
}

/// Each byte as the character with that number.
pub open spec fn latin1(b: Seq<u8>) -> Seq<char> {
    Seq::new(b.len(), |i: int| b[i] as char)
}

/// The text of a file: UTF-8, or Latin-1 where it is not valid UTF-8.
pub open spec fn file_text(b: Seq<u8>) -> Seq<char> {
    if valid_utf8(b) {
        decode_utf8(b)
    } else {
        latin1(b)
    }
}

/// Whether a file is a symbol file, by its extension or its first words.
pub open spec fn is_sym_file(extension: Seq<char>, text: Seq<char>) -> bool {
    lowered(extension) == "sym"@ || "FormatVersion"@.is_prefix_of(skip_front(text, Class::White))
}

/// The text of a file: UTF-8, or Latin-1 where it is not valid UTF-8.
pub fn decode_file(b: &[u8]) -> (r: String)
    ensures
        r@ == file_text(b@),
{
    match utf8_text(b) {
        Some(s) => s,
        None => {
            let mut out: Vec<char> = Vec::new();
            let mut i: usize = 0;
            while i < b.len()
                invariant
                    i <= b@.len(),
                    out@ == latin1(b@).take(i as int),
                decreases b@.len() - i,
            {
                out.push(b[i] as char);
                i = i + 1;
                assert(out@ =~= latin1(b@).take(i as int));
            }
            assert(out@ =~= latin1(b@));
            string_of(out.as_slice())
        },
    }
}

impl SymbolDb {
    /// Reads the bytes of a symbol database; `extension` is that of the file's name. The
    /// scaling and formats of the values are left to [`SymbolDb::finalize`].
    pub fn load(bytes: &[u8], extension: &str) -> (r: Result<Self, String>)
        ensures
            match r {
                Ok(db) => {
                    &&& db.wf()
                    &&& db.source is None
                    &&& if is_sym_file(extension@, file_text(bytes@)) {
                        sym_messages(file_text(bytes@)) == Ok::<Map<u64, MessageModel>, Seq<char>>(
                            db@,
                        )
                    } else {
                        dbc_parsed(file_text(bytes@)) matches Ok(v) && db@ == messages_of(v)
                    }
                },
                Err(e) => if is_sym_file(extension@, file_text(bytes@)) {
                    sym_messages(file_text(bytes@)) == Err::<Map<u64, MessageModel>, Seq<char>>(e@)
                } else {
                    dbc_parsed(file_text(bytes@)) matches Err(t) && e@ == "DBC parse error: "@ + t
                },
            },
    {
        let text = decode_file(bytes);
        let all = chars_of(text.as_str());
        let x = chars_of(extension);
        let l = lower_all(x.as_slice());
        if is_text(l.as_slice(), "sym") || starts_text(
            drop_front(all.as_slice(), Class::White),
            "FormatVersion",
        ) {
            parse_sym(text.as_str())
        } else {
            parse_dbc(text.as_str())
        }
    }
}

/// What the bits of a signal mean. A float of the right size is that float's bits; other
/// signals are whole numbers, in two's complement where they are signed.
pub proof fn law_numbers_of_bits(s: SignalModel, raw: u64)
    ensures
        s.kind == SigKind::Float32 && s.size == 32 && raw <= 0xFFFF_FFFF ==> (s.number(
            raw,
        ) matches Number::Float32(b) && b == raw),
        s.kind == SigKind::Float64 && s.size == 64 ==> s.number(raw) == Number::Float64(raw),
        s.kind == SigKind::Int && !s.signed ==> s.number(raw) == Number::Unsigned(raw),
        s.kind == SigKind::Int && s.signed && 1 <= s.size <= 64 && raw < pow2(s.size as nat) ==> (
        s.number(raw) matches Number::Signed(v) && (raw < pow2((s.size - 1) as nat) ==> v == raw) && (
        raw >= pow2((s.size - 1) as nat) ==> v == raw - pow2(s.size as nat))),
{
    if s.signed && 1 <= s.size <= 64 && raw < pow2(s.size as nat) {
        let n = s.size as nat;
        crate::symbols::bits::law_sign_keeps_the_bits(raw as int, n);
        crate::symbols::bits::law_sign_in_range(raw as int, n);
        vstd::arithmetic::power2::lemma2_to64_rest();
        if n < 64 {
            vstd::arithmetic::power2::lemma_pow2_strictly_increases((n - 1) as nat, 63);
        }
    }
}

/// A decoded signal is called and scaled as its definition says, and holds the bits of the
/// data; there is one exactly when its bits lie in the data.
pub proof fn law_decoded_as_defined(s: SignalModel, data: Seq<u8>)
    ensures
        s.decoded(data) is Some <==> raw_value(
            data,
            s.start_bit as int,
            s.size as int,
            s.little_endian,
        ) is Some,
        s.decoded(data) matches Some(d) ==> {
            &&& d.name == s.name && d.unit == s.unit && d.fmt == s.fmt
            &&& d.factor == s.factor && d.offset == s.offset
            &&& raw_value(data, s.start_bit as int, s.size as int, s.little_endian) == Some(d.raw as int)
            &&& d.number == s.number(d.raw)
        },
{
    match s.raw(data) {
        Some(v) => {
            crate::symbols::bits::law_bits_in_range(
                data,
                s.start_bit as int,
                s.size as nat,
                s.little_endian,
            );
            vstd::arithmetic::power2::lemma2_to64_rest();
            if s.size < 64 {
                vstd::arithmetic::power2::lemma_pow2_strictly_increases(s.size as nat, 64);
            }
        },
        None => {},
    }
}

/// A value has the text that its table gives for it, and none where the table has no entry;
/// floats have no text.
pub proof fn law_text_of_values(s: SignalModel, raw: u64)
    ensures
        s.number(raw) matches Number::Signed(v) ==> (s.values.dom().contains(v) ==> s.text(raw) == Some(
            s.values[v],
        )) && (!s.values.dom().contains(v) ==> s.text(raw) is None),
        s.number(raw) matches Number::Unsigned(v) ==> (v <= i64::MAX ==> (s.values.dom().contains(
            v as i64,
        ) ==> s.text(raw) == Some(s.values[v as i64])) && (!s.values.dom().contains(v as i64)
            ==> s.text(raw) is None)),
        s.number(raw) is Float32 || s.number(raw) is Float64 ==> s.text(raw) is None,
{
    vstd::arithmetic::power2::lemma2_to64();
    vstd::arithmetic::power2::lemma2_to64_rest();
    if raw <= i64::MAX {
        crate::symbols::bits::law_sign_keeps_the_bits(raw as int, 64);
    }
}

/// The smallest and the largest number of a signal with the given bits.
pub open spec fn number_range(signed: bool, bits: nat) -> (int, int) {
    if signed {
        (-(pow2((bits - 1) as nat) as int), pow2((bits - 1) as nat) - 1)
    } else {
        (0, pow2(bits) - 1)
    }
}

/// Every number that a signal can hold lies in its range, and both ends of the range can be
/// held.
pub proof fn law_range_of_numbers(signed: bool, bits: nat, raw: int)
    requires
        1 <= bits <= 64,
        0 <= raw < pow2(bits),
    ensures
        ({
            let v = |x: int|
                if signed {
                    signed_value(x, bits)
                } else {
                    x
                };
            let (low, high) = number_range(signed, bits);
            &&& low <= v(raw) <= high
            &&& exists|x: int| 0 <= x < pow2(bits) && #[trigger] v(x) == low
            &&& exists|x: int| 0 <= x < pow2(bits) && #[trigger] v(x) == high
        }),
{
    let v = |x: int|
        if signed {
            signed_value(x, bits)
        } else {
            x
        };
    let h = pow2((bits - 1) as nat) as int;
    vstd::arithmetic::power2::lemma_pow2_unfold(bits);
    vstd::arithmetic::power2::lemma_pow2_pos((bits - 1) as nat);
    crate::symbols::bits::law_sign_in_range(raw, bits);
    if signed {
        crate::symbols::bits::law_sign_keeps_the_bits(h, bits);
        crate::symbols::bits::law_sign_keeps_the_bits(h - 1, bits);
        assert(v(h) == -h);
        assert(v(h - 1) == h - 1);
    } else {
        assert(v(0) == 0);
        assert(v(pow2(bits) - 1) == pow2(bits) - 1);
    }
}

/// The format of a whole number has room for both ends of its range, with their sign, up to 24
/// characters, and no more than the wider one takes; its decimals are enough for the factor
/// and for the offset. Floats have 14 characters and 4 decimals.
pub proof fn law_format_has_room(s: SignalModel, n: SignalNumbers)
    requires
        n.wf(),
    ensures
        ({
            let f = format_of(s, n);
            let sign: int = if n.negative {
                1
            } else {
                0
            };
            &&& s.kind == SigKind::Int ==> {
                &&& f.width <= 24
                &&& n.low_len + sign <= 24 && n.high_len + sign <= 24 ==> {
                    &&& f.width >= n.low_len + sign && f.width >= n.high_len + sign
                    &&& f.width == n.low_len + sign || f.width == n.high_len + sign
                }
                &&& n.low_len + sign > 24 || n.high_len + sign > 24 ==> f.width == 24
                &&& f.decimals >= n.factor_decimals && f.decimals >= n.offset_decimals
                &&& f.decimals == n.factor_decimals || f.decimals == n.offset_decimals
            }
            &&& s.kind != SigKind::Int ==> f.width == 14 && f.decimals == 4
        }),
{
}

/// Setting the numbers of a signal changes its scaling and its format only.
pub proof fn law_finalized_signal(s: SignalModel, n: SignalNumbers)
    ensures
        ({
            let r = s.finalized(n);
            &&& r.factor == n.factor && r.offset == n.offset
            &&& (r.name, r.start_bit, r.size, r.little_endian) == (
                s.name,
                s.start_bit,
                s.size,
                s.little_endian,
            )
            &&& (r.signed, r.kind, r.unit, r.mux, r.values) == (s.signed, s.kind, s.unit, s.mux, s.values)
        }),
{
}

proof fn lemma_active_there(signals: Seq<SignalModel>, mux: Option<u64>, data: Seq<u8>, k: int)
    requires
        0 <= k < signals.len(),
        signals[k].mux is None || signals[k].mux == mux,
        signals[k].decoded(data) is Some,
    ensures
        exists|i: int|
            0 <= i < active_decoded(signals, mux, data).len() && Some(
                #[trigger] active_decoded(signals, mux, data)[i],
            ) == signals[k].decoded(data),
    decreases signals.len(),
{
    let t = signals.drop_last();
    let before = active_decoded(t, mux, data);
    let after = active_decoded(signals, mux, data);
    if k < t.len() {
        lemma_active_there(t, mux, data, k);
        let i = choose|i: int|
            0 <= i < before.len() && Some(#[trigger] before[i]) == t[k].decoded(data);
        assert(after[i] == before[i]);
    } else {
        assert(after[before.len() as int] == signals[k].decoded(data)->Some_0);
    }
}

proof fn lemma_active_only(signals: Seq<SignalModel>, mux: Option<u64>, data: Seq<u8>, i: int)
    requires
        0 <= i < active_decoded(signals, mux, data).len(),
    ensures
        exists|k: int|
            0 <= k < signals.len() && (signals[k].mux is None || signals[k].mux == mux) && Some(
                active_decoded(signals, mux, data)[i],
            ) == #[trigger] signals[k].decoded(data),
    decreases signals.len(),
{
    let t = signals.drop_last();
    let before = active_decoded(t, mux, data);
    if i < before.len() {
        lemma_active_only(t, mux, data, i);
        let k = choose|k: int|
            0 <= k < t.len() && (t[k].mux is None || t[k].mux == mux) && Some(before[i])
                == #[trigger] t[k].decoded(data);
        assert(t[k] == signals[k]);
        assert(Some(active_decoded(signals, mux, data)[i]) == signals[k].decoded(data));
    } else {
        let n = signals.len() - 1;
        assert(signals[n] == signals.last());
        assert(Some(active_decoded(signals, mux, data)[i]) == signals[n].decoded(data));
    }
}

/// Of the signals of a message, those without a multiplexor value are always decoded, those
/// with one exactly when the multiplexor has it, and the multiplexor itself comes first;
/// nothing else is decoded.
pub proof fn law_multiplexed_signals(m: MessageModel, data: Seq<u8>, k: int, i: int)
    ensures
        ({
            let d = m.decoded(data);
            let mux = match m.mux {
                Some(x) => match raw_value(
                    data,
                    x.start_bit as int,
                    x.size as int,
                    x.little_endian,
                ) {
                    Some(v) => Some(v as u64),
                    None => None,
                },
                None => None,
            };
            let first: int = if m.mux matches Some(x) && x.decoded(data) is Some {
                1
            } else {
                0
            };
            &&& first == 1 ==> d.len() > 0 && Some(d[0]) == m.mux->Some_0.decoded(data)
            &&& {
                &&& 0 <= k < m.signals.len()
                &&& m.signals[k].mux is None || m.signals[k].mux == mux
                &&& m.signals[k].decoded(data) is Some
            } ==> exists|j: int|
                first <= j < d.len() && Some(#[trigger] d[j]) == m.signals[k].decoded(data)
            &&& first <= i < d.len() ==> exists|j: int|
                0 <= j < m.signals.len() && (m.signals[j].mux is None || m.signals[j].mux == mux)
                    && Some(d[i]) == #[trigger] m.signals[j].decoded(data)
        }),
{
    let d = m.decoded(data);
    let mux = m.mux_value(data);
    let head = m.mux_decoded(data);
    let rest = active_decoded(m.signals, mux, data);
    let n = head.len() as int;
    if 0 <= k < m.signals.len() && (m.signals[k].mux is None || m.signals[k].mux == mux)
        && m.signals[k].decoded(data) is Some {
        lemma_active_there(m.signals, mux, data, k);
        let j = choose|j: int|
            0 <= j < rest.len() && Some(#[trigger] rest[j]) == m.signals[k].decoded(data);
        assert(d[n + j] == rest[j]);
    }
    if n <= i < d.len() {
        lemma_active_only(m.signals, mux, data, i - n);
        assert(d[i] == rest[i - n]);
    }
}

/// A frame is called by the name of its multiplexed variant where that has one, and by the
/// message's name otherwise.
pub proof fn law_name_of_a_frame(m: MessageModel, data: Seq<u8>)
    ensures
        m.mux is None ==> m.name_spec(data) == m.name,
        m.mux matches Some(x) ==> (raw_value(
            data,
            x.start_bit as int,
            x.size as int,
            x.little_endian,
        ) matches Some(v) ==> (m.mux_names.dom().contains(v as u64) ==> m.name_spec(data)
            == m.mux_names[v as u64]) && (!m.mux_names.dom().contains(v as u64) ==> m.name_spec(data)
            == m.name)),
        m.mux matches Some(x) ==> (raw_value(
            data,
            x.start_bit as int,
            x.size as int,
            x.little_endian,
        ) is None ==> m.name_spec(data) == m.name),
{
}

/// Signals on one line stand in their order with a bar between each two; each shows its name,
/// its value and its unit.
pub proof fn law_compact_lines(sigs: Seq<DecodedModel>, digits: Seq<Seq<char>>)
    requires
        sigs.len() >= 1,
    ensures
        ({
            let n = sigs.len() - 1;
            let d = sigs[n];
            let unit = if d.unit.len() > 0 {
                seq![' '] + d.unit
            } else {
                Seq::empty()
            };
            let one = d.name + seq![' '] + d.fmt.value_text(digits[n], d.text) + unit;
            &&& n == 0 ==> compact(sigs, digits) == one
            &&& n > 0 ==> compact(sigs, digits) == compact(sigs.take(n), digits) + seq![' ', '|', ' ']
                + one
        }),
{
    let n = sigs.len() - 1;
    assert(sigs.drop_last() =~= sigs.take(n));
    reveal_strlit(" | ");
    assert(" | "@ =~= seq![' ', '|', ' ']);
    if n == 0 {
        let one = compact_signal(sigs[0], digits[0]);
        assert(compact(sigs.take(0), digits) =~= Seq::<char>::empty());
        assert(Seq::<char>::empty() + Seq::<char>::empty() + one =~= one);
    }
}

/// The lines of a message begin with the names of its signals, filled up to the same width.
pub proof fn law_names_line_up(m: MessageModel, data: Seq<u8>, digits: Seq<Seq<char>>, i: int)
    requires
        m.laid_out(),
        0 <= i < m.decoded(data).len(),
    ensures
        ({
            let l = m.lines(data, digits)[i];
            let name = m.decoded(data)[i].name;
            &&& name.len() <= m.name_width
            &&& l.take(name.len() as int) == name
            &&& forall|j: int| name.len() <= j < m.name_width + 2 ==> #[trigger] l[j] == ' '
        }),
{
    let d = m.decoded(data)[i];
    lemma_decoded_origin(m, data, i);
    let k = choose|k: int|
        0 <= k < m.all_signals().len() && Some(d) == #[trigger] m.all_signals()[k].decoded(data);
    lemma_longest_name(m.all_signals(), k);
    law_line_count(m, data, digits);
    let l = m.lines(data, digits)[i];
    assert(l.take(d.name.len() as int) =~= d.name);
}

/// A file that is valid UTF-8 is read as such; in any other file each byte is a character.
pub proof fn law_text_of_a_file(b: Seq<u8>, i: int)
    ensures
        valid_utf8(b) ==> file_text(b) == decode_utf8(b),
        !valid_utf8(b) ==> file_text(b).len() == b.len(),
        !valid_utf8(b) && 0 <= i < b.len() ==> file_text(b)[i] as int == b[i],
{
}

/// Each decoded signal has its line, in their order; the lines behind them are empty.
pub proof fn law_lines_of_a_frame(m: MessageModel, data: Seq<u8>, digits: Seq<Seq<char>>, i: int)
    requires
        0 <= i < m.lines(data, digits).len(),
    ensures
        m.lines(data, digits).len() >= m.decoded(data).len(),
        m.lines(data, digits).len() >= m.max_lines,
        i >= m.decoded(data).len() ==> m.lines(data, digits)[i].len() == 0,
        i < m.decoded(data).len() ==> {
            let d = m.decoded(data)[i];
            m.lines(data, digits)[i] == left_aligned(d.name, m.name_width) + seq![' ', ' ']
                + m.value_column.rendered(digits[i], d.text) + (if d.unit.len() > 0 {
                seq![' '] + d.unit
            } else {
                Seq::empty()
            })
        },
{
}

/// A plain signal is an unsigned integer at its place: not scaled, without unit, values or
/// multiplexor, and not laid out yet.
pub proof fn law_plain_signals(name: Seq<char>, start: u32, size: u32, intel: bool, raw: u64)
    ensures
        ({
            let s = plain_signal(name, start, size, intel);
            &&& s.name == name && s.start_bit == start && s.size == size && s.little_endian == intel
            &&& s.number(raw) == Number::Unsigned(raw) && s.text(raw) is None
            &&& s.factor.bits == 0x3FF0_0000_0000_0000 && s.offset.bits == 0
            &&& s.factor_text is None && s.offset_text is None
            &&& s.unit.len() == 0 && is_active(s, None) && is_active(s, Some(raw))
            &&& s.fmt.width == 0 && s.fmt.decimals == 0 && s.fmt.text_width == 0
        }),
{
}

} // verus!
