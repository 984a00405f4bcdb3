//! Vector DBC databases, read with the `can-dbc` crate.

use std::collections::HashMap;
use vstd::prelude::*;
use crate::msg::{least, MsgKey};
use crate::number::Real;
use crate::symbols::bits::signed_value;
use crate::symbols::format::ValueColumn;
use crate::symbols::{
    copy_text, is_active, message_views, names, plain_signal, signal_views, table, text_view, MessageDef,
    MessageModel, Number, SigKind, SignalDef, SignalModel, SymbolDb,
};
use crate::text::{put, string_of};

verus! {

/// `can_dbc::Dbc`: a parsed database.
#[verifier::external_type_specification]
#[verifier::external_body]
pub struct ExDbc(can_dbc::Dbc);

/// A signal's part in multiplexing.
#[derive(Debug, Clone, Copy, PartialEq, Eq, Structural)]
pub enum DbcMux {
    Plain,
    /// The signal selects which others are there.
    Multiplexor,
    /// The signal is there at this value of the multiplexor.
    Multiplexed(u64),
    /// Both at once.
    Both(u64),
}

/// What a database says about the encoding of a signal.
#[derive(Debug, Clone, Copy, PartialEq, Eq, Structural)]
pub enum DbcType {
    Unstated,
    Integer,
    Float32,
    Float64,
}

/// A signal as a database gives it.
#[derive(Debug)]
pub struct DbcSignal {
    pub name: String,
    pub start_bit: u64,
    pub size: u64,
    pub little_endian: bool,
    pub signed: bool,
    pub factor: Real,
    pub offset: Real,
    pub unit: String,
}

/// What a database says of a signal.
pub ghost struct DbcSignalModel {
    pub name: Seq<char>,
    pub start_bit: u64,
    pub size: u64,
    pub little_endian: bool,
    pub signed: bool,
    pub factor: Real,
    pub offset: Real,
    pub unit: Seq<char>,
}

impl View for DbcSignal {
    type V = DbcSignalModel;

    open spec fn view(&self) -> DbcSignalModel {
        DbcSignalModel {
            name: self.name@,
            start_bit: self.start_bit,
            size: self.size,
            little_endian: self.little_endian,
            signed: self.signed,
            factor: self.factor,
            offset: self.offset,
            unit: self.unit@,
        }
    }
}

/// A signal with its part in multiplexing and what the database says of it elsewhere.
#[derive(Debug)]
pub struct DbcEntry {
    pub signal: DbcSignal,
    pub mux: DbcMux,
    pub encoding: DbcType,
    /// The value table, in the order of the database.
    pub values: Option<Vec<(i64, String)>>,
}

/// What a database says of a signal in all places.
pub ghost struct DbcEntryModel {
    pub signal: DbcSignalModel,
    pub mux: DbcMux,
    pub encoding: DbcType,
    pub values: Option<Seq<(i64, Seq<char>)>>,
}

/// The contents of a value table.
pub open spec fn pair_views(v: Seq<(i64, String)>) -> Seq<(i64, Seq<char>)> {
    Seq::new(v.len(), |i: int| (v[i].0, v[i].1@))
}

/// The contents of an optional value table.
pub open spec fn values_view(v: Option<Vec<(i64, String)>>) -> Option<Seq<(i64, Seq<char>)>> {
    match v {
        Some(v) => Some(pair_views(v@)),
        None => None,
    }
}

impl View for DbcEntry {
    type V = DbcEntryModel;

    open spec fn view(&self) -> DbcEntryModel {
        DbcEntryModel {
            signal: self.signal@,
            mux: self.mux,
            encoding: self.encoding,
            values: values_view(self.values),
        }
    }
}

/// What a message line of a database says.
#[derive(Debug)]
pub struct DbcHeader {
    pub key: MsgKey,
    pub name: String,
    pub size: u64,
    /// Number of signals.
    pub signals: usize,
}

/// A message as a database gives it.
#[derive(Debug)]
pub struct DbcMessage {
    pub key: MsgKey,
    pub name: String,
    pub size: u64,
    pub comment: Option<String>,
    pub signals: Vec<DbcEntry>,
}

/// What a database says of a message.
#[verifier::ext_equal]
pub ghost struct DbcMessageModel {
    pub key: MsgKey,
    pub name: Seq<char>,
    pub size: u64,
    pub comment: Option<Seq<char>>,
    pub signals: Seq<DbcEntryModel>,
}

/// The contents of signals.
pub open spec fn entry_views(v: Seq<DbcEntry>) -> Seq<DbcEntryModel> {
    Seq::new(v.len(), |i: int| v[i]@)
}

impl View for DbcMessage {
    type V = DbcMessageModel;

    open spec fn view(&self) -> DbcMessageModel {
        DbcMessageModel {
            key: self.key,
            name: self.name@,
            size: self.size,
            comment: text_view(self.comment),
            signals: entry_views(self.signals@),
        }
    }
}

/// The contents of messages.
pub open spec fn dbc_views(v: Seq<DbcMessage>) -> Seq<DbcMessageModel> {
    Seq::new(v.len(), |i: int| v[i]@)
}

/// The messages of a parsed database, each with its comment and, for each signal, its
/// extended value type and its value descriptions.
pub uninterp spec fn dbc_messages(d: can_dbc::Dbc) -> Seq<DbcMessageModel>;

/// What `can_dbc::Dbc::try_from` makes of a text: the messages, or the `Debug` text of
/// its error.
pub uninterp spec fn dbc_parsed(text: Seq<char>) -> Result<Seq<DbcMessageModel>, Seq<char>>;

/// `can_dbc::Dbc::try_from`: parses a database. The messages, or the error's `Debug`
/// text, depend on the text alone.
#[verifier::external_body]
fn try_from(text: &str) -> (r: Result<can_dbc::Dbc, String>)
    ensures
        match r {
            Ok(d) => dbc_parsed(text@) == Ok::<Seq<DbcMessageModel>, Seq<char>>(dbc_messages(d)),
            Err(e) => dbc_parsed(text@) == Err::<Seq<DbcMessageModel>, Seq<char>>(e@),
        },
{
    can_dbc::Dbc::try_from(text).map_err(|e| format!("{e:?}"))
}

/// The field `messages` of `can_dbc::Dbc`: how many messages it holds.
#[verifier::external_body]
fn message_count(d: &can_dbc::Dbc) -> (r: usize)
    ensures
        r == dbc_messages(*d).len(),
{
    d.messages.len()
}

/// The field `messages` of `can_dbc::Dbc`: ID, name, size and number of signals of one of
/// them. A standard ID is its 16-bit number, an extended one its number without the flag.
#[verifier::external_body]
fn header_at(d: &can_dbc::Dbc, i: usize) -> (r: DbcHeader)
    requires
        i < dbc_messages(*d).len(),
    ensures
        r.key == dbc_messages(*d)[i as int].key,
        r.name@ == dbc_messages(*d)[i as int].name,
        r.size == dbc_messages(*d)[i as int].size,
        r.signals == dbc_messages(*d)[i as int].signals.len(),
{
    let m = &d.messages[i];
    let key = match m.id {
        can_dbc::MessageId::Standard(id) => MsgKey { id: u32::from(id), ext: false },
        can_dbc::MessageId::Extended(id) => MsgKey { id, ext: true },
    };
    DbcHeader { key, name: m.name.clone(), size: m.size, signals: m.signals.len() }
}

/// The field `signals` of `can_dbc::Message`: one of the signals, field by field, its
/// factor and offset as bit patterns.
#[verifier::external_body]
fn signal_at(d: &can_dbc::Dbc, i: usize, j: usize) -> (r: DbcSignal)
    requires
        i < dbc_messages(*d).len(),
        j < dbc_messages(*d)[i as int].signals.len(),
    ensures
        r@ == dbc_messages(*d)[i as int].signals[j as int].signal,
{
    let s = &d.messages[i].signals[j];
    let little_endian = matches!(s.byte_order, can_dbc::ByteOrder::LittleEndian);
    let signed = matches!(s.value_type, can_dbc::ValueType::Signed);
    let factor = Real { bits: s.factor.to_bits() };
    let offset = Real { bits: s.offset.to_bits() };
    let (start_bit, size) = (s.start_bit, s.size);
    let (name, unit) = (s.name.clone(), s.unit.clone());
    DbcSignal { name, start_bit, size, little_endian, signed, factor, offset, unit }
}

/// The field `multiplexer_indicator` of `can_dbc::Signal`: which variant it is, with its
/// number.
#[verifier::external_body]
fn mux_at(d: &can_dbc::Dbc, i: usize, j: usize) -> (r: DbcMux)
    requires
        i < dbc_messages(*d).len(),
        j < dbc_messages(*d)[i as int].signals.len(),
    ensures
        r == dbc_messages(*d)[i as int].signals[j as int].mux,
{
    match d.messages[i].signals[j].multiplexer_indicator {
        can_dbc::MultiplexIndicator::Plain => DbcMux::Plain,
        can_dbc::MultiplexIndicator::Multiplexor => DbcMux::Multiplexor,
        can_dbc::MultiplexIndicator::MultiplexedSignal(v) => DbcMux::Multiplexed(v),
        can_dbc::MultiplexIndicator::MultiplexorAndMultiplexedSignal(v) => DbcMux::Both(v),
    }
}

/// `can_dbc::Dbc::message_comment`: the comment on a message, where there is one.
#[verifier::external_body]
fn comment_at(d: &can_dbc::Dbc, i: usize) -> (r: Option<String>)
    requires
        i < dbc_messages(*d).len(),
    ensures
        text_view(r) == dbc_messages(*d)[i as int].comment,
{
    d.message_comment(d.messages[i].id).map(|c| c.to_string())
}

/// `can_dbc::Dbc::extended_value_type_for_signal`: which variant is given for a signal, or
/// that none is.
#[verifier::external_body]
fn encoding_at(d: &can_dbc::Dbc, i: usize, j: usize) -> (r: DbcType)
    requires
        i < dbc_messages(*d).len(),
        j < dbc_messages(*d)[i as int].signals.len(),
    ensures
        r == dbc_messages(*d)[i as int].signals[j as int].encoding,
{
    let m = &d.messages[i];
    match d.extended_value_type_for_signal(m.id, &m.signals[j].name) {
        None => DbcType::Unstated,
        Some(can_dbc::SignalExtendedValueType::SignedOrUnsignedInteger) => DbcType::Integer,
        Some(can_dbc::SignalExtendedValueType::IEEEfloat32Bit) => DbcType::Float32,
        Some(can_dbc::SignalExtendedValueType::IEEEdouble64bit) => DbcType::Float64,
    }
}

/// `can_dbc::Dbc::value_descriptions_for_signal`: the numbers and texts of a signal's
/// value table in order, where there is one.
#[verifier::external_body]
fn values_at(d: &can_dbc::Dbc, i: usize, j: usize) -> (r: Option<Vec<(i64, String)>>)
    requires
        i < dbc_messages(*d).len(),
        j < dbc_messages(*d)[i as int].signals.len(),
    ensures
        values_view(r) == dbc_messages(*d)[i as int].signals[j as int].values,
{
    let m = &d.messages[i];
    let v = d.value_descriptions_for_signal(m.id, &m.signals[j].name);
    v.map(|v| v.iter().map(|e| (e.id, e.description.clone())).collect())
}

fn entries(d: &can_dbc::Dbc, i: usize, n: usize) -> (r: Vec<DbcEntry>)
    requires
        i < dbc_messages(*d).len(),
        n == dbc_messages(*d)[i as int].signals.len(),
    ensures
        entry_views(r@) == dbc_messages(*d)[i as int].signals,
{
    let ghost want = dbc_messages(*d)[i as int].signals;
    let mut out: Vec<DbcEntry> = Vec::new();
    let mut j: usize = 0;
    while j < n
        invariant
            i < dbc_messages(*d).len(),
            want == dbc_messages(*d)[i as int].signals,
            n == want.len(),
            j <= n,
            entry_views(out@) == want.take(j as int),
        decreases n - j,
    {
        let ghost before = entry_views(out@);
        let e = DbcEntry {
            signal: signal_at(d, i, j),
            mux: mux_at(d, i, j),
            encoding: encoding_at(d, i, j),
            values: values_at(d, i, j),
        };
        assert(e@ == want[j as int]);
        out.push(e);
        j = j + 1;
        assert(entry_views(out@) =~= before.push(e@));
        assert(entry_views(out@) =~= want.take(j as int));
    }
    assert(want.take(n as int) =~= want);
    out
}

/// Reads the messages of a database.
pub fn read_dbc(text: &str) -> (r: Result<Vec<DbcMessage>, String>)
    ensures
        match r {
            Ok(v) => dbc_parsed(text@) == Ok::<Seq<DbcMessageModel>, Seq<char>>(dbc_views(v@)),
            Err(e) => dbc_parsed(text@) == Err::<Seq<DbcMessageModel>, Seq<char>>(e@),
        },
{
    let d = match try_from(text) {
        Ok(d) => d,
        Err(e) => {
            return Err(e);
        },
    };
    let ghost want = dbc_messages(d);
    let n: usize = message_count(&d);
    let mut out: Vec<DbcMessage> = Vec::new();
    let mut i: usize = 0;
    while i < n
        invariant
            want == dbc_messages(d),
            n == want.len(),
            i <= n,
            dbc_views(out@) == want.take(i as int),
        decreases n - i,
    {
        let ghost before = dbc_views(out@);
        let h = header_at(&d, i);
        let m = DbcMessage {
            key: h.key,
            name: h.name,
            size: h.size,
            comment: comment_at(&d, i),
            signals: entries(&d, i, h.signals),
        };
        assert(m@ =~= want[i as int]);
        out.push(m);
        i = i + 1;
        assert(dbc_views(out@) =~= before.push(m@));
        assert(dbc_views(out@) =~= want.take(i as int));
    }
    assert(want.take(n as int) =~= want);
    Ok(out)
}

/// The value table that pairs make: of two with the same number the later one counts.
pub open spec fn table_of(v: Seq<(i64, Seq<char>)>) -> Map<i64, Seq<char>>
    decreases v.len(),
{
    if v.len() == 0 {
        Map::empty()
    } else {
        table_of(v.drop_last()).insert(v.last().0, v.last().1)
    }
}

/// The definition of a signal.
pub open spec fn signal_of(e: DbcEntryModel) -> SignalModel {
    let s = e.signal;
    SignalModel {
        signed: s.signed,
        kind: match e.encoding {
            DbcType::Float32 => SigKind::Float32,
            DbcType::Float64 => SigKind::Float64,
            _ => SigKind::Int,
        },
        factor: s.factor,
        offset: s.offset,
        unit: s.unit,
        mux: match e.mux {
            DbcMux::Multiplexed(v) => Some(v),
            DbcMux::Both(v) => Some(v),
            _ => None,
        },
        values: match e.values {
            Some(v) => table_of(v),
            None => Map::empty(),
        },
        ..plain_signal(
            s.name,
            (s.start_bit % 0x1_0000_0000) as u32,
            (s.size % 0x1_0000_0000) as u32,
            s.little_endian,
        )
    }
}

/// The multiplexor: the last signal that is one.
pub open spec fn multiplexor_of(v: Seq<DbcEntryModel>) -> Option<SignalModel>
    decreases v.len(),
{
    if v.len() == 0 {
        None
    } else if v.last().mux == DbcMux::Multiplexor {
        Some(signal_of(v.last()))
    } else {
        multiplexor_of(v.drop_last())
    }
}

/// The signals that are no multiplexor, in order.
pub open spec fn signals_of(v: Seq<DbcEntryModel>) -> Seq<SignalModel>
    decreases v.len(),
{
    if v.len() == 0 {
        Seq::empty()
    } else if v.last().mux == DbcMux::Multiplexor {
        signals_of(v.drop_last())
    } else {
        signals_of(v.drop_last()).push(signal_of(v.last()))
    }
}

/// The definition of a message, its lines and names arranged.
pub open spec fn message_of(m: DbcMessageModel) -> MessageModel {
    (MessageModel {
        name: m.name,
        key: m.key,
        dlc: least(m.size as int, 64) as u8,
        mux: multiplexor_of(m.signals),
        mux_names: Map::empty(),
        signals: signals_of(m.signals),
        comment: m.comment,
        max_lines: 0,
        name_width: 0,
        value_column: ValueColumn { int_width: 0, frac_width: 0, text_width: 0 },
    }).arranged()
}

/// IDs that can be on the bus. Messages with others are placeholders.
pub open spec fn is_bus_key(k: MsgKey) -> bool {
    k.id <= 0x1FFF_FFFF && (k.ext || k.id <= 0x7FF)
}

/// The messages under the codes of their keys; of two with the same key the later one
/// counts.
pub open spec fn messages_of(v: Seq<DbcMessageModel>) -> Map<u64, MessageModel>
    decreases v.len(),
{
    if v.len() == 0 {
        Map::empty()
    } else if is_bus_key(v.last().key) {
        messages_of(v.drop_last()).insert(v.last().key.code_spec(), message_of(v.last()))
    } else {
        messages_of(v.drop_last())
    }
}

fn make_table(v: &Vec<(i64, String)>) -> (r: HashMap<i64, String>)
    ensures
        table(r@) == table_of(pair_views(v@)),
{
    broadcast use vstd::std_specs::hash::group_hash_axioms;

    let mut m: HashMap<i64, String> = HashMap::new();
    let mut i: usize = 0;
    let ghost all = pair_views(v@);
    assert(table(m@) =~= Map::<i64, Seq<char>>::empty());
    while i < v.len()
        invariant
            i <= v@.len(),
            all == pair_views(v@),
            table(m@) == table_of(all.take(i as int)),
        decreases v@.len() - i,
    {
        let ghost before = m@;
        let k: i64 = v[i].0;
        let t = v[i].1.clone();
        m.insert(k, t);
        proof {
            assert(all.take(i + 1).drop_last() =~= all.take(i as int));
            assert(all.take(i + 1).last() == (k, t@));
            assert(table(m@) =~= table(before).insert(k, t@));
        }
        i = i + 1;
    }
    assert(all.take(i as int) =~= all);
    m
}

fn make_signal(e: &DbcEntry) -> (r: SignalDef)
    ensures
        r@ == signal_of(e@),
{
    let s = &e.signal;
    let mut sd = SignalDef::plain(
        s.name.clone(),
        (s.start_bit % 0x1_0000_0000) as u32,
        (s.size % 0x1_0000_0000) as u32,
        s.little_endian,
    );
    sd.signed = s.signed;
    sd.kind = match e.encoding {
        DbcType::Float32 => SigKind::Float32,
        DbcType::Float64 => SigKind::Float64,
        _ => SigKind::Int,
    };
    sd.factor = s.factor;
    sd.offset = s.offset;
    sd.unit = s.unit.clone();
    sd.mux = match e.mux {
        DbcMux::Multiplexed(v) => Some(v),
        DbcMux::Both(v) => Some(v),
        _ => None,
    };
    match &e.values {
        Some(v) => {
            sd.values = make_table(v);
        },
        None => {},
    }
    sd
}

fn make_message(m: &DbcMessage) -> (r: MessageDef)
    ensures
        r@ == message_of(m@),
{
    broadcast use vstd::std_specs::hash::group_hash_axioms;

    let mut mux: Option<SignalDef> = None;
    let mut signals: Vec<SignalDef> = Vec::new();
    let mut i: usize = 0;
    let ghost all = m@.signals;
    assert(signal_views(signals@) =~= Seq::<SignalModel>::empty());
    while i < m.signals.len()
        invariant
            i <= m.signals@.len(),
            all == entry_views(m.signals@),
            crate::symbols::signal_view(mux) == multiplexor_of(all.take(i as int)),
            signal_views(signals@) == signals_of(all.take(i as int)),
            signals@.len() + (if mux is Some {
                1int
            } else {
                0int
            }) <= i,
        decreases m.signals@.len() - i,
    {
        let ghost before = signal_views(signals@);
        let e = &m.signals[i];
        let sd = make_signal(e);
        proof {
            assert(all.take(i + 1).drop_last() =~= all.take(i as int));
            assert(all.take(i + 1).last() == e@);
        }
        if e.mux == DbcMux::Multiplexor {
            mux = Some(sd);
        } else {
            signals.push(sd);
            assert(signal_views(signals@) =~= before.push(sd@));
        }
        i = i + 1;
    }
    assert(all.take(i as int) =~= all);
    let dlc: u8 = if m.size < 64 {
        m.size as u8
    } else {
        64
    };
    let mux_names: HashMap<u64, String> = HashMap::new();
    assert(names(mux_names@) =~= Map::<u64, Seq<char>>::empty());
    let mut def = MessageDef {
        name: m.name.clone(),
        key: m.key,
        dlc,
        mux,
        mux_names,
        signals,
        comment: copy_text(&m.comment),
        max_lines: 0,
        name_width: 0,
        value_column: ValueColumn { int_width: 0, frac_width: 0, text_width: 0 },
    };
    def.arrange();
    def
}

/// Makes the definitions for the messages of a database. The scaling and formats of the
/// values are left to [`SymbolDb::finalize`].
pub fn define_messages(v: &Vec<DbcMessage>) -> (r: SymbolDb)
    ensures
        r@ == messages_of(dbc_views(v@)),
        r.source is None,
        r.wf(),
{
    broadcast use vstd::std_specs::hash::group_hash_axioms;

    let mut db = SymbolDb { source: None, messages: HashMap::new() };
    let mut i: usize = 0;
    let ghost all = dbc_views(v@);
    assert(db@ =~= Map::<u64, MessageModel>::empty());
    while i < v.len()
        invariant
            i <= v@.len(),
            all == dbc_views(v@),
            db@ == messages_of(all.take(i as int)),
            db.source is None,
            db.wf(),
        decreases v@.len() - i,
    {
        let ghost before = db.messages@;
        let m = &v[i];
        proof {
            assert(all.take(i + 1).drop_last() =~= all.take(i as int));
            assert(all.take(i + 1).last() == m@);
        }
        if m.key.id <= 0x1FFF_FFFF && (m.key.ext || m.key.id <= 0x7FF) {
            let def = make_message(m);
            db.messages.insert(m.key.code(), def);
            assert(db@ =~= message_views(before).insert(m.key.code_spec(), def@));
        }
        i = i + 1;
    }
    assert(all.take(i as int) =~= all);
    db
}

/// Reads a database and makes the definitions for its messages. The scaling and formats of
/// the values are left to [`SymbolDb::finalize`].
pub fn parse_dbc(text: &str) -> (r: Result<SymbolDb, String>)
    ensures
        match r {
            Ok(db) => db.wf() && db.source is None && (dbc_parsed(text@) matches Ok(v) && db@
                == messages_of(v)),
            Err(e) => dbc_parsed(text@) matches Err(t) && e@ == "DBC parse error: "@ + t,
        },
{
    match read_dbc(text) {
        Ok(v) => Ok(define_messages(&v)),
        Err(t) => {
            let mut out: Vec<char> = Vec::new();
            put(&mut out, "DBC parse error: ");
            put(&mut out, t.as_str());
            assert(out@ =~= "DBC parse error: "@ + t@);
            Err(string_of(out.as_slice()))
        },
    }
}

/// A signal is decoded as the database describes it: at its place, in its byte order, with
/// its sign, as a floating-point number where the database says so and the width is that of
/// one. A multiplexed signal is there at its value of the multiplexor and at no other; a
/// plain one always.
pub proof fn law_described_signals(e: DbcEntryModel, raw: u64, v: u64, at: u64)
    requires
        e.signal.start_bit <= u32::MAX,
        e.signal.size <= u32::MAX,
    ensures
        ({
            let s = signal_of(e);
            let d = e.signal;
            &&& s.name == d.name && s.unit == d.unit
            &&& s.start_bit == d.start_bit && s.size == d.size
            &&& s.little_endian == d.little_endian
            &&& s.factor == d.factor && s.offset == d.offset
            &&& s.factor_text is None && s.offset_text is None
            &&& e.encoding == DbcType::Float32 && d.size == 32 ==> s.number(raw) == Number::Float32(
                raw as u32,
            )
            &&& e.encoding == DbcType::Float64 && d.size == 64 ==> s.number(raw) == Number::Float64(
                raw,
            )
            &&& e.encoding != DbcType::Float32 && e.encoding != DbcType::Float64 ==> s.number(raw)
                == if d.signed {
                Number::Signed(signed_value(raw as int, d.size as nat) as i64)
            } else {
                Number::Unsigned(raw)
            }
            &&& e.mux == DbcMux::Multiplexed(v) || e.mux == DbcMux::Both(v) ==> is_active(s, Some(at))
                == (at == v) && !is_active(s, None)
            &&& e.mux == DbcMux::Plain ==> is_active(s, Some(at)) && is_active(s, None)
        }),
{
}

/// A value table holds the last text given for a number, and no number that was not given
/// one.
pub proof fn law_value_tables(v: Seq<(i64, Seq<char>)>, k: i64, t: Seq<char>, other: i64)
    ensures
        table_of(v.push((k, t))).dom().contains(k) && table_of(v.push((k, t)))[k] == t,
        other != k ==> {
            &&& table_of(v.push((k, t))).dom().contains(other) == table_of(v).dom().contains(other)
            &&& table_of(v.push((k, t)))[other] == table_of(v)[other]
        },
        table_of(v).dom().contains(other) ==> exists|i: int|
            0 <= i < v.len() && (#[trigger] v[i]) == (other, table_of(v)[other]),
    decreases v.len(),
{
    assert(v.push((k, t)).drop_last() =~= v);
    if table_of(v).dom().contains(other) {
        if v.last().0 == other {
            assert(v[v.len() - 1] == (other, table_of(v)[other]));
        } else {
            law_value_tables(v.drop_last(), k, t, other);
            let w = v.drop_last();
            let i = choose|i: int| 0 <= i < w.len() && (#[trigger] w[i]) == (other, table_of(w)[other]);
            assert(v[i] == w[i]);
        }
    }
}

/// The signals of a message keep the order of the database, with the multiplexor taken out;
/// of several multiplexors the last one counts.
pub proof fn law_signals_keep_their_order(a: Seq<DbcEntryModel>, b: Seq<DbcEntryModel>)
    ensures
        signals_of(a + b) == signals_of(a) + signals_of(b),
        multiplexor_of(a + b) == if multiplexor_of(b) is Some {
            multiplexor_of(b)
        } else {
            multiplexor_of(a)
        },
        a.len() == 1 && a[0].mux == DbcMux::Multiplexor ==> {
            &&& signals_of(a).len() == 0
            &&& multiplexor_of(a) == Some(signal_of(a[0]))
        },
        a.len() == 1 && a[0].mux != DbcMux::Multiplexor ==> {
            &&& signals_of(a) == seq![signal_of(a[0])]
            &&& multiplexor_of(a) is None
        },
        a.len() == 0 ==> signals_of(a).len() == 0 && multiplexor_of(a) is None,
    decreases b.len(),
{
    if b.len() == 0 {
        assert(a + b =~= a);
        assert(signals_of(a) + signals_of(b) =~= signals_of(a));
    } else {
        law_signals_keep_their_order(a, b.drop_last());
        assert((a + b).drop_last() =~= a + b.drop_last());
        assert(signals_of(a + b) =~= signals_of(a) + signals_of(b));
    }
    if a.len() == 1 {
        assert(a.drop_last().len() == 0);
        assert(signals_of(a.drop_last()) =~= Seq::empty());
        assert(multiplexor_of(a.drop_last()) is None);
        assert(Seq::<SignalModel>::empty().push(signal_of(a[0])) =~= seq![signal_of(a[0])]);
    }
}

/// A database holds each message whose ID is one of a bus, 11 bits or 29 bits wide, under its
/// key, with its name, its comment and a length of at most 64; of two with the same key the
/// later one counts. Others are left out.
pub proof fn law_described_messages(v: Seq<DbcMessageModel>, m: DbcMessageModel, other: u64)
    ensures
        ({
            let before = messages_of(v);
            let after = messages_of(v.push(m));
            let code = m.key.code_spec();
            let fits = if m.key.ext {
                m.key.id < 0x2000_0000
            } else {
                m.key.id < 0x800
            };
            &&& !fits ==> after == before
            &&& fits ==> {
                let r = after[code];
                &&& after.dom().contains(code)
                &&& r.name == m.name && r.key == m.key && r.comment == m.comment
                &&& r.dlc <= 64 && (m.size <= 64 ==> r.dlc == m.size) && (m.size > 64 ==> r.dlc == 64)
                &&& r.mux == multiplexor_of(m.signals) && r.signals == signals_of(m.signals)
                &&& forall|k: u64| !#[trigger] r.mux_names.dom().contains(k)
                &&& other != code ==> {
                    &&& after.dom().contains(other) == before.dom().contains(other)
                    &&& after[other] == before[other]
                }
            }
        }),
        messages_of(Seq::empty()).dom().len() == 0,
{
    assert(v.push(m).drop_last() =~= v);
}

} // verus!
