//! Latest values and statistics of decoded signals.

use std::collections::{HashMap, VecDeque};
use vstd::prelude::*;
use crate::bus::{pushed, SIGNAL_HISTORY};
use crate::msg::{least, CanMsg, Frame, MsgKey};
use crate::number::Real;
use crate::symbols::format::ValueFormat;
use crate::symbols::{
    copy_text, decoded_views, text_view, DecodedModel, DecodedSignal, MessageModel, SymbolDb,
};

verus! {

/// Latest decoded value and statistics for one signal of one message.
pub struct SignalStats {
    pub msg_key: MsgKey,
    pub msg_name: String,
    pub name: String,
    pub unit: String,
    pub value: Real,
    pub raw: u64,
    pub text: Option<String>,
    /// Fixed-width display format from the symbol file.
    pub fmt: ValueFormat,
    pub min: Real,
    pub max: Real,
    pub count: u64,
    /// Frame timestamp of the last update.
    pub last_ts: Real,
    /// Wall-clock time of the last update.
    pub last_wall: Real,
    /// (frame timestamp, physical value), oldest first.
    pub history: VecDeque<(Real, Real)>,
}

/// What the statistics of a signal say.
#[verifier::ext_equal]
pub ghost struct SampleModel {
    pub msg_key: MsgKey,
    pub msg_name: Seq<char>,
    pub name: Seq<char>,
    pub unit: Seq<char>,
    pub value: Real,
    pub raw: u64,
    pub text: Option<Seq<char>>,
    pub fmt: ValueFormat,
    pub min: Real,
    pub max: Real,
    pub count: int,
    pub last_ts: Real,
    pub last_wall: Real,
    pub history: Seq<(Real, Real)>,
}

impl View for SignalStats {
    type V = SampleModel;

    open spec fn view(&self) -> SampleModel {
        SampleModel {
            msg_key: self.msg_key,
            msg_name: self.msg_name@,
            name: self.name@,
            unit: self.unit@,
            value: self.value,
            raw: self.raw,
            text: text_view(self.text),
            fmt: self.fmt,
            min: self.min,
            max: self.max,
            count: self.count as int,
            last_ts: self.last_ts,
            last_wall: self.last_wall,
            history: self.history@,
        }
    }
}

/// Where and when a signal was decoded.
pub ghost struct Occasion {
    pub key: MsgKey,
    pub msg_name: Seq<char>,
    pub ts: Real,
    pub wall: Real,
}

/// Statistics before the first value.
pub open spec fn no_samples(d: DecodedModel, value: Real, o: Occasion) -> SampleModel {
    SampleModel {
        msg_key: o.key,
        msg_name: o.msg_name,
        name: d.name,
        unit: d.unit,
        value,
        raw: d.raw,
        text: None,
        fmt: d.fmt,
        min: value,
        max: value,
        count: 0,
        last_ts: o.ts,
        last_wall: o.wall,
        history: Seq::empty(),
    }
}

/// Statistics after one more value.
pub open spec fn sampled(s: SampleModel, d: DecodedModel, value: Real, o: Occasion) -> SampleModel {
    SampleModel {
        value,
        raw: d.raw,
        text: d.text,
        min: s.min.lower_of(value),
        max: s.max.upper_of(value),
        count: s.count + 1,
        last_ts: o.ts,
        last_wall: o.wall,
        history: pushed(s.history, (o.ts, value), SIGNAL_HISTORY as int),
        ..s
    }
}

/// Index of the statistics of a signal, or the length.
pub open spec fn index_of(list: Seq<SampleModel>, name: Seq<char>) -> int
    decreases list.len(),
{
    if list.len() == 0 || list[0].name == name {
        0
    } else {
        1 + index_of(list.skip(1), name)
    }
}

/// A message's statistics after one more value of a signal.
pub open spec fn with_sample(
    list: Seq<SampleModel>,
    d: DecodedModel,
    value: Real,
    o: Occasion,
) -> Seq<SampleModel> {
    let p = index_of(list, d.name);
    if p < list.len() {
        list.update(p, sampled(list[p], d, value, o))
    } else {
        list.push(sampled(no_samples(d, value, o), d, value, o))
    }
}

/// A message's statistics after the signals of one frame.
pub open spec fn with_samples(
    list: Seq<SampleModel>,
    d: Seq<DecodedModel>,
    values: Seq<Real>,
    o: Occasion,
) -> Seq<SampleModel>
    decreases d.len(),
{
    if d.len() == 0 {
        list
    } else {
        with_sample(
            with_samples(list, d.drop_last(), values, o),
            d.last(),
            values[d.len() - 1],
            o,
        )
    }
}

/// The contents of statistics.
pub open spec fn sample_views(v: Seq<SignalStats>) -> Seq<SampleModel> {
    Seq::new(v.len(), |i: int| v[i]@)
}

/// Whether every count has room for `n` more.
pub open spec fn has_room(list: Seq<SampleModel>, n: int) -> bool {
    forall|i: int| 0 <= i < list.len() ==> 0 <= (#[trigger] list[i]).count <= u64::MAX - n
}

/// Whether no name stands twice.
pub open spec fn distinct_names(list: Seq<SampleModel>) -> bool {
    forall|i: int, j: int|
        0 <= i < j < list.len() ==> (#[trigger] list[i]).name != (#[trigger] list[j]).name
}

pub proof fn lemma_index_of(list: Seq<SampleModel>, name: Seq<char>)
    ensures
        0 <= index_of(list, name) <= list.len(),
        index_of(list, name) < list.len() ==> list[index_of(list, name)].name == name,
        forall|i: int| 0 <= i < index_of(list, name) ==> (#[trigger] list[i]).name != name,
    decreases list.len(),
{
    if list.len() > 0 && list[0].name != name {
        lemma_index_of(list.skip(1), name);
        assert forall|i: int| 0 <= i < index_of(list, name) implies (#[trigger] list[i]).name != name by {
            if i > 0 {
                assert(list[i] == list.skip(1)[i - 1]);
            }
        }
    }
}

/// Names stay distinct.
pub proof fn lemma_sample_names(list: Seq<SampleModel>, d: DecodedModel, value: Real, o: Occasion)
    requires
        distinct_names(list),
    ensures
        distinct_names(with_sample(list, d, value, o)),
{
    lemma_index_of(list, d.name);
    let p = index_of(list, d.name);
    let n = with_sample(list, d, value, o);
    assert forall|i: int, j: int| 0 <= i < j < n.len() implies (#[trigger] n[i]).name != (
    #[trigger] n[j]).name by {
        if p < list.len() {
            assert(n[i].name == list[i].name);
            assert(n[j].name == list[j].name);
        } else if j < list.len() {
            assert(n[i] == list[i] && n[j] == list[j]);
        } else {
            assert(n[i] == list[i]);
        }
    }
}

fn find(list: &Vec<SignalStats>, name: &String) -> (r: usize)
    ensures
        r == index_of(sample_views(list@), name@),
        r <= list@.len(),
{
    let ghost all = sample_views(list@);
    let mut i: usize = 0;
    assert(all.skip(0) =~= all);
    while i < list.len()
        invariant
            i <= list@.len(),
            all == sample_views(list@),
            index_of(all, name@) == i + index_of(all.skip(i as int), name@),
        decreases list@.len() - i,
    {
        assert(all.skip(i as int)[0] == list@[i as int]@);
        assert(all.skip(i as int).skip(1) =~= all.skip(i + 1));
        if list[i].name == *name {
            return i;
        }
        i = i + 1;
    }
    assert(all.skip(i as int).len() == 0);
    i
}

impl SignalStats {
    /// Statistics before the first value.
    fn new(
        key: MsgKey,
        msg_name: &str,
        d: &DecodedSignal,
        value: Real,
        ts: Real,
        wall: Real,
    ) -> (r: Self)
        ensures
            r@ == no_samples(d@, value, Occasion { key, msg_name: msg_name@, ts, wall }),
    {
        let r = SignalStats {
            msg_key: key,
            msg_name: msg_name.to_string(),
            name: d.name.clone(),
            unit: d.unit.clone(),
            value,
            raw: d.raw,
            text: None,
            fmt: d.fmt,
            min: value,
            max: value,
            count: 0,
            last_ts: ts,
            last_wall: wall,
            history: VecDeque::new(),
        };
        assert(r@ =~= no_samples(d@, value, Occasion { key, msg_name: msg_name@, ts, wall }));
        r
    }

    /// Takes in one more value.
    fn sample(&mut self, d: &DecodedSignal, value: Real, ts: Real, wall: Real)
        requires
            old(self).count < u64::MAX,
        ensures
            forall|o: Occasion|
                o.ts == ts && o.wall == wall ==> final(self)@ == #[trigger] sampled(
                    old(self)@,
                    d@,
                    value,
                    o,
                ),
    {
        let ghost before = self@;
        self.value = value;
        self.raw = d.raw;
        self.text = copy_text(&d.text);
        self.min = self.min.lower(value);
        self.max = self.max.upper(value);
        self.count = self.count + 1;
        self.last_ts = ts;
        self.last_wall = wall;
        if self.history.len() >= SIGNAL_HISTORY {
            self.history.pop_front();
            assert(self.history@ =~= before.history.skip(1));
        }
        self.history.push_back((ts, value));
        assert(self@.history =~= pushed(before.history, (ts, value), SIGNAL_HISTORY as int));
    }

    /// The value in the signal's format; `digits` is the value with the format's decimals.
    pub fn display_value(&self, digits: &str) -> (r: String)
        ensures
            r@ == self.fmt.value_text(digits@, text_view(self.text)),
    {
        match &self.text {
            Some(t) => self.fmt.value(digits, Some(t.as_str())),
            None => self.fmt.value(digits, None),
        }
    }

    /// Cheap copy for tables (the history can be tens of thousands of samples).
    pub fn without_history(&self) -> (r: Self)
        ensures
            r@ == (SampleModel { history: Seq::empty(), ..self@ }),
            r@.history.len() == 0 && r@.count == self@.count && r@.value == self@.value,
            r@.min == self@.min && r@.max == self@.max && r@.last_ts == self@.last_ts,
    {
        let r = SignalStats {
            msg_key: self.msg_key,
            msg_name: self.msg_name.clone(),
            name: self.name.clone(),
            unit: self.unit.clone(),
            value: self.value,
            raw: self.raw,
            text: copy_text(&self.text),
            fmt: self.fmt,
            min: self.min,
            max: self.max,
            count: self.count,
            last_ts: self.last_ts,
            last_wall: self.last_wall,
            history: VecDeque::new(),
        };
        assert(r@ =~= (SampleModel { history: Seq::empty(), ..self@ }));
        r
    }
}

fn add_samples(
    list: &mut Vec<SignalStats>,
    key: MsgKey,
    msg_name: &str,
    d: &Vec<DecodedSignal>,
    values: &Vec<Real>,
    ts: Real,
    wall: Real,
)
    requires
        values@.len() == d@.len(),
        distinct_names(sample_views(old(list)@)),
        has_room(sample_views(old(list)@), d@.len() as int),
    ensures
        sample_views(final(list)@) == with_samples(
            sample_views(old(list)@),
            decoded_views(d@),
            values@,
            Occasion { key, msg_name: msg_name@, ts, wall },
        ),
        distinct_names(sample_views(final(list)@)),
{
    let ghost start = sample_views(list@);
    let ghost all = decoded_views(d@);
    let ghost o = Occasion { key, msg_name: msg_name@, ts, wall };
    let mut i: usize = 0;
    while i < d.len()
        invariant
            i <= d@.len(),
            values@.len() == d@.len(),
            all == decoded_views(d@),
            o == (Occasion { key, msg_name: msg_name@, ts, wall }),
            distinct_names(sample_views(list@)),
            has_room(sample_views(list@), d@.len() - i),
            sample_views(list@) == with_samples(start, all.take(i as int), values@, o),
        decreases d@.len() - i,
    {
        let ghost before = sample_views(list@);
        let e = &d[i];
        proof {
            assert(all.take(i + 1).drop_last() =~= all.take(i as int));
            assert(all.take(i + 1).last() == e@);
            lemma_index_of(before, e@.name);
            lemma_sample_names(before, e@, values@[i as int], o);
        }
        let p: usize = find(list, &e.name);
        if p < list.len() {
            assert(before[p as int] == list@[p as int]@);
            list[p].sample(e, values[i], ts, wall);
            assert(sample_views(list@) =~= before.update(
                p as int,
                sampled(before[p as int], e@, values@[i as int], o),
            ));
        } else {
            let mut s = SignalStats::new(key, msg_name, e, values[i], ts, wall);
            s.sample(e, values[i], ts, wall);
            let ghost m = s@;
            list.push(s);
            assert(m == sampled(
                no_samples(e@, values@[i as int], o),
                e@,
                values@[i as int],
                o,
            ));
            assert(sample_views(list@) =~= before.push(m));
        }
        proof {
            let now = sample_views(list@);
            assert(now == with_sample(before, e@, values@[i as int], o));
            assert forall|k: int| 0 <= k < now.len() implies 0 <= (#[trigger] now[k]).count
                <= u64::MAX - (d@.len() - i - 1) by {
                if k < before.len() {
                    assert(before[k].count <= u64::MAX - (d@.len() - i));
                }
            }
        }
        i = i + 1;
    }
    assert(all.take(i as int) =~= all);
}

/// Statistics of all signals: for each message, under the code of its key, one entry per
/// signal.
pub struct SignalTable {
    pub entries: HashMap<u64, Vec<SignalStats>>,
    /// Incremented on every change so that views can skip redundant work.
    pub generation: u64,
}

/// The contents of a table.
pub open spec fn table_views(m: Map<u64, Vec<SignalStats>>) -> Map<u64, Seq<SampleModel>> {
    Map::new(|k: u64| m.dom().contains(k), |k: u64| sample_views(m[k]@))
}

impl View for SignalTable {
    type V = Map<u64, Seq<SampleModel>>;

    open spec fn view(&self) -> Map<u64, Seq<SampleModel>> {
        table_views(self.entries@)
    }
}

impl Default for SignalTable {
    fn default() -> (r: Self)
        ensures
            r@ == Map::<u64, Seq<SampleModel>>::empty(),
            r.generation == 0,
            r.wf(),
    {
        broadcast use vstd::std_specs::hash::group_hash_axioms;

        let r = SignalTable { entries: HashMap::new(), generation: 0 };
        assert(r@ =~= Map::<u64, Seq<SampleModel>>::empty());
        r
    }
}

/// The table after one more frame: the signals of its message, where a definition says
/// which there are, each get one more value.
pub open spec fn with_decoded(
    t: Map<u64, Seq<SampleModel>>,
    db: Map<u64, MessageModel>,
    m: Frame,
    values: Seq<Real>,
    wall: Real,
) -> Map<u64, Seq<SampleModel>> {
    let key = MsgKey { id: m.id, ext: m.ext };
    let code = key.code_spec();
    let data = m.data.take(m.len);
    if db.dom().contains(code) && db[code].decoded(data).len() > 0 {
        let list = if t.dom().contains(code) {
            t[code]
        } else {
            Seq::empty()
        };
        t.insert(
            code,
            with_samples(
                list,
                db[code].decoded(data),
                values,
                Occasion { key, msg_name: db[code].name_spec(data), ts: m.ts, wall },
            ),
        )
    } else {
        t
    }
}

/// How many signals a frame has.
pub open spec fn signal_count(db: Map<u64, MessageModel>, m: Frame) -> int {
    let code = MsgKey { id: m.id, ext: m.ext }.code_spec();
    if db.dom().contains(code) {
        db[code].decoded(m.data.take(m.len)).len() as int
    } else {
        0
    }
}

impl SignalTable {
    /// Within a message no name stands twice.
    pub open spec fn wf(self) -> bool {
        forall|c: u64| #[trigger] self@.dom().contains(c) ==> distinct_names(self@[c])
    }

    /// Every count has room for `n` more.
    pub open spec fn room(self, n: int) -> bool {
        forall|c: u64| #[trigger] self@.dom().contains(c) ==> has_room(self@[c], n)
    }

    /// Forgets everything.
    pub fn clear(&mut self)
        requires
            old(self).generation < u64::MAX,
        ensures
            final(self)@ == Map::<u64, Seq<SampleModel>>::empty(),
            final(self).generation == old(self).generation + 1,
            final(self).wf(),
    {
        broadcast use vstd::std_specs::hash::group_hash_axioms;

        self.entries.clear();
        self.generation = self.generation + 1;
        assert(self@ =~= Map::<u64, Seq<SampleModel>>::empty());
    }

    /// Takes in the signals of one frame. `values` holds the physical value of each signal
    /// that [`MessageDef::decode`] gives for the frame. Returns whether there were any.
    pub fn apply(&mut self, db: &SymbolDb, msg: &CanMsg, values: &Vec<Real>, wall: Real) -> (r: bool)
        requires
            msg.wf(),
            old(self).wf(),
            values@.len() == signal_count(db@, msg@),
            old(self).room(signal_count(db@, msg@)),
        ensures
            final(self).wf(),
            final(self)@ == with_decoded(old(self)@, db@, msg@, values@, wall),
            final(self).generation == old(self).generation,
            r == (signal_count(db@, msg@) > 0),
    {
        broadcast use vstd::std_specs::hash::group_hash_axioms;

        let key = msg.key();
        let code: u64 = key.code();
        let def = match db.get(key) {
            Some(d) => d,
            None => {
                return false;
            },
        };
        let d = def.decode(msg.data());
        assert(decoded_views(d@).len() == d@.len());
        if d.len() == 0 {
            return false;
        }
        let ghost before = self@;
        let name = def.name_for(msg.data());
        let mut list: Vec<SignalStats> = match self.entries.remove(&code) {
            Some(l) => l,
            None => Vec::new(),
        };
        assert(sample_views(list@) =~= (if before.dom().contains(code) {
            before[code]
        } else {
            Seq::empty()
        }));
        add_samples(&mut list, key, name, &d, values, msg.ts, wall);
        let ghost now = sample_views(list@);
        self.entries.insert(code, list);
        assert(self@ =~= before.insert(code, now));
        true
    }

    /// The statistics of a signal.
    pub fn get(&self, key: MsgKey, name: &str) -> (r: Option<&SignalStats>)
        ensures
            ({
                let c = key.code_spec();
                match r {
                    Some(s) => self@.dom().contains(c) && index_of(self@[c], name@) < self@[c].len()
                        && s@ == self@[c][index_of(self@[c], name@)],
                    None => !self@.dom().contains(c) || index_of(self@[c], name@) == self@[c].len(),
                }
            }),
    {
        broadcast use vstd::std_specs::hash::group_hash_axioms;

        match self.entries.get(&key.code()) {
            Some(list) => {
                let n = name.to_string();
                let p: usize = find(list, &n);
                if p < list.len() {
                    Some(&list[p])
                } else {
                    None
                }
            },
            None => None,
        }
    }
}

/// A frame adds one value to a signal that it holds once, and none to the others.
pub proof fn law_every_frame_counts(
    list: Seq<SampleModel>,
    d: Seq<DecodedModel>,
    values: Seq<Real>,
    o: Occasion,
    name: Seq<char>,
)
    requires
        distinct_names(list),
    ensures
        count_of(with_samples(list, d, values, o), name) == count_of(list, name) + occurrences(d, name),
    decreases d.len(),
{
    if d.len() > 0 {
        let e = d.drop_last();
        let mid = with_samples(list, e, values, o);
        law_names_stay_distinct(list, e, values, o);
        law_every_frame_counts(list, e, values, o, name);
        let last = d.last();
        lemma_index_of(mid, last.name);
        lemma_index_of(mid, name);
        let now = with_sample(mid, last, values[d.len() - 1], o);
        lemma_index_of(now, name);
        lemma_sample_names(mid, last, values[d.len() - 1], o);
        let p = index_of(mid, last.name);
        let q = index_of(mid, name);
        let s = index_of(now, name);
        if last.name == name {
            assert(now[p].name == name);
            if s < p {
                assert(mid[s].name == now[s].name);
            }
            if p < s {
                assert(now[p].name != name);
            }
            assert(s == p);
        } else {
            if q < mid.len() {
                assert(now[q].name == name);
                if s < q {
                    assert(now[s].name == mid[s].name);
                }
                if q < s {
                    assert(now[q].name != name);
                }
                assert(s == q);
                assert(now[q].count == mid[q].count);
            } else {
                if s < now.len() {
                    if s < mid.len() {
                        assert(now[s].name == mid[s].name);
                        assert(mid[s].name != name);
                    }
                }
                assert(s == now.len());
            }
        }
    }
}

/// A value lies within the limits that are noted with it.
pub proof fn law_value_within_limits(s: SampleModel, d: DecodedModel, value: Real, o: Occasion)
    requires
        !value.nan(),
    ensures
        !sampled(s, d, value, o).value.lt(sampled(s, d, value, o).min),
        !sampled(s, d, value, o).max.lt(sampled(s, d, value, o).value),
{
}

/// The history holds one sample per value, up to its cap.
pub proof fn law_history_length(s: SampleModel, d: DecodedModel, value: Real, o: Occasion)
    requires
        s.count >= 0,
        s.history.len() == least(s.count, SIGNAL_HISTORY as int),
    ensures
        sampled(s, d, value, o).history.len() == least(
            sampled(s, d, value, o).count,
            SIGNAL_HISTORY as int,
        ),
        sampled(s, d, value, o).history.last() == (o.ts, value),
{
}

/// Names stay distinct through a frame.
pub proof fn law_names_stay_distinct(
    list: Seq<SampleModel>,
    d: Seq<DecodedModel>,
    values: Seq<Real>,
    o: Occasion,
)
    requires
        distinct_names(list),
    ensures
        distinct_names(with_samples(list, d, values, o)),
    decreases d.len(),
{
    if d.len() > 0 {
        law_names_stay_distinct(list, d.drop_last(), values, o);
        lemma_sample_names(
            with_samples(list, d.drop_last(), values, o),
            d.last(),
            values[d.len() - 1],
            o,
        );
    }
}

/// How many values a signal has had.
pub open spec fn count_of(list: Seq<SampleModel>, name: Seq<char>) -> int {
    let p = index_of(list, name);
    if p < list.len() {
        list[p].count
    } else {
        0
    }
}

/// How often a signal stands in a frame.
pub open spec fn occurrences(d: Seq<DecodedModel>, name: Seq<char>) -> int
    decreases d.len(),
{
    if d.len() == 0 {
        0
    } else {
        occurrences(d.drop_last(), name) + if d.last().name == name {
            1int
        } else {
            0int
        }
    }
}

/// Limits only widen: after one more value no earlier limit and not the value itself lies
/// outside of them, and each limit is one that was there or the value. What is not a number
/// moves no limit.
pub proof fn law_limits_only_widen(s: SampleModel, d: DecodedModel, value: Real, o: Occasion)
    ensures
        ({
            let r = sampled(s, d, value, o);
            &&& !r.max.lt(s.max)
            &&& !s.min.lt(r.min)
            &&& !r.max.lt(value)
            &&& !value.lt(r.min)
            &&& r.max == s.max || r.max == value
            &&& r.min == s.min || r.min == value
            &&& !s.max.nan() ==> !r.max.nan() && (r.max != s.max ==> s.max.lt(value))
            &&& !s.min.nan() ==> !r.min.nan() && (r.min != s.min ==> value.lt(s.min))
            &&& s.max.nan() ==> r.max == value
            &&& s.min.nan() ==> r.min == value
        }),
{
}

/// The latest value is the one that was just decoded, with its text, its times and one more
/// count; what the signal is stays as it was.
pub proof fn law_latest_value_is_noted(s: SampleModel, d: DecodedModel, value: Real, o: Occasion)
    ensures
        ({
            let r = sampled(s, d, value, o);
            &&& r.value == value && r.raw == d.raw && r.text == d.text
            &&& r.last_ts == o.ts && r.last_wall == o.wall
            &&& r.count - s.count == 1
            &&& (r.name, r.unit, r.msg_name) == (s.name, s.unit, s.msg_name)
            &&& (r.msg_key, r.fmt) == (s.msg_key, s.fmt)
        }),
{
}

/// The history ends with the value that was just decoded. Before it stand the latest values
/// of the history before, in their order; only the oldest may be gone, and only when the
/// history was full.
pub proof fn law_history_keeps_the_latest(
    s: SampleModel,
    d: DecodedModel,
    value: Real,
    o: Occasion,
    k: int,
)
    requires
        0 <= k < s.history.len(),
        k > 0 || s.history.len() < SIGNAL_HISTORY,
    ensures
        ({
            let h = sampled(s, d, value, o).history;
            &&& h.len() > 0 && h[h.len() - 1] == (o.ts, value)
            &&& h[h.len() - 1 - (s.history.len() - k)] == s.history[k]
            &&& h.len() <= s.history.len() + 1
            &&& s.history.len() < SIGNAL_HISTORY ==> h.len() == s.history.len() + 1
            &&& s.history.len() >= SIGNAL_HISTORY ==> h.len() == s.history.len()
        }),
{
}

/// A signal that was not seen before starts with its first value as both limits, one count
/// and a history of that value.
pub proof fn law_first_value(list: Seq<SampleModel>, d: DecodedModel, value: Real, o: Occasion)
    requires
        forall|i: int| 0 <= i < list.len() ==> (#[trigger] list[i]).name != d.name,
    ensures
        ({
            let r = with_sample(list, d, value, o);
            let e = r[r.len() - 1];
            &&& r.len() == list.len() + 1
            &&& forall|i: int| 0 <= i < list.len() ==> #[trigger] r[i] == list[i]
            &&& e.name == d.name && e.unit == d.unit && e.fmt == d.fmt && e.raw == d.raw
            &&& e.text == d.text && e.msg_key == o.key && e.msg_name == o.msg_name
            &&& e.value == value && e.min == value && e.max == value && e.count == 1
            &&& e.history.len() == 1 && e.history[0] == (o.ts, value)
            &&& e.last_ts == o.ts && e.last_wall == o.wall
        }),
{
    lemma_index_of(list, d.name);
}

/// Whether a value lies within the limits of a signal.
pub open spec fn within(e: SampleModel, value: Real) -> bool {
    !value.lt(e.min) && !e.max.lt(value) && !e.min.nan() && !e.max.nan()
}

/// One more value changes the statistics of its own signal and of no other.
pub proof fn law_sample_touches_its_signal(
    list: Seq<SampleModel>,
    d: DecodedModel,
    value: Real,
    o: Occasion,
    k: int,
)
    requires
        distinct_names(list),
        0 <= k < list.len(),
    ensures
        with_sample(list, d, value, o).len() >= list.len(),
        with_sample(list, d, value, o)[k].name == list[k].name,
        list[k].name != d.name ==> with_sample(list, d, value, o)[k] == list[k],
        list[k].name == d.name ==> with_sample(list, d, value, o)[k].value == value
            && with_sample(list, d, value, o)[k].count == list[k].count + 1
            && with_sample(list, d, value, o).len() == list.len(),
{
    lemma_index_of(list, d.name);
    let p = index_of(list, d.name);
    if list[k].name == d.name && p != k {
        assert(list[p].name != list[k].name);
    }
}

proof fn lemma_within_stays(
    list: Seq<SampleModel>,
    d: Seq<DecodedModel>,
    values: Seq<Real>,
    o: Occasion,
    k: int,
    v: Real,
)
    requires
        distinct_names(list),
        0 <= k < list.len(),
        !v.nan(),
        within(list[k], v),
    ensures
        k < with_samples(list, d, values, o).len(),
        with_samples(list, d, values, o)[k].name == list[k].name,
        within(with_samples(list, d, values, o)[k], v),
    decreases d.len(),
{
    if d.len() > 0 {
        let e = d.drop_last();
        lemma_within_stays(list, e, values, o, k, v);
        let mid = with_samples(list, e, values, o);
        law_names_stay_distinct(list, e, values, o);
        law_sample_touches_its_signal(mid, d.last(), values[d.len() - 1], o, k);
        law_limits_only_widen(mid[k], d.last(), values[d.len() - 1], o);
        lemma_index_of(mid, d.last().name);
        if mid[k].name == d.last().name {
            assert(index_of(mid, d.last().name) == k);
        }
    }
}

/// After a frame, every value that it held lies within the limits of its signal, and so does
/// every value that lay within them before.
pub proof fn law_limits_bound_the_values_of_a_frame(
    list: Seq<SampleModel>,
    d: Seq<DecodedModel>,
    values: Seq<Real>,
    o: Occasion,
    i: int,
)
    requires
        distinct_names(list),
        0 <= i < d.len(),
        !values[i].nan(),
        forall|k: int|
            0 <= k < list.len() ==> !(#[trigger] list[k]).min.nan() && !list[k].max.nan(),
        forall|k: int| 0 <= k < d.len() ==> !(#[trigger] values[k]).nan(),
    ensures
        exists|k: int|
            0 <= k < with_samples(list, d, values, o).len() && (#[trigger] with_samples(
                list,
                d,
                values,
                o,
            )[k]).name == d[i].name && within(with_samples(list, d, values, o)[k], values[i]),
        forall|k: int, v: Real|
            0 <= k < list.len() && !v.nan() && #[trigger] within(list[k], v) ==> within(
                with_samples(list, d, values, o)[k],
                v,
            ),
        forall|k: int|
            0 <= k < with_samples(list, d, values, o).len() ==> !(#[trigger] with_samples(
                list,
                d,
                values,
                o,
            )[k]).min.nan() && !with_samples(list, d, values, o)[k].max.nan(),
    decreases d.len(),
{
    let e = d.drop_last();
    let n = d.len() - 1;
    let mid = with_samples(list, e, values, o);
    let r = with_samples(list, d, values, o);
    law_names_stay_distinct(list, e, values, o);
    if e.len() > 0 {
        let j = if i < n {
            i
        } else {
            0
        };
        law_limits_bound_the_values_of_a_frame(list, e, values, o, j);
    }
    lemma_index_of(mid, d.last().name);
    let p = index_of(mid, d.last().name);
    assert forall|k: int| 0 <= k < r.len() implies !(#[trigger] r[k]).min.nan() && !r[k].max.nan() by {
        if k < mid.len() {
            assert(!mid[k].min.nan() && !mid[k].max.nan());
        }
    }
    if i == n {
        let q = if p < mid.len() {
            p
        } else {
            mid.len() as int
        };
        assert(r[q].name == d[i].name && within(r[q], values[i]));
    } else {
        let k = choose|k: int|
            0 <= k < mid.len() && (#[trigger] mid[k]).name == e[i].name && within(mid[k], values[i]);
        let one = seq![d.last()];
        law_sample_touches_its_signal(mid, d.last(), values[n], o, k);
        law_limits_only_widen(mid[k], d.last(), values[n], o);
        if mid[k].name == d.last().name {
            if p != k {
                assert(mid[p].name != mid[k].name);
            }
        }
        assert(r[k].name == d[i].name && within(r[k], values[i]));
    }
    assert forall|k: int, v: Real|
        0 <= k < list.len() && !v.nan() && #[trigger] within(list[k], v) implies within(r[k], v) by {
        lemma_within_stays(list, d, values, o, k, v);
    }
}

/// A frame adds to the statistics of its own message, and leaves those of all others as
/// they were.
pub proof fn law_frame_touches_its_message(
    t: Map<u64, Seq<SampleModel>>,
    db: Map<u64, MessageModel>,
    m: Frame,
    values: Seq<Real>,
    wall: Real,
    key: MsgKey,
)
    requires
        key.id != m.id || key.ext != m.ext,
    ensures
        with_decoded(t, db, m, values, wall).dom().contains(key.code_spec()) == t.dom().contains(
            key.code_spec(),
        ),
        t.dom().contains(key.code_spec()) ==> with_decoded(
            t,
            db,
            m,
            values,
            wall,
        )[key.code_spec()] == t[key.code_spec()],
{
    crate::msg::law_codes_tell_keys_apart(key, MsgKey { id: m.id, ext: m.ext });
}

/// After a frame each signal that it held shows the value that was handed in for it (for the
/// last time that the signal stands in the frame), with the frame's time.
pub proof fn law_values_of_a_frame_are_noted(
    list: Seq<SampleModel>,
    d: Seq<DecodedModel>,
    values: Seq<Real>,
    o: Occasion,
    i: int,
)
    requires
        distinct_names(list),
        0 <= i < d.len(),
        forall|j: int| i < j < d.len() ==> (#[trigger] d[j]).name != d[i].name,
    ensures
        exists|k: int|
            {
                let r = with_samples(list, d, values, o);
                &&& 0 <= k < r.len()
                &&& (#[trigger] with_samples(list, d, values, o)[k]).name == d[i].name
                &&& r[k].value == values[i] && r[k].raw == d[i].raw && r[k].text == d[i].text
                &&& r[k].last_ts == o.ts && r[k].last_wall == o.wall
            },
    decreases d.len(),
{
    let e = d.drop_last();
    let n = d.len() - 1;
    let mid = with_samples(list, e, values, o);
    let r = with_samples(list, d, values, o);
    law_names_stay_distinct(list, e, values, o);
    lemma_index_of(mid, d.last().name);
    let p = index_of(mid, d.last().name);
    if i == n {
        let q = if p < mid.len() {
            p
        } else {
            mid.len() as int
        };
        assert(r[q].name == d[i].name);
    } else {
        assert(d[n].name != d[i].name);
        assert forall|j: int| i < j < e.len() implies (#[trigger] e[j]).name != e[i].name by {
            assert(d[j].name != d[i].name);
        }
        law_values_of_a_frame_are_noted(list, e, values, o, i);
        let k = choose|k: int|
            {
                &&& 0 <= k < mid.len()
                &&& (#[trigger] with_samples(list, e, values, o)[k]).name == e[i].name
                &&& mid[k].value == values[i] && mid[k].raw == e[i].raw && mid[k].text == e[i].text
                &&& mid[k].last_ts == o.ts && mid[k].last_wall == o.wall
            };
        law_sample_touches_its_signal(mid, d.last(), values[n], o, k);
        assert(r[k] == mid[k]);
        assert(with_samples(list, d, values, o)[k].name == d[i].name);
    }
}

/// A frame of a message with a definition shows in the statistics of that message, with the
/// frame's time and the wall-clock time; a frame without a definition, or without signals,
/// changes nothing.
pub proof fn law_frame_values_are_noted(
    t: Map<u64, Seq<SampleModel>>,
    db: Map<u64, MessageModel>,
    m: Frame,
    values: Seq<Real>,
    wall: Real,
    i: int,
)
    requires
        forall|c: u64| #[trigger] t.dom().contains(c) ==> distinct_names(t[c]),
    ensures
        ({
            let key = MsgKey { id: m.id, ext: m.ext };
            let c = key.code_spec();
            let d = db[c].decoded(m.data.take(m.len));
            let after = with_decoded(t, db, m, values, wall);
            &&& {
                &&& db.dom().contains(c)
                &&& 0 <= i < d.len()
                &&& forall|j: int| i < j < d.len() ==> (#[trigger] d[j]).name != d[i].name
            } ==> after.dom().contains(c) && exists|k: int|
                {
                    &&& 0 <= k < after[c].len()
                    &&& (#[trigger] after[c][k]).name == d[i].name
                    &&& after[c][k].value == values[i]
                    &&& after[c][k].raw == d[i].raw
                    &&& after[c][k].text == d[i].text
                    &&& after[c][k].last_ts == m.ts
                    &&& after[c][k].last_wall == wall
                }
            &&& !db.dom().contains(c) || d.len() == 0 ==> after == t
        }),
{
    let key = MsgKey { id: m.id, ext: m.ext };
    let c = key.code_spec();
    let data = m.data.take(m.len);
    let d = db[c].decoded(data);
    if db.dom().contains(c) && 0 <= i < d.len() && (forall|j: int|
        i < j < d.len() ==> (#[trigger] d[j]).name != d[i].name) {
        let list = if t.dom().contains(c) {
            t[c]
        } else {
            Seq::empty()
        };
        let o = Occasion { key, msg_name: db[c].name_spec(data), ts: m.ts, wall };
        law_values_of_a_frame_are_noted(list, d, values, o, i);
        let r = with_samples(list, d, values, o);
        let k = choose|k: int|
            {
                &&& 0 <= k < r.len()
                &&& (#[trigger] with_samples(list, d, values, o)[k]).name == d[i].name
                &&& r[k].value == values[i] && r[k].raw == d[i].raw && r[k].text == d[i].text
                &&& r[k].last_ts == o.ts && r[k].last_wall == o.wall
            };
        assert(with_decoded(t, db, m, values, wall)[c][k].name == d[i].name);
    }
}

/// A frame without signals, for want of a definition or of data, leaves the table as it is;
/// one with signals is found in it.
pub proof fn law_frames_without_signals(
    t: Map<u64, Seq<SampleModel>>,
    db: Map<u64, MessageModel>,
    m: Frame,
    values: Seq<Real>,
    wall: Real,
)
    ensures
        ({
            let code = MsgKey { id: m.id, ext: m.ext }.code_spec();
            let n = signal_count(db, m);
            &&& n >= 0
            &&& n == 0 ==> with_decoded(t, db, m, values, wall) == t
            &&& n > 0 ==> with_decoded(t, db, m, values, wall).dom().contains(code)
            &&& !db.dom().contains(code) ==> n == 0
            &&& db.dom().contains(code) ==> n == db[code].decoded(m.data.take(m.len)).len()
        }),
{
}

/// A signal keeps its last 20000 values, and all of them until then.
pub proof fn law_last_values_are_kept(s: SampleModel, d: DecodedModel, value: Real, o: Occasion, i: int)
    requires
        s.history.len() <= 20_000,
    ensures
        ({
            let h = sampled(s, d, value, o).history;
            let n = h.len() as int;
            &&& h.last() == (o.ts, value)
            &&& s.history.len() < 20_000 ==> n == s.history.len() + 1
            &&& s.history.len() == 20_000 ==> n == 20_000
            &&& 0 <= i < n - 1 ==> h[i] == s.history[s.history.len() - n + 1 + i]
        }),
{
}

} // verus!
