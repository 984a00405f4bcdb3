//! The live stream: the latest frames, and which of them a filter shows.
//!
//! Every frame has a sequence number. The cache of a filter lists the numbers of the frames
//! that pass it, so that only new frames are looked at.

use std::collections::VecDeque;
use vstd::prelude::*;
use crate::candump::frame_views;
use crate::msg::{greatest, CanMsg, Frame};
use crate::number::Real;
use crate::symbols::{MessageModel, SymbolDb};
use crate::view::filter::{filter_of, filter_words, frame_passes, passes, Filter, FilterModel};

verus! {

/// The frames that pass a filter, by sequence number.
pub struct FilterCache {
    pub filter: Filter,
    /// The symbol database that the filter was applied with.
    pub sym_gen: u64,
    /// Frames before this one have been looked at.
    pub last_seq: u64,
    pub seqs: VecDeque<u64>,
}

impl FilterCache {
    /// Whether the cache is a new one: no filter, and no frame looked at.
    pub open spec fn is_new(self) -> bool {
        &&& self.filter@.nothing()
        &&& self.sym_gen == 0
        &&& self.last_seq == 0
        &&& self.seqs@ == Seq::<u64>::empty()
    }

    fn new() -> (r: Self)
        ensures
            r.is_new(),
    {
        FilterCache {
            filter: Filter { wanted: Vec::new(), excluded: Vec::new() },
            sym_gen: 0,
            last_seq: 0,
            seqs: VecDeque::new(),
        }
    }
}

/// The live stream.
pub struct StreamView {
    pub symbols: Option<SymbolDb>,
    /// Incremented when the symbol database changes.
    pub sym_gen: u64,
    pub frames: VecDeque<CanMsg>,
    /// Sequence number of the first frame.
    pub front_seq: u64,
    pub cap: usize,
    pub paused: bool,
    pub paused_skipped: u64,
    /// Time of the first frame shown.
    pub t_ref: Option<Real>,
    pub cache: FilterCache,
}

/// The definitions in use.
pub open spec fn symbols_view(s: Option<SymbolDb>) -> Map<u64, MessageModel> {
    match s {
        Some(d) => d@,
        None => Map::empty(),
    }
}

/// The sequence numbers from `a` to `b` of the frames that pass, where `f` holds the frames
/// from `front` on.
pub open spec fn passing(
    f: Seq<Frame>,
    front: int,
    filter: FilterModel,
    db: Map<u64, MessageModel>,
    a: int,
    b: int,
) -> Seq<u64>
    decreases b - a,
{
    if b <= a {
        Seq::empty()
    } else if frame_passes(filter, db, f[b - 1 - front]) {
        passing(f, front, filter, db, a, b - 1).push((b - 1) as u64)
    } else {
        passing(f, front, filter, db, a, b - 1)
    }
}

/// Sequence numbers without those before `front` that they begin with.
pub open spec fn fresh(s: Seq<u64>, front: int) -> Seq<u64>
    decreases s.len(),
{
    if s.len() > 0 && s[0] < front {
        fresh(s.skip(1), front)
    } else {
        s
    }
}

proof fn lemma_passing_range(
    f: Seq<Frame>,
    front: int,
    filter: FilterModel,
    db: Map<u64, MessageModel>,
    a: int,
    b: int,
)
    requires
        0 <= a,
        b <= u64::MAX,
    ensures
        forall|i: int|
            0 <= i < passing(f, front, filter, db, a, b).len() ==> a <= #[trigger] passing(
                f,
                front,
                filter,
                db,
                a,
                b,
            )[i] < b,
    decreases b - a,
{
    if a < b {
        lemma_passing_range(f, front, filter, db, a, b - 1);
        let p = passing(f, front, filter, db, a, b - 1);
        let q = passing(f, front, filter, db, a, b);
        assert forall|i: int| 0 <= i < q.len() implies a <= #[trigger] q[i] < b by {
            if i < p.len() {
                assert(q[i] == p[i]);
            }
        }
    }
}

/// The first number of a range stands alone or not at all.
proof fn lemma_passing_first(
    f: Seq<Frame>,
    front: int,
    filter: FilterModel,
    db: Map<u64, MessageModel>,
    a: int,
    b: int,
)
    requires
        0 <= a < b,
        b <= u64::MAX,
    ensures
        passing(f, front, filter, db, a, b) == (if frame_passes(filter, db, f[a - front]) {
            seq![a as u64]
        } else {
            Seq::empty()
        }) + passing(f, front, filter, db, a + 1, b),
    decreases b - a,
{
    let head = if frame_passes(filter, db, f[a - front]) {
        seq![a as u64]
    } else {
        Seq::empty()
    };
    if b == a + 1 {
        assert(passing(f, front, filter, db, a, a) =~= Seq::<u64>::empty());
        assert(passing(f, front, filter, db, a + 1, b) =~= Seq::<u64>::empty());
        assert(passing(f, front, filter, db, a, b) =~= head + passing(f, front, filter, db, a + 1, b));
    } else {
        lemma_passing_first(f, front, filter, db, a, b - 1);
        assert(passing(f, front, filter, db, a, b) =~= head + passing(f, front, filter, db, a + 1, b));
    }
}

/// Dropping the first frame does not change which of the others pass.
proof fn lemma_passing_shift(
    f: Seq<Frame>,
    g: Seq<Frame>,
    front: int,
    shift: int,
    filter: FilterModel,
    db: Map<u64, MessageModel>,
    a: int,
    b: int,
)
    requires
        shift >= 0,
        front + shift <= a,
        b <= front + shift + g.len(),
        forall|i: int| 0 <= i < g.len() && i + shift < f.len() ==> #[trigger] g[i] == f[i + shift],
        b <= front + f.len(),
    ensures
        passing(g, front + shift, filter, db, a, b) == passing(f, front, filter, db, a, b),
    decreases b - a,
{
    if a < b {
        lemma_passing_shift(f, g, front, shift, filter, db, a, b - 1);
        let i = b - 1 - (front + shift);
        assert(g[i] == f[i + shift]);
    }
}

proof fn lemma_fresh_id(s: Seq<u64>, front: int)
    requires
        forall|i: int| 0 <= i < s.len() ==> #[trigger] s[i] >= front,
    ensures
        fresh(s, front) == s,
{
}

proof fn lemma_fresh_step(s: Seq<u64>, a: int, b: int)
    requires
        a <= b,
    ensures
        fresh(s, b) == fresh(fresh(s, a), b),
    decreases s.len(),
{
    if s.len() > 0 && s[0] < a {
        lemma_fresh_step(s.skip(1), a, b);
    }
}

proof fn lemma_fresh_append(s: Seq<u64>, t: Seq<u64>, front: int)
    requires
        forall|i: int| 0 <= i < t.len() ==> #[trigger] t[i] >= front,
    ensures
        fresh(s + t, front) == fresh(s, front) + t,
    decreases s.len(),
{
    if s.len() == 0 {
        assert(s + t =~= t);
        lemma_fresh_id(t, front);
        assert(fresh(s, front) + t =~= t);
    } else if s[0] < front {
        assert((s + t).skip(1) =~= s.skip(1) + t);
        lemma_fresh_append(s.skip(1), t, front);
    } else {
        assert((s + t)[0] == s[0]);
    }
}

/// The frames of a view, the time of the first one and how many were passed over, after one
/// more frame has come.
pub open spec fn taken(
    frames: Seq<Frame>,
    t_ref: Option<Real>,
    skipped: int,
    paused: bool,
    m: Frame,
) -> (Seq<Frame>, Option<Real>, int) {
    if paused {
        (frames, t_ref, skipped + 1)
    } else {
        (
            frames.push(m),
            if t_ref is None {
                Some(m.ts)
            } else {
                t_ref
            },
            skipped,
        )
    }
}

/// The sequence number of the first of the `n` frames that is kept of `cap`.
pub open spec fn trimmed_front(front: int, n: int, cap: int) -> int {
    if n > cap {
        front + n - cap
    } else {
        front
    }
}

impl StreamView {
    /// Sequence number behind the last frame.
    pub open spec fn back(self) -> int {
        self.front_seq + self.frames@.len()
    }

    /// The frames.
    pub open spec fn contents(self) -> Seq<Frame> {
        frame_views(self.frames@)
    }

    /// The definitions in use.
    pub open spec fn db(self) -> Map<u64, MessageModel> {
        symbols_view(self.symbols)
    }

    /// Whether the cache is one for the symbol database in use.
    pub open spec fn current(self) -> bool {
        self.cache.sym_gen == self.sym_gen
    }

    /// The cache lists the frames that pass, as far as they have been looked at; numbers of
    /// frames that are gone may stand in front.
    pub open spec fn cached(self) -> bool {
        fresh(self.cache.seqs@, self.front_seq as int) == passing(
            self.contents(),
            self.front_seq as int,
            self.cache.filter@,
            self.db(),
            self.front_seq as int,
            self.cache.last_seq as int,
        )
    }

    pub open spec fn wf(self) -> bool {
        &&& self.back() <= u64::MAX
        &&& self.cache.last_seq <= self.back()
        &&& self.cache.sym_gen <= self.sym_gen
        &&& forall|i: int| 0 <= i < self.frames@.len() ==> (#[trigger] self.frames@[i]).wf()
        &&& self.current() && !self.cache.filter@.nothing() ==> self.cached()
    }

    /// The frames that a filter shows, by sequence number.
    pub open spec fn shown(self, filter: FilterModel) -> Seq<u64> {
        passing(
            self.contents(),
            self.front_seq as int,
            filter,
            self.db(),
            self.front_seq as int,
            self.back(),
        )
    }

    /// An empty stream.
    pub fn new(cap: usize) -> (r: Self)
        ensures
            r.wf(),
            r.symbols is None,
            r.sym_gen == 0,
            r.frames@ == Seq::<CanMsg>::empty(),
            r.front_seq == 0,
            r.cap == cap,
            !r.paused,
            r.paused_skipped == 0,
            r.t_ref is None,
            r.cache.is_new(),
    {
        StreamView {
            symbols: None,
            sym_gen: 0,
            frames: VecDeque::new(),
            front_seq: 0,
            cap,
            paused: false,
            paused_skipped: 0,
            t_ref: None,
            cache: FilterCache::new(),
        }
    }

    /// Uses another symbol database, or none.
    pub fn set_symbols(&mut self, symbols: Option<SymbolDb>)
        requires
            old(self).wf(),
            old(self).sym_gen < u64::MAX,
        ensures
            final(self).wf(),
            final(self).symbols == symbols,
            final(self).sym_gen == old(self).sym_gen + 1,
            final(self).frames == old(self).frames,
            final(self).front_seq == old(self).front_seq,
            final(self).cap == old(self).cap,
            final(self).paused == old(self).paused,
            final(self).paused_skipped == old(self).paused_skipped,
            final(self).t_ref == old(self).t_ref,
            final(self).cache == old(self).cache,
    {
        self.symbols = symbols;
        self.sym_gen = self.sym_gen + 1;
    }

    /// Takes in a frame; while paused, frames are only counted.
    pub fn take(&mut self, m: CanMsg)
        requires
            old(self).wf(),
            m.wf(),
            old(self).back() < u64::MAX,
            old(self).paused_skipped < u64::MAX,
        ensures
            final(self).wf(),
            final(self).frames@ == (if old(self).paused {
                old(self).frames@
            } else {
                old(self).frames@.push(m)
            }),
            final(self).paused_skipped == old(self).paused_skipped + (if old(self).paused {
                1int
            } else {
                0int
            }),
            final(self).t_ref == (if old(self).paused || old(self).t_ref is Some {
                old(self).t_ref
            } else {
                Some(m.ts)
            }),
            (final(self).contents(), final(self).t_ref, final(self).paused_skipped as int) == taken(
                old(self).contents(),
                old(self).t_ref,
                old(self).paused_skipped as int,
                old(self).paused,
                m@,
            ),
            final(self).front_seq == old(self).front_seq,
            final(self).symbols == old(self).symbols,
            final(self).sym_gen == old(self).sym_gen,
            final(self).cap == old(self).cap,
            final(self).paused == old(self).paused,
            final(self).cache == old(self).cache,
    {
        if self.paused {
            self.paused_skipped = self.paused_skipped + 1;
            return;
        }
        if self.t_ref.is_none() {
            self.t_ref = Some(m.ts);
        }
        let ghost before = *self;
        self.frames.push_back(m);
        proof {
            assert forall|i: int| 0 <= i < self.frames@.len() implies (#[trigger] self.frames@[i]).wf() by {
                if i < before.frames@.len() {
                    assert(before.frames@[i].wf());
                }
            }
            if self.current() && !self.cache.filter@.nothing() {
                lemma_passing_shift(
                    before.contents(),
                    self.contents(),
                    self.front_seq as int,
                    0,
                    self.cache.filter@,
                    self.db(),
                    self.front_seq as int,
                    self.cache.last_seq as int,
                );
            }
        }
    }

    fn drop_first(&mut self)
        requires
            old(self).wf(),
            old(self).frames@.len() > 0,
        ensures
            final(self).wf(),
            final(self).frames@ == old(self).frames@.skip(1),
            final(self).front_seq == old(self).front_seq + 1,
            final(self).symbols == old(self).symbols,
            final(self).sym_gen == old(self).sym_gen,
            final(self).cap == old(self).cap,
            final(self).paused == old(self).paused,
            final(self).paused_skipped == old(self).paused_skipped,
            final(self).t_ref == old(self).t_ref,
            final(self).cache == old(self).cache,
    {
        let ghost before = *self;
        self.frames.pop_front();
        self.front_seq = self.front_seq + 1;
        proof {
            assert(self.frames@ =~= before.frames@.skip(1));
            assert forall|i: int| 0 <= i < self.frames@.len() implies (#[trigger] self.frames@[i]).wf() by {
                assert(before.frames@[i + 1].wf());
            }
            if self.current() && !self.cache.filter@.nothing() {
                let f = before.front_seq as int;
                let last = self.cache.last_seq as int;
                let x = self.cache.filter@;
                let s = self.cache.seqs@;
                let old_list = passing(before.contents(), f, x, self.db(), f, last);
                lemma_fresh_step(s, f, f + 1);
                if last <= f {
                    assert(old_list =~= Seq::<u64>::empty());
                    assert(fresh(old_list, f + 1) =~= Seq::<u64>::empty());
                    assert(passing(self.contents(), f + 1, x, self.db(), f + 1, last) =~= Seq::<
                        u64,
                    >::empty());
                } else {
                    lemma_passing_first(before.contents(), f, x, self.db(), f, last);
                    let rest = passing(before.contents(), f, x, self.db(), f + 1, last);
                    lemma_passing_range(before.contents(), f, x, self.db(), f + 1, last);
                    let head = if frame_passes(x, self.db(), before.contents()[0]) {
                        seq![f as u64]
                    } else {
                        Seq::empty()
                    };
                    lemma_fresh_append(head, rest, f + 1);
                    assert(fresh(head, f + 1) =~= Seq::<u64>::empty()) by {
                        if head.len() > 0 {
                            assert(head.skip(1) =~= Seq::<u64>::empty());
                            assert(fresh(head, f + 1) == fresh(head.skip(1), f + 1));
                        }
                    }
                    assert(fresh(old_list, f + 1) =~= rest);
                    lemma_passing_shift(
                        before.contents(),
                        self.contents(),
                        f,
                        1,
                        x,
                        self.db(),
                        f + 1,
                        last,
                    );
                }
            }
        }
    }

    /// Drops the oldest frames until no more than the cap are left.
    pub fn trim(&mut self)
        requires
            old(self).wf(),
        ensures
            final(self).wf(),
            ({
                let n = greatest(old(self).frames@.len() - old(self).cap, 0);
                &&& final(self).frames@ == old(self).frames@.skip(n)
                &&& final(self).front_seq == old(self).front_seq + n
            }),
            final(self).front_seq == trimmed_front(
                old(self).front_seq as int,
                old(self).frames@.len() as int,
                old(self).cap as int,
            ),
            final(self).symbols == old(self).symbols,
            final(self).sym_gen == old(self).sym_gen,
            final(self).cap == old(self).cap,
            final(self).paused == old(self).paused,
            final(self).paused_skipped == old(self).paused_skipped,
            final(self).t_ref == old(self).t_ref,
            final(self).cache == old(self).cache,
    {
        let ghost start = self.frames@;
        let ghost mut n: int = 0;
        assert(start.skip(0) =~= start);
        while self.frames.len() > self.cap
            invariant
                self.wf(),
                0 <= n <= start.len(),
                n <= greatest(start.len() - self.cap, 0),
                start == old(self).frames@,
                self.frames@ == start.skip(n),
                self.front_seq == old(self).front_seq + n,
                self.symbols == old(self).symbols,
                self.sym_gen == old(self).sym_gen,
                self.cap == old(self).cap,
                self.paused == old(self).paused,
                self.paused_skipped == old(self).paused_skipped,
                self.t_ref == old(self).t_ref,
                self.cache == old(self).cache,
            decreases self.frames@.len(),
        {
            self.drop_first();
            proof {
                assert(start.skip(n).skip(1) =~= start.skip(n + 1));
                n = n + 1;
            }
        }
    }

    /// Brings the cache up to date with a filter: it then lists exactly the frames that
    /// pass.
    pub fn update_filter_cache(&mut self, text: &str)
        requires
            old(self).wf(),
        ensures
            final(self).wf(),
            final(self).cache.filter@ == filter_of(filter_words(text@)),
            final(self).cache.sym_gen == final(self).sym_gen,
            final(self).cache.last_seq == final(self).back(),
            final(self).cache.seqs@ == (if !final(self).cache.filter@.nothing() {
                final(self).shown(final(self).cache.filter@)
            } else if old(self).cache.filter@ == final(self).cache.filter@ && old(self).current() {
                old(self).cache.seqs@
            } else {
                Seq::empty()
            }),
            final(self).symbols == old(self).symbols,
            final(self).sym_gen == old(self).sym_gen,
            final(self).frames == old(self).frames,
            final(self).front_seq == old(self).front_seq,
            final(self).cap == old(self).cap,
            final(self).paused == old(self).paused,
            final(self).paused_skipped == old(self).paused_skipped,
            final(self).t_ref == old(self).t_ref,
    {
        let filter = Filter::parse(text);
        let front: u64 = self.front_seq;
        let total: usize = self.frames.len();
        let back: u64 = front + total as u64;
        if !self.cache.filter.same(&filter) || self.cache.sym_gen != self.sym_gen {
            self.cache.filter = filter;
            self.cache.sym_gen = self.sym_gen;
            self.cache.seqs.clear();
            self.cache.last_seq = front;
            proof {
                assert(fresh(self.cache.seqs@, front as int) =~= Seq::<u64>::empty());
            }
        }
        if self.cache.filter.is_empty() {
            self.cache.last_seq = back;
            return;
        }
        let start: u64 = if self.cache.last_seq > front {
            self.cache.last_seq
        } else {
            front
        };
        let ghost x = self.cache.filter@;
        let ghost all = self.contents();
        let ghost db = self.db();
        let ghost first = self.cache.seqs@;
        let mut seq: u64 = start;
        proof {
            if self.cache.last_seq < front {
                assert(passing(all, front as int, x, db, front as int, front as int) =~= passing(
                    all,
                    front as int,
                    x,
                    db,
                    front as int,
                    self.cache.last_seq as int,
                ));
            }
        }
        while seq < back
            invariant
                start <= seq <= back,
                front <= start,
                front == self.front_seq,
                total == self.frames@.len(),
                back == front + total,
                x == self.cache.filter@,
                all == self.contents(),
                db == self.db(),
                forall|i: int| 0 <= i < self.frames@.len() ==> (#[trigger] self.frames@[i]).wf(),
                fresh(self.cache.seqs@, front as int) == passing(
                    all,
                    front as int,
                    x,
                    db,
                    front as int,
                    seq as int,
                ),
                self.cache.sym_gen == self.sym_gen,
                self.symbols == old(self).symbols,
                self.sym_gen == old(self).sym_gen,
                self.frames == old(self).frames,
                self.front_seq == old(self).front_seq,
                self.cap == old(self).cap,
                self.paused == old(self).paused,
                self.paused_skipped == old(self).paused_skipped,
                self.t_ref == old(self).t_ref,
            decreases back - seq,
        {
            assert(seq - front < total);
            let i: usize = (seq - front) as usize;
            let ghost s0 = self.cache.seqs@;
            let m = &self.frames[i];
            assert(all[i as int] == m@);
            let ok = passes(&self.cache.filter, self.symbols.as_ref(), m);
            if ok {
                self.cache.seqs.push_back(seq);
                proof {
                    let t = seq![seq];
                    assert(self.cache.seqs@ =~= s0 + t);
                    lemma_fresh_append(s0, t, front as int);
                    let p = passing(all, front as int, x, db, front as int, seq as int);
                    assert(p + t =~= p.push(seq));
                }
            }
            seq = seq + 1;
        }
        self.cache.last_seq = back;
        let ghost list = self.shown(x);
        proof {
            lemma_passing_range(all, front as int, x, db, front as int, back as int);
        }
        while self.cache.seqs.len() > 0 && self.cache.seqs[0] < front
            invariant
                front == self.front_seq,
                back == self.front_seq + self.frames@.len(),
                x == self.cache.filter@,
                all == self.contents(),
                db == self.db(),
                list == passing(all, front as int, x, db, front as int, back as int),
                fresh(self.cache.seqs@, front as int) == list,
                self.cache.last_seq == back,
                self.cache.sym_gen == self.sym_gen,
                forall|i: int| 0 <= i < self.frames@.len() ==> (#[trigger] self.frames@[i]).wf(),
                self.symbols == old(self).symbols,
                self.sym_gen == old(self).sym_gen,
                self.frames == old(self).frames,
                self.front_seq == old(self).front_seq,
                self.cap == old(self).cap,
                self.paused == old(self).paused,
                self.paused_skipped == old(self).paused_skipped,
                self.t_ref == old(self).t_ref,
            decreases self.cache.seqs@.len(),
        {
            let ghost s0 = self.cache.seqs@;
            self.cache.seqs.pop_front();
            assert(self.cache.seqs@ =~= s0.skip(1));
        }
        assert(self.cache.seqs@ == list);
    }

    /// How many rows are shown with the cached filter.
    pub fn rows(&self) -> (r: usize)
        ensures
            r == (if self.cache.filter@.nothing() {
                self.frames@.len()
            } else {
                self.cache.seqs@.len()
            }),
    {
        if self.cache.filter.is_empty() {
            self.frames.len()
        } else {
            self.cache.seqs.len()
        }
    }

    /// Whether the cache is up to date.
    pub open spec fn fresh_cache(self) -> bool {
        &&& self.wf()
        &&& self.cache.sym_gen == self.sym_gen
        &&& self.cache.last_seq == self.back()
        &&& !self.cache.filter@.nothing() ==> self.cache.seqs@ == self.shown(self.cache.filter@)
    }

    /// The frame in a row, with the cached filter.
    pub fn row(&self, i: usize) -> (r: Option<&CanMsg>)
        requires
            self.fresh_cache(),
        ensures
            match r {
                Some(m) => if self.cache.filter@.nothing() {
                    i < self.frames@.len() && *m == self.frames@[i as int]
                } else {
                    i < self.cache.seqs@.len() && *m == self.frames@[self.cache.seqs@[i as int]
                        - self.front_seq]
                },
                None => i >= (if self.cache.filter@.nothing() {
                    self.frames@.len()
                } else {
                    self.cache.seqs@.len()
                }),
            },
    {
        if self.cache.filter.is_empty() {
            if i < self.frames.len() {
                Some(&self.frames[i])
            } else {
                None
            }
        } else if i < self.cache.seqs.len() {
            proof {
                lemma_passing_range(
                    self.contents(),
                    self.front_seq as int,
                    self.cache.filter@,
                    self.db(),
                    self.front_seq as int,
                    self.back(),
                );
            }
            let s: u64 = self.cache.seqs[i];
            let total: usize = self.frames.len();
            assert(self.front_seq <= s < self.back());
            assert(s - self.front_seq < total);
            Some(&self.frames[(s - self.front_seq) as usize])
        } else {
            None
        }
    }

    /// Forgets all frames.
    pub fn clear(&mut self)
        requires
            old(self).wf(),
        ensures
            final(self).wf(),
            final(self).frames@ == Seq::<CanMsg>::empty(),
            final(self).front_seq == 0,
            final(self).paused_skipped == 0,
            final(self).t_ref is None,
            final(self).cache.is_new(),
            final(self).symbols == old(self).symbols,
            final(self).sym_gen == old(self).sym_gen,
            final(self).cap == old(self).cap,
            final(self).paused == old(self).paused,
    {
        self.frames.clear();
        self.front_seq = 0;
        self.cache = FilterCache::new();
        self.t_ref = None;
        self.paused_skipped = 0;
    }
}

/// A sequence number is listed exactly when its frame is still there and passes the filter.
pub proof fn law_shown_are_the_passing_frames(s: StreamView, filter: FilterModel, n: u64)
    requires
        s.wf(),
    ensures
        s.shown(filter).contains(n) <==> (s.front_seq <= n < s.back() && frame_passes(
            filter,
            s.db(),
            s.contents()[n - s.front_seq],
        )),
{
    lemma_passing_contains(
        s.contents(),
        s.front_seq as int,
        filter,
        s.db(),
        s.front_seq as int,
        s.back(),
        n,
    );
}

proof fn lemma_passing_contains(
    f: Seq<Frame>,
    front: int,
    filter: FilterModel,
    db: Map<u64, MessageModel>,
    a: int,
    b: int,
    n: u64,
)
    requires
        0 <= a,
        b <= u64::MAX,
    ensures
        passing(f, front, filter, db, a, b).contains(n) <==> (a <= n < b && frame_passes(
            filter,
            db,
            f[n - front],
        )),
    decreases b - a,
{
    let q = passing(f, front, filter, db, a, b);
    if a < b {
        lemma_passing_contains(f, front, filter, db, a, b - 1, n);
        let p = passing(f, front, filter, db, a, b - 1);
        if q != p {
            assert(q == p.push((b - 1) as u64));
            assert(q[p.len() as int] == (b - 1) as u64);
            if p.contains(n) {
                let i = choose|i: int| 0 <= i < p.len() && p[i] == n;
                assert(q[i] == n);
            }
            if q.contains(n) {
                let i = choose|i: int| 0 <= i < q.len() && q[i] == n;
                if i < p.len() {
                    assert(p[i] == n);
                }
            }
        }
    } else {
        assert(q =~= Seq::<u64>::empty());
    }
}

/// A frame that comes is the last one shown, and the first of all sets the time that the view
/// counts from; while the view is paused it is counted and nothing else.
pub proof fn law_frames_that_come(
    frames: Seq<Frame>,
    t_ref: Option<Real>,
    skipped: int,
    m: Frame,
    i: int,
)
    ensures
        taken(frames, t_ref, skipped, true, m) == (frames, t_ref, skipped + 1),
        ({
            let (f, t, n) = taken(frames, t_ref, skipped, false, m);
            &&& f.len() == frames.len() + 1 && f.last() == m
            &&& 0 <= i < frames.len() ==> f[i] == frames[i]
            &&& t_ref is Some ==> t == t_ref
            &&& t_ref is None ==> t == Some(m.ts)
            &&& n == skipped
        }),
{
}

/// No more than `cap` frames stay, and of more the latest.
pub proof fn law_latest_frames_stay(front: int, n: int, cap: int)
    requires
        0 <= cap,
        0 <= n,
    ensures
        ({
            let back = front + n;
            let f = trimmed_front(front, n, cap);
            &&& front <= f <= back
            &&& back - f <= cap
            &&& n <= cap ==> f == front
            &&& n > cap ==> back - f == cap
        }),
{
}

/// Frames are listed in the order in which they came, each once.
pub proof fn law_shown_in_order(
    f: Seq<Frame>,
    front: int,
    filter: FilterModel,
    db: Map<u64, MessageModel>,
    a: int,
    b: int,
    i: int,
    j: int,
)
    requires
        0 <= front <= a <= b <= u64::MAX,
        0 <= i < j < passing(f, front, filter, db, a, b).len(),
    ensures
        a <= passing(f, front, filter, db, a, b)[i] < passing(f, front, filter, db, a, b)[j] < b,
    decreases b - a,
{
    if b > a {
        lemma_passing_range(f, front, filter, db, a, b - 1);
        let s = passing(f, front, filter, db, a, b - 1);
        if j < s.len() {
            law_shown_in_order(f, front, filter, db, a, b - 1, i, j);
        }
    }
}

} // verus!
