//! The transmit form, the list of periodic messages and playback.

use vstd::prelude::*;
use crate::bus::ReplayProgress;
use crate::candump::loggable;
use crate::msg::{
    can_read_hex, data_frame, fd_len, fd_len_ok, hex_bytes, hex_readable, hex_text, id_digits,
    is_plain, law_hex_text_reads_back, law_id_reads_back, law_what_is_read_back, least, padded_data,
    parse_hex_bytes, parse_hex_id, read_back, spaced_hex, CanMsg, Dir, Frame, MsgKey,
};
use crate::number::{decimal, digits, format_uint, parsed, put_decimal, IntError, Real};
use crate::symbols::{MessageModel, SymbolDb};
use crate::text::{
    chars_of, lemma_text_asym, lemma_text_total, lemma_text_trans, put, same,
    string_of, text_before, text_less,
};

verus! {

/// What the user entered as a frame to send.
#[derive(Debug)]
pub struct TxForm {
    pub id: String,
    pub ext: bool,
    pub fd: bool,
    pub brs: bool,
    pub rtr: bool,
    pub data: String,
}

/// What a form says.
pub ghost struct FormModel {
    pub id: Seq<char>,
    pub ext: bool,
    pub fd: bool,
    pub brs: bool,
    pub rtr: bool,
    pub data: Seq<char>,
}

impl View for TxForm {
    type V = FormModel;

    open spec fn view(&self) -> FormModel {
        FormModel {
            id: self.id@,
            ext: self.ext,
            fd: self.fd,
            brs: self.brs,
            rtr: self.rtr,
            data: self.data@,
        }
    }
}

impl Default for TxForm {
    fn default() -> (r: Self)
        ensures
            r@ == (FormModel {
                id: "123"@,
                ext: false,
                fd: false,
                brs: false,
                rtr: false,
                data: "00 00 00 00 00 00 00 00"@,
            }),
    {
        TxForm {
            id: "123".to_string(),
            ext: false,
            fd: false,
            brs: false,
            rtr: false,
            data: "00 00 00 00 00 00 00 00".to_string(),
        }
    }
}

/// The message about a length that no FD frame has.
pub open spec fn bad_fd_length(n: int) -> Seq<char> {
    decimal(n) + " bytes is not a valid CAN FD length (0-8,12,16,20,24,32,48,64)"@
}

/// Whether the data of a form has to be read.
pub open spec fn reads_data(f: FormModel) -> bool {
    &&& parsed(id_digits(f.id), 16, u32::MAX as int) matches Ok(id) && id <= 0x1FFF_FFFF
    &&& !(f.rtr && f.fd)
}

/// The frame that a form describes, or why it describes none. IDs over 7FF are extended in
/// any case. A remote frame asks for as many bytes as the data holds, up to 8; FD frames are
/// never remote.
pub open spec fn built(f: FormModel, ts: Real) -> Result<Frame, Seq<char>> {
    match parsed(id_digits(f.id), 16, u32::MAX as int) {
        Err(e) => Err("invalid ID '"@ + f.id + "': "@ + e.message()),
        Ok(id) => {
            let ext = f.ext || id > 0x7FF;
            let data = if f.rtr {
                Ok(Seq::empty())
            } else {
                hex_text(f.data)
            };
            if id > 0x1FFF_FFFF {
                Err("ID exceeds 29 bits"@)
            } else {
                match data {
                    Err(e) => Err(e),
                    Ok(d) => if f.fd && !fd_len(d.len() as int) {
                        Err(bad_fd_length(d.len() as int))
                    } else if !f.fd && d.len() > 8 {
                        Err("classic CAN frames carry at most 8 bytes (enable FD)"@)
                    } else {
                        let m = Frame {
                            fd: f.fd,
                            brs: f.fd && f.brs,
                            rtr: f.rtr && !f.fd,
                            dir: Dir::Tx,
                            ..data_frame(ts, id as u32, ext, d)
                        };
                        if m.rtr {
                            Ok(
                                Frame {
                                    len: match hex_text(f.data) {
                                        Ok(d) => least(d.len() as int, 8),
                                        Err(_) => 0,
                                    },
                                    ..m
                                },
                            )
                        } else {
                            Ok(m)
                        }
                    },
                }
            }
        },
    }
}

impl TxForm {
    /// Tests whether [`TxForm::build`] takes the form.
    pub fn can_build(&self) -> (r: bool)
        ensures
            r == (reads_data(self@) ==> hex_readable(self.data@)),
    {
        if self.rtr && self.fd {
            return true;
        }
        match parse_hex_id(self.id.as_str()) {
            Ok(id) => id > 0x1FFF_FFFF || can_read_hex(self.data.as_str()),
            Err(_) => true,
        }
    }

    /// Builds the frame that the form describes.
    pub fn build(&self, ts: Real) -> (r: Result<CanMsg, String>)
        requires
            reads_data(self@) ==> hex_readable(self.data@),
        ensures
            match r {
                Ok(m) => m.wf() && built(self@, ts) == Ok::<Frame, Seq<char>>(m@),
                Err(e) => built(self@, ts) == Err::<Frame, Seq<char>>(e@),
            },
    {
        let id: u32 = match parse_hex_id(self.id.as_str()) {
            Ok(id) => id,
            Err(e) => {
                return Err(e);
            },
        };
        let ext = self.ext || id > 0x7FF;
        if id > 0x1FFF_FFFF {
            return Err("ID exceeds 29 bits".to_string());
        }
        let data: Vec<u8> = if self.rtr {
            Vec::new()
        } else {
            match parse_hex_bytes(self.data.as_str()) {
                Ok(d) => d,
                Err(e) => {
                    return Err(e);
                },
            }
        };
        assert(self.rtr ==> data@ =~= Seq::<u8>::empty());
        if self.fd {
            if !fd_len_ok(data.len()) {
                let mut t: Vec<char> = Vec::new();
                put_decimal(&mut t, data.len() as u64);
                put(&mut t, " bytes is not a valid CAN FD length (0-8,12,16,20,24,32,48,64)");
                assert(t@ =~= bad_fd_length(data@.len() as int));
                return Err(string_of(t.as_slice()));
            }
        } else if data.len() > 8 {
            return Err("classic CAN frames carry at most 8 bytes (enable FD)".to_string());
        }
        let mut m = CanMsg::new(ts, id, ext, data.as_slice());
        m.fd = self.fd;
        m.brs = self.fd && self.brs;
        m.rtr = self.rtr && !self.fd;
        if m.rtr {
            m.len = match parse_hex_bytes(self.data.as_str()) {
                Ok(d) => if d.len() < 8 {
                    d.len() as u8
                } else {
                    8
                },
                Err(_) => 0,
            };
        }
        m.dir = Dir::Tx;
        Ok(m)
    }

    /// The form for a frame that was seen.
    pub fn from_message(m: &CanMsg) -> (r: Self)
        requires
            m.wf(),
        ensures
            r@ == form_of(m@),
    {
        let id = format_uint(m.id as u64, 16);
        TxForm {
            id: string_of(id.as_slice()),
            ext: m.ext,
            fd: m.fd,
            brs: m.brs,
            rtr: m.rtr,
            data: m.data_hex(),
        }
    }

    /// Fills in a message of the symbol database: its ID and as many zeros as it is long.
    pub fn set_symbol(&mut self, key: MsgKey, dlc: u8)
        ensures
            final(self)@ == (FormModel {
                id: digits(key.id as int, 16),
                ext: key.ext,
                fd: dlc > 8,
                data: spaced_hex(Seq::new(dlc as nat, |i: int| 0u8)),
                ..old(self)@
            }),
            final(self)@ == form_for(old(self)@, key, dlc),
    {
        let mut zeros: Vec<u8> = Vec::new();
        let mut i: u8 = 0;
        while i < dlc
            invariant
                i <= dlc,
                zeros@ == Seq::new(i as nat, |j: int| 0u8),
            decreases dlc - i,
        {
            zeros.push(0);
            i = i + 1;
            assert(zeros@ =~= Seq::new(i as nat, |j: int| 0u8));
        }
        let id = format_uint(key.id as u64, 16);
        self.id = string_of(id.as_slice());
        self.ext = key.ext;
        self.fd = dlc > 8;
        self.data = hex_bytes(zeros.as_slice());
    }
}

/// A form with a message chosen: its key, and as many zeros as it has bytes.
pub open spec fn form_for(f: FormModel, key: MsgKey, dlc: u8) -> FormModel {
    FormModel {
        id: digits(key.id as int, 16),
        ext: key.ext,
        fd: dlc > 8,
        data: spaced_hex(Seq::new(dlc as nat, |i: int| 0u8)),
        ..f
    }
}

/// Every frame that a form describes can be written to a log and comes back whole.
pub proof fn law_built_frames_are_loggable(f: FormModel, ts: Real)
    requires
        built(f, ts) is Ok,
    ensures
        loggable(built(f, ts)->Ok_0),
        is_plain(built(f, ts)->Ok_0),
{
    let m = built(f, ts)->Ok_0;
    let data = if f.rtr {
        Seq::empty()
    } else {
        hex_text(f.data)->Ok_0
    };
    assert(m.data == padded_data(data));
    if !m.rtr {
        assert(m.data.take(m.len) =~= data);
    }
    crate::number::lemma_scan_max(0, id_digits(f.id), 16, u32::MAX as int);
    crate::number::lemma_scan_max(0, id_digits(f.id).skip(1), 16, u32::MAX as int);
}

/// The form for a frame that was seen.
pub open spec fn form_of(m: Frame) -> FormModel {
    FormModel {
        id: digits(m.id as int, 16),
        ext: m.ext,
        fd: m.fd,
        brs: m.brs,
        rtr: m.rtr,
        data: if m.rtr {
            "RTR"@
        } else {
            spaced_hex(m.data.take(m.len))
        },
    }
}

/// A data frame that was seen and copied into the form is sent as it was: its ID, format,
/// kind, length and bytes. (Remote frames lose the length that they ask for.)
pub proof fn law_copied_frame_is_sent_as_seen(m: Frame, ts: Real)
    requires
        !m.rtr,
        if m.ext {
            m.id <= 0x1FFF_FFFF
        } else {
            m.id <= 0x7FF
        },
        m.data.len() == 64,
        0 <= m.len <= 64,
        if m.fd {
            fd_len(m.len)
        } else {
            m.len <= 8
        },
    ensures
        reads_data(form_of(m)) ==> hex_readable(form_of(m).data),
        built(form_of(m), ts) == Ok::<Frame, Seq<char>>(
            Frame { dir: Dir::Tx, ..read_back(m, ts) },
        ),
        is_plain(m) ==> built(form_of(m), ts) == Ok::<Frame, Seq<char>>(
            Frame { ts, dir: Dir::Tx, ..m },
        ),
{
    let d = m.data.take(m.len);
    law_hex_text_reads_back(d);
    law_id_reads_back(m.id, m.ext);
    law_what_is_read_back(m, ts);
    assert(padded_data(d) =~= read_back(m, ts).data);
    assert(built(form_of(m), ts)->Ok_0 =~= Frame { dir: Dir::Tx, ..read_back(m, ts) });
}

/// What is shown of a message to choose: its name, key and length.
pub open spec fn choice_of(m: MessageModel) -> (Seq<char>, MsgKey, u8) {
    (m.name, m.key, m.dlc)
}

/// The contents of messages to choose.
pub open spec fn choice_views(v: Seq<(String, MsgKey, u8)>) -> Seq<(Seq<char>, MsgKey, u8)> {
    Seq::new(v.len(), |i: int| (v[i].0@, v[i].1, v[i].2))
}

/// Position among messages with the same name: by ID, then format, then length.
pub open spec fn choice_rank(c: (Seq<char>, MsgKey, u8)) -> int {
    512 * c.1.id + (if c.1.ext {
        256int
    } else {
        0int
    }) + c.2
}

/// Whether a message comes before another: by name, then ID, then format, then length.
pub open spec fn choice_before(a: (Seq<char>, MsgKey, u8), b: (Seq<char>, MsgKey, u8)) -> bool {
    if a.0 != b.0 {
        text_before(a.0, b.0)
    } else {
        choice_rank(a) < choice_rank(b)
    }
}

/// The order of messages to choose is a total one.
pub proof fn law_choice_order(
    a: (Seq<char>, MsgKey, u8),
    b: (Seq<char>, MsgKey, u8),
    c: (Seq<char>, MsgKey, u8),
)
    ensures
        choice_before(a, b) && choice_before(b, c) ==> choice_before(a, c),
        !choice_before(a, a),
        a == b || choice_before(a, b) || choice_before(b, a),
{
    lemma_text_total(a.0, b.0);
    if text_before(a.0, b.0) && text_before(b.0, c.0) {
        lemma_text_trans(a.0, b.0, c.0);
        lemma_text_asym(a.0, b.0);
    }
}

/// Whether the messages that stand under some codes are listed, in the order of the codes.
pub open spec fn lists_codes(
    db: Map<u64, MessageModel>,
    codes: Seq<u64>,
    v: Seq<(Seq<char>, MsgKey, u8)>,
) -> bool {
    &&& codes.len() == v.len()
    &&& forall|i: int| 0 <= i < v.len() ==> #[trigger] v[i] == choice_of(db[codes[i]])
}

/// Whether every message of a database is listed, and each once.
pub open spec fn lists_each_once(
    db: Map<u64, MessageModel>,
    v: Seq<(Seq<char>, MsgKey, u8)>,
) -> bool {
    exists|codes: Seq<u64>|
        {
            &&& #[trigger] lists_codes(db, codes, v)
            &&& codes.no_duplicates()
            &&& forall|c: u64| #[trigger] db.dom().contains(c) == codes.contains(c)
        }
}

/// Whether no message stands behind one that it comes before.
pub open spec fn choices_sorted(v: Seq<(Seq<char>, MsgKey, u8)>) -> bool {
    forall|i: int, j: int|
        #![trigger v[i], v[j]]
        0 <= i < j < v.len() ==> !choice_before(v[j], v[i])
}

fn comes_first(a: &(String, MsgKey, u8), b: &(String, MsgKey, u8)) -> (r: bool)
    ensures
        r == choice_before((a.0@, a.1, a.2), (b.0@, b.1, b.2)),
{
    let x = chars_of(a.0.as_str());
    let y = chars_of(b.0.as_str());
    if !same(x.as_slice(), y.as_slice()) {
        return text_less(x.as_slice(), y.as_slice());
    }
    if a.1.id != b.1.id {
        a.1.id < b.1.id
    } else if a.1.ext != b.1.ext {
        b.1.ext
    } else {
        a.2 < b.2
    }
}

/// Adds a message to a sorted list. Returns its place.
fn put_choice(v: &mut Vec<(String, MsgKey, u8)>, c: (String, MsgKey, u8)) -> (p: usize)
    requires
        choices_sorted(choice_views(old(v)@)),
    ensures
        p <= old(v)@.len(),
        choice_views(final(v)@) == choice_views(old(v)@).insert(p as int, (c.0@, c.1, c.2)),
        choices_sorted(choice_views(final(v)@)),
{
    let ghost o = choice_views(v@);
    let ghost m = (c.0@, c.1, c.2);
    let n: usize = v.len();
    let mut p: usize = n;
    while p > 0 && comes_first(&c, &v[p - 1])
        invariant
            p <= n,
            n == v@.len(),
            o == choice_views(v@),
            m == (c.0@, c.1, c.2),
            forall|i: int| p <= i < n ==> choice_before(m, #[trigger] o[i]),
        decreases p,
    {
        assert(o[p - 1] == (v@[p - 1].0@, v@[p - 1].1, v@[p - 1].2));
        p = p - 1;
    }
    v.insert(p, c);
    proof {
        let q = choice_views(v@);
        assert(q =~= o.insert(p as int, m));
        assert forall|i: int, j: int|
            #![trigger q[i], q[j]]
            0 <= i < j < q.len() implies !choice_before(q[j], q[i]) by {
            if i == p {
                assert(q[j] == o[j - 1]);
                law_choice_order(m, o[j - 1], m);
            } else if j == p {
                assert(q[i] == o[i]);
                assert(o[p - 1] == choice_views(v@)[p - 1]);
                if choice_before(m, o[i]) && i < p - 1 {
                    law_choice_order(o[i], o[p - 1], m);
                    law_choice_order(m, o[i], o[p - 1]);
                    assert(!choice_before(o[p - 1], o[i]));
                }
            } else {
                let a = if i < p {
                    i
                } else {
                    i - 1
                };
                let b = if j < p {
                    j
                } else {
                    j - 1
                };
                assert(q[i] == o[a] && q[j] == o[b]);
            }
        }
    }
    p
}

/// The messages of a symbol database to choose from, by name, then ID, then length.
pub fn symbol_choices(db: &SymbolDb) -> (r: Vec<(String, MsgKey, u8)>)
    ensures
        lists_each_once(db@, choice_views(r@)),
        choices_sorted(choice_views(r@)),
{
    broadcast use vstd::std_specs::hash::group_hash_axioms;

    let codes = db.codes();
    let mut out: Vec<(String, MsgKey, u8)> = Vec::new();
    let ghost mut listed: Seq<u64> = Seq::empty();
    let mut i: usize = 0;
    while i < codes.len()
        invariant
            i <= codes@.len(),
            codes@.no_duplicates(),
            forall|c: u64| #[trigger] db@.dom().contains(c) == codes@.contains(c),
            listed.no_duplicates(),
            forall|c: u64| #[trigger] listed.contains(c) == codes@.take(i as int).contains(c),
            lists_codes(db@, listed, choice_views(out@)),
            choices_sorted(choice_views(out@)),
        decreases codes@.len() - i,
    {
        let c: u64 = codes[i];
        let ghost before = choice_views(out@);
        assert(codes@.contains(codes@[i as int]));
        assert(db@.dom().contains(c));
        match db.messages.get(&c) {
            Some(m) => {
                let p: usize = put_choice(&mut out, (m.name.clone(), m.key, m.dlc));
                proof {
                    let seen = codes@.take(i as int);
                    assert(!listed.contains(c)) by {
                        if seen.contains(c) {
                            let j = choose|j: int| 0 <= j < seen.len() && seen[j] == c;
                            assert(codes@[j] == codes@[i as int]);
                        }
                    }
                    let after = listed.insert(p as int, c);
                    let w = choice_views(out@);
                    lemma_insert_once(listed, p as int, c);
                    assert forall|k: int| 0 <= k < w.len() implies #[trigger] w[k] == choice_of(
                        db@[after[k]],
                    ) by {
                        if k < p {
                            assert(w[k] == before[k]);
                        } else if k > p {
                            assert(w[k] == before[k - 1]);
                        }
                    }
                    let next = codes@.take(i + 1);
                    assert forall|x: u64| #[trigger] after.contains(x) == next.contains(x) by {
                        assert(next =~= seen.push(c));
                        assert(seen.push(c).contains(x) == (x == c || seen.contains(x))) by {
                            if x == c {
                                assert(seen.push(c)[seen.len() as int] == c);
                            } else if seen.contains(x) {
                                let j = choose|j: int| 0 <= j < seen.len() && seen[j] == x;
                                assert(seen.push(c)[j] == x);
                            }
                        }
                        assert(listed.contains(x) == seen.contains(x));
                    }
                    listed = after;
                }
            },
            None => {},
        }
        i = i + 1;
    }
    proof {
        assert(codes@.take(i as int) =~= codes@);
        assert forall|c: u64| #[trigger] db@.dom().contains(c) == listed.contains(c) by {}
        assert(lists_codes(db@, listed, choice_views(out@)));
    }
    out
}

proof fn lemma_insert_once(s: Seq<u64>, p: int, c: u64)
    requires
        0 <= p <= s.len(),
        s.no_duplicates(),
        !s.contains(c),
    ensures
        s.insert(p, c).no_duplicates(),
        forall|x: u64| #[trigger] s.insert(p, c).contains(x) == (x == c || s.contains(x)),
{
    let t = s.insert(p, c);
    assert forall|i: int, j: int| 0 <= i < t.len() && 0 <= j < t.len() && i != j implies t[i]
        != t[j] by {
        let a = if i < p {
            i
        } else {
            i - 1
        };
        let b = if j < p {
            j
        } else {
            j - 1
        };
        if i == p {
            assert(t[j] == s[b]);
            assert(s.contains(s[b]));
        } else if j == p {
            assert(t[i] == s[a]);
            assert(s.contains(s[a]));
        } else {
            assert(t[i] == s[a] && t[j] == s[b]);
        }
    }
    assert forall|x: u64| #[trigger] t.contains(x) == (x == c || s.contains(x)) by {
        if t.contains(x) {
            let k = choose|k: int| 0 <= k < t.len() && t[k] == x;
            if k < p {
                assert(s[k] == x);
            } else if k > p {
                assert(s[k - 1] == x);
            }
        }
        if x == c {
            assert(t[p] == c);
        } else if s.contains(x) {
            let k = choose|k: int| 0 <= k < s.len() && s[k] == x;
            if k < p {
                assert(t[k] == x);
            } else {
                assert(t[k + 1] == x);
            }
        }
    }
}

/// A periodic message of the list.
pub struct PeriodicUi {
    pub id: u64,
    pub msg: CanMsg,
    pub period_ms: Real,
    pub enabled: bool,
}

/// The list of periodic messages.
pub struct PeriodicList {
    pub items: Vec<PeriodicUi>,
    pub next_id: u64,
}

/// Items without those with this ID.
pub open spec fn without_item(v: Seq<PeriodicUi>, id: u64) -> Seq<PeriodicUi>
    decreases v.len(),
{
    if v.len() == 0 {
        v
    } else if v.last().id == id {
        without_item(v.drop_last(), id)
    } else {
        without_item(v.drop_last(), id).push(v.last())
    }
}

impl PeriodicList {
    /// IDs are distinct and have all been given out.
    pub open spec fn wf(self) -> bool {
        &&& forall|i: int| 0 <= i < self.items@.len() ==> (#[trigger] self.items@[i]).id < self.next_id
        &&& forall|i: int, j: int|
            0 <= i < j < self.items@.len() ==> (#[trigger] self.items@[i]).id != (
            #[trigger] self.items@[j]).id
    }

    /// An empty list.
    pub fn new() -> (r: Self)
        ensures
            r.wf(),
            r.items@ == Seq::<PeriodicUi>::empty(),
            r.next_id == 1,
    {
        PeriodicList { items: Vec::new(), next_id: 1 }
    }

    /// Adds a message, switched off at first, and gives it an ID.
    pub fn add(&mut self, msg: CanMsg, period_ms: Real) -> (r: u64)
        requires
            old(self).wf(),
            old(self).next_id < u64::MAX,
        ensures
            final(self).wf(),
            r == old(self).next_id,
            final(self).next_id == r + 1,
            final(self).items@ == old(self).items@.push(
                PeriodicUi { id: r, msg, period_ms, enabled: false },
            ),
    {
        let id: u64 = self.next_id;
        let ghost before = self.items@;
        self.next_id = id + 1;
        self.items.push(PeriodicUi { id, msg, period_ms, enabled: false });
        proof {
            let v = self.items@;
            assert forall|i: int| 0 <= i < v.len() implies (#[trigger] v[i]).id < self.next_id by {
                if i < before.len() {
                    assert(before[i].id < id);
                }
            }
            assert forall|i: int, j: int| 0 <= i < j < v.len() implies (#[trigger] v[i]).id != (
            #[trigger] v[j]).id by {
                assert(before[i].id < id);
                if j < before.len() {
                    assert(before[i].id != before[j].id);
                }
            }
        }
        id
    }

    /// The place of a message in the list.
    pub fn find(&self, id: u64) -> (r: Option<usize>)
        ensures
            match r {
                Some(i) => i < self.items@.len() && self.items@[i as int].id == id,
                None => forall|i: int| 0 <= i < self.items@.len() ==> (#[trigger] self.items@[i]).id != id,
            },
    {
        let mut i: usize = 0;
        while i < self.items.len()
            invariant
                i <= self.items@.len(),
                forall|j: int| 0 <= j < i ==> (#[trigger] self.items@[j]).id != id,
            decreases self.items@.len() - i,
        {
            if self.items[i].id == id {
                return Some(i);
            }
            i = i + 1;
        }
        None
    }

    /// Takes a message out of the list.
    pub fn remove(&mut self, id: u64)
        requires
            old(self).wf(),
        ensures
            final(self).wf(),
            final(self).next_id == old(self).next_id,
            final(self).items@ == without_item(old(self).items@, id),
    {
        let ghost before = self.items@;
        match self.find(id) {
            Some(i) => {
                self.items.remove(i);
                proof {
                    lemma_without_one(before, id, i as int);
                    let v = self.items@;
                    assert(v =~= before.remove(i as int));
                    assert forall|k: int| 0 <= k < v.len() implies (#[trigger] v[k]).id < self.next_id by {
                        let a = if k < i {
                            k
                        } else {
                            k + 1
                        };
                        assert(before[a].id < self.next_id);
                    }
                    assert forall|k: int, j: int| 0 <= k < j < v.len() implies (#[trigger] v[k]).id
                        != (#[trigger] v[j]).id by {
                        let a = if k < i {
                            k
                        } else {
                            k + 1
                        };
                        let b = if j < i {
                            j
                        } else {
                            j + 1
                        };
                        assert(before[a].id != before[b].id);
                    }
                }
            },
            None => {
                proof {
                    lemma_without_none(before, id);
                }
            },
        }
    }
}

proof fn lemma_without_none(v: Seq<PeriodicUi>, id: u64)
    requires
        forall|i: int| 0 <= i < v.len() ==> (#[trigger] v[i]).id != id,
    ensures
        without_item(v, id) == v,
    decreases v.len(),
{
    if v.len() > 0 {
        let t = v.drop_last();
        assert forall|i: int| 0 <= i < t.len() implies (#[trigger] t[i]).id != id by {
            assert(t[i] == v[i]);
        }
        lemma_without_none(t, id);
        assert(v[v.len() - 1].id != id);
        assert(t.push(v.last()) =~= v);
    }
}

proof fn lemma_without_one(v: Seq<PeriodicUi>, id: u64, n: int)
    requires
        0 <= n < v.len(),
        v[n].id == id,
        forall|i: int, j: int| 0 <= i < j < v.len() ==> (#[trigger] v[i]).id != (#[trigger] v[j]).id,
    ensures
        without_item(v, id) == v.remove(n),
    decreases v.len(),
{
    let t = v.drop_last();
    assert forall|i: int, j: int| 0 <= i < j < t.len() implies (#[trigger] t[i]).id != (
    #[trigger] t[j]).id by {
        assert(t[i] == v[i] && t[j] == v[j]);
    }
    if n == v.len() - 1 {
        assert forall|i: int| 0 <= i < t.len() implies (#[trigger] t[i]).id != id by {
            assert(v[i].id != v[n].id);
        }
        lemma_without_none(t, id);
        assert(v.remove(n) =~= t);
    } else {
        assert(v[n].id != v[v.len() - 1].id);
        lemma_without_one(t, id, n);
        assert(v.remove(n) =~= t.remove(n).push(v.last()));
    }
}

/// Text on the progress bar of a playback.
pub open spec fn progress_text(p: ReplayProgress) -> Seq<char> {
    let base = decimal(p.index as int) + "/"@ + decimal(p.total as int);
    if p.looped {
        base + " (loop "@ + decimal(p.loops + 1) + ")"@
    } else {
        base
    }
}

/// Text on the progress bar of a playback.
pub fn describe_progress(p: &ReplayProgress) -> (r: String)
    requires
        p.loops < u64::MAX,
    ensures
        r@ == progress_text(*p),
{
    let mut t: Vec<char> = Vec::new();
    put_decimal(&mut t, p.index as u64);
    put(&mut t, "/");
    put_decimal(&mut t, p.total as u64);
    if p.looped {
        put(&mut t, " (loop ");
        put_decimal(&mut t, p.loops + 1);
        put(&mut t, ")");
    }
    assert(t@ =~= progress_text(*p));
    string_of(t.as_slice())
}

/// Text about lines that could not be read, where there are any.
pub fn describe_skipped(n: usize) -> (r: String)
    ensures
        r@ == (if n > 0 {
            ", "@ + decimal(n as int) + " unparsable lines skipped"@
        } else {
            Seq::empty()
        }),
        (n == 0) == (r@.len() == 0),
{
    let mut t: Vec<char> = Vec::new();
    if n > 0 {
        put(&mut t, ", ");
        put_decimal(&mut t, n as u64);
        put(&mut t, " unparsable lines skipped");
        assert(t@ =~= ", "@ + decimal(n as int) + " unparsable lines skipped"@);
    } else {
        assert(t@ =~= Seq::<char>::empty());
    }
    string_of(t.as_slice())
}

/// Whether some frame of a log is an FD frame.
pub fn has_fd(frames: &Vec<CanMsg>) -> (r: bool)
    ensures
        r == exists|i: int| 0 <= i < frames@.len() && (#[trigger] frames@[i]).fd,
{
    let mut i: usize = 0;
    while i < frames.len()
        invariant
            i <= frames@.len(),
            forall|j: int| 0 <= j < i ==> !(#[trigger] frames@[j]).fd,
        decreases frames@.len() - i,
    {
        if frames[i].fd {
            assert(frames@[i as int].fd);
            return true;
        }
        i = i + 1;
    }
    false
}

/// A form describes the frame that its fields say: the ID, extended where it is asked for or
/// does not fit in 11 bits, and the bytes. It is a frame to be sent. The faster data phase is
/// for CAN FD alone, remote frames for classic CAN alone.
pub proof fn law_forms_describe_frames(f: FormModel, id: u32, d: Seq<u8>, ts: Real)
    requires
        f.id == digits(id as int, 16),
        f.data == spaced_hex(d),
        id <= 0x1FFF_FFFF,
        !f.rtr,
        if f.fd {
            fd_len(d.len() as int)
        } else {
            d.len() <= 8
        },
    ensures
        built(f, ts) matches Ok(m) && {
            &&& m.id == id && m.ext == (f.ext || id >= 0x800)
            &&& m.len == d.len() && m.data.take(m.len) == d
            &&& m.fd == f.fd && m.brs == (f.fd && f.brs) && !m.rtr
            &&& m.dir == Dir::Tx && m.ts == ts
        },
{
    law_hex_text_reads_back(d);
    law_id_reads_back(id, f.ext);
    assert(padded_data(d).take(d.len() as int) =~= d);
}

/// A remote frame asks for as many bytes as the form has, for 8 where it has more, and for
/// none where they cannot be read; it carries none. With CAN FD it is an FD frame without data
/// instead.
pub proof fn law_forms_for_remote_frames(f: FormModel, id: u32, ts: Real)
    requires
        f.id == digits(id as int, 16),
        id <= 0x1FFF_FFFF,
        f.rtr,
    ensures
        built(f, ts) matches Ok(m) && {
            &&& m.id == id && m.ext == (f.ext || id >= 0x800) && m.dir == Dir::Tx
            &&& m.rtr == !f.fd && m.fd == f.fd
            &&& forall|i: int| 0 <= i < 64 ==> #[trigger] m.data[i] == 0
            &&& f.fd ==> m.len == 0
            &&& !f.fd ==> match hex_text(f.data) {
                Ok(d) => m.len <= 8 && m.len <= d.len() && (m.len == 8 || m.len == d.len()),
                Err(_) => m.len == 0,
            }
        },
{
    law_id_reads_back(id, f.ext);
}

/// Which forms are refused, the first reason that holds being told: an ID that cannot be read
/// or has more than 29 bits, bytes that cannot be read, a length that CAN FD does not have, or
/// more than 8 bytes without CAN FD.
pub proof fn law_forms_refused(f: FormModel, ts: Real)
    ensures
        ({
            let id = parsed(id_digits(f.id), 16, u32::MAX as int);
            let d = hex_text(f.data);
            &&& id matches Err(e) ==> built(f, ts) == Err::<Frame, Seq<char>>(
                "invalid ID '"@ + f.id + "': "@ + e.message(),
            )
            &&& id matches Ok(n) ==> {
                &&& n >= 0x2000_0000 ==> built(f, ts) == Err::<Frame, Seq<char>>(
                    "ID exceeds 29 bits"@,
                )
                &&& n < 0x2000_0000 && !f.rtr ==> match d {
                    Err(e) => built(f, ts) == Err::<Frame, Seq<char>>(e),
                    Ok(b) => {
                        &&& f.fd && !fd_len(b.len() as int) ==> built(f, ts) == Err::<Frame, Seq<char>>(
                            decimal(b.len() as int)
                                + " bytes is not a valid CAN FD length (0-8,12,16,20,24,32,48,64)"@,
                        )
                        &&& !f.fd && b.len() > 8 ==> built(f, ts) == Err::<Frame, Seq<char>>(
                            "classic CAN frames carry at most 8 bytes (enable FD)"@,
                        )
                        &&& (f.fd && fd_len(b.len() as int)) || (!f.fd && b.len() <= 8) ==> built(
                            f,
                            ts,
                        ) is Ok
                    },
                }
                &&& n < 0x2000_0000 && f.rtr ==> built(f, ts) is Ok
            }
        }),
{
}

/// Choosing a message fills the form so that it describes that message with all bytes zero,
/// as a CAN FD frame where it has more than 8 of them.
pub proof fn law_chosen_message_fills_the_form(f: FormModel, key: MsgKey, dlc: u8, ts: Real)
    requires
        !f.rtr,
        key.id <= 0x1FFF_FFFF,
        fd_len(dlc as int),
    ensures
        built(form_for(f, key, dlc), ts) matches Ok(m) && {
            &&& m.id == key.id && m.ext == (key.ext || key.id >= 0x800)
            &&& m.len == dlc && m.fd == (dlc > 8) && !m.rtr
            &&& forall|i: int| 0 <= i < m.len ==> #[trigger] m.data[i] == 0
        },
        form_for(f, key, dlc).brs == f.brs && form_for(f, key, dlc).rtr == f.rtr,
{
    let d = Seq::new(dlc as nat, |i: int| 0u8);
    law_forms_describe_frames(form_for(f, key, dlc), key.id, d, ts);
    let m = built(form_for(f, key, dlc), ts)->Ok_0;
    assert forall|i: int| 0 <= i < m.len implies #[trigger] m.data[i] == 0 by {
        assert(m.data.take(m.len)[i] == d[i]);
    }
}

/// Messages to choose are ordered by name, by ID where they have the same name, standard ones
/// before extended ones, and by length.
pub proof fn law_order_of_choices(a: (Seq<char>, MsgKey, u8), b: (Seq<char>, MsgKey, u8))
    ensures
        a.0 != b.0 && text_before(a.0, b.0) ==> choice_before(a, b),
        a.0 == b.0 && a.1.id < b.1.id ==> choice_before(a, b),
        a.0 == b.0 && a.1.id == b.1.id && !a.1.ext && b.1.ext ==> choice_before(a, b),
        a.0 == b.0 && a.1 == b.1 ==> choice_before(a, b) == (a.2 < b.2),
{
}

/// Taking an item out of the list leaves the others in their order.
pub proof fn law_items_taken_out(a: Seq<PeriodicUi>, b: Seq<PeriodicUi>, id: u64, p: PeriodicUi)
    ensures
        without_item(a + b, id) == without_item(a, id) + without_item(b, id),
        p.id == id ==> without_item(seq![p], id).len() == 0,
        p.id != id ==> without_item(seq![p], id) == seq![p],
    decreases b.len(),
{
    if b.len() == 0 {
        assert(a + b =~= a);
        assert(without_item(a, id) + without_item(b, id) =~= without_item(a, id));
    } else {
        law_items_taken_out(a, b.drop_last(), id, p);
        assert((a + b).drop_last() =~= a + b.drop_last());
        assert(without_item(a + b, id) =~= without_item(a, id) + without_item(b, id));
    }
    let one = seq![p];
    let none = Seq::<PeriodicUi>::empty();
    assert(one.drop_last() =~= none);
    assert(without_item(none, id) == none);
    assert(none.push(p) =~= one);
}

/// Progress is shown as the frames sent of all, and in a loop by the number of the round,
/// which counts from 1.
pub proof fn law_progress_shown(p: ReplayProgress)
    ensures
        !p.looped ==> progress_text(p) == decimal(p.index as int).push('/') + decimal(p.total as int),
        p.looped ==> progress_text(p) == progress_text(ReplayProgress { looped: false, ..p })
            + " (loop "@ + decimal(p.loops + 1) + ")"@,
{
    reveal_strlit("/");
    assert(decimal(p.index as int) + "/"@ =~= decimal(p.index as int).push('/'));
}

/// Where the bytes are not asked for, they do not matter: another text in their place gives
/// the same.
pub proof fn law_bytes_not_asked_for(f: FormModel, other: Seq<char>, ts: Real)
    ensures
        !reads_data(f) ==> built(f, ts) == built(FormModel { data: other, ..f }, ts),
        reads_data(f) == reads_data(FormModel { data: other, ..f }),
{
}

/// A list that has each message once has as many entries as there are messages, one for every
/// message and none for anything else.
pub proof fn law_each_message_is_listed(
    db: Map<u64, MessageModel>,
    v: Seq<(Seq<char>, MsgKey, u8)>,
    c: u64,
    i: int,
)
    requires
        lists_each_once(db, v),
    ensures
        db.dom().contains(c) ==> v.contains((db[c].name, db[c].key, db[c].dlc)),
        0 <= i < v.len() ==> exists|k: u64|
            #[trigger] db.dom().contains(k) && v[i] == (db[k].name, db[k].key, db[k].dlc),
        db.dom().finite() ==> db.dom().len() == v.len(),
{
    let codes = choose|codes: Seq<u64>|
        {
            &&& #[trigger] lists_codes(db, codes, v)
            &&& codes.no_duplicates()
            &&& forall|c: u64| #[trigger] db.dom().contains(c) == codes.contains(c)
        };
    if db.dom().contains(c) {
        let k = choose|k: int| 0 <= k < codes.len() && codes[k] == c;
        assert(v[k] == choice_of(db[codes[k]]));
    }
    if 0 <= i < v.len() {
        assert(codes.contains(codes[i]));
        assert(db.dom().contains(codes[i]));
    }
    codes.unique_seq_to_set();
    assert(codes.to_set() =~= db.dom());
}

/// The form of a frame holds its ID in hexadecimal, its format and kind, and its bytes; that
/// of a remote frame says so in their place. Choosing a message switches CAN FD on exactly
/// where it has more than 8 bytes.
pub proof fn law_forms_of_frames(m: Frame, f: FormModel, key: MsgKey, dlc: u8)
    ensures
        ({
            let g = form_of(m);
            &&& parsed(id_digits(g.id), 16, u32::MAX as int) == Ok::<int, IntError>(m.id as int)
            &&& g.ext == m.ext && g.fd == m.fd && g.brs == m.brs && g.rtr == m.rtr
            &&& m.rtr ==> g.data == "RTR"@
            &&& !m.rtr ==> hex_text(g.data) == Ok::<Seq<u8>, Seq<char>>(m.data.take(m.len))
        }),
        form_for(f, key, dlc).fd == (dlc > 8),
        form_for(f, key, dlc).ext == key.ext,
        parsed(id_digits(form_for(f, key, dlc).id), 16, u32::MAX as int) == Ok::<int, IntError>(
            key.id as int,
        ),
{
    law_id_reads_back(m.id, m.ext);
    law_id_reads_back(key.id, key.ext);
    if !m.rtr {
        law_hex_text_reads_back(m.data.take(m.len));
    }
}

} // verus!
