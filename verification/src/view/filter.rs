//! Filters on messages: `100 1A0 -7E8 engine` shows IDs 100 and 1A0 and names that hold
//! "engine", but not 7E8.

use vstd::prelude::*;
use vstd::slice::slice_subrange;
use crate::bus::worker::{lowercase, unicode_lower};
use crate::msg::{
    id_digits, id_text, law_id_forms_read_back, law_id_reads_back, parse_hex_id, CanMsg, MsgKey,
};
use crate::number::{digits, parsed, IntError};
use crate::symbols::{string_views, MessageModel, SymbolDb};
use crate::text::{
    chars_of, contains_piece, has_piece, in_class, lemma_piece_at, lemma_words_around,
    lemma_words_single, split_words, string_of, views, words, Class,
};

verus! {

/// A parsed filter; the words are in small letters.
pub struct Filter {
    pub wanted: Vec<String>,
    pub excluded: Vec<String>,
}

/// What a filter says.
#[verifier::ext_equal]
pub ghost struct FilterModel {
    pub wanted: Seq<Seq<char>>,
    pub excluded: Seq<Seq<char>>,
}

impl View for Filter {
    type V = FilterModel;

    open spec fn view(&self) -> FilterModel {
        FilterModel { wanted: string_views(self.wanted@), excluded: string_views(self.excluded@) }
    }
}

/// The filter that some words make. A `-` in front excludes; one that stands alone is
/// nothing.
pub open spec fn filter_of(w: Seq<Seq<char>>) -> FilterModel
    decreases w.len(),
{
    if w.len() == 0 {
        FilterModel { wanted: Seq::empty(), excluded: Seq::empty() }
    } else {
        let f = filter_of(w.drop_last());
        let t = w.last();
        if t.len() > 0 && t[0] == '-' {
            if t.len() > 1 {
                FilterModel { excluded: f.excluded.push(unicode_lower(t.skip(1))), ..f }
            } else {
                f
            }
        } else {
            FilterModel { wanted: f.wanted.push(unicode_lower(t)), ..f }
        }
    }
}

/// The words of a filter text.
pub open spec fn filter_words(s: Seq<char>) -> Seq<Seq<char>> {
    words(s, Class::Either(' ', ','))
}

/// Whether a word of a filter fits a message: as its ID, or as a part of its name, of which
/// `lower` is the text in small letters.
pub open spec fn word_fits(word: Seq<char>, key: MsgKey, lower: Option<Seq<char>>) -> bool {
    ||| parsed(id_digits(word), 16, u32::MAX as int) == Ok::<int, IntError>(key.id as int)
    ||| lower matches Some(n) && has_piece(n, word)
}

/// Whether some word of a list fits a message.
pub open spec fn any_fits(words: Seq<Seq<char>>, key: MsgKey, lower: Option<Seq<char>>) -> bool {
    exists|i: int| 0 <= i < words.len() && #[trigger] word_fits(words[i], key, lower)
}

impl FilterModel {
    /// Whether the filter lets everything through.
    pub open spec fn nothing(self) -> bool {
        self.wanted.len() == 0 && self.excluded.len() == 0
    }

    /// Whether a message passes, `lower` being its name in small letters.
    pub open spec fn passes(self, key: MsgKey, lower: Option<Seq<char>>) -> bool {
        &&& !any_fits(self.excluded, key, lower)
        &&& self.wanted.len() == 0 || any_fits(self.wanted, key, lower)
    }

    /// Whether a message with this name passes.
    pub open spec fn admits(self, key: MsgKey, name: Option<Seq<char>>) -> bool {
        self.passes(key, lower_name(name))
    }
}

/// A name in small letters.
pub open spec fn lower_name(name: Option<Seq<char>>) -> Option<Seq<char>> {
    match name {
        Some(n) => Some(unicode_lower(n)),
        None => None,
    }
}

impl Default for Filter {
    fn default() -> (r: Self)
        ensures
            r@.nothing(),
            r@ == (FilterModel { wanted: Seq::empty(), excluded: Seq::empty() }),
    {
        let r = Filter { wanted: Vec::new(), excluded: Vec::new() };
        assert(r@ =~= (FilterModel { wanted: Seq::empty(), excluded: Seq::empty() }));
        r
    }
}

fn push_text(v: &mut Vec<String>, s: String)
    ensures
        string_views(final(v)@) == string_views(old(v)@).push(s@),
{
    let ghost before = string_views(v@);
    v.push(s);
    assert(string_views(v@) =~= before.push(s@));
}

fn same_texts(a: &Vec<String>, b: &Vec<String>) -> (r: bool)
    ensures
        r == (string_views(a@) == string_views(b@)),
{
    let ghost x = string_views(a@);
    let ghost y = string_views(b@);
    if a.len() != b.len() {
        assert(x.len() != y.len());
        return false;
    }
    let mut i: usize = 0;
    while i < a.len()
        invariant
            i <= a@.len(),
            a@.len() == b@.len(),
            x == string_views(a@),
            y == string_views(b@),
            forall|j: int| 0 <= j < i ==> #[trigger] x[j] == y[j],
        decreases a@.len() - i,
    {
        assert(x[i as int] == a@[i as int]@);
        assert(y[i as int] == b@[i as int]@);
        if a[i] != b[i] {
            return false;
        }
        i = i + 1;
    }
    assert(x =~= y);
    true
}

impl Filter {
    /// Reads a filter.
    pub fn parse(s: &str) -> (r: Self)
        ensures
            r@ == filter_of(filter_words(s@)),
    {
        let all = chars_of(s);
        let w = split_words(all.as_slice(), Class::Either(' ', ','));
        let ghost wv = views(w@);
        let mut f = Filter { wanted: Vec::new(), excluded: Vec::new() };
        let mut i: usize = 0;
        assert(f@ =~= (FilterModel { wanted: Seq::empty(), excluded: Seq::empty() }));
        while i < w.len()
            invariant
                i <= w@.len(),
                wv == views(w@),
                f@ == filter_of(wv.take(i as int)),
            decreases w@.len() - i,
        {
            proof {
                assert(wv.take(i + 1).drop_last() =~= wv.take(i as int));
                assert(wv.take(i + 1).last() == w@[i as int]@);
            }
            let t = w[i].as_slice();
            if t.len() > 0 && t[0] == '-' {
                if t.len() > 1 {
                    let rest = slice_subrange(t, 1, t.len());
                    assert(rest@ =~= t@.skip(1));
                    let text = string_of(rest);
                    push_text(&mut f.excluded, lowercase(text.as_str()));
                }
            } else {
                let text = string_of(t);
                push_text(&mut f.wanted, lowercase(text.as_str()));
            }
            i = i + 1;
        }
        assert(wv.take(i as int) =~= wv);
        f
    }

    /// Whether the filter lets everything through.
    pub fn is_empty(&self) -> (r: bool)
        ensures
            r == self@.nothing(),
    {
        self.wanted.len() == 0 && self.excluded.len() == 0
    }

    /// Whether two filters say the same.
    pub fn same(&self, other: &Filter) -> (r: bool)
        ensures
            r == (self@ == other@),
    {
        same_texts(&self.wanted, &other.wanted) && same_texts(&self.excluded, &other.excluded)
    }

    /// Whether a word fits a message; `lower` is the message's name in small letters.
    pub fn tok_matches(word: &str, key: MsgKey, lower: Option<&str>) -> (r: bool)
        ensures
            r == word_fits(word@, key, crate::symbols::format::opt_view(lower)),
    {
        match parse_hex_id(word) {
            Ok(id) => {
                if id == key.id {
                    return true;
                }
            },
            Err(_) => {},
        }
        match lower {
            Some(n) => {
                let a = chars_of(n);
                let b = chars_of(word);
                contains_piece(a.as_slice(), b.as_slice())
            },
            None => false,
        }
    }

    fn any_matches(list: &Vec<String>, key: MsgKey, lower: Option<&str>) -> (r: bool)
        ensures
            r == any_fits(string_views(list@), key, crate::symbols::format::opt_view(lower)),
    {
        let ghost all = string_views(list@);
        let ghost l = crate::symbols::format::opt_view(lower);
        let mut i: usize = 0;
        while i < list.len()
            invariant
                i <= list@.len(),
                all == string_views(list@),
                l == crate::symbols::format::opt_view(lower),
                forall|j: int| 0 <= j < i ==> !#[trigger] word_fits(all[j], key, l),
            decreases list@.len() - i,
        {
            assert(all[i as int] == list@[i as int]@);
            if Self::tok_matches(list[i].as_str(), key, lower) {
                assert(word_fits(all[i as int], key, l));
                return true;
            }
            i = i + 1;
        }
        false
    }

    /// Whether a message passes; `lower` is its name in small letters.
    pub fn matches_lower(&self, key: MsgKey, lower: Option<&str>) -> (r: bool)
        ensures
            r == self@.passes(key, crate::symbols::format::opt_view(lower)),
    {
        if Self::any_matches(&self.excluded, key, lower) {
            return false;
        }
        self.wanted.len() == 0 || Self::any_matches(&self.wanted, key, lower)
    }

    /// Whether a message with this name passes.
    pub fn matches(&self, key: MsgKey, name: Option<&str>) -> (r: bool)
        ensures
            r == self@.admits(key, crate::symbols::format::opt_view(name)),
    {
        match name {
            Some(n) => {
                let l = lowercase(n);
                self.matches_lower(key, Some(l.as_str()))
            },
            None => self.matches_lower(key, None),
        }
    }
}

/// The name of a frame's message.
pub open spec fn frame_name(db: Map<u64, MessageModel>, m: crate::msg::Frame) -> Option<Seq<char>> {
    let code = MsgKey { id: m.id, ext: m.ext }.code_spec();
    if db.dom().contains(code) {
        Some(db[code].name_spec(m.data.take(m.len)))
    } else {
        None
    }
}

/// Whether a frame passes a filter.
pub open spec fn frame_passes(
    f: FilterModel,
    db: Map<u64, MessageModel>,
    m: crate::msg::Frame,
) -> bool {
    f.admits(MsgKey { id: m.id, ext: m.ext }, frame_name(db, m))
}

/// Whether a frame passes a filter.
pub fn passes(f: &Filter, db: Option<&SymbolDb>, m: &CanMsg) -> (r: bool)
    requires
        m.wf(),
    ensures
        r == frame_passes(f@, crate::bus::flush::db_view(db), m@),
{
    let name = match db {
        Some(d) => d.name(m),
        None => None,
    };
    f.matches(m.key(), name)
}

/// A message that an excluded word fits does not pass, whatever is wanted.
pub proof fn law_exclusion_wins(f: FilterModel, key: MsgKey, lower: Option<Seq<char>>)
    requires
        any_fits(f.excluded, key, lower),
    ensures
        !f.passes(key, lower),
{
}

/// Without words, everything passes.
pub proof fn law_empty_filter_passes(f: FilterModel, key: MsgKey, lower: Option<Seq<char>>)
    requires
        f.nothing(),
    ensures
        f.passes(key, lower),
{
}

/// The words of a filter stand between spaces and commas, however many of them there are.
pub proof fn law_words_of_a_filter(a: Seq<char>, c: char, b: Seq<char>)
    requires
        c == ' ' || c == ',',
    ensures
        filter_words(a.push(c) + b) == filter_words(a) + filter_words(b),
        a.len() > 0 && (forall|i: int| 0 <= i < a.len() ==> #[trigger] a[i] != ' ' && a[i] != ',')
            ==> filter_words(a) == seq![a],
{
    let k = Class::Either(' ', ',');
    lemma_words_around(a, c, b, k);
    if a.len() > 0 && (forall|i: int| 0 <= i < a.len() ==> #[trigger] a[i] != ' ' && a[i] != ',') {
        assert(forall|i: int| 0 <= i < a.len() ==> !in_class(k, #[trigger] a[i]));
        lemma_words_single(a, k);
    }
}

/// A word with a minus in front is to be left out, a minus alone means nothing, every other
/// word is wanted. The words count one by one, in small letters.
pub proof fn law_words_wanted_and_left_out(a: Seq<Seq<char>>, b: Seq<Seq<char>>, t: Seq<char>)
    ensures
        filter_of(a + b).wanted == filter_of(a).wanted + filter_of(b).wanted,
        filter_of(a + b).excluded == filter_of(a).excluded + filter_of(b).excluded,
        filter_of(seq![t]) == (if t.len() == 0 || t[0] != '-' {
            FilterModel { wanted: seq![unicode_lower(t)], excluded: Seq::empty() }
        } else if t.len() == 1 {
            FilterModel { wanted: Seq::empty(), excluded: Seq::empty() }
        } else {
            FilterModel { wanted: Seq::empty(), excluded: seq![unicode_lower(t.skip(1))] }
        }),
    decreases b.len(),
{
    if b.len() == 0 {
        assert(a + b =~= a);
        assert(filter_of(a).wanted + filter_of(b).wanted =~= filter_of(a).wanted);
        assert(filter_of(a).excluded + filter_of(b).excluded =~= filter_of(a).excluded);
    } else {
        law_words_wanted_and_left_out(a, b.drop_last(), t);
        assert((a + b).drop_last() =~= a + b.drop_last());
        assert(filter_of(a + b).wanted =~= filter_of(a).wanted + filter_of(b).wanted);
        assert(filter_of(a + b).excluded =~= filter_of(a).excluded + filter_of(b).excluded);
    }
    let one = seq![t];
    assert(one.drop_last() =~= Seq::empty());
    assert(one.last() == t);
    let none = Seq::<Seq<char>>::empty();
    assert(filter_of(one.drop_last()) == FilterModel { wanted: none, excluded: none });
    assert(none.push(unicode_lower(t)) =~= seq![unicode_lower(t)]);
    assert(none.push(unicode_lower(t.skip(1))) =~= seq![unicode_lower(t.skip(1))]);
}

/// A word fits a message by its ID, in any of the ways to write it and whatever its format, or
/// by any piece of its name in small letters; and by nothing else.
pub proof fn law_words_fit_ids_and_names(
    id: u32,
    key: MsgKey,
    word: Seq<char>,
    a: Seq<char>,
    b: Seq<char>,
)
    ensures
        word_fits(id_text(id, key.ext), key, None) == (key.id == id),
        word_fits(digits(id as int, 16), key, None) == (key.id == id),
        word_fits(seq!['0', 'x'] + id_text(id, key.ext), key, None) == (key.id == id),
        word_fits(id_text(id, key.ext).push('h'), key, None) == (key.id == id),
        word_fits(word, key, Some(a + word + b)),
        word_fits(word, key, None) ==> word_fits(word, key, Some(a)),
        word_fits(word, MsgKey { id, ext: true }, Some(a)) == word_fits(
            word,
            MsgKey { id, ext: false },
            Some(a),
        ),
        word_fits(word, key, Some(a)) && !word_fits(word, key, None) ==> exists|i: int|
            0 <= i <= a.len() - word.len() && #[trigger] a.subrange(i, i + word.len()) == word,
{
    law_id_reads_back(id, key.ext);
    law_id_forms_read_back(id, key.ext);
    lemma_piece_at(a + word + b, word, a.len() as int);
}

/// Without wanted words all pass that are not left out. A further wanted word lets more pass,
/// a further word to be left out fewer.
pub proof fn law_what_passes(f: FilterModel, key: MsgKey, lower: Option<Seq<char>>, w: Seq<char>)
    ensures
        f.wanted.len() == 0 ==> f.passes(key, lower) == !any_fits(f.excluded, key, lower),
        f.wanted.len() > 0 ==> f.passes(key, lower) == (any_fits(f.wanted, key, lower) && !any_fits(
            f.excluded,
            key,
            lower,
        )),
        f.wanted.len() > 0 && f.passes(key, lower) ==> (FilterModel { wanted: f.wanted.push(w), ..f }).passes(
            key,
            lower,
        ),
        (FilterModel { excluded: f.excluded.push(w), ..f }).passes(key, lower) == (f.passes(key, lower)
            && !word_fits(w, key, lower)),
        any_fits(seq![w], key, lower) == word_fits(w, key, lower),
        any_fits(f.wanted.push(w), key, lower) == (any_fits(f.wanted, key, lower) || word_fits(
            w,
            key,
            lower,
        )),
{
    lemma_one_more(f.wanted, key, lower, w);
    lemma_one_more(f.excluded, key, lower, w);
    lemma_one_more(Seq::empty(), key, lower, w);
    assert(Seq::<Seq<char>>::empty().push(w) =~= seq![w]);
}

proof fn lemma_one_more(v: Seq<Seq<char>>, key: MsgKey, lower: Option<Seq<char>>, w: Seq<char>)
    ensures
        any_fits(v.push(w), key, lower) == (any_fits(v, key, lower) || word_fits(w, key, lower)),
{
    let u = v.push(w);
    assert(u[v.len() as int] == w);
    if any_fits(v, key, lower) {
        let i = choose|i: int| 0 <= i < v.len() && #[trigger] word_fits(v[i], key, lower);
        assert(word_fits(u[i], key, lower));
    }
    if word_fits(w, key, lower) {
        assert(word_fits(u[v.len() as int], key, lower));
    }
    if any_fits(u, key, lower) {
        let i = choose|i: int| 0 <= i < u.len() && #[trigger] word_fits(u[i], key, lower);
        if i < v.len() {
            assert(word_fits(v[i], key, lower));
        }
    }
}

/// A frame goes by its ID, format and not more where no definition names it; where one does,
/// by the name for its data too.
pub proof fn law_frames_go_by_key_and_name(f: FilterModel, db: Map<u64, MessageModel>, m: crate::msg::Frame)
    ensures
        ({
            let key = MsgKey { id: m.id, ext: m.ext };
            let code = key.code_spec();
            &&& !db.dom().contains(code) ==> frame_passes(f, db, m) == f.passes(key, None)
            &&& db.dom().contains(code) ==> frame_passes(f, db, m) == f.passes(
                key,
                Some(unicode_lower(db[code].name_spec(m.data.take(m.len)))),
            )
        }),
{
}

/// A filter is empty until it has a word of either kind.
pub proof fn law_filters_with_words(f: FilterModel, w: Seq<char>)
    ensures
        filter_of(Seq::empty()).nothing(),
        !(FilterModel { wanted: f.wanted.push(w), ..f }).nothing(),
        !(FilterModel { excluded: f.excluded.push(w), ..f }).nothing(),
        !f.nothing() ==> f.wanted.len() > 0 || f.excluded.len() > 0,
{
}

} // verus!
