//! Fixed-width rendering of signal values.

use vstd::prelude::*;
use vstd::slice::slice_subrange;
use crate::msg::{greatest, least};
use crate::text::{
    chars_of, find, left_aligned, lemma_find, position, put_left, put_right, right_aligned, string_of,
    Class,
};

verus! {

/// Most decimals that a value is shown with.
pub const MAX_DECIMALS: usize = 4;

/// Fixed-width numeric format of a signal, derived from its definition so that the
/// rendered width never changes while values change.
///
/// * `decimals` comes from the factor and offset (0.25 -> 2, 0.1 -> 1, at most 4)
/// * `width` fits the largest physical value that the signal's bits can encode
/// * `text_width` fits the longest value-table entry (0 if there is none)
#[derive(Debug, Clone, Copy, PartialEq, Eq, Structural)]
pub struct ValueFormat {
    pub width: usize,
    pub decimals: usize,
    pub text_width: usize,
}

impl Default for ValueFormat {
    fn default() -> (r: Self)
        ensures
            r == (ValueFormat { width: 0, decimals: 0, text_width: 0 }),
    {
        ValueFormat { width: 0, decimals: 0, text_width: 0 }
    }
}

/// Text behind a number: a space and the text, filled up to the width, where there is one.
pub open spec fn text_part(text: Option<Seq<char>>, width: int) -> Seq<char> {
    if width > 0 {
        seq![' '] + left_aligned(
            match text {
                Some(t) => t,
                None => Seq::empty(),
            },
            width,
        )
    } else {
        Seq::empty()
    }
}

/// The contents of an optional text.
pub open spec fn opt_view(t: Option<&str>) -> Option<Seq<char>> {
    match t {
        Some(s) => Some(s@),
        None => None,
    }
}

fn put_text_part(out: &mut Vec<char>, text: Option<&str>, width: usize)
    ensures
        final(out)@ == old(out)@ + text_part(opt_view(text), width as int),
{
    if width > 0 {
        out.push(' ');
        let t: Vec<char> = match text {
            Some(s) => chars_of(s),
            None => Vec::new(),
        };
        put_left(out, t.as_slice(), width);
    }
    assert(out@ =~= old(out)@ + text_part(opt_view(text), width as int));
}

impl ValueFormat {
    /// Characters used by the fraction, with the point.
    pub open spec fn frac_spec(self) -> int {
        if self.decimals > 0 {
            self.decimals + 1
        } else {
            0
        }
    }

    /// Characters used by the sign and integer digits.
    pub open spec fn int_spec(self) -> int {
        greatest(self.width - self.frac_spec(), 0)
    }

    /// Characters used by the fraction, including the '.' (0 for integers).
    pub fn frac_width(&self) -> (r: usize)
        requires
            self.decimals < usize::MAX,
        ensures
            r == self.frac_spec(),
    {
        if self.decimals > 0 {
            self.decimals + 1
        } else {
            0
        }
    }

    /// Characters used by the sign and integer digits.
    pub fn int_width(&self) -> (r: usize)
        requires
            self.decimals < usize::MAX,
        ensures
            r == self.int_spec(),
    {
        let f: usize = self.frac_width();
        if self.width > f {
            self.width - f
        } else {
            0
        }
    }

    /// A number's digits, right-aligned, e.g. `  89.00`.
    pub fn number(&self, digits: &str) -> (r: String)
        ensures
            r@ == right_aligned(digits@, self.width as int, ' '),
    {
        let d = chars_of(digits);
        let mut out: Vec<char> = Vec::new();
        put_right(&mut out, d.as_slice(), self.width, ' ');
        assert(out@ =~= right_aligned(digits@, self.width as int, ' '));
        string_of(out.as_slice())
    }

    /// A number's digits and value-table text in this format.
    pub open spec fn value_text(self, digits: Seq<char>, text: Option<Seq<char>>) -> Seq<char> {
        right_aligned(digits, self.width as int, ' ') + text_part(text, self.text_width as int)
    }

    /// A number's digits followed by left-aligned value-table text (if the signal has a table).
    pub fn value(&self, digits: &str, text: Option<&str>) -> (r: String)
        ensures
            r@ == self.value_text(digits@, opt_view(text)),
    {
        let d = chars_of(digits);
        let mut out: Vec<char> = Vec::new();
        put_right(&mut out, d.as_slice(), self.width, ' ');
        put_text_part(&mut out, text, self.text_width);
        assert(out@ =~= self.value_text(digits@, opt_view(text)));
        string_of(out.as_slice())
    }
}

/// The length of a rendered value depends on the format alone, as long as the digits and
/// the text fit.
pub proof fn law_value_width(f: ValueFormat, digits: Seq<char>, text: Option<Seq<char>>)
    requires
        digits.len() <= f.width,
        text matches Some(t) ==> t.len() <= f.text_width,
    ensures
        f.value_text(digits, text).len() == f.width + (if f.text_width > 0 {
            1 + f.text_width
        } else {
            0
        }),
{
}

/// Layout shared by several signals shown in one column: integer parts are
/// right-aligned, decimal points line up, and value-table text gets its own
/// column. Every rendered value has the same length, so units that follow
/// also line up.
///
/// ```text
///  1000.00       <- RPM
///    89          <- CoolantTemp
///     3    D1    <- Gear
/// ```
#[derive(Debug, Clone, Copy, PartialEq, Eq, Structural)]
pub struct ValueColumn {
    pub int_width: usize,
    pub frac_width: usize,
    pub text_width: usize,
}

impl Default for ValueColumn {
    fn default() -> (r: Self)
        ensures
            r == (ValueColumn { int_width: 0, frac_width: 0, text_width: 0 }),
    {
        ValueColumn { int_width: 0, frac_width: 0, text_width: 0 }
    }
}

/// Widths of a column: integer part, fraction, text.
pub open spec fn column_of(f: Seq<ValueFormat>) -> (int, int, int)
    decreases f.len(),
{
    if f.len() == 0 {
        (0, 0, 0)
    } else {
        let (i, r, t) = column_of(f.drop_last());
        (
            greatest(i, f.last().int_spec()),
            greatest(r, f.last().frac_spec()),
            greatest(t, f.last().text_width as int),
        )
    }
}

/// A column fits every format that it was made for.
pub proof fn law_column_fits(f: Seq<ValueFormat>, k: int)
    requires
        0 <= k < f.len(),
    ensures
        f[k].int_spec() <= column_of(f).0,
        f[k].frac_spec() <= column_of(f).1,
        f[k].text_width <= column_of(f).2,
    decreases f.len(),
{
    if k < f.len() - 1 {
        law_column_fits(f.drop_last(), k);
        assert(f.drop_last()[k] == f[k]);
    }
}

/// No narrower column fits: each width is that of one of the formats.
pub proof fn law_column_is_smallest(f: Seq<ValueFormat>)
    ensures
        column_of(f).0 == 0 || exists|k: int| 0 <= k < f.len() && #[trigger] f[k].int_spec() == column_of(f).0,
        column_of(f).1 == 0 || exists|k: int| 0 <= k < f.len() && #[trigger] f[k].frac_spec() == column_of(f).1,
        column_of(f).2 == 0 || exists|k: int|
            0 <= k < f.len() && (#[trigger] f[k]).text_width == column_of(f).2,
    decreases f.len(),
{
    if f.len() > 0 {
        let g = f.drop_last();
        law_column_is_smallest(g);
        let n = f.len() - 1;
        assert(f[n] == f.last());
        if column_of(f).0 == column_of(g).0 && column_of(f).0 != 0 {
            let k = choose|k: int| 0 <= k < g.len() && #[trigger] g[k].int_spec() == column_of(g).0;
            assert(f[k].int_spec() == column_of(f).0);
        } else {
            assert(column_of(f).0 == 0 || f[n].int_spec() == column_of(f).0);
        }
        if column_of(f).1 == column_of(g).1 && column_of(f).1 != 0 {
            let k = choose|k: int| 0 <= k < g.len() && #[trigger] g[k].frac_spec() == column_of(g).1;
            assert(f[k].frac_spec() == column_of(f).1);
        } else {
            assert(column_of(f).1 == 0 || f[n].frac_spec() == column_of(f).1);
        }
        if column_of(f).2 == column_of(g).2 && column_of(f).2 != 0 {
            let k = choose|k: int| 0 <= k < g.len() && (#[trigger] g[k]).text_width == column_of(g).2;
            assert(f[k].text_width == column_of(f).2);
        } else {
            assert(column_of(f).2 == 0 || f[n].text_width == column_of(f).2);
        }
    }
}

impl ValueColumn {
    /// The three widths.
    pub open spec fn widths(self) -> (int, int, int) {
        (self.int_width as int, self.frac_width as int, self.text_width as int)
    }

    /// Smallest column that fits every one of `fmts`. Formats come from the definitions,
    /// not the data, so the result is stable over time.
    pub fn fit(fmts: &[ValueFormat]) -> (r: Self)
        requires
            forall|i: int| 0 <= i < fmts@.len() ==> (#[trigger] fmts@[i]).decimals < usize::MAX,
        ensures
            r.widths() == column_of(fmts@),
    {
        let mut c = ValueColumn { int_width: 0, frac_width: 0, text_width: 0 };
        let mut i: usize = 0;
        while i < fmts.len()
            invariant
                i <= fmts@.len(),
                forall|j: int| 0 <= j < fmts@.len() ==> (#[trigger] fmts@[j]).decimals < usize::MAX,
                c.widths() == column_of(fmts@.take(i as int)),
            decreases fmts@.len() - i,
        {
            assert(fmts@.take(i + 1).drop_last() =~= fmts@.take(i as int));
            let f: ValueFormat = fmts[i];
            let iw: usize = f.int_width();
            let fw: usize = f.frac_width();
            if iw > c.int_width {
                c.int_width = iw;
            }
            if fw > c.frac_width {
                c.frac_width = fw;
            }
            if f.text_width > c.text_width {
                c.text_width = f.text_width;
            }
            i = i + 1;
        }
        assert(fmts@.take(i as int) =~= fmts@);
        c
    }

    /// Same layout without the value-table text column (for min/max).
    pub fn numbers_only(self) -> (r: Self)
        ensures
            r == (ValueColumn { text_width: 0, ..self }),
    {
        ValueColumn { int_width: self.int_width, frac_width: self.frac_width, text_width: 0 }
    }

    /// Digits and text in this column.
    pub open spec fn rendered(self, digits: Seq<char>, text: Option<Seq<char>>) -> Seq<char> {
        let p = find(digits, Class::One('.'));
        right_aligned(digits.take(p), self.int_width as int, ' ') + left_aligned(
            digits.skip(p),
            self.frac_width as int,
        ) + text_part(text, self.text_width as int)
    }

    /// Whether digits are no wider than the column on either side of the point.
    pub open spec fn holds_digits(self, digits: Seq<char>) -> bool {
        let p = find(digits, Class::One('.'));
        p <= self.int_width && digits.len() - p <= self.frac_width
    }

    /// Whether digits and text are no wider than the column.
    pub open spec fn holds(self, digits: Seq<char>, text: Option<Seq<char>>) -> bool {
        &&& self.holds_digits(digits)
        &&& text matches Some(t) ==> t.len() <= self.text_width
    }

    /// Length of every value that the column holds.
    pub open spec fn total_width(self) -> int {
        self.int_width + self.frac_width + (if self.text_width > 0 {
            1 + self.text_width
        } else {
            0
        })
    }

    /// Renders a number, given its digits, aligned on the decimal point.
    pub fn render(&self, digits: &str, text: Option<&str>) -> (r: String)
        ensures
            r@ == self.rendered(digits@, opt_view(text)),
    {
        let d = chars_of(digits);
        let p: usize = position(d.as_slice(), Class::One('.'));
        let mut out: Vec<char> = Vec::new();
        let whole = slice_subrange(d.as_slice(), 0, p);
        let frac = slice_subrange(d.as_slice(), p, d.len());
        assert(whole@ =~= d@.take(p as int));
        assert(frac@ =~= d@.skip(p as int));
        put_right(&mut out, whole, self.int_width, ' ');
        put_left(&mut out, frac, self.frac_width);
        put_text_part(&mut out, text, self.text_width);
        assert(out@ =~= self.rendered(digits@, opt_view(text)));
        string_of(out.as_slice())
    }
}

/// Every value that a column holds is rendered with the same length, and its decimal
/// point, or the end of its integer part, stands in the same place.
pub proof fn law_rendered_width(c: ValueColumn, digits: Seq<char>, text: Option<Seq<char>>)
    requires
        c.holds(digits, text),
    ensures
        c.rendered(digits, text).len() == c.total_width(),
        find(digits, Class::One('.')) < digits.len() ==> c.rendered(digits, text)[c.int_width as int]
            == '.',
{
    let p = find(digits, Class::One('.'));
    lemma_find(digits, Class::One('.'));
    let a = right_aligned(digits.take(p), c.int_width as int, ' ');
    let b = left_aligned(digits.skip(p), c.frac_width as int);
    assert(a.len() == c.int_width);
    if p < digits.len() {
        assert((a + b + text_part(text, c.text_width as int))[c.int_width as int] == b[0]);
        assert(b[0] == digits[p]);
    }
}

/// The first of the candidates that is exact, at most [`MAX_DECIMALS`].
pub open spec fn first_exact(exact: Seq<bool>) -> int
    decreases exact.len(),
{
    if exact.len() == 0 || exact[0] {
        0
    } else {
        1 + first_exact(exact.skip(1))
    }
}

/// The decimals to show: as many as represent the number, but no more than four.
pub open spec fn decimals_of(exact: Seq<bool>) -> int {
    if first_exact(exact) < 4 {
        first_exact(exact)
    } else {
        4
    }
}

/// Number of decimals for a number: the fewest that represent it exactly. `exact[d]`
/// tells whether `d` decimals do; without any, all candidates are used up.
pub fn decimals_for(exact: &[bool]) -> (r: usize)
    ensures
        r == least(first_exact(exact@), MAX_DECIMALS as int),
        r == decimals_of(exact@),
{
    let mut d: usize = 0;
    assert(exact@.skip(0) =~= exact@);
    while d < exact.len() && d < MAX_DECIMALS && !exact[d]
        invariant
            d <= exact@.len(),
            d <= MAX_DECIMALS,
            first_exact(exact@) == d + first_exact(exact@.skip(d as int)),
        decreases exact@.len() - d,
    {
        assert(exact@.skip(d as int).skip(1) =~= exact@.skip(d + 1));
        d = d + 1;
    }
    proof {
        lemma_first_exact(exact@.skip(d as int));
    }
    d
}

proof fn lemma_first_exact(exact: Seq<bool>)
    ensures
        0 <= first_exact(exact) <= exact.len(),
    decreases exact.len(),
{
    if exact.len() > 0 && !exact[0] {
        lemma_first_exact(exact.skip(1));
    }
}

/// A value is shown with its digits at the right of the number's width and its text behind,
/// after one space; a signal without a value table shows no text.
pub proof fn law_value_holds_digits_and_text(f: ValueFormat, digits: Seq<char>, text: Option<Seq<char>>)
    requires
        digits.len() <= f.width,
        text matches Some(t) ==> t.len() <= f.text_width,
    ensures
        ({
            let v = f.value_text(digits, text);
            &&& v.subrange(f.width - digits.len(), f.width as int) == digits
            &&& forall|i: int| 0 <= i < f.width - digits.len() ==> #[trigger] v[i] == ' '
            &&& f.text_width == 0 ==> v.len() == f.width
            &&& f.text_width > 0 ==> v[f.width as int] == ' '
            &&& f.text_width > 0 ==> (text matches Some(t) ==> v.subrange(
                f.width + 1,
                f.width + 1 + t.len(),
            ) == t)
        }),
{
    let v = f.value_text(digits, text);
    assert(v.subrange(f.width - digits.len(), f.width as int) =~= digits);
    if f.text_width > 0 {
        if let Some(t) = text {
            assert(v.subrange(f.width + 1, f.width + 1 + t.len()) =~= t);
        }
    }
}

/// The widths of a number's parts add up: the sign and integer digits, and the point with the
/// decimals behind it, where there are any.
pub proof fn law_parts_of_a_format(f: ValueFormat)
    ensures
        f.decimals == 0 ==> f.frac_spec() == 0,
        f.decimals > 0 ==> f.frac_spec() == f.decimals + 1,
        f.width >= f.frac_spec() ==> f.int_spec() + f.frac_spec() == f.width,
        f.width < f.frac_spec() ==> f.int_spec() == 0,
{
}

/// A number in a column keeps all of its characters: those up to the point end at the
/// column's integer width, and the others follow.
pub proof fn law_rendered_digits(c: ValueColumn, digits: Seq<char>, text: Option<Seq<char>>)
    requires
        c.holds(digits, text),
    ensures
        ({
            let p = find(digits, Class::One('.'));
            let r = c.rendered(digits, text);
            &&& r.subrange(c.int_width - p, c.int_width - p + digits.len()) == digits
            &&& forall|i: int| 0 <= i < c.int_width - p ==> #[trigger] r[i] == ' '
            &&& forall|i: int|
                c.int_width - p + digits.len() <= i < c.int_width + c.frac_width ==> #[trigger] r[i]
                    == ' '
            &&& c.text_width > 0 ==> (text matches Some(t) ==> r.subrange(
                c.int_width + c.frac_width + 1,
                c.int_width + c.frac_width + 1 + t.len(),
            ) == t)
        }),
{
    let p = find(digits, Class::One('.'));
    lemma_find(digits, Class::One('.'));
    let r = c.rendered(digits, text);
    assert(r.subrange(c.int_width - p, c.int_width - p + digits.len()) =~= digits);
    if c.text_width > 0 {
        if let Some(t) = text {
            assert(r.subrange(
                c.int_width + c.frac_width + 1,
                c.int_width + c.frac_width + 1 + t.len(),
            ) =~= t);
        }
    }
}

/// The decimals of a number are the fewest that represent it: that many do and fewer do not.
pub proof fn law_fewest_decimals(exact: Seq<bool>)
    ensures
        0 <= first_exact(exact) <= exact.len(),
        first_exact(exact) < exact.len() ==> exact[first_exact(exact)],
        forall|d: int| 0 <= d < first_exact(exact) ==> !#[trigger] exact[d],
    decreases exact.len(),
{
    if exact.len() > 0 && !exact[0] {
        let t = exact.skip(1);
        law_fewest_decimals(t);
        assert forall|d: int| 0 <= d < first_exact(exact) implies !#[trigger] exact[d] by {
            if d > 0 {
                assert(t[d - 1] == exact[d]);
            }
        }
    }
}

/// At most four decimals are shown; fewer only where they represent the number or nothing is
/// known of more, and never more than it takes.
pub proof fn law_decimals_shown(exact: Seq<bool>, d: int)
    ensures
        0 <= decimals_of(exact) <= 4,
        decimals_of(exact) < 4 && decimals_of(exact) < exact.len() ==> exact[decimals_of(exact)],
        0 <= d < decimals_of(exact) ==> !exact[d],
        exact.len() > 0 && exact[0] ==> decimals_of(exact) == 0,
{
    law_fewest_decimals(exact);
}

} // verus!
