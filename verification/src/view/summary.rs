//! The summary: one row per message, sorted and filtered.

use vstd::prelude::*;
use crate::msg::MsgKey;
use crate::number::{
    decimal, digits, format_uint, hex_padded, lemma_digits_len, lemma_hex_padded, lemma_hex_width,
    lemma_scan_digits, lemma_scan_zeros, parsed, power, put_decimal, put_hex, scan, IntError, Real,
};
use crate::symbols::text_view;
use crate::text::{
    chars_of, fill, lemma_text_asym, lemma_text_irrefl, lemma_text_total, lemma_text_trans, put_right,
    right_aligned, string_of, text_before, text_less,
};
use crate::view::filter::{Filter, FilterModel};

verus! {

/// What the summary is sorted by.
#[derive(Debug, Clone, Copy, PartialEq, Eq, Structural)]
pub enum SortBy {
    Id,
    Name,
    Count,
    Rate,
    Recent,
}

/// What a row is sorted and filtered by.
#[derive(Debug)]
pub struct Row {
    pub key: MsgKey,
    pub name: Option<String>,
    pub count: u64,
    /// Frames per second.
    pub rate: Real,
    /// Wall-clock time of the last frame.
    pub last_wall: Real,
}

/// What a row says.
pub ghost struct RowModel {
    pub key: MsgKey,
    pub name: Option<Seq<char>>,
    pub count: int,
    pub rate: Real,
    pub last_wall: Real,
}

impl View for Row {
    type V = RowModel;

    open spec fn view(&self) -> RowModel {
        RowModel {
            key: self.key,
            name: text_view(self.name),
            count: self.count as int,
            rate: self.rate,
            last_wall: self.last_wall,
        }
    }
}

/// The contents of rows.
pub open spec fn row_views(v: Seq<Row>) -> Seq<RowModel> {
    Seq::new(v.len(), |i: int| v[i]@)
}

/// Position of a number in the total order: negative ones by falling magnitude, minus zero,
/// zero, positive ones; what is not a number comes at either end.
pub open spec fn total_rank(r: Real) -> int {
    if r.bits >= 0x8000_0000_0000_0000 {
        0x7FFF_FFFF_FFFF_FFFF - r.bits
    } else {
        r.bits as int
    }
}

/// The name that a row is sorted by.
pub open spec fn sort_name(r: RowModel) -> Seq<char> {
    match r.name {
        Some(n) => n,
        None => Seq::empty(),
    }
}

/// Position of a row where it is sorted by a number.
pub open spec fn row_rank(r: RowModel, by: SortBy) -> int {
    match by {
        SortBy::Id => r.key.code_spec() as int,
        SortBy::Name => 2 * r.key.id + if r.key.ext {
            1int
        } else {
            0int
        },
        SortBy::Count => -r.count,
        SortBy::Rate => -total_rank(r.rate),
        SortBy::Recent => -total_rank(r.last_wall),
    }
}

/// Whether a row comes before another. By name, rows without one come last, and rows with
/// the same name go by their ID.
pub open spec fn row_before(a: RowModel, b: RowModel, by: SortBy) -> bool {
    if by == SortBy::Name {
        let x = sort_name(a);
        let y = sort_name(b);
        if (x.len() == 0) != (y.len() == 0) {
            y.len() == 0
        } else if x != y {
            text_before(x, y)
        } else {
            row_rank(a, by) < row_rank(b, by)
        }
    } else {
        row_rank(a, by) < row_rank(b, by)
    }
}

/// The order of rows is transitive, and no row comes before itself.
pub proof fn law_row_order(a: RowModel, b: RowModel, c: RowModel, by: SortBy)
    ensures
        row_before(a, b, by) && row_before(b, c, by) ==> row_before(a, c, by),
        !row_before(a, a, by),
        row_before(a, b, by) ==> !row_before(b, a, by),
{
    let x = sort_name(a);
    let y = sort_name(b);
    let z = sort_name(c);
    lemma_text_irrefl(x);
    if text_before(x, y) && text_before(y, z) {
        lemma_text_trans(x, y, z);
        if x == z {
            lemma_text_irrefl(x);
        }
    }
    if text_before(x, y) && text_before(y, x) {
        lemma_text_trans(x, y, x);
    }
}

/// Whether a list of row numbers is in order: every row stands once, none stands before one
/// that comes before it, and equal rows keep their order.
pub open spec fn is_order(rows: Seq<RowModel>, by: SortBy, o: Seq<usize>) -> bool {
    &&& o.len() == rows.len()
    &&& forall|i: int| 0 <= i < o.len() ==> #[trigger] o[i] < rows.len()
    &&& in_order(rows, by, o)
}

/// Whether row numbers are distinct and sorted.
pub open spec fn in_order(rows: Seq<RowModel>, by: SortBy, o: Seq<usize>) -> bool {
    forall|i: int, j: int|
        #![trigger o[i], o[j]]
        0 <= i < j < o.len() ==> o[i] != o[j] && !row_before(
            rows[o[j] as int],
            rows[o[i] as int],
            by,
        ) && (!row_before(rows[o[i] as int], rows[o[j] as int], by) ==> o[i] < o[j])
}

fn rank_of(r: Real) -> (k: i128)
    ensures
        k == total_rank(r),
{
    if r.bits >= 0x8000_0000_0000_0000 {
        0x7FFF_FFFF_FFFF_FFFF - r.bits as i128
    } else {
        r.bits as i128
    }
}

fn name_chars(n: &Option<String>) -> (r: Vec<char>)
    ensures
        r@ == (match text_view(*n) {
            Some(s) => s,
            None => Seq::empty(),
        }),
{
    match n {
        Some(s) => chars_of(s.as_str()),
        None => {
            let v: Vec<char> = Vec::new();
            assert(v@ =~= Seq::<char>::empty());
            v
        },
    }
}

fn rank_row(r: &Row, by: SortBy) -> (k: i128)
    ensures
        k == row_rank(r@, by),
{
    match by {
        SortBy::Id => r.key.code() as i128,
        SortBy::Name => 2 * (r.key.id as i128) + if r.key.ext {
            1
        } else {
            0
        },
        SortBy::Count => -(r.count as i128),
        SortBy::Rate => -rank_of(r.rate),
        SortBy::Recent => -rank_of(r.last_wall),
    }
}

fn comes_before(a: &Row, b: &Row, by: SortBy) -> (r: bool)
    ensures
        r == row_before(a@, b@, by),
{
    if by == SortBy::Name {
        let x = name_chars(&a.name);
        let y = name_chars(&b.name);
        if (x.len() == 0) != (y.len() == 0) {
            return y.len() == 0;
        }
        if !crate::text::same(x.as_slice(), y.as_slice()) {
            return text_less(x.as_slice(), y.as_slice());
        }
    }
    rank_row(a, by) < rank_row(b, by)
}

/// The numbers of the rows in sorted order.
pub fn sorted_order(rows: &Vec<Row>, by: SortBy) -> (r: Vec<usize>)
    ensures
        is_order(row_views(rows@), by, r@),
{
    let ghost all = row_views(rows@);
    let mut out: Vec<usize> = Vec::new();
    let mut n: usize = 0;
    while n < rows.len()
        invariant
            n <= rows@.len(),
            all == row_views(rows@),
            out@.len() == n,
            forall|i: int| 0 <= i < n ==> #[trigger] out@[i] < n,
            in_order(all, by, out@),
        decreases rows@.len() - n,
    {
        let ghost o = out@;
        // The place of row `n`: behind every row that it does not come before.
        let mut p: usize = n;
        while p > 0 && comes_before(&rows[n], &rows[out[p - 1]], by)
            invariant
                p <= n,
                n < rows@.len(),
                all == row_views(rows@),
                out@ == o,
                o.len() == n,
                forall|i: int| 0 <= i < n ==> #[trigger] o[i] < n,
                forall|i: int| p <= i < n ==> row_before(all[n as int], all[#[trigger] o[i] as int], by),
            decreases p,
        {
            assert(all[n as int] == rows@[n as int]@);
            assert(all[o[p - 1] as int] == rows@[o[p - 1] as int]@);
            p = p - 1;
        }
        proof {
            if p > 0 {
                assert(all[n as int] == rows@[n as int]@);
                assert(all[o[p - 1] as int] == rows@[o[p - 1] as int]@);
                assert(!row_before(all[n as int], all[o[p - 1] as int], by));
                // Rows further in front do not come after it either.
                assert forall|i: int| 0 <= i < p implies !row_before(
                    all[n as int],
                    all[#[trigger] o[i] as int],
                    by,
                ) by {
                    if i < p - 1 {
                        assert(o[i] != o[p - 1]);
                        assert(!row_before(all[o[p - 1] as int], all[o[i] as int], by));
                        lemma_not_before(
                            all[n as int],
                            all[o[p - 1] as int],
                            all[o[i] as int],
                            by,
                        );
                    }
                }
            }
        }
        out.insert(p, n);
        proof {
            let q = out@;
            assert(q =~= o.insert(p as int, n));
            assert forall|i: int, j: int|
                #![trigger q[i], q[j]]
                0 <= i < j < q.len() implies q[i] != q[j] && !row_before(
                all[q[j] as int],
                all[q[i] as int],
                by,
            ) && (!row_before(all[q[i] as int], all[q[j] as int], by) ==> q[i] < q[j]) by {
                let a = if i < p {
                    i
                } else {
                    i - 1
                };
                let b = if j < p {
                    j
                } else {
                    j - 1
                };
                if i == p {
                    assert(q[j] == o[j - 1]);
                    law_row_order(all[n as int], all[o[j - 1] as int], all[n as int], by);
                } else if j == p {
                    assert(q[i] == o[i]);
                    assert(!row_before(all[n as int], all[o[i] as int], by));
                } else {
                    assert(q[i] == o[a]);
                    assert(q[j] == o[b]);
                }
            }
            assert forall|i: int| 0 <= i < n + 1 implies #[trigger] q[i] < n + 1 by {
                if i < p {
                    assert(q[i] == o[i]);
                } else if i > p {
                    assert(q[i] == o[i - 1]);
                }
            }
        }
        n = n + 1;
    }
    out
}

/// If a row does not come before a second one, and the second not before a third, then the
/// first does not come before the third.
proof fn lemma_not_before(a: RowModel, b: RowModel, c: RowModel, by: SortBy)
    requires
        !row_before(a, b, by),
        !row_before(b, c, by),
    ensures
        !row_before(a, c, by),
{
    if by == SortBy::Name {
        let x = sort_name(a);
        let y = sort_name(b);
        let z = sort_name(c);
        if row_before(a, c, by) && x != y && y != z && x != z {
            lemma_text_total(x, y);
            lemma_text_total(y, z);
            if text_before(x, z) && text_before(z, y) && text_before(y, x) {
                lemma_text_trans(x, z, y);
                lemma_text_trans(x, y, x);
                lemma_text_irrefl(x);
            }
        }
        if x == y && x != z {
            lemma_text_total(x, z);
            lemma_text_asym(x, z);
        }
        if x != y && x == z {
            lemma_text_total(x, y);
            lemma_text_asym(x, y);
        }
        if x != y && y == z {
            lemma_text_total(x, y);
            lemma_text_asym(x, y);
        }
    }
}

/// The numbers of the rows that pass a filter, out of a list.
pub open spec fn visible_rows(
    rows: Seq<RowModel>,
    filter: FilterModel,
    o: Seq<usize>,
) -> Seq<usize>
    decreases o.len(),
{
    if o.len() == 0 {
        o
    } else {
        let before = visible_rows(rows, filter, o.drop_last());
        let r = rows[o.last() as int];
        if filter.nothing() || filter.admits(r.key, r.name) {
            before.push(o.last())
        } else {
            before
        }
    }
}

/// The numbers of the rows that pass a filter, in the order of a list.
pub fn visible(rows: &Vec<Row>, filter: &Filter, order: &Vec<usize>) -> (r: Vec<usize>)
    requires
        forall|i: int| 0 <= i < order@.len() ==> #[trigger] order@[i] < rows@.len(),
    ensures
        r@ == visible_rows(row_views(rows@), filter@, order@),
{
    let ghost all = row_views(rows@);
    let mut out: Vec<usize> = Vec::new();
    let mut i: usize = 0;
    assert(order@.take(0) =~= Seq::<usize>::empty());
    assert(out@ =~= Seq::<usize>::empty());
    while i < order.len()
        invariant
            i <= order@.len(),
            all == row_views(rows@),
            forall|j: int| 0 <= j < order@.len() ==> #[trigger] order@[j] < rows@.len(),
            out@ == visible_rows(all, filter@, order@.take(i as int)),
        decreases order@.len() - i,
    {
        let k: usize = order[i];
        assert(order@[i as int] < rows@.len());
        proof {
            assert(order@.take(i + 1).drop_last() =~= order@.take(i as int));
            assert(order@.take(i + 1).last() == k);
            assert(all[k as int] == rows@[k as int]@);
        }
        let row = &rows[k];
        let name: Option<&str> = match &row.name {
            Some(n) => Some(n.as_str()),
            None => None,
        };
        assert(crate::symbols::format::opt_view(name) == text_view(row.name));
        if filter.is_empty() || filter.matches(row.key, name) {
            out.push(k);
        }
        i = i + 1;
    }
    assert(order@.take(i as int) =~= order@);
    out
}

/// How many frames some rows count.
pub open spec fn total_count(rows: Seq<RowModel>) -> int
    decreases rows.len(),
{
    if rows.len() == 0 {
        0
    } else {
        total_count(rows.drop_last()) + rows.last().count
    }
}

proof fn lemma_total_count(rows: Seq<RowModel>, n: int)
    requires
        0 <= n <= rows.len(),
        forall|i: int| 0 <= i < rows.len() ==> (#[trigger] rows[i]).count >= 0,
    ensures
        0 <= total_count(rows.take(n)) <= total_count(rows),
    decreases rows.len(),
{
    if n == rows.len() {
        assert(rows.take(n) =~= rows);
        if n > 0 {
            let t = rows.drop_last();
            assert forall|i: int| 0 <= i < t.len() implies (#[trigger] t[i]).count >= 0 by {
                assert(t[i] == rows[i]);
            }
            lemma_total_count(t, n - 1);
            assert(t.take(n - 1) =~= t);
            assert(rows[n - 1].count >= 0);
        }
    } else {
        let t = rows.drop_last();
        assert forall|i: int| 0 <= i < t.len() implies (#[trigger] t[i]).count >= 0 by {
            assert(t[i] == rows[i]);
        }
        lemma_total_count(t, n);
        assert(t.take(n) =~= rows.take(n));
        assert(rows[rows.len() - 1].count >= 0);
    }
}

/// How many frames some rows count.
pub fn count_frames(rows: &Vec<Row>) -> (r: u64)
    requires
        total_count(row_views(rows@)) <= u64::MAX,
    ensures
        r == total_count(row_views(rows@)),
{
    let ghost all = row_views(rows@);
    let mut n: u64 = 0;
    let mut i: usize = 0;
    while i < rows.len()
        invariant
            i <= rows@.len(),
            all == row_views(rows@),
            total_count(all) <= u64::MAX,
            n == total_count(all.take(i as int)),
        decreases rows@.len() - i,
    {
        proof {
            assert(all.take(i + 1).drop_last() =~= all.take(i as int));
            assert(all.take(i + 1).last() == rows@[i as int]@);
            lemma_total_count(all, i + 1);
        }
        n = n + rows[i].count;
        i = i + 1;
    }
    assert(all.take(i as int) =~= all);
    n
}

/// What is selected after a click.
pub open spec fn toggled_key(selected: Option<MsgKey>, clicked: MsgKey) -> Option<MsgKey> {
    match selected {
        Some(k) => if k == clicked {
            None
        } else {
            Some(clicked)
        },
        None => Some(clicked),
    }
}

/// The selection after a click: a second click on the same row takes it back.
pub fn toggled(selected: Option<MsgKey>, clicked: MsgKey) -> (r: Option<MsgKey>)
    ensures
        r == (if selected == Some(clicked) {
            None
        } else {
            Some(clicked)
        }),
        r == toggled_key(selected, clicked),
{
    match selected {
        Some(k) => {
            if k == clicked {
                None
            } else {
                Some(clicked)
            }
        },
        None => Some(clicked),
    }
}

/// The directions in which a message was seen.
pub open spec fn directions_text(received: bool, sent: bool) -> Seq<char> {
    if !sent {
        "Rx"@
    } else if !received {
        "Tx"@
    } else {
        "Rx/Tx"@
    }
}

/// The directions in which a message was seen.
pub fn directions(rx_count: u64, tx_count: u64) -> (r: &'static str)
    ensures
        r@ == (if rx_count > 0 && tx_count > 0 {
            "Rx/Tx"@
        } else if tx_count > 0 {
            "Tx"@
        } else {
            "Rx"@
        }),
        r@ == directions_text(rx_count > 0, tx_count > 0),
{
    if rx_count > 0 && tx_count > 0 {
        "Rx/Tx"
    } else if tx_count > 0 {
        "Tx"
    } else {
        "Rx"
    }
}

/// A byte in the bit-level view: its number, then its value in hexadecimal, binary and
/// decimal.
pub struct ByteCells {
    pub index: String,
    pub hex: String,
    pub binary: String,
    pub dec: String,
}

/// The cells of a byte in the bit-level view.
pub fn byte_cells(index: usize, b: u8) -> (r: ByteCells)
    ensures
        r.index@ == decimal(index as int),
        r.hex@ == hex_padded(b as int, 2),
        r.binary@ == right_aligned(digits(b as int, 2), 8, '0'),
        r.dec@ == decimal(b as int),
{
    let mut i: Vec<char> = Vec::new();
    put_decimal(&mut i, index as u64);
    assert(i@ =~= decimal(index as int));
    let mut h: Vec<char> = Vec::new();
    put_hex(&mut h, b as u64, 2);
    assert(h@ =~= hex_padded(b as int, 2));
    let mut x: Vec<char> = Vec::new();
    let bits = format_uint(b as u64, 2);
    put_right(&mut x, bits.as_slice(), 8, '0');
    assert(x@ =~= right_aligned(digits(b as int, 2), 8, '0'));
    let mut d: Vec<char> = Vec::new();
    put_decimal(&mut d, b as u64);
    assert(d@ =~= decimal(b as int));
    ByteCells {
        index: string_of(i.as_slice()),
        hex: string_of(h.as_slice()),
        binary: string_of(x.as_slice()),
        dec: string_of(d.as_slice()),
    }
}

/// What each order means. By ID: standard IDs before extended ones, in each the lower first.
/// By name: what has one first, by the texts, with the ID to tell the same names apart. By
/// count, rate and time: the higher, faster and later first.
pub proof fn law_orders_of_rows(a: RowModel, b: RowModel)
    ensures
        !a.key.ext && b.key.ext ==> row_before(a, b, SortBy::Id),
        a.key.ext == b.key.ext ==> row_before(a, b, SortBy::Id) == (a.key.id < b.key.id),
        row_before(a, b, SortBy::Count) == (a.count > b.count),
        b.rate.lt(a.rate) ==> row_before(a, b, SortBy::Rate),
        b.last_wall.lt(a.last_wall) ==> row_before(a, b, SortBy::Recent),
        a.rate == b.rate ==> !row_before(a, b, SortBy::Rate),
        a.last_wall == b.last_wall ==> !row_before(a, b, SortBy::Recent),
        a.name is Some && a.name->0.len() > 0 && b.name is None ==> row_before(a, b, SortBy::Name),
        a.name is Some && b.name is Some && a.name->0.len() > 0 && text_before(a.name->0, b.name->0)
            && b.name->0.len() > 0 && a.name != b.name ==> row_before(a, b, SortBy::Name),
        a.name == b.name && a.key.id < b.key.id ==> row_before(a, b, SortBy::Name),
        a.name == b.name && a.key.id == b.key.id && !a.key.ext && b.key.ext ==> row_before(
            a,
            b,
            SortBy::Name,
        ),
{
}

/// The rows that are shown are those that pass the filter, in the order given.
pub proof fn law_rows_shown(
    rows: Seq<RowModel>,
    filter: FilterModel,
    a: Seq<usize>,
    b: Seq<usize>,
    n: usize,
)
    ensures
        visible_rows(rows, filter, a + b) == visible_rows(rows, filter, a) + visible_rows(
            rows,
            filter,
            b,
        ),
        filter.admits(rows[n as int].key, rows[n as int].name) ==> visible_rows(rows, filter, seq![n])
            == seq![n],
        !filter.nothing() && !filter.admits(rows[n as int].key, rows[n as int].name)
            ==> visible_rows(rows, filter, seq![n]).len() == 0,
        filter.nothing() ==> visible_rows(rows, filter, seq![n]) == seq![n],
    decreases b.len(),
{
    if b.len() == 0 {
        assert(a + b =~= a);
        assert(visible_rows(rows, filter, a) + visible_rows(rows, filter, b) =~= visible_rows(
            rows,
            filter,
            a,
        ));
    } else {
        law_rows_shown(rows, filter, a, b.drop_last(), n);
        assert((a + b).drop_last() =~= a + b.drop_last());
        assert(visible_rows(rows, filter, a + b) =~= visible_rows(rows, filter, a) + visible_rows(
            rows,
            filter,
            b,
        ));
    }
    let one = seq![n];
    let none = Seq::<usize>::empty();
    assert(one.drop_last() =~= none);
    assert(visible_rows(rows, filter, none) == none);
    assert(none.push(n) =~= one);
}

/// The frames of all rows are counted, each row once.
pub proof fn law_all_frames_are_counted(a: Seq<RowModel>, b: Seq<RowModel>, r: RowModel)
    ensures
        total_count(a + b) == total_count(a) + total_count(b),
        total_count(seq![r]) == r.count,
    decreases b.len(),
{
    if b.len() == 0 {
        assert(a + b =~= a);
    } else {
        law_all_frames_are_counted(a, b.drop_last(), r);
        assert((a + b).drop_last() =~= a + b.drop_last());
    }
    assert(seq![r].drop_last() =~= Seq::empty());
    assert(total_count(Seq::empty()) == 0);
}

/// A click on what is selected takes the selection away, any other click selects; two clicks
/// on the same row in a row end with nothing or with it, as they began.
pub proof fn law_clicks(selected: Option<MsgKey>, k: MsgKey)
    ensures
        toggled_key(Some(k), k) is None,
        selected != Some(k) ==> toggled_key(selected, k) == Some(k),
        selected == Some(k) || selected is None ==> toggled_key(toggled_key(selected, k), k)
            == selected,
        directions_text(true, false) == "Rx"@,
        directions_text(false, true) == "Tx"@,
        directions_text(true, true) == "Rx/Tx"@,
{
}

/// The binary digits of a byte are eight, and read back.
pub proof fn law_binary_cells(b: u8)
    ensures
        right_aligned(digits(b as int, 2), 8, '0').len() == 8,
        scan(0, right_aligned(digits(b as int, 2), 8, '0'), 2, 0xFF) == Ok::<int, IntError>(b as int),
        hex_padded(b as int, 2).len() == 2,
        parsed(hex_padded(b as int, 2), 16, 0xFF) == Ok::<int, IntError>(b as int),
{
    let d = digits(b as int, 2);
    assert(power(2, 8) == 0x100) by {
        reveal_with_fuel(power, 9);
    }
    lemma_digits_len(b as int, 2, 8);
    lemma_scan_digits(b as int, 2, 0xFF);
    lemma_scan_zeros(8 - d.len(), d, 2, 0xFF);
    lemma_hex_padded(b as int, 2, 0xFF);
    lemma_hex_width(b as int, 2);
    assert(right_aligned(d, 8, '0') =~= fill('0', 8 - d.len()) + d);
}

/// Rates and times are put in a total order: numbers by size, a negative zero before a
/// positive one, and no two that differ in the same place.
pub proof fn law_total_order(a: Real, b: Real)
    ensures
        a.bits != b.bits ==> total_rank(a) != total_rank(b),
        a.lt(b) ==> total_rank(a) < total_rank(b),
        a.bits == 0x8000_0000_0000_0000 && b.bits == 0 ==> total_rank(a) < total_rank(b),
        a.bits >= 0x8000_0000_0000_0000 && b.bits < 0x8000_0000_0000_0000 ==> total_rank(a)
            < total_rank(b),
{
}

} // verus!
