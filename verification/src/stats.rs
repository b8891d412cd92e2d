//! Per-column summary statistics. The numeric columns are found from the
//! cells; for each, one pass computes the exact integer aggregates (count,
//! null count, sum, sum of squares, minimum, maximum) and a sorted copy
//! gives the median. The floating-point figures a report displays (mean,
//! sample standard deviation) derive from these exact aggregates outside
//! the verified core, which holds no floating point.

use vstd::prelude::*;
use vstd::relations::{sorted_by, total_ordering};
use crate::lint::spec_null_count;
use crate::table::{CellValue, SpecValue, Table};

verus! {

/// Whether column `j` holds at least one integer cell.
pub open spec fn spec_col_has_int(rows: Seq<Seq<SpecValue>>, j: int) -> bool {
    exists|i: int| 0 <= i < rows.len() && (#[trigger] rows[i])[j] is Int
}

/// Whether column `j` holds at least one text cell.
pub open spec fn spec_col_has_text(rows: Seq<Seq<SpecValue>>, j: int) -> bool {
    exists|i: int| 0 <= i < rows.len() && (#[trigger] rows[i])[j] is Text
}

/// A column is numeric when it holds integers and no text.
pub open spec fn spec_col_numeric(rows: Seq<Seq<SpecValue>>, j: int) -> bool {
    spec_col_has_int(rows, j) && !spec_col_has_text(rows, j)
}

/// The declared kind of a column, from its cells.
pub open spec fn spec_col_kind(rows: Seq<Seq<SpecValue>>, j: int) -> Seq<char> {
    if !spec_col_has_int(rows, j) && !spec_col_has_text(rows, j) {
        "null"@
    } else if !spec_col_has_text(rows, j) {
        "i64"@
    } else if !spec_col_has_int(rows, j) {
        "str"@
    } else {
        "mixed"@
    }
}

/// Scan one column once for the cell kinds it holds.
#[verifier::loop_isolation(false)]
fn col_scan(t: &Table, j: usize) -> (r: (bool, bool))
    requires
        t.wf(),
        j < t.spec_names().len(),
    ensures
        r.0 == spec_col_has_int(t.spec_rows(), j as int),
        r.1 == spec_col_has_text(t.spec_rows(), j as int),
{
    let h = t.rows.len();
    let mut has_int = false;
    let mut has_text = false;
    let mut i: usize = 0;
    while i < h
        invariant
            i <= h,
            has_int == exists|k: int|
                0 <= k < i && (#[trigger] t.spec_rows()[k])[j as int] is Int,
            has_text == exists|k: int|
                0 <= k < i && (#[trigger] t.spec_rows()[k])[j as int] is Text,
        decreases h - i,
    {
        proof {
            assert(t.spec_rows()[i as int].len() == t.spec_names().len());
        }
        let is_int = match &t.rows[i][j] {
            CellValue::Int(_) => true,
            _ => false,
        };
        let is_text = match &t.rows[i][j] {
            CellValue::Text(_) => true,
            _ => false,
        };
        proof {
            assert(is_int == (t.spec_rows()[i as int][j as int] is Int));
            assert(is_text == (t.spec_rows()[i as int][j as int] is Text));
        }
        if is_int {
            has_int = true;
        }
        if is_text {
            has_text = true;
        }
        i = i + 1;
    }
    (has_int, has_text)
}

/// The declared kind of one column, for a schema dump.
pub fn column_kind(t: &Table, j: usize) -> (r: String)
    requires
        t.wf(),
        j < t.spec_names().len(),
    ensures
        r@ == spec_col_kind(t.spec_rows(), j as int),
{
    let (has_int, has_text) = col_scan(t, j);
    if !has_int && !has_text {
        String::from_str("null")
    } else if !has_text {
        String::from_str("i64")
    } else if !has_int {
        String::from_str("str")
    } else {
        String::from_str("mixed")
    }
}

/// The numeric columns among the first `w`, in schema order.
pub open spec fn spec_numeric_cols(rows: Seq<Seq<SpecValue>>, w: int) -> Seq<int>
    decreases w,
{
    if w <= 0 {
        Seq::empty()
    } else {
        let pre = spec_numeric_cols(rows, w - 1);
        if spec_col_numeric(rows, w - 1) {
            pre.push(w - 1)
        } else {
            pre
        }
    }
}

pub proof fn lemma_numeric_cols_bound(rows: Seq<Seq<SpecValue>>, w: int)
    ensures
        forall|q: int|
            0 <= q < spec_numeric_cols(rows, w).len() ==> 0 <= #[trigger] spec_numeric_cols(
                rows,
                w,
            )[q] < w,
    decreases w,
{
    if w > 0 {
        lemma_numeric_cols_bound(rows, w - 1);
        let pre = spec_numeric_cols(rows, w - 1);
        let cur = spec_numeric_cols(rows, w);
        assert forall|q: int| 0 <= q < cur.len() implies 0 <= #[trigger] cur[q] < w by {
            if spec_col_numeric(rows, w - 1) {
                if q < pre.len() {
                    assert(cur[q] == pre[q]);
                } else {
                    assert(cur[q] == w - 1);
                }
            } else {
                assert(cur[q] == pre[q]);
            }
        }
    }
}

/// The indices of the numeric columns, in schema order.
#[verifier::loop_isolation(false)]
pub fn numeric_columns(t: &Table) -> (r: Vec<usize>)
    requires
        t.wf(),
    ensures
        r@.map_values(|u: usize| u as int) == spec_numeric_cols(
            t.spec_rows(),
            t.spec_names().len() as int,
        ),
        forall|q: int| 0 <= q < r@.len() ==> #[trigger] r@[q] < t.spec_names().len(),
{
    let w = t.names.len();
    let mut r: Vec<usize> = Vec::new();
    let mut j: usize = 0;
    proof {
        assert(r@.map_values(|u: usize| u as int) =~= spec_numeric_cols(t.spec_rows(), 0));
    }
    while j < w
        invariant
            j <= w,
            r@.map_values(|u: usize| u as int) == spec_numeric_cols(t.spec_rows(), j as int),
            forall|q: int| 0 <= q < r@.len() ==> #[trigger] r@[q] < j,
        decreases w - j,
    {
        let (has_int, has_text) = col_scan(t, j);
        let ghost rv = r@;
        if has_int && !has_text {
            r.push(j);
            proof {
                assert(r@.map_values(|u: usize| u as int) =~= rv.map_values(
                    |u: usize| u as int,
                ).push(j as int));
            }
        }
        j = j + 1;
    }
    r
}

/// How many cells of column `j` hold an integer.
pub open spec fn spec_int_count(rows: Seq<Seq<SpecValue>>, j: int) -> int
    decreases rows.len(),
{
    if rows.len() == 0 {
        0
    } else {
        spec_int_count(rows.drop_last(), j) + if rows.last()[j] is Int {
            1int
        } else {
            0int
        }
    }
}

/// The sum of the integer cells of column `j`.
pub open spec fn spec_col_sum(rows: Seq<Seq<SpecValue>>, j: int) -> int
    decreases rows.len(),
{
    if rows.len() == 0 {
        0
    } else {
        spec_col_sum(rows.drop_last(), j) + match rows.last()[j] {
            SpecValue::Int(x) => x,
            _ => 0,
        }
    }
}

/// The sum of the squares of the integer cells of column `j`.
pub open spec fn spec_col_sumsq(rows: Seq<Seq<SpecValue>>, j: int) -> int
    decreases rows.len(),
{
    if rows.len() == 0 {
        0
    } else {
        spec_col_sumsq(rows.drop_last(), j) + match rows.last()[j] {
            SpecValue::Int(x) => x * x,
            _ => 0,
        }
    }
}

/// The least integer cell of column `j`, if any.
pub open spec fn spec_col_min(rows: Seq<Seq<SpecValue>>, j: int) -> Option<int>
    decreases rows.len(),
{
    if rows.len() == 0 {
        None
    } else {
        let pre = spec_col_min(rows.drop_last(), j);
        match rows.last()[j] {
            SpecValue::Int(x) => match pre {
                None => Some(x),
                Some(m) => Some(
                    if x < m {
                        x
                    } else {
                        m
                    },
                ),
            },
            _ => pre,
        }
    }
}

/// The greatest integer cell of column `j`, if any.
pub open spec fn spec_col_max(rows: Seq<Seq<SpecValue>>, j: int) -> Option<int>
    decreases rows.len(),
{
    if rows.len() == 0 {
        None
    } else {
        let pre = spec_col_max(rows.drop_last(), j);
        match rows.last()[j] {
            SpecValue::Int(x) => match pre {
                None => Some(x),
                Some(m) => Some(
                    if x > m {
                        x
                    } else {
                        m
                    },
                ),
            },
            _ => pre,
        }
    }
}

/// The integer cells of column `j`, in row order.
pub open spec fn spec_col_ints(rows: Seq<Seq<SpecValue>>, j: int) -> Seq<int>
    decreases rows.len(),
{
    if rows.len() == 0 {
        Seq::empty()
    } else {
        let pre = spec_col_ints(rows.drop_last(), j);
        match rows.last()[j] {
            SpecValue::Int(x) => pre.push(x),
            _ => pre,
        }
    }
}

/// The order the sorted copies use, over machine integers.
pub open spec fn i64_order() -> spec_fn(i64, i64) -> bool {
    |a: i64, b: i64| a <= b
}

/// The order the sorted copies use, over mathematical integers.
pub open spec fn int_order() -> spec_fn(int, int) -> bool {
    |a: int, b: int| a <= b
}

pub proof fn lemma_int_order_total()
    ensures
        total_ordering(int_order()),
{
    assert forall|x: int| #[trigger] (int_order())(x, x) by {}
    assert forall|x: int, y: int| #[trigger] (int_order())(x, y) && #[trigger] (int_order())(
        y,
        x,
    ) implies x == y by {}
    assert forall|x: int, y: int, z: int|
        #[trigger] (int_order())(x, y) && #[trigger] (int_order())(y, z) implies (int_order())(
            x,
            z,
        ) by {}
    assert forall|x: int, y: int| #[trigger] (int_order())(x, y) || #[trigger] (int_order())(
        y,
        x,
    ) by {}
}

/// The column's integer cells, sorted.
pub open spec fn spec_sorted_col(rows: Seq<Seq<SpecValue>>, j: int) -> Seq<int> {
    spec_col_ints(rows, j).sort_by(int_order())
}

/// Twice the median of a sorted, non-empty sequence: the middle value
/// doubled, or the sum of the two middle values.
pub open spec fn spec_median2(s: Seq<int>) -> int {
    if s.len() % 2 == 1 {
        2 * s[((s.len() - 1) as int) / 2]
    } else {
        s[(s.len() as int) / 2 - 1] + s[(s.len() as int) / 2]
    }
}

pub proof fn lemma_insert_to_multiset<A>(s: Seq<A>, i: int, x: A)
    requires
        0 <= i <= s.len(),
    ensures
        s.insert(i, x).to_multiset() == s.to_multiset().insert(x),
{
    broadcast use vstd::seq_lib::group_to_multiset_ensures;

    let a = s.subrange(0, i);
    let b = s.subrange(i, s.len() as int);
    vstd::seq_lib::lemma_multiset_commutative(a.push(x), b);
    vstd::seq_lib::lemma_multiset_commutative(a, b);
    assert(s =~= a + b);
    assert(a.push(x).to_multiset() =~= a.to_multiset().insert(x));
    assert(s.insert(i, x).to_multiset() =~= s.to_multiset().insert(x));
}

pub proof fn lemma_map_int_multiset(a: Seq<i64>, b: Seq<i64>)
    requires
        a.to_multiset() == b.to_multiset(),
    ensures
        a.map_values(|x: i64| x as int).to_multiset() == b.map_values(
            |x: i64| x as int,
        ).to_multiset(),
    decreases a.len(),
{
    broadcast use vstd::seq_lib::group_to_multiset_ensures;

    if a.len() == 0 {
        assert(a.to_multiset().len() == 0);
        assert(b.len() == 0);
        assert(a.map_values(|x: i64| x as int) =~= Seq::<int>::empty());
        assert(b.map_values(|x: i64| x as int) =~= Seq::<int>::empty());
    } else {
        let x = a.last();
        assert(a.contains(x));
        assert(a.to_multiset().count(x) > 0);
        assert(b.to_multiset().count(x) > 0);
        assert(b.contains(x));
        let i = choose|i: int| 0 <= i < b.len() && b[i] == x;
        let a2 = a.drop_last();
        let b2 = b.remove(i);
        assert(a2 =~= a.remove(a.len() - 1));
        assert(a2.to_multiset() =~= a.to_multiset().remove(x));
        assert(b2.to_multiset() =~= b.to_multiset().remove(x));
        assert(a2.to_multiset() == b2.to_multiset());
        lemma_map_int_multiset(a2, b2);
        let fa = a.map_values(|x2: i64| x2 as int);
        let fa2 = a2.map_values(|x2: i64| x2 as int);
        assert(fa =~= fa2.push(x as int));
        assert(fa.to_multiset() =~= fa2.to_multiset().insert(x as int));
        let fb = b.map_values(|x2: i64| x2 as int);
        let fb2 = b2.map_values(|x2: i64| x2 as int);
        assert(fb2 =~= fb.remove(i));
        assert(fb.remove(i).to_multiset() =~= fb.to_multiset().remove(fb[i]));
        assert(fb[i] == x as int);
        assert(fb.contains(fb[i]));
        assert(fb.to_multiset().count(x as int) > 0);
        assert(fb.to_multiset() =~= fb2.to_multiset().insert(x as int));
        assert(fa.to_multiset() =~= fb.to_multiset());
    }
}

/// A sorted copy of the values, by insertion into place.
#[verifier::loop_isolation(false)]
fn sort_ints(v: &Vec<i64>) -> (r: Vec<i64>)
    ensures
        sorted_by(r@, i64_order()),
        r@.to_multiset() == v@.to_multiset(),
{
    broadcast use vstd::seq_lib::group_to_multiset_ensures;

    let n = v.len();
    let mut out: Vec<i64> = Vec::new();
    let mut i: usize = 0;
    proof {
        assert(v@.take(0) =~= Seq::<i64>::empty());
        assert(out@.to_multiset() =~= v@.take(0).to_multiset());
    }
    while i < n
        invariant
            i <= n,
            out@.len() == i,
            sorted_by(out@, i64_order()),
            out@.to_multiset() == v@.take(i as int).to_multiset(),
        decreases n - i,
    {
        let x = v[i];
        let m = out.len();
        let mut pos: usize = 0;
        while pos < m && out[pos] <= x
            invariant
                pos <= m,
                forall|k: int| 0 <= k < pos ==> #[trigger] out@[k] <= x,
            decreases m - pos,
        {
            pos = pos + 1;
        }
        let ghost old_out = out@;
        out.insert(pos, x);
        i = i + 1;
        proof {
            old_out.insert_ensures(pos as int, x);
            assert forall|p: int, q: int| 0 <= p < q < out@.len() implies (i64_order())(
                out@[p],
                out@[q],
            ) by {
                if q < pos {
                    assert(out@[p] == old_out[p] && out@[q] == old_out[q]);
                } else if p > pos {
                    assert(out@[p] == old_out[p - 1] && out@[q] == old_out[q - 1]);
                } else if p == pos && q > pos {
                    assert(out@[q] == old_out[q - 1]);
                    assert(pos < m);
                    assert(!(old_out[pos as int] <= x));
                    if q - 1 > pos {
                        assert((i64_order())(old_out[pos as int], old_out[q - 1]));
                    }
                } else if q == pos {
                    assert(out@[p] == old_out[p]);
                    assert(out@[q] == x);
                } else {
                    assert(p < pos && q > pos);
                    assert(out@[p] == old_out[p] && out@[q] == old_out[q - 1]);
                    if q - 1 > pos {
                        assert(pos < m);
                        assert(!(old_out[pos as int] <= x));
                        assert((i64_order())(old_out[pos as int], old_out[q - 1]));
                    } else if q - 1 == pos {
                        assert(pos < m);
                        assert(!(old_out[pos as int] <= x));
                    } else {
                        assert(old_out[q - 1] <= x || true);
                        assert(out@[p] <= x);
                    }
                }
            }
            lemma_insert_to_multiset(old_out, pos as int, x);
            assert(v@.take(i as int) =~= v@.take(i - 1).push(v@[i - 1]));
            assert(v@.take(i as int).to_multiset() =~= v@.take(i - 1).to_multiset().insert(
                v@[i - 1],
            ));
        }
    }
    proof {
        assert(v@.take(n as int) =~= v@);
    }
    out
}

pub proof fn lemma_col_ints_len(rows: Seq<Seq<SpecValue>>, j: int)
    ensures
        spec_col_ints(rows, j).len() == spec_int_count(rows, j),
        spec_int_count(rows, j) >= 0,
    decreases rows.len(),
{
    if rows.len() > 0 {
        lemma_col_ints_len(rows.drop_last(), j);
    }
}

pub proof fn lemma_sumsq_mono(rows: Seq<Seq<SpecValue>>, j: int, m: int)
    requires
        0 <= m <= rows.len(),
    ensures
        spec_col_sumsq(rows.take(m), j) <= spec_col_sumsq(rows, j),
    decreases rows.len(),
{
    if m < rows.len() {
        assert(rows.take(m) =~= rows.drop_last().take(m));
        lemma_sumsq_mono(rows.drop_last(), j, m);
        match rows.last()[j] {
            SpecValue::Int(x) => {
                assert(x * x >= 0) by (nonlinear_arith);
            },
            _ => {},
        }
    } else {
        assert(rows.take(m) =~= rows);
    }
}

/// The exact aggregates of one numeric column. The floating figures of the
/// displayed report derive from them: the mean is the sum over the count,
/// the sample standard deviation comes from the sum of squares with one
/// degree of freedom removed, and both are undefined below two values.
#[derive(Debug)]
pub struct StatRecord {
    pub column: String,
    pub count: usize,
    pub null_count: usize,
    pub sum: i128,
    pub sum_squares: Option<u128>,
    pub min: Option<i64>,
    pub max: Option<i64>,
    pub median_doubled: Option<i128>,
}

/// What one record must say of column `j`.
pub open spec fn spec_record_ok(
    rec: StatRecord,
    rows: Seq<Seq<SpecValue>>,
    names: Seq<Seq<char>>,
    j: int,
) -> bool {
    &&& rec.column@ == names[j]
    &&& rec.count == spec_int_count(rows, j)
    &&& rec.null_count == spec_null_count(rows, j)
    &&& rec.sum == spec_col_sum(rows, j)
    &&& match rec.sum_squares {
        Some(s) => s == spec_col_sumsq(rows, j),
        None => spec_col_sumsq(rows, j) > u128::MAX,
    }
    &&& match rec.min {
        Some(m) => spec_col_min(rows, j) == Some(m as int),
        None => spec_col_min(rows, j) is None,
    }
    &&& match rec.max {
        Some(m) => spec_col_max(rows, j) == Some(m as int),
        None => spec_col_max(rows, j) is None,
    }
    &&& match rec.median_doubled {
        Some(m) => spec_int_count(rows, j) > 0 && m == spec_median2(spec_sorted_col(rows, j)),
        None => spec_int_count(rows, j) == 0,
    }
}

/// One batched pass over column `j`: count, null count, sum, sum of
/// squares, minimum and maximum together, then a sorted copy for the
/// median.
#[verifier::loop_isolation(false)]
#[verifier::rlimit(60)]
pub fn column_stats(t: &Table, j: usize) -> (r: StatRecord)
    requires
        t.wf(),
        j < t.spec_names().len(),
    ensures
        spec_record_ok(r, t.spec_rows(), t.spec_names(), j as int),
{
    let h = t.rows.len();
    let mut count: usize = 0;
    let mut nulls: usize = 0;
    let mut sum: i128 = 0;
    let mut sumsq: Option<u128> = Some(0);
    let mut mn: Option<i64> = None;
    let mut mx: Option<i64> = None;
    let mut ints: Vec<i64> = Vec::new();
    let mut i: usize = 0;
    proof {
        assert(t.spec_rows().take(0) =~= Seq::<Seq<SpecValue>>::empty());
        assert(ints@.map_values(|x: i64| x as int) =~= spec_col_ints(t.spec_rows().take(0), j as int));
    }
    while i < h
        invariant
            i <= h,
            count <= i,
            nulls <= i,
            count == spec_int_count(t.spec_rows().take(i as int), j as int),
            nulls == crate::lint::spec_null_count(t.spec_rows().take(i as int), j as int),
            sum == spec_col_sum(t.spec_rows().take(i as int), j as int),
            -(count as int) * 0x8000_0000_0000_0000 <= sum
                <= (count as int) * 0x7fff_ffff_ffff_ffff,
            match sumsq {
                Some(s) => s == spec_col_sumsq(t.spec_rows().take(i as int), j as int),
                None => spec_col_sumsq(t.spec_rows().take(i as int), j as int) > u128::MAX,
            },
            match mn {
                Some(m) => spec_col_min(t.spec_rows().take(i as int), j as int) == Some(m as int),
                None => spec_col_min(t.spec_rows().take(i as int), j as int) is None,
            },
            match mx {
                Some(m) => spec_col_max(t.spec_rows().take(i as int), j as int) == Some(m as int),
                None => spec_col_max(t.spec_rows().take(i as int), j as int) is None,
            },
            ints@.len() == count,
            ints@.map_values(|x: i64| x as int) == spec_col_ints(
                t.spec_rows().take(i as int),
                j as int,
            ),
        decreases h - i,
    {
        proof {
            assert(t.spec_rows()[i as int].len() == t.spec_names().len());
            assert(t.spec_rows().take(i + 1).drop_last() =~= t.spec_rows().take(i as int));
            assert(t.spec_rows().take(i + 1).last() == t.spec_rows()[i as int]);
        }
        match &t.rows[i][j] {
            CellValue::Int(xr) => {
                let x = *xr;
                proof {
                    assert(t.spec_rows()[i as int][j as int] == SpecValue::Int(x as int));
                }
                sum = sum + (x as i128);
                count = count + 1;
                sumsq = match sumsq {
                    Some(s) => {
                        proof {
                            assert(0 <= (x as int) * (x as int)
                                <= 0x8000_0000_0000_0000 * 0x8000_0000_0000_0000)
                                by (nonlinear_arith)
                                requires
                                    -0x8000_0000_0000_0000 <= x as int <= 0x7fff_ffff_ffff_ffff,
                            ;
                        }
                        let xx: i128 = (x as i128) * (x as i128);
                        s.checked_add(xx as u128)
                    },
                    None => None,
                };
                proof {
                    if sumsq is None {
                        lemma_sumsq_mono(t.spec_rows().take(i + 1), j as int, i as int);
                    }
                }
                mn = match mn {
                    Some(m) => if x < m {
                        Some(x)
                    } else {
                        Some(m)
                    },
                    None => Some(x),
                };
                mx = match mx {
                    Some(m) => if x > m {
                        Some(x)
                    } else {
                        Some(m)
                    },
                    None => Some(x),
                };
                let ghost iv = ints@;
                ints.push(x);
                proof {
                    assert(ints@.map_values(|x2: i64| x2 as int) =~= iv.map_values(
                        |x2: i64| x2 as int,
                    ).push(x as int));
                }
            },
            CellValue::Null => {
                nulls = nulls + 1;
            },
            CellValue::Text(_) => {
            },
        }
        i = i + 1;
    }
    proof {
        assert(t.spec_rows().take(h as int) =~= t.spec_rows());
        if sumsq is None {
            lemma_sumsq_mono(t.spec_rows(), j as int, h as int);
        }
    }
    let median: Option<i128> = if count == 0 {
        None
    } else {
        let sorted = sort_ints(&ints);
        proof {
            broadcast use vstd::seq_lib::group_to_multiset_ensures;

            let ci = spec_col_ints(t.spec_rows(), j as int);
            let si = sorted@.map_values(|x: i64| x as int);
            lemma_int_order_total();
            assert(sorted@.to_multiset().len() == sorted@.len());
            assert(ints@.to_multiset().len() == ints@.len());
            assert(sorted@.len() == ints@.len());
            lemma_map_int_multiset(sorted@, ints@);
            assert(si.to_multiset() == ci.to_multiset());
            assert forall|p: int, q: int| 0 <= p < q < si.len() implies (int_order())(
                si[p],
                si[q],
            ) by {
                assert((i64_order())(sorted@[p], sorted@[q]));
            }
            assert(sorted_by(si, int_order()));
            ci.lemma_sort_by_ensures(int_order());
            vstd::seq_lib::lemma_sorted_unique(si, ci.sort_by(int_order()), int_order());
            assert(si =~= spec_sorted_col(t.spec_rows(), j as int));
            lemma_col_ints_len(t.spec_rows(), j as int);
        }
        let c = sorted.len();
        proof {
            assert(c == count);
        }
        if c % 2 == 1 {
            let m = sorted[(c - 1) / 2];
            proof {
                assert(spec_sorted_col(t.spec_rows(), j as int)[((c - 1) as int) / 2]
                    == m as int);
            }
            Some(2 * (m as i128))
        } else {
            let a = sorted[c / 2 - 1];
            let b = sorted[c / 2];
            Some((a as i128) + (b as i128))
        }
    };
    StatRecord {
        column: t.names[j].clone(),
        count,
        null_count: nulls,
        sum,
        sum_squares: sumsq,
        min: mn,
        max: mx,
        median_doubled: median,
    }
}

/// The ordered per-column statistics of the numeric columns; empty, with
/// its eight fields still declared, when no numeric column exists.
pub struct StatsReport {
    pub records: Vec<StatRecord>,
}

/// Compute the report: one record per numeric column, in schema order;
/// no numeric columns give an empty report.
#[verifier::loop_isolation(false)]
pub fn summarize(t: &Table) -> (r: StatsReport)
    requires
        t.wf(),
    ensures
        ({
            let cols = spec_numeric_cols(t.spec_rows(), t.spec_names().len() as int);
            &&& r.records@.len() == cols.len()
            &&& forall|q: int|
                0 <= q < cols.len() ==> spec_record_ok(
                    #[trigger] r.records@[q],
                    t.spec_rows(),
                    t.spec_names(),
                    cols[q],
                )
            &&& (r.records@.len() == 0 <==> cols.len() == 0)
        }),
{
    let cols = numeric_columns(t);
    let ghost cs = spec_numeric_cols(t.spec_rows(), t.spec_names().len() as int);
    let n = cols.len();
    let mut records: Vec<StatRecord> = Vec::new();
    let mut q: usize = 0;
    while q < n
        invariant
            q <= n,
            n == cs.len(),
            cols@.map_values(|u: usize| u as int) == cs,
            forall|u: int| 0 <= u < n ==> #[trigger] cols@[u] < t.spec_names().len(),
            records@.len() == q,
            forall|p: int|
                0 <= p < q ==> spec_record_ok(
                    #[trigger] records@[p],
                    t.spec_rows(),
                    t.spec_names(),
                    cs[p],
                ),
        decreases n - q,
    {
        proof {
            assert(cs[q as int] == cols@[q as int] as int);
        }
        let rec = column_stats(t, cols[q]);
        records.push(rec);
        q = q + 1;
    }
    StatsReport { records }
}

/// The eight declared fields of the report, in order.
pub fn stats_field_names() -> (r: Vec<String>)
    ensures
        r.deep_view() =~= seq![
            "column"@,
            "count"@,
            "null_count"@,
            "mean"@,
            "std"@,
            "min"@,
            "median"@,
            "max"@,
        ],
{
    let mut r: Vec<String> = Vec::new();
    r.push(String::from_str("column"));
    r.push(String::from_str("count"));
    r.push(String::from_str("null_count"));
    r.push(String::from_str("mean"));
    r.push(String::from_str("std"));
    r.push(String::from_str("min"));
    r.push(String::from_str("median"));
    r.push(String::from_str("max"));
    proof {
        assert(r.deep_view() =~= seq![
            "column"@,
            "count"@,
            "null_count"@,
            "mean"@,
            "std"@,
            "min"@,
            "median"@,
            "max"@,
        ]);
    }
    r
}

} // verus!
