//! Data-quality checks: per-column null counts, first-occurrence duplicate
//! counts, a schema dump, and extraction of the rows that hold nulls, with
//! percentages carried in hundredths of a percent and rendered exactly.

use vstd::prelude::*;
use crate::error::ToolError;
use crate::options::Options;
use crate::table::{CellValue, SpecValue, Table, clone_names, string_from_chars};

verus! {

/// How many cells of column `j` are null.
pub open spec fn spec_null_count(rows: Seq<Seq<SpecValue>>, j: int) -> int
    decreases rows.len(),
{
    if rows.len() == 0 {
        0
    } else {
        spec_null_count(rows.drop_last(), j) + if rows.last()[j] is Null {
            1int
        } else {
            0int
        }
    }
}

pub proof fn lemma_null_count_bound(rows: Seq<Seq<SpecValue>>, j: int)
    ensures
        0 <= spec_null_count(rows, j) <= rows.len(),
    decreases rows.len(),
{
    if rows.len() > 0 {
        lemma_null_count_bound(rows.drop_last(), j);
    }
}

/// `part` out of `total`, in hundredths of a percent, rounded to nearest
/// with halves up.
pub open spec fn spec_pct_hundredths(part: int, total: int) -> int {
    (2 * part * 10000 + total) / (2 * total)
}

/// Count the nulls of column `j`.
#[verifier::loop_isolation(false)]
pub fn null_count_in(t: &Table, j: usize) -> (r: usize)
    requires
        t.wf(),
        j < t.spec_names().len(),
    ensures
        r == spec_null_count(t.spec_rows(), j as int),
{
    let h = t.rows.len();
    let mut count: usize = 0;
    let mut i: usize = 0;
    proof {
        assert(t.spec_rows().take(0) =~= Seq::<Seq<SpecValue>>::empty());
    }
    while i < h
        invariant
            i <= h,
            count <= i,
            count == spec_null_count(t.spec_rows().take(i as int), j as int),
        decreases h - i,
    {
        proof {
            assert(t.spec_rows().take(i + 1).drop_last() =~= t.spec_rows().take(i as int));
            assert(t.spec_rows().take(i + 1).last() == t.spec_rows()[i as int]);
            assert(t.spec_rows()[i as int].len() == t.spec_names().len());
        }
        match &t.rows[i][j] {
            CellValue::Null => {
                count = count + 1;
            },
            _ => {},
        }
        i = i + 1;
    }
    proof {
        assert(t.spec_rows().take(h as int) =~= t.spec_rows());
    }
    count
}

/// Compute `part` of `total` in hundredths of a percent.
pub fn pct_hundredths(part: usize, total: usize) -> (r: u64)
    requires
        0 < total,
        part <= total,
    ensures
        r == spec_pct_hundredths(part as int, total as int),
        r <= 10001,
{
    let num: u128 = 2 * (part as u128) * 10000 + (total as u128);
    let den: u128 = 2 * (total as u128);
    let q: u128 = num / den;
    proof {
        let p = part as int;
        let t = total as int;
        assert(2 * p * 10000 + t <= (2 * t) * 10001) by (nonlinear_arith)
            requires
                0 <= p <= t,
        ;
        vstd::arithmetic::div_mod::lemma_div_is_ordered(
            2 * p * 10000 + t,
            (2 * t) * 10001,
            2 * t,
        );
        vstd::arithmetic::div_mod::lemma_div_multiples_vanish(10001, 2 * t);
    }
    q as u64
}

/// The decimal character of one digit.
pub open spec fn spec_digit_char(d: int) -> char {
    if d == 0 {
        '0'
    } else if d == 1 {
        '1'
    } else if d == 2 {
        '2'
    } else if d == 3 {
        '3'
    } else if d == 4 {
        '4'
    } else if d == 5 {
        '5'
    } else if d == 6 {
        '6'
    } else if d == 7 {
        '7'
    } else if d == 8 {
        '8'
    } else {
        '9'
    }
}

/// The decimal spelling of a non-negative number, most significant digit
/// first.
pub open spec fn spec_decimal(n: int) -> Seq<char>
    decreases n,
{
    if n < 10 {
        seq![spec_digit_char(n)]
    } else {
        spec_decimal(n / 10).push(spec_digit_char(n % 10))
    }
}

fn digit_char(d: u64) -> (r: char)
    requires
        d < 10,
    ensures
        r == spec_digit_char(d as int),
{
    if d == 0 {
        '0'
    } else if d == 1 {
        '1'
    } else if d == 2 {
        '2'
    } else if d == 3 {
        '3'
    } else if d == 4 {
        '4'
    } else if d == 5 {
        '5'
    } else if d == 6 {
        '6'
    } else if d == 7 {
        '7'
    } else if d == 8 {
        '8'
    } else {
        '9'
    }
}

/// Render a number in decimal.
#[verifier::loop_isolation(false)]
pub fn fmt_u64(n: u64) -> (r: String)
    ensures
        r@ == spec_decimal(n as int),
{
    let mut rev: Vec<char> = Vec::new();
    let mut m: u64 = n;
    while m >= 10
        invariant
            spec_decimal(n as int) == spec_decimal(m as int) + rev@.reverse(),
        decreases m,
    {
        let ghost old_rev = rev@;
        rev.push(digit_char(m % 10));
        proof {
            assert(rev@.reverse() =~= seq![spec_digit_char(m as int % 10)] + old_rev.reverse());
            assert(spec_decimal(m as int) == spec_decimal(m as int / 10).push(
                spec_digit_char(m as int % 10),
            ));
            assert(spec_decimal(m as int / 10) + (seq![spec_digit_char(m as int % 10)]
                + old_rev.reverse()) =~= spec_decimal(m as int) + old_rev.reverse());
        }
        m = m / 10;
    }
    let ghost old_rev = rev@;
    rev.push(digit_char(m));
    proof {
        assert(spec_decimal(m as int) == seq![spec_digit_char(m as int)]);
        assert(rev@.reverse() =~= seq![spec_digit_char(m as int)] + old_rev.reverse());
        assert(rev@.reverse() =~= spec_decimal(m as int) + old_rev.reverse());
    }
    let k = rev.len();
    let mut fwd: Vec<char> = Vec::new();
    let mut i: usize = 0;
    while i < k
        invariant
            k == rev@.len(),
            i <= k,
            fwd@ =~= rev@.reverse().take(i as int),
        decreases k - i,
    {
        fwd.push(rev[k - 1 - i]);
        i = i + 1;
        proof {
            assert(fwd@ =~= rev@.reverse().take(i as int));
        }
    }
    proof {
        assert(rev@.reverse().take(k as int) =~= rev@.reverse());
    }
    string_from_chars(&fwd)
}

/// Render hundredths of a percent with two decimals, as in a percentage
/// column: three thousand hundredths come out as thirty point zero zero.
pub fn format_pct(h: u64) -> (r: String)
    ensures
        r@ == spec_decimal(h as int / 100) + seq!['.', spec_digit_char((h as int % 100) / 10), spec_digit_char((h as int % 100) % 10)],
{
    let whole = fmt_u64(h / 100);
    let cents = h % 100;
    let mut tail: Vec<char> = Vec::new();
    tail.push('.');
    tail.push(digit_char(cents / 10));
    tail.push(digit_char(cents % 10));
    proof {
        assert(tail@ =~= seq![
            '.',
            spec_digit_char((h as int % 100) / 10),
            spec_digit_char((h as int % 100) % 10),
        ]);
    }
    let tail_s = string_from_chars(&tail);
    let r = whole.concat(tail_s.as_str());
    proof {
        assert(r@ == spec_decimal(h as int / 100) + seq![
            '.',
            spec_digit_char((h as int % 100) / 10),
            spec_digit_char((h as int % 100) % 10),
        ]);
    }
    r
}

/// The mathematical value of one null issue.
pub struct IssueV {
    pub column: Seq<char>,
    pub nulls: int,
    pub pct: int,
}

/// One reported column: its name, its null count, and the share of rows
/// affected, in hundredths of a percent.
#[derive(Debug)]
pub struct NullIssue {
    pub column: String,
    pub nulls: usize,
    pub pct_hundredths: u64,
}

impl View for NullIssue {
    type V = IssueV;

    open spec fn view(&self) -> IssueV {
        IssueV { column: self.column@, nulls: self.nulls as int, pct: self.pct_hundredths as int }
    }
}

impl DeepView for NullIssue {
    type V = IssueV;

    open spec fn deep_view(&self) -> IssueV {
        self.view()
    }
}

/// The columns among the first `w` that hold at least one null, in schema
/// order.
pub open spec fn spec_issue_cols(rows: Seq<Seq<SpecValue>>, w: int) -> Seq<int>
    decreases w,
{
    if w <= 0 {
        Seq::empty()
    } else {
        let pre = spec_issue_cols(rows, w - 1);
        if spec_null_count(rows, w - 1) > 0 {
            pre.push(w - 1)
        } else {
            pre
        }
    }
}

/// A column is reported exactly when it holds at least one null.
pub proof fn lemma_issue_cols_iff(rows: Seq<Seq<SpecValue>>, w: int, j: int)
    requires
        0 <= j < w,
    ensures
        spec_issue_cols(rows, w).contains(j) <==> spec_null_count(rows, j) > 0,
    decreases w,
{
    let cur = spec_issue_cols(rows, w);
    let pre = spec_issue_cols(rows, w - 1);
    if j < w - 1 {
        lemma_issue_cols_iff(rows, w - 1, j);
        if pre.contains(j) {
            let i = choose|i: int| 0 <= i < pre.len() && pre[i] == j;
            if spec_null_count(rows, w - 1) > 0 {
                assert(cur[i] == j);
            } else {
                assert(cur[i] == j);
            }
        }
        if cur.contains(j) {
            let i = choose|i: int| 0 <= i < cur.len() && cur[i] == j;
            if spec_null_count(rows, w - 1) > 0 {
                if i < pre.len() {
                    assert(pre[i] == j);
                } else {
                    assert(cur[i] == w - 1);
                }
            } else {
                assert(pre[i] == j);
            }
        }
    } else {
        if spec_null_count(rows, w - 1) > 0 {
            assert(cur[cur.len() - 1] == j);
        } else {
            if cur.contains(j) {
                let i = choose|i: int| 0 <= i < cur.len() && cur[i] == j;
                lemma_issue_cols_bound(rows, w - 1);
                assert(pre[i] == j);
                assert(false);
            }
        }
    }
}

pub proof fn lemma_issue_cols_bound(rows: Seq<Seq<SpecValue>>, w: int)
    ensures
        forall|q: int|
            0 <= q < spec_issue_cols(rows, w).len() ==> 0 <= #[trigger] spec_issue_cols(rows, w)[q]
                < w,
    decreases w,
{
    if w > 0 {
        lemma_issue_cols_bound(rows, w - 1);
        let pre = spec_issue_cols(rows, w - 1);
        let cur = spec_issue_cols(rows, w);
        assert forall|q: int| 0 <= q < cur.len() implies 0 <= #[trigger] cur[q] < w by {
            if spec_null_count(rows, w - 1) > 0 {
                if q < pre.len() {
                    assert(cur[q] == pre[q]);
                } else {
                    assert(cur[q] == w - 1);
                }
            } else {
                assert(cur[q] == pre[q]);
            }
        }
    }
}

/// Scan every column for nulls, each through its own isolated count so no
/// width of table forces all columns into memory at once, and report the
/// columns affected, in schema order, with exact counts and shares.
#[verifier::loop_isolation(false)]
pub fn null_scan(t: &Table) -> (r: Vec<NullIssue>)
    requires
        t.wf(),
    ensures
        ({
            let cols = spec_issue_cols(t.spec_rows(), t.spec_names().len() as int);
            &&& r.deep_view().len() == cols.len()
            &&& forall|q: int|
                0 <= q < cols.len() ==> #[trigger] r.deep_view()[q] == (IssueV {
                    column: t.spec_names()[cols[q]],
                    nulls: spec_null_count(t.spec_rows(), cols[q]),
                    pct: spec_pct_hundredths(
                        spec_null_count(t.spec_rows(), cols[q]),
                        t.spec_rows().len() as int,
                    ),
                })
        }),
{
    let w = t.names.len();
    let h = t.rows.len();
    let mut r: Vec<NullIssue> = Vec::new();
    let mut j: usize = 0;
    while j < w
        invariant
            j <= w,
            ({
                let cols = spec_issue_cols(t.spec_rows(), j as int);
                &&& r.deep_view().len() == cols.len()
                &&& forall|q: int|
                    0 <= q < cols.len() ==> #[trigger] r.deep_view()[q] == (IssueV {
                        column: t.spec_names()[cols[q]],
                        nulls: spec_null_count(t.spec_rows(), cols[q]),
                        pct: spec_pct_hundredths(
                            spec_null_count(t.spec_rows(), cols[q]),
                            t.spec_rows().len() as int,
                        ),
                    })
            }),
        decreases w - j,
    {
        let nulls = null_count_in(t, j);
        if nulls > 0 {
            proof {
                lemma_null_count_bound(t.spec_rows(), j as int);
            }
            let pct = pct_hundredths(nulls, h);
            let ghost dv = r.deep_view();
            r.push(NullIssue { column: t.names[j].clone(), nulls, pct_hundredths: pct });
            proof {
                assert(r.deep_view() =~= dv.push(
                    IssueV {
                        column: t.spec_names()[j as int],
                        nulls: spec_null_count(t.spec_rows(), j as int),
                        pct: spec_pct_hundredths(
                            spec_null_count(t.spec_rows(), j as int),
                            t.spec_rows().len() as int,
                        ),
                    },
                ));
            }
        }
        j = j + 1;
    }
    r
}

/// A duplicate count: how many rows repeat an earlier row, the share of
/// all rows they make in hundredths of a percent, and the columns that
/// defined "duplicate" when a subset scope was given.
#[derive(Debug)]
pub struct DupReport {
    pub duplicate_count: usize,
    pub pct_hundredths: u64,
    pub scope: Option<Vec<String>>,
}

/// Count the rows that repeat an earlier row over all columns, by the same
/// first-occurrence rule the pipeline dedup stage uses.
pub fn duplicate_scan_all(t: &Table) -> (r: DupReport)
    requires
        t.wf(),
    ensures
        r.scope is None,
        r.duplicate_count == t.spec_rows().len() - crate::table::spec_dedup_all(
            t.spec_rows(),
        ).len(),
        t.spec_rows().len() > 0 ==> r.pct_hundredths == spec_pct_hundredths(
            r.duplicate_count as int,
            t.spec_rows().len() as int,
        ),
        t.spec_rows().len() == 0 ==> r.pct_hundredths == 0,
{
    let unique = t.dedup_all();
    let u = unique.height();
    let h = t.height();
    let dup = h - u;
    let pct: u64 = if h > 0 {
        pct_hundredths(dup, h)
    } else {
        0
    };
    DupReport { duplicate_count: dup, pct_hundredths: pct, scope: None }
}

/// Count the rows that repeat an earlier row on the named key columns; rows
/// that are full duplicates on those columns count even when other fields
/// differ. Succeeds if and only if every key column is present.
pub fn duplicate_scan_on(t: &Table, cols: &Vec<String>) -> (r: Result<DupReport, ToolError>)
    requires
        t.wf(),
    ensures
        match r {
            Ok(rep) => ({
                let ks = cols.deep_view().map_values(
                    |c: Seq<char>| crate::table::spec_first_col(t.spec_names(), c),
                );
                &&& forall|j: int|
                    0 <= j < cols.deep_view().len() ==> crate::table::spec_first_col(
                        t.spec_names(),
                        #[trigger] cols.deep_view()[j],
                    ) >= 0
                &&& (rep.scope matches Some(sc) && sc.deep_view() == cols.deep_view())
                &&& rep.duplicate_count == t.spec_rows().len() - crate::table::spec_dedup_on(
                    t.spec_rows(),
                    ks,
                ).len()
                &&& t.spec_rows().len() > 0 ==> rep.pct_hundredths == spec_pct_hundredths(
                    rep.duplicate_count as int,
                    t.spec_rows().len() as int,
                )
                &&& t.spec_rows().len() == 0 ==> rep.pct_hundredths == 0
            }),
            Err(e) => (e matches ToolError::ColumnNotFoundError { column } && exists|m: int|
                0 <= m < cols.deep_view().len() && crate::table::spec_first_col(
                    t.spec_names(),
                    #[trigger] cols.deep_view()[m],
                ) == -1 && column@ == cols.deep_view()[m]),
        },
{
    let unique = match t.dedup_on(cols) {
        Ok(u) => u,
        Err(e) => {
            return Err(e);
        },
    };
    let u = unique.height();
    let h = t.height();
    let dup = h - u;
    let pct: u64 = if h > 0 {
        pct_hundredths(dup, h)
    } else {
        0
    };
    Ok(DupReport { duplicate_count: dup, pct_hundredths: pct, scope: Some(clone_names(cols)) })
}

/// Whether one of the cells at positions `ks` in a row is null.
pub open spec fn spec_row_has_null(row: Seq<SpecValue>, ks: Seq<int>) -> bool {
    exists|u: int| 0 <= u < ks.len() && row[#[trigger] ks[u]] is Null
}

/// The mask of rows holding a null in one of the checked columns.
pub open spec fn spec_null_mask(rows: Seq<Seq<SpecValue>>, ks: Seq<int>) -> Seq<bool> {
    Seq::new(rows.len(), |i: int| spec_row_has_null(rows[i], ks))
}

/// Keep the rows that hold a null in one of the columns at `ks`, capped at
/// the first hundred unless every row was asked for. With a single checked
/// column the disjunction degenerates to that column's own test and still
/// works.
#[verifier::loop_isolation(false)]
pub fn null_rows_by_idx(t: &Table, ks: &Vec<usize>, show_all: bool) -> (r: Table)
    requires
        t.wf(),
        forall|u: int| 0 <= u < ks@.len() ==> #[trigger] ks@[u] < t.spec_names().len(),
    ensures
        ({
            let ksi = ks@.map_values(|u: usize| u as int);
            let filt = crate::table::spec_mask_filter(
                t.spec_rows(),
                spec_null_mask(t.spec_rows(), ksi),
            );
            &&& r.spec_names() == t.spec_names()
            &&& r.wf()
            &&& show_all ==> r.spec_rows() == filt
            &&& !show_all ==> r.spec_rows() == filt.subrange(
                0,
                if filt.len() <= 100 {
                    filt.len() as int
                } else {
                    100
                },
            )
        }),
{
    let ghost ksi = ks@.map_values(|u: usize| u as int);
    let h = t.rows.len();
    let nk = ks.len();
    let mut keep: Vec<bool> = Vec::new();
    let mut i: usize = 0;
    while i < h
        invariant
            i <= h,
            keep@.len() == i,
            forall|p: int| 0 <= p < i ==> #[trigger] keep@[p] == spec_row_has_null(
                t.spec_rows()[p],
                ksi,
            ),
        decreases h - i,
    {
        proof {
            assert(t.spec_rows()[i as int].len() == t.spec_names().len());
        }
        let mut any = false;
        let mut u: usize = 0;
        while u < nk
            invariant
                i < h,
                u <= nk,
                any == exists|q: int|
                    0 <= q < u && t.spec_rows()[i as int][#[trigger] ksi[q]] is Null,
            decreases nk - u,
        {
            let is_n = match &t.rows[i][ks[u]] {
                CellValue::Null => true,
                _ => false,
            };
            proof {
                assert(ksi[u as int] == ks@[u as int] as int);
                assert(is_n == (t.spec_rows()[i as int][ksi[u as int]] is Null));
            }
            if is_n {
                any = true;
            }
            u = u + 1;
        }
        proof {
            assert(any == spec_row_has_null(t.spec_rows()[i as int], ksi));
        }
        keep.push(any);
        i = i + 1;
    }
    proof {
        assert(keep@ =~= spec_null_mask(t.spec_rows(), ksi));
    }
    let filtered = t.filter_mask(&keep);
    if show_all {
        filtered
    } else {
        let capped = filtered.slice_rows(0, Some(100));
        proof {
            let fl = filtered.spec_rows().len() as int;
            assert(crate::table::spec_slice_start(fl, 0) == 0);
            assert(crate::table::spec_slice_stop(fl, 0, Some(100usize)) == (if fl <= 100 {
                fl
            } else {
                100int
            }));
        }
        capped
    }
}

/// Null-row extraction over explicitly selected columns. Succeeds if and
/// only if every selected name is present.
pub fn null_rows_checked(t: &Table, cols: &Vec<String>, show_all: bool) -> (r: Result<
    Table,
    ToolError,
>)
    requires
        t.wf(),
    ensures
        match r {
            Ok(out) => ({
                let ks = cols.deep_view().map_values(
                    |c: Seq<char>| crate::table::spec_first_col(t.spec_names(), c),
                );
                let filt = crate::table::spec_mask_filter(
                    t.spec_rows(),
                    spec_null_mask(t.spec_rows(), ks),
                );
                &&& forall|j: int|
                    0 <= j < cols.deep_view().len() ==> crate::table::spec_first_col(
                        t.spec_names(),
                        #[trigger] cols.deep_view()[j],
                    ) >= 0
                &&& out.spec_names() == t.spec_names()
                &&& out.wf()
                &&& show_all ==> out.spec_rows() == filt
                &&& !show_all ==> out.spec_rows() == filt.subrange(
                    0,
                    if filt.len() <= 100 {
                        filt.len() as int
                    } else {
                        100int
                    },
                )
            }),
            Err(e) => (e matches ToolError::ColumnNotFoundError { column } && exists|m: int|
                0 <= m < cols.deep_view().len() && crate::table::spec_first_col(
                    t.spec_names(),
                    #[trigger] cols.deep_view()[m],
                ) == -1 && column@ == cols.deep_view()[m]),
        },
{
    let nc = cols.len();
    let mut ks: Vec<usize> = Vec::new();
    let mut j: usize = 0;
    while j < nc
        invariant
            t.wf(),
            nc == cols.deep_view().len(),
            j <= nc,
            ks@.len() == j,
            forall|k: int|
                0 <= k < j ==> #[trigger] ks@[k] == crate::table::spec_first_col(
                    t.spec_names(),
                    cols.deep_view()[k],
                ) && crate::table::spec_first_col(t.spec_names(), cols.deep_view()[k]) >= 0,
        decreases nc - j,
    {
        match t.column_index(cols[j].as_str()) {
            Some(k) => {
                ks.push(k);
            },
            None => {
                proof {
                    assert(crate::table::spec_first_col(
                        t.spec_names(),
                        cols.deep_view()[j as int],
                    ) == -1);
                }
                let c = cols[j].clone();
                proof {
                    assert(c@ == cols.deep_view()[j as int]);
                }
                return Err(ToolError::ColumnNotFoundError { column: c });
            },
        }
        j = j + 1;
    }
    proof {
        assert forall|u: int| 0 <= u < ks@.len() implies #[trigger] ks@[u]
            < t.spec_names().len() by {
            crate::table::lemma_first_col_range(t.spec_names(), cols.deep_view()[u]);
        }
        assert(ks@.map_values(|u: usize| u as int) =~= cols.deep_view().map_values(
            |c: Seq<char>| crate::table::spec_first_col(t.spec_names(), c),
        ));
        assert forall|jj: int| 0 <= jj < cols.deep_view().len()
            implies crate::table::spec_first_col(
            t.spec_names(),
            #[trigger] cols.deep_view()[jj],
        ) >= 0 by {
            assert(ks@[jj] == crate::table::spec_first_col(t.spec_names(), cols.deep_view()[jj]));
        }
    }
    Ok(null_rows_by_idx(t, &ks, show_all))
}

/// Null-row extraction over every column, the default when none were
/// selected. A table without columns yields no rows: the empty disjunction
/// holds of none.
pub fn null_rows_all(t: &Table, show_all: bool) -> (r: Table)
    requires
        t.wf(),
    ensures
        ({
            let ks = Seq::new(t.spec_names().len(), |q: int| q);
            let filt = crate::table::spec_mask_filter(
                t.spec_rows(),
                spec_null_mask(t.spec_rows(), ks),
            );
            &&& r.spec_names() == t.spec_names()
            &&& r.wf()
            &&& show_all ==> r.spec_rows() == filt
            &&& !show_all ==> r.spec_rows() == filt.subrange(
                0,
                if filt.len() <= 100 {
                    filt.len() as int
                } else {
                    100int
                },
            )
        }),
{
    let w = t.names.len();
    let mut ks: Vec<usize> = Vec::new();
    let mut j: usize = 0;
    while j < w
        invariant
            j <= w,
            ks@.len() == j,
            forall|k: int| 0 <= k < j ==> #[trigger] ks@[k] == k,
        decreases w - j,
    {
        ks.push(j);
        j = j + 1;
    }
    proof {
        assert(ks@.map_values(|u: usize| u as int) =~= Seq::new(
            t.spec_names().len(),
            |q: int| q,
        ));
    }
    null_rows_by_idx(t, &ks, show_all)
}

/// What a null scan must report: exactly the columns with nulls, in schema
/// order, with exact counts and shares.
pub open spec fn spec_issues_ok(
    issues: Seq<IssueV>,
    rows: Seq<Seq<SpecValue>>,
    names: Seq<Seq<char>>,
) -> bool {
    let cols = spec_issue_cols(rows, names.len() as int);
    &&& issues.len() == cols.len()
    &&& forall|q: int|
        0 <= q < cols.len() ==> #[trigger] issues[q] == (IssueV {
            column: names[cols[q]],
            nulls: spec_null_count(rows, cols[q]),
            pct: spec_pct_hundredths(spec_null_count(rows, cols[q]), rows.len() as int),
        })
}

/// The mathematical value of one schema line.
pub struct SchemaEntryV {
    pub name: Seq<char>,
    pub kind: Seq<char>,
}

/// One schema line: a column and the kind its cells show.
#[derive(Debug)]
pub struct SchemaEntry {
    pub name: String,
    pub kind: String,
}

impl View for SchemaEntry {
    type V = SchemaEntryV;

    open spec fn view(&self) -> SchemaEntryV {
        SchemaEntryV { name: self.name@, kind: self.kind@ }
    }
}

impl DeepView for SchemaEntry {
    type V = SchemaEntryV;

    open spec fn deep_view(&self) -> SchemaEntryV {
        self.view()
    }
}

/// What a schema dump must report: every column, in order, with its kind.
pub open spec fn spec_schema_ok(
    entries: Seq<SchemaEntryV>,
    rows: Seq<Seq<SpecValue>>,
    names: Seq<Seq<char>>,
) -> bool {
    &&& entries.len() == names.len()
    &&& forall|j: int|
        0 <= j < names.len() ==> #[trigger] entries[j] == (SchemaEntryV {
            name: names[j],
            kind: crate::stats::spec_col_kind(rows, j),
        })
}

/// List every column with its kind, in schema order.
#[verifier::loop_isolation(false)]
pub fn schema_kinds(t: &Table) -> (r: Vec<SchemaEntry>)
    requires
        t.wf(),
    ensures
        spec_schema_ok(r.deep_view(), t.spec_rows(), t.spec_names()),
{
    let w = t.names.len();
    let mut r: Vec<SchemaEntry> = Vec::new();
    let mut j: usize = 0;
    while j < w
        invariant
            j <= w,
            r.deep_view().len() == j,
            forall|k: int|
                0 <= k < j ==> #[trigger] r.deep_view()[k] == (SchemaEntryV {
                    name: t.spec_names()[k],
                    kind: crate::stats::spec_col_kind(t.spec_rows(), k),
                }),
        decreases w - j,
    {
        let ghost dv = r.deep_view();
        let kind = crate::stats::column_kind(t, j);
        r.push(SchemaEntry { name: t.names[j].clone(), kind });
        j = j + 1;
        proof {
            assert(r.deep_view() =~= dv.push(
                SchemaEntryV {
                    name: t.spec_names()[j - 1],
                    kind: crate::stats::spec_col_kind(t.spec_rows(), j - 1),
                },
            ));
        }
    }
    r
}

/// What a duplicate scan over whole rows must report.
pub open spec fn spec_dup_all_ok(rep: DupReport, rows: Seq<Seq<SpecValue>>) -> bool {
    &&& rep.scope is None
    &&& rep.duplicate_count == rows.len() - crate::table::spec_dedup_all(rows).len()
    &&& rows.len() > 0 ==> rep.pct_hundredths == spec_pct_hundredths(
        rep.duplicate_count as int,
        rows.len() as int,
    )
    &&& rows.len() == 0 ==> rep.pct_hundredths == 0
}

/// What a duplicate scan over a column subset must report.
pub open spec fn spec_dup_on_ok(
    rep: DupReport,
    rows: Seq<Seq<SpecValue>>,
    names: Seq<Seq<char>>,
    cols: Seq<Seq<char>>,
) -> bool {
    let ks = cols.map_values(|c: Seq<char>| crate::table::spec_first_col(names, c));
    &&& (rep.scope matches Some(sc) && sc.deep_view() == cols)
    &&& rep.duplicate_count == rows.len() - crate::table::spec_dedup_on(rows, ks).len()
    &&& rows.len() > 0 ==> rep.pct_hundredths == spec_pct_hundredths(
        rep.duplicate_count as int,
        rows.len() as int,
    )
    &&& rows.len() == 0 ==> rep.pct_hundredths == 0
}

/// What a null-row extraction must report over the checked columns `ks`.
pub open spec fn spec_null_rows_ok(
    out_rows: Seq<Seq<SpecValue>>,
    rows: Seq<Seq<SpecValue>>,
    ks: Seq<int>,
    show_all: bool,
) -> bool {
    let filt = crate::table::spec_mask_filter(rows, spec_null_mask(rows, ks));
    &&& show_all ==> out_rows == filt
    &&& !show_all ==> out_rows == filt.subrange(
        0,
        if filt.len() <= 100 {
            filt.len() as int
        } else {
            100int
        },
    )
}

/// The full report of one lint run.
#[derive(Debug)]
pub struct LintReport {
    pub total_rows: usize,
    pub total_cols: usize,
    pub null_issues: Vec<NullIssue>,
    pub duplicates: Option<DupReport>,
    pub schema: Option<Vec<SchemaEntry>>,
    pub null_rows: Option<Table>,
}

/// Whether one of the named columns is absent from the schema.
pub open spec fn spec_some_col_missing(names: Seq<Seq<char>>, cols: Seq<Seq<char>>) -> bool {
    exists|m: int|
        0 <= m < cols.len() && crate::table::spec_first_col(names, #[trigger] cols[m]) == -1
}

/// When a lint run fails: exactly when a column named as the dedup scope,
/// or selected for the null-row check, is absent from the schema.
pub open spec fn spec_lint_fails(names: Seq<Seq<char>>, o: Options) -> bool {
    ||| (o.unique_on matches Some(cols) && spec_some_col_missing(names, cols.deep_view()))
    ||| (o.show_nulls && (o.select matches Some(sel) && spec_some_col_missing(
        names,
        sel.deep_view(),
    )))
}

/// Run the lint checks the options ask for. The null scan always runs; the
/// duplicate scan runs under the whole-row flag or a subset scope, the
/// subset winning when both are given; the schema dump and the null-row
/// extraction are optional, the latter checking the selected columns or,
/// without a selection, every column. The total row and column counts are
/// taken once, up front, and reused by every check. The run succeeds if
/// and only if every column those options name is present.
pub fn lint_table(t: &Table, o: &Options) -> (r: Result<LintReport, ToolError>)
    requires
        t.wf(),
    ensures
        r is Ok <==> !spec_lint_fails(t.spec_names(), *o),
        match r {
            Ok(rep) => {
                &&& rep.total_rows == t.spec_rows().len()
                &&& rep.total_cols == t.spec_names().len()
                &&& spec_issues_ok(rep.null_issues.deep_view(), t.spec_rows(), t.spec_names())
                &&& (rep.duplicates is Some <==> (o.unique || o.unique_on is Some))
                &&& (o.unique_on matches Some(cols) ==> (rep.duplicates matches Some(d)
                    && spec_dup_on_ok(d, t.spec_rows(), t.spec_names(), cols.deep_view())))
                &&& ((o.unique_on is None && o.unique) ==> (rep.duplicates matches Some(d)
                    && spec_dup_all_ok(d, t.spec_rows())))
                &&& (rep.schema is Some <==> o.show_schema)
                &&& (rep.schema matches Some(entries) ==> spec_schema_ok(
                    entries.deep_view(),
                    t.spec_rows(),
                    t.spec_names(),
                ))
                &&& (rep.null_rows is Some <==> o.show_nulls)
                &&& (rep.null_rows matches Some(nr) ==> nr.spec_names() == t.spec_names()
                    && nr.wf() && (match o.select {
                    Some(sel) => spec_null_rows_ok(
                        nr.spec_rows(),
                        t.spec_rows(),
                        sel.deep_view().map_values(
                            |c: Seq<char>| crate::table::spec_first_col(t.spec_names(), c),
                        ),
                        o.all,
                    ),
                    None => spec_null_rows_ok(
                        nr.spec_rows(),
                        t.spec_rows(),
                        Seq::new(t.spec_names().len(), |q: int| q),
                        o.all,
                    ),
                }))
            },
            Err(e) => (e matches ToolError::ColumnNotFoundError { column }
                && crate::table::spec_first_col(t.spec_names(), column@) == -1 && ((
            o.unique_on matches Some(cols) && cols.deep_view().contains(column@)) || (o.show_nulls
                && (o.select matches Some(sel) && sel.deep_view().contains(column@))))),
        },
{
    let total_rows = t.height();
    let total_cols = t.width();
    let null_issues = null_scan(t);
    let duplicates: Option<DupReport> = match &o.unique_on {
        Some(cols) => match duplicate_scan_on(t, cols) {
            Ok(d) => {
                proof {
                    let cdv = cols.deep_view();
                    assert forall|m: int|
                        0 <= m < cdv.len() implies crate::table::spec_first_col(
                        t.spec_names(),
                        #[trigger] cdv[m],
                    ) >= 0 by {}
                    assert(!spec_some_col_missing(t.spec_names(), cdv));
                }
                Some(d)
            },
            Err(e) => {
                match &e {
                    ToolError::ColumnNotFoundError { column } => {
                        proof {
                            let cdv = cols.deep_view();
                            let m = choose|m: int|
                                0 <= m < cdv.len() && crate::table::spec_first_col(
                                    t.spec_names(),
                                    #[trigger] cdv[m],
                                ) == -1 && column@ == cdv[m];
                            assert(crate::table::spec_first_col(t.spec_names(), column@) == -1);
                            assert(cdv.contains(column@));
                            assert(spec_some_col_missing(t.spec_names(), cdv));
                        }
                    },
                    _ => {
                        proof {
                            assert(false);
                        }
                    },
                }
                return Err(e);
            },
        },
        None => if o.unique {
            Some(duplicate_scan_all(t))
        } else {
            None
        },
    };
    let schema: Option<Vec<SchemaEntry>> = if o.show_schema {
        Some(schema_kinds(t))
    } else {
        None
    };
    let null_rows: Option<Table> = if o.show_nulls {
        match &o.select {
            Some(sel) => match null_rows_checked(t, sel, o.all) {
                Ok(nr) => {
                    proof {
                        let sdv = sel.deep_view();
                        assert forall|m: int|
                            0 <= m < sdv.len() implies crate::table::spec_first_col(
                            t.spec_names(),
                            #[trigger] sdv[m],
                        ) >= 0 by {}
                        assert(!spec_some_col_missing(t.spec_names(), sdv));
                    }
                    Some(nr)
                },
                Err(e) => {
                    match &e {
                        ToolError::ColumnNotFoundError { column } => {
                            proof {
                                let sdv = sel.deep_view();
                                let m = choose|m: int|
                                    0 <= m < sdv.len() && crate::table::spec_first_col(
                                        t.spec_names(),
                                        #[trigger] sdv[m],
                                    ) == -1 && column@ == sdv[m];
                                assert(crate::table::spec_first_col(t.spec_names(), column@)
                                    == -1);
                                assert(sdv.contains(column@));
                                assert(spec_some_col_missing(t.spec_names(), sdv));
                            }
                        },
                        _ => {
                            proof {
                                assert(false);
                            }
                        },
                    }
                    return Err(e);
                },
            },
            None => Some(null_rows_all(t, o.all)),
        }
    } else {
        None
    };
    Ok(LintReport { total_rows, total_cols, null_issues, duplicates, schema, null_rows })
}

} // verus!
