//! The stated properties of the pipeline semantics, proved once and for
//! all over the same spec functions the operations' contracts use.

use vstd::prelude::*;
use crate::sample::{spec_sample_size, spec_sample_window};
use crate::stats::{spec_col_numeric, spec_numeric_cols};
use crate::table::{spec_kept_idx, spec_slice_start, spec_slice_stop};

verus! {

/// A slice with an offset and a limit yields exactly the smaller of the
/// limit and the rows remaining past the offset. Together with the
/// compiler's guarantee that a slice stage stands last, the slice always
/// observes the full filtered, projected and deduplicated result.
pub proof fn lemma_slice_row_count(h: int, offset: int, l: usize)
    requires
        0 <= h,
    ensures
        ({
            let start = spec_slice_start(h, offset);
            let stop = spec_slice_stop(h, start, Some(l));
            &&& 0 <= start <= h
            &&& stop - start == (if l as int <= h - start {
                l as int
            } else {
                h - start
            })
        }),
{
}

/// A slice with neither offset nor limit bound keeps every row: the window
/// runs from the first row to the last.
pub proof fn lemma_slice_unbounded(h: int)
    requires
        0 <= h,
    ensures
        spec_slice_start(h, 0) == 0,
        spec_slice_stop(h, 0, None::<usize>) == h,
{
}

/// Dropping a column that a selection already excluded is a no-op: every
/// column of the selected table survives, in place.
pub proof fn lemma_drop_unselected_noop(sel: Seq<Seq<char>>, d: Seq<char>)
    requires
        !sel.contains(d),
    ensures
        spec_kept_idx(sel, seq![d]) =~= Seq::new(sel.len(), |i: int| i),
    decreases sel.len(),
{
    if sel.len() > 0 {
        assert forall|i: int| 0 <= i < sel.len() - 1 implies sel.drop_last()[i] != d by {
            assert(sel[i] == sel.drop_last()[i]);
        }
        assert(!sel.drop_last().contains(d));
        lemma_drop_unselected_noop(sel.drop_last(), d);
        assert(!seq![d].contains(sel.last())) by {
            if seq![d].contains(sel.last()) {
                assert(seq![d][0] == d);
                assert(sel.last() == d);
                assert(sel.contains(sel.last()));
            }
        }
    }
}

/// Applying an identity column map to a row returns the row itself.
pub proof fn lemma_identity_projection(row: Seq<crate::table::SpecValue>)
    ensures
        Seq::new(row.len(), |i: int| i).map_values(|k: int| row[k]) =~= row,
{
}

/// No column that was dropped survives into the final schema; in
/// particular, dropping a selected column removes it.
pub proof fn lemma_drop_removes(names: Seq<Seq<char>>, dropped: Seq<Seq<char>>)
    ensures
        forall|q: int|
            0 <= q < spec_kept_idx(names, dropped).len() ==> !dropped.contains(
                names[#[trigger] spec_kept_idx(names, dropped)[q]],
            ),
    decreases names.len(),
{
    crate::table::lemma_kept_idx_range(names, dropped);
    if names.len() > 0 {
        lemma_drop_removes(names.drop_last(), dropped);
        crate::table::lemma_kept_idx_range(names.drop_last(), dropped);
        let pre = spec_kept_idx(names.drop_last(), dropped);
        let cur = spec_kept_idx(names, dropped);
        assert forall|q: int| 0 <= q < cur.len() implies !dropped.contains(
            names[#[trigger] cur[q]],
        ) by {
            if dropped.contains(names.last()) {
                assert(cur[q] == pre[q]);
                assert(names.drop_last()[pre[q]] == names[pre[q]]);
            } else {
                if q < pre.len() {
                    assert(cur[q] == pre[q]);
                    assert(names.drop_last()[pre[q]] == names[pre[q]]);
                } else {
                    assert(cur[q] == names.len() - 1);
                }
            }
        }
    }
}

/// The sampler's boundaries: a request covering every row samples nothing
/// away, a request for nothing yields nothing, and a proper request yields
/// exactly its count, drawn from a window that clamps a thousand rows per
/// requested row between one hundred thousand and the rows available.
pub proof fn lemma_sample_boundaries(n: int, total: int)
    requires
        0 <= n,
        0 <= total,
    ensures
        n >= total ==> spec_sample_size(n, total) == total,
        n == 0 ==> spec_sample_size(n, total) == 0,
        0 <= n <= total ==> spec_sample_size(n, total) == n,
        0 < n < total ==> n <= spec_sample_window(n, total) <= total,
        spec_sample_window(n, total) <= total,
        n * 1000 <= total ==> 100000 <= total ==> spec_sample_window(n, total) == (if n * 1000
            >= 100000 {
            n * 1000
        } else {
            100000int
        }),
{
    assert(n * 1000 >= n) by (nonlinear_arith)
        requires
            n >= 0,
    ;
}

/// A column is numeric for the statistics report exactly when it holds an
/// integer cell and no text cell; with no numeric columns the report is
/// empty.
pub proof fn lemma_numeric_cols_iff(rows: Seq<Seq<crate::table::SpecValue>>, w: int, j: int)
    requires
        0 <= j < w,
    ensures
        spec_numeric_cols(rows, w).contains(j) <==> spec_col_numeric(rows, j),
    decreases w,
{
    crate::stats::lemma_numeric_cols_bound(rows, w);
    let cur = spec_numeric_cols(rows, w);
    let pre = spec_numeric_cols(rows, w - 1);
    if j < w - 1 {
        lemma_numeric_cols_iff(rows, w - 1, j);
        crate::stats::lemma_numeric_cols_bound(rows, w - 1);
        if pre.contains(j) {
            let i = choose|i: int| 0 <= i < pre.len() && pre[i] == j;
            assert(cur[i] == j);
        }
        if cur.contains(j) {
            let i = choose|i: int| 0 <= i < cur.len() && cur[i] == j;
            if spec_col_numeric(rows, w - 1) {
                if i < pre.len() {
                    assert(pre[i] == j);
                } else {
                    assert(cur[i] == w - 1);
                }
            } else {
                assert(pre[i] == j);
            }
        }
    } else {
        if spec_col_numeric(rows, w - 1) {
            assert(cur[cur.len() - 1] == j);
        } else {
            if cur.contains(j) {
                let i = choose|i: int| 0 <= i < cur.len() && cur[i] == j;
                crate::stats::lemma_numeric_cols_bound(rows, w - 1);
                assert(pre[i] == j);
                assert(false);
            }
        }
    }
}

} // verus!
