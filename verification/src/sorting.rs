//! Ordering rows by key columns: a three-way cell comparison with nulls
//! first, then integers, then text compared character by character with an
//! optional case fold, lifted lexicographically over the sort keys, and a
//! sort that is proved ordered and row-preserving.

use vstd::prelude::*;
use crate::error::ToolError;
use crate::table::{CellValue, SpecValue, Table, clone_names, duplicate_row};

verus! {

/// The sort key of one character: upper-case basic letters fold onto their
/// lower-case forms when asked; every other character stands by its code.
/// This folds the twenty-six basic letters only, a narrower fold than the
/// full lower-casing an engine-backed sort would apply, so keys in other
/// alphabets order by their plain codes even under the fold.
pub open spec fn spec_char_key(c: char, fold: bool) -> int {
    if fold && 65 <= c as u32 <= 90 {
        c as u32 + 32
    } else {
        c as u32 as int
    }
}

/// Three-way comparison of text, character by character.
pub open spec fn spec_text_cmp(a: Seq<char>, b: Seq<char>, fold: bool) -> int
    decreases a.len(),
{
    if a.len() == 0 && b.len() == 0 {
        0
    } else if a.len() == 0 {
        -1
    } else if b.len() == 0 {
        1
    } else if spec_char_key(a[0], fold) < spec_char_key(b[0], fold) {
        -1
    } else if spec_char_key(a[0], fold) > spec_char_key(b[0], fold) {
        1
    } else {
        spec_text_cmp(a.drop_first(), b.drop_first(), fold)
    }
}

/// Three-way comparison of cells: nulls first, then integers, then text.
pub open spec fn spec_value_cmp(a: SpecValue, b: SpecValue, fold: bool) -> int {
    match (a, b) {
        (SpecValue::Null, SpecValue::Null) => 0,
        (SpecValue::Null, _) => -1,
        (_, SpecValue::Null) => 1,
        (SpecValue::Int(x), SpecValue::Int(y)) => if x < y {
            -1int
        } else if x > y {
            1int
        } else {
            0int
        },
        (SpecValue::Int(_), SpecValue::Text(_)) => -1,
        (SpecValue::Text(_), SpecValue::Int(_)) => 1,
        (SpecValue::Text(x), SpecValue::Text(y)) => spec_text_cmp(x, y, fold),
    }
}

/// Lexicographic comparison of rows over the key columns, first key most
/// significant.
pub open spec fn spec_row_cmp(
    a: Seq<SpecValue>,
    b: Seq<SpecValue>,
    ks: Seq<int>,
    fold: bool,
) -> int
    decreases ks.len(),
{
    if ks.len() == 0 {
        0
    } else {
        let c = spec_value_cmp(a[ks[0]], b[ks[0]], fold);
        if c != 0 {
            c
        } else {
            spec_row_cmp(a, b, ks.drop_first(), fold)
        }
    }
}

/// The row order one sort stage uses: the lexicographic comparison, turned
/// around when a descending order was asked.
pub open spec fn spec_row_le(
    a: Seq<SpecValue>,
    b: Seq<SpecValue>,
    ks: Seq<int>,
    fold: bool,
    desc: bool,
) -> bool {
    if desc {
        spec_row_cmp(a, b, ks, fold) >= 0
    } else {
        spec_row_cmp(a, b, ks, fold) <= 0
    }
}

pub proof fn lemma_text_cmp_flip(a: Seq<char>, b: Seq<char>, fold: bool)
    ensures
        spec_text_cmp(a, b, fold) == -spec_text_cmp(b, a, fold),
    decreases a.len(),
{
    if a.len() > 0 && b.len() > 0 && spec_char_key(a[0], fold) == spec_char_key(b[0], fold) {
        lemma_text_cmp_flip(a.drop_first(), b.drop_first(), fold);
    }
}

pub proof fn lemma_text_cmp_trans(a: Seq<char>, b: Seq<char>, c: Seq<char>, fold: bool)
    ensures
        spec_text_cmp(a, b, fold) <= 0 && spec_text_cmp(b, c, fold) <= 0 ==> spec_text_cmp(
            a,
            c,
            fold,
        ) <= 0,
        spec_text_cmp(a, b, fold) == 0 ==> spec_text_cmp(a, c, fold) == spec_text_cmp(
            b,
            c,
            fold,
        ),
    decreases a.len() + b.len() + c.len(),
{
    if a.len() > 0 && b.len() > 0 && spec_char_key(a[0], fold) == spec_char_key(b[0], fold) {
        if c.len() > 0 {
            lemma_text_cmp_trans(a.drop_first(), b.drop_first(), c.drop_first(), fold);
        } else {
            lemma_text_cmp_trans(a.drop_first(), b.drop_first(), c, fold);
        }
    } else if a.len() > 0 && b.len() > 0 && c.len() > 0 && spec_char_key(b[0], fold)
        == spec_char_key(c[0], fold) {
        lemma_text_cmp_trans(a, b.drop_first(), c.drop_first(), fold);
    }
}

pub proof fn lemma_value_cmp_flip(a: SpecValue, b: SpecValue, fold: bool)
    ensures
        spec_value_cmp(a, b, fold) == -spec_value_cmp(b, a, fold),
{
    match (a, b) {
        (SpecValue::Text(x), SpecValue::Text(y)) => {
            lemma_text_cmp_flip(x, y, fold);
        },
        _ => {},
    }
}

pub proof fn lemma_value_cmp_trans(a: SpecValue, b: SpecValue, c: SpecValue, fold: bool)
    ensures
        spec_value_cmp(a, b, fold) <= 0 && spec_value_cmp(b, c, fold) <= 0 ==> spec_value_cmp(
            a,
            c,
            fold,
        ) <= 0,
        spec_value_cmp(a, b, fold) == 0 ==> spec_value_cmp(a, c, fold) == spec_value_cmp(
            b,
            c,
            fold,
        ),
{
    match (a, b, c) {
        (SpecValue::Text(x), SpecValue::Text(y), SpecValue::Text(z)) => {
            lemma_text_cmp_trans(x, y, z, fold);
        },
        _ => {},
    }
}

pub proof fn lemma_row_cmp_flip(a: Seq<SpecValue>, b: Seq<SpecValue>, ks: Seq<int>, fold: bool)
    ensures
        spec_row_cmp(a, b, ks, fold) == -spec_row_cmp(b, a, ks, fold),
    decreases ks.len(),
{
    if ks.len() > 0 {
        lemma_value_cmp_flip(a[ks[0]], b[ks[0]], fold);
        lemma_row_cmp_flip(a, b, ks.drop_first(), fold);
    }
}

pub proof fn lemma_row_cmp_trans(
    a: Seq<SpecValue>,
    b: Seq<SpecValue>,
    c: Seq<SpecValue>,
    ks: Seq<int>,
    fold: bool,
)
    ensures
        spec_row_cmp(a, b, ks, fold) <= 0 && spec_row_cmp(b, c, ks, fold) <= 0 ==> spec_row_cmp(
            a,
            c,
            ks,
            fold,
        ) <= 0,
        spec_row_cmp(a, b, ks, fold) == 0 ==> spec_row_cmp(a, c, ks, fold) == spec_row_cmp(
            b,
            c,
            ks,
            fold,
        ),
    decreases ks.len(),
{
    if ks.len() > 0 {
        lemma_value_cmp_trans(a[ks[0]], b[ks[0]], c[ks[0]], fold);
        lemma_value_cmp_flip(a[ks[0]], b[ks[0]], fold);
        lemma_value_cmp_flip(b[ks[0]], c[ks[0]], fold);
        lemma_value_cmp_flip(a[ks[0]], c[ks[0]], fold);
        lemma_row_cmp_trans(a, b, c, ks.drop_first(), fold);
        lemma_value_cmp_trans(c[ks[0]], b[ks[0]], a[ks[0]], fold);
        lemma_value_cmp_trans(b[ks[0]], a[ks[0]], c[ks[0]], fold);
        lemma_value_cmp_trans(b[ks[0]], c[ks[0]], a[ks[0]], fold);
    }
}

/// The row order never puts two rows on both sides at once: of any two,
/// one stands no later than the other.
pub proof fn lemma_row_le_total(
    a: Seq<SpecValue>,
    b: Seq<SpecValue>,
    ks: Seq<int>,
    fold: bool,
    desc: bool,
)
    ensures
        spec_row_le(a, b, ks, fold, desc) || spec_row_le(b, a, ks, fold, desc),
        !spec_row_le(a, b, ks, fold, desc) ==> spec_row_le(b, a, ks, fold, desc),
{
    lemma_row_cmp_flip(a, b, ks, fold);
}

/// The row order chains: what stands no later than one row stands no later
/// than anything after it.
pub proof fn lemma_row_le_trans(
    a: Seq<SpecValue>,
    b: Seq<SpecValue>,
    c: Seq<SpecValue>,
    ks: Seq<int>,
    fold: bool,
    desc: bool,
)
    ensures
        spec_row_le(a, b, ks, fold, desc) && spec_row_le(b, c, ks, fold, desc) ==> spec_row_le(
            a,
            c,
            ks,
            fold,
            desc,
        ),
{
    if desc {
        lemma_row_cmp_flip(a, b, ks, fold);
        lemma_row_cmp_flip(b, c, ks, fold);
        lemma_row_cmp_flip(a, c, ks, fold);
        lemma_row_cmp_trans(c, b, a, ks, fold);
    } else {
        lemma_row_cmp_trans(a, b, c, ks, fold);
    }
}

fn char_key(c: char, fold: bool) -> (r: u32)
    ensures
        r as int == spec_char_key(c, fold),
{
    let u = c as u32;
    if fold && 65 <= u && u <= 90 {
        u + 32
    } else {
        u
    }
}

/// Three-way comparison of text, character by character.
#[verifier::loop_isolation(false)]
fn text_cmp(a: &str, b: &str, fold: bool) -> (r: i32)
    ensures
        r as int == spec_text_cmp(a@, b@, fold),
{
    let na = a.unicode_len();
    let nb = b.unicode_len();
    let mut i: usize = 0;
    proof {
        assert(a@.skip(0) =~= a@);
        assert(b@.skip(0) =~= b@);
    }
    while i < na && i < nb
        invariant
            i <= na,
            i <= nb,
            na == a@.len(),
            nb == b@.len(),
            spec_text_cmp(a@, b@, fold) == spec_text_cmp(a@.skip(i as int), b@.skip(i as int), fold),
        decreases na - i,
    {
        proof {
            assert(a@.skip(i as int)[0] == a@[i as int]);
            assert(b@.skip(i as int)[0] == b@[i as int]);
            assert(a@.skip(i as int).drop_first() =~= a@.skip(i + 1));
            assert(b@.skip(i as int).drop_first() =~= b@.skip(i + 1));
        }
        let ka = char_key(a.get_char(i), fold);
        let kb = char_key(b.get_char(i), fold);
        if ka < kb {
            return -1;
        }
        if ka > kb {
            return 1;
        }
        i = i + 1;
    }
    proof {
        if i >= na {
            assert(a@.skip(i as int) =~= Seq::<char>::empty());
        }
        if i >= nb {
            assert(b@.skip(i as int) =~= Seq::<char>::empty());
        }
    }
    if na == nb {
        0
    } else if na < nb {
        -1
    } else {
        1
    }
}

/// Three-way comparison of cells.
fn value_cmp(a: &CellValue, b: &CellValue, fold: bool) -> (r: i32)
    ensures
        r as int == spec_value_cmp(a@, b@, fold),
{
    match (a, b) {
        (CellValue::Null, CellValue::Null) => 0,
        (CellValue::Null, _) => -1,
        (_, CellValue::Null) => 1,
        (CellValue::Int(x), CellValue::Int(y)) => if *x < *y {
            -1
        } else if *x > *y {
            1
        } else {
            0
        },
        (CellValue::Int(_), CellValue::Text(_)) => -1,
        (CellValue::Text(_), CellValue::Int(_)) => 1,
        (CellValue::Text(x), CellValue::Text(y)) => text_cmp(x.as_str(), y.as_str(), fold),
    }
}

/// Three-way comparison of rows over the key columns.
#[verifier::loop_isolation(false)]
fn row_cmp(a: &Vec<CellValue>, b: &Vec<CellValue>, ks: &Vec<usize>, fold: bool) -> (r: i32)
    requires
        forall|u: int| 0 <= u < ks@.len() ==> #[trigger] ks@[u] < a@.len() && ks@[u] < b@.len(),
    ensures
        r as int == spec_row_cmp(
            a.deep_view(),
            b.deep_view(),
            ks@.map_values(|u: usize| u as int),
            fold,
        ),
{
    let ghost ksi = ks@.map_values(|u: usize| u as int);
    let n = ks.len();
    let mut u: usize = 0;
    proof {
        assert(ksi.skip(0) =~= ksi);
    }
    while u < n
        invariant
            u <= n,
            n == ks@.len(),
            spec_row_cmp(a.deep_view(), b.deep_view(), ksi, fold) == spec_row_cmp(
                a.deep_view(),
                b.deep_view(),
                ksi.skip(u as int),
                fold,
            ),
        decreases n - u,
    {
        proof {
            assert(ksi.skip(u as int)[0] == ksi[u as int]);
            assert(ksi[u as int] == ks@[u as int] as int);
            assert(ksi.skip(u as int).drop_first() =~= ksi.skip(u + 1));
        }
        let c = value_cmp(&a[ks[u]], &b[ks[u]], fold);
        if c != 0 {
            return c;
        }
        u = u + 1;
    }
    proof {
        assert(ksi.skip(n as int) =~= Seq::<int>::empty());
    }
    0
}

/// Whether row `a` stands no later than row `b` in the requested order.
fn row_le(a: &Vec<CellValue>, b: &Vec<CellValue>, ks: &Vec<usize>, fold: bool, desc: bool) -> (r:
    bool)
    requires
        forall|u: int| 0 <= u < ks@.len() ==> #[trigger] ks@[u] < a@.len() && ks@[u] < b@.len(),
    ensures
        r == spec_row_le(
            a.deep_view(),
            b.deep_view(),
            ks@.map_values(|u: usize| u as int),
            fold,
            desc,
        ),
{
    let c = row_cmp(a, b, ks, fold);
    if desc {
        c >= 0
    } else {
        c <= 0
    }
}

/// The place a row belongs in an ordered run: the first position whose row
/// stands later.
#[verifier::loop_isolation(false)]
fn insert_pos(
    out: &Vec<Vec<CellValue>>,
    x: &Vec<CellValue>,
    ks: &Vec<usize>,
    fold: bool,
    desc: bool,
) -> (pos: usize)
    requires
        forall|p: int| 0 <= p < out.deep_view().len() ==> (#[trigger] out@[p])@.len() == x@.len(),
        forall|u: int| 0 <= u < ks@.len() ==> #[trigger] ks@[u] < x@.len(),
    ensures
        pos <= out@.len(),
        forall|k: int|
            0 <= k < pos ==> spec_row_le(
                #[trigger] out.deep_view()[k],
                x.deep_view(),
                ks@.map_values(|u: usize| u as int),
                fold,
                desc,
            ),
        pos < out@.len() ==> !spec_row_le(
            out.deep_view()[pos as int],
            x.deep_view(),
            ks@.map_values(|u: usize| u as int),
            fold,
            desc,
        ),
{
    let m = out.len();
    let mut pos: usize = 0;
    while pos < m
        invariant
            pos <= m,
            m == out@.len(),
            forall|k: int|
                0 <= k < pos ==> spec_row_le(
                    #[trigger] out.deep_view()[k],
                    x.deep_view(),
                    ks@.map_values(|u: usize| u as int),
                    fold,
                    desc,
                ),
        decreases m - pos,
    {
        proof {
            assert(out.deep_view()[pos as int].len() == x@.len());
            assert(out@[pos as int]@.len() == x@.len());
        }
        if !row_le(&out[pos], &x, ks, fold, desc) {
            return pos;
        }
        pos = pos + 1;
    }
    pos
}

impl Table {
    /// Order the rows by the key columns, the first key most significant,
    /// the direction and the case fold applying to all keys. The result is
    /// ordered and holds exactly the same rows; of rows the order does not
    /// tell apart, either arrangement is acceptable. The fold covers the
    /// basic letters only (see `spec_char_key`), narrower than an
    /// engine-backed lower-casing. Succeeds if and only if every key
    /// column is present.
    #[verifier::loop_isolation(false)]
    #[verifier::rlimit(60)]
    pub fn sort_by_keys(&self, keys: &Vec<String>, descending: bool, fold_case: bool) -> (r:
        Result<Table, ToolError>)
        requires
            self.wf(),
        ensures
            match r {
                Ok(t) => ({
                    let ksi = keys.deep_view().map_values(
                        |c: Seq<char>| crate::table::spec_first_col(self.spec_names(), c),
                    );
                    &&& forall|j: int|
                        0 <= j < keys.deep_view().len() ==> crate::table::spec_first_col(
                            self.spec_names(),
                            #[trigger] keys.deep_view()[j],
                        ) >= 0
                    &&& t.spec_names() == self.spec_names()
                    &&& t.wf()
                    &&& t.spec_rows().to_multiset() == self.spec_rows().to_multiset()
                    &&& forall|p: int, q: int|
                        0 <= p < q < t.spec_rows().len() ==> spec_row_le(
                            #[trigger] t.spec_rows()[p],
                            #[trigger] t.spec_rows()[q],
                            ksi,
                            fold_case,
                            descending,
                        )
                }),
                Err(e) => (e matches ToolError::ColumnNotFoundError { column } && exists|m: int|
                    0 <= m < keys.deep_view().len() && crate::table::spec_first_col(
                        self.spec_names(),
                        #[trigger] keys.deep_view()[m],
                    ) == -1 && column@ == keys.deep_view()[m]),
            },
    {
        let nk = keys.len();
        let mut ks: Vec<usize> = Vec::new();
        let mut j: usize = 0;
        while j < nk
            invariant
                nk == keys.deep_view().len(),
                j <= nk,
                ks@.len() == j,
                forall|k: int|
                    0 <= k < j ==> #[trigger] ks@[k] == crate::table::spec_first_col(
                        self.spec_names(),
                        keys.deep_view()[k],
                    ) && crate::table::spec_first_col(self.spec_names(), keys.deep_view()[k]) >= 0,
            decreases nk - j,
        {
            match self.column_index(keys[j].as_str()) {
                Some(k) => {
                    ks.push(k);
                },
                None => {
                    proof {
                        assert(crate::table::spec_first_col(
                            self.spec_names(),
                            keys.deep_view()[j as int],
                        ) == -1);
                    }
                    let c = keys[j].clone();
                    proof {
                        assert(c@ == keys.deep_view()[j as int]);
                    }
                    return Err(ToolError::ColumnNotFoundError { column: c });
                },
            }
            j = j + 1;
        }
        let ghost ksi = ks@.map_values(|u: usize| u as int);
        let ghost w = self.spec_names().len();
        proof {
            assert(ksi =~= keys.deep_view().map_values(
                |c: Seq<char>| crate::table::spec_first_col(self.spec_names(), c),
            ));
            assert forall|u: int| 0 <= u < ksi.len() implies 0 <= #[trigger] ksi[u] < w by {
                crate::table::lemma_first_col_range(self.spec_names(), keys.deep_view()[u]);
            }
            assert forall|jj: int| 0 <= jj < keys.deep_view().len()
                implies crate::table::spec_first_col(
                self.spec_names(),
                #[trigger] keys.deep_view()[jj],
            ) >= 0 by {
                assert(ks@[jj] == crate::table::spec_first_col(
                    self.spec_names(),
                    keys.deep_view()[jj],
                ));
            }
        }
        let h = self.rows.len();
        let mut out: Vec<Vec<CellValue>> = Vec::new();
        let mut i: usize = 0;
        proof {
            broadcast use vstd::seq_lib::group_to_multiset_ensures;

            assert(self.spec_rows().take(0) =~= Seq::<Seq<SpecValue>>::empty());
            assert(out.deep_view().to_multiset() =~= self.spec_rows().take(0).to_multiset());
        }
        while i < h
            invariant
                i <= h,
                h == self.spec_rows().len(),
                out.deep_view().len() == i,
                out.deep_view().to_multiset() == self.spec_rows().take(i as int).to_multiset(),
                forall|p: int|
                    0 <= p < out.deep_view().len() ==> (#[trigger] out.deep_view()[p]).len() == w,
                forall|u: int| 0 <= u < ks@.len() ==> 0 <= #[trigger] ksi[u] < w,
                forall|p: int, q: int|
                    0 <= p < q < out.deep_view().len() ==> spec_row_le(
                        #[trigger] out.deep_view()[p],
                        #[trigger] out.deep_view()[q],
                        ksi,
                        fold_case,
                        descending,
                    ),
            decreases h - i,
        {
            proof {
                assert(self.spec_rows()[i as int].len() == w);
                assert(self.rows@[i as int]@.len() == w);
            }
            let x = duplicate_row(&self.rows[i]);
            let ghost xdv = x.deep_view();
            let m = out.len();
            proof {
                assert(x@.len() == w);
                assert forall|p: int| 0 <= p < out.deep_view().len() implies (#[trigger] out@[p])@.len()
                    == x@.len() by {
                    assert(out.deep_view()[p].len() == w);
                    assert(out.deep_view()[p] == out@[p].deep_view());
                }
                assert forall|u: int| 0 <= u < ks@.len() implies #[trigger] ks@[u] < x@.len() by {
                    assert(ksi[u] == ks@[u] as int);
                    assert(0 <= ksi[u] < w);
                }
            }
            let pos = insert_pos(&out, &x, &ks, fold_case, descending);
            let ghost old_dv = out.deep_view();
            out.insert(pos, x);
            i = i + 1;
            proof {
                broadcast use vstd::seq_lib::group_to_multiset_ensures;

                old_dv.insert_ensures(pos as int, xdv);
                assert(out.deep_view() =~= old_dv.insert(pos as int, xdv)) by {
                    assert forall|k: int| 0 <= k < out.deep_view().len()
                        implies out.deep_view()[k] == old_dv.insert(pos as int, xdv)[k] by {
                        if k < pos {
                            assert(out@[k] == out@.insert(pos as int, out@[pos as int])[k]);
                        }
                    }
                }
                crate::stats::lemma_insert_to_multiset(old_dv, pos as int, xdv);
                assert(self.spec_rows().take(i as int) =~= self.spec_rows().take(i - 1).push(
                    self.spec_rows()[i - 1],
                ));
                assert(self.spec_rows().take(i as int).to_multiset() =~= self.spec_rows().take(
                    i - 1,
                ).to_multiset().insert(self.spec_rows()[i - 1]));
                let ndv = out.deep_view();
                assert forall|p: int, q: int| 0 <= p < q < ndv.len() implies spec_row_le(
                    #[trigger] ndv[p],
                    #[trigger] ndv[q],
                    ksi,
                    fold_case,
                    descending,
                ) by {
                    if q < pos {
                        assert(ndv[p] == old_dv[p] && ndv[q] == old_dv[q]);
                    } else if p > pos {
                        assert(ndv[p] == old_dv[p - 1] && ndv[q] == old_dv[q - 1]);
                    } else if p == pos {
                        assert(ndv[p] == xdv);
                        assert(ndv[q] == old_dv[q - 1]);
                        assert(pos < m);
                        assert(!spec_row_le(old_dv[pos as int], xdv, ksi, fold_case, descending));
                        lemma_row_le_total(
                            old_dv[pos as int],
                            xdv,
                            ksi,
                            fold_case,
                            descending,
                        );
                        if q - 1 > pos {
                            lemma_row_le_trans(
                                xdv,
                                old_dv[pos as int],
                                old_dv[q - 1],
                                ksi,
                                fold_case,
                                descending,
                            );
                        }
                    } else if q == pos {
                        assert(ndv[p] == old_dv[p]);
                        assert(ndv[q] == xdv);
                    } else {
                        assert(p < pos && q > pos);
                        assert(ndv[p] == old_dv[p] && ndv[q] == old_dv[q - 1]);
                        if q - 1 == pos {
                            assert(pos < m);
                            assert(!spec_row_le(
                                old_dv[pos as int],
                                xdv,
                                ksi,
                                fold_case,
                                descending,
                            ));
                        }
                    }
                }
            }
        }
        proof {
            assert(self.spec_rows().take(h as int) =~= self.spec_rows());
        }
        Ok(Table { names: clone_names(&self.names), rows: out })
    }
}

} // verus!
