//! The value-level model of a materialized table: the ground on which the
//! stage semantics (project, dedup, slice, filter, gather) are stated and
//! proved. Cells hold 64-bit integers, text, or null; what an engine would
//! carry in other types arrives rendered as text.

use vstd::prelude::*;
use crate::error::ToolError;

verus! {

/// The mathematical value of one cell.
pub enum SpecValue {
    Null,
    Int(int),
    Text(Seq<char>),
}

/// One cell of a materialized table.
#[derive(Debug)]
pub enum CellValue {
    Null,
    Int(i64),
    Text(String),
}

impl View for CellValue {
    type V = SpecValue;

    open spec fn view(&self) -> SpecValue {
        match self {
            CellValue::Null => SpecValue::Null,
            CellValue::Int(x) => SpecValue::Int(*x as int),
            CellValue::Text(s) => SpecValue::Text(s@),
        }
    }
}

impl DeepView for CellValue {
    type V = SpecValue;

    open spec fn deep_view(&self) -> SpecValue {
        self.view()
    }
}

impl CellValue {
    /// A fresh cell holding the same value.
    pub fn duplicate(&self) -> (r: CellValue)
        ensures
            r@ == self@,
    {
        match self {
            CellValue::Null => CellValue::Null,
            CellValue::Int(x) => CellValue::Int(*x),
            CellValue::Text(s) => CellValue::Text(s.clone()),
        }
    }

    /// Whether two cells hold the same value.
    pub fn equals(&self, other: &CellValue) -> (r: bool)
        ensures
            r == (self@ == other@),
    {
        match (self, other) {
            (CellValue::Null, CellValue::Null) => true,
            (CellValue::Int(a), CellValue::Int(b)) => *a == *b,
            (CellValue::Text(a), CellValue::Text(b)) => *a == *b,
            _ => false,
        }
    }
}

/// Whether the characters of `a` and `b` are the same.
pub fn str_eq(a: &str, b: &str) -> (r: bool)
    ensures
        r == (a@ == b@),
{
    let n = a.unicode_len();
    if n != b.unicode_len() {
        return false;
    }
    let mut i: usize = 0;
    while i < n
        invariant
            n == a@.len() == b@.len(),
            i <= n,
            forall|k: int| 0 <= k < i ==> a@[k] == b@[k],
        decreases n - i,
    {
        if a.get_char(i) != b.get_char(i) {
            return false;
        }
        i = i + 1;
    }
    proof {
        assert(a@ =~= b@);
    }
    true
}

/// Index of the first column of `names` called `name`, or `-1`.
pub open spec fn spec_first_col(names: Seq<Seq<char>>, name: Seq<char>) -> int
    decreases names.len(),
{
    if names.len() == 0 {
        -1
    } else if names[0] == name {
        0
    } else {
        let rest = spec_first_col(names.drop_first(), name);
        if rest == -1 {
            -1
        } else {
            rest + 1
        }
    }
}

pub proof fn lemma_first_col_range(names: Seq<Seq<char>>, name: Seq<char>)
    ensures
        -1 <= spec_first_col(names, name) < names.len(),
        spec_first_col(names, name) >= 0 ==> names[spec_first_col(names, name)] == name,
        spec_first_col(names, name) == -1 ==> !names.contains(name),
    decreases names.len(),
{
    if names.len() > 0 && names[0] != name {
        lemma_first_col_range(names.drop_first(), name);
        if spec_first_col(names.drop_first(), name) == -1 {
            assert forall|i: int| 0 <= i < names.len() implies names[i] != name by {
                if i > 0 {
                    assert(names.drop_first()[i - 1] == names[i]);
                }
            }
        }
    }
}

/// A materialized table: column names and rows of cells.
#[derive(Debug)]
pub struct Table {
    pub names: Vec<String>,
    pub rows: Vec<Vec<CellValue>>,
}

impl Table {
    /// The column names, as sequences of characters.
    pub open spec fn spec_names(&self) -> Seq<Seq<char>> {
        self.names.deep_view()
    }

    /// The rows, as sequences of mathematical cell values.
    pub open spec fn spec_rows(&self) -> Seq<Seq<SpecValue>> {
        self.rows.deep_view()
    }

    /// Well-formedness: every row is as wide as the schema.
    pub open spec fn wf(&self) -> bool {
        forall|i: int|
            0 <= i < self.spec_rows().len() ==> (#[trigger] self.spec_rows()[i]).len()
                == self.spec_names().len()
    }

    /// Number of rows.
    pub fn height(&self) -> (r: usize)
        ensures
            r == self.spec_rows().len(),
    {
        self.rows.len()
    }

    /// Number of columns.
    pub fn width(&self) -> (r: usize)
        ensures
            r == self.spec_names().len(),
    {
        self.names.len()
    }

    /// A table with the given column names and no rows.
    pub fn empty(names: Vec<String>) -> (r: Table)
        ensures
            r.spec_names() == names.deep_view(),
            r.spec_rows() =~= Seq::<Seq<SpecValue>>::empty(),
            r.wf(),
    {
        Table { names, rows: Vec::new() }
    }

    /// Index of the first column called `name`, if present.
    pub fn column_index(&self, name: &str) -> (r: Option<usize>)
        ensures
            match r {
                Some(i) => i == spec_first_col(self.spec_names(), name@),
                None => spec_first_col(self.spec_names(), name@) == -1,
            },
    {
        let n = self.names.len();
        let mut i: usize = 0;
        proof {
            assert(self.spec_names().skip(0) =~= self.spec_names());
        }
        while i < n
            invariant
                n == self.spec_names().len(),
                i <= n,
                spec_first_col(self.spec_names(), name@) == if spec_first_col(
                    self.spec_names().skip(i as int),
                    name@,
                ) == -1 {
                    -1int
                } else {
                    spec_first_col(self.spec_names().skip(i as int), name@) + i
                },
            decreases n - i,
        {
            let ghost pre = self.spec_names().skip(i as int);
            proof {
                assert(pre[0] == self.spec_names()[i as int]);
                assert(pre.drop_first() =~= self.spec_names().skip(i + 1));
            }
            if str_eq(self.names[i].as_str(), name) {
                proof {
                    assert(spec_first_col(pre, name@) == 0);
                }
                return Some(i);
            }
            i = i + 1;
            proof {
                lemma_first_col_range(self.spec_names().skip(i as int), name@);
                assert(spec_first_col(pre, name@) == (if spec_first_col(
                    self.spec_names().skip(i as int),
                    name@,
                ) == -1 {
                    -1int
                } else {
                    spec_first_col(self.spec_names().skip(i as int), name@) + 1
                }));
            }
        }
        proof {
            assert(self.spec_names().skip(n as int) =~= Seq::<Seq<char>>::empty());
        }
        None
    }
}

/// Relies on String's FromIterator implementation, through Iterator::collect:
/// the string holds exactly the given characters, in order.
#[verifier::external_body]
pub(crate) fn string_from_chars(v: &Vec<char>) -> (r: String)
    ensures
        r@ == v@,
{
    v.iter().collect()
}

/// A fresh vector holding the same strings.
pub fn clone_names(names: &Vec<String>) -> (r: Vec<String>)
    ensures
        r.deep_view() == names.deep_view(),
{
    let n = names.len();
    let mut r: Vec<String> = Vec::new();
    let mut i: usize = 0;
    proof {
        assert(r.deep_view() =~= names.deep_view().take(0));
    }
    while i < n
        invariant
            n == names@.len(),
            i <= n,
            r.deep_view() == names.deep_view().take(i as int),
        decreases n - i,
    {
        let ghost dv = r.deep_view();
        r.push(names[i].clone());
        i = i + 1;
        proof {
            assert(r.deep_view() =~= dv.push(names.deep_view()[i - 1]));
            assert(names.deep_view().take(i as int) =~= names.deep_view().take(i - 1).push(
                names.deep_view()[i - 1],
            ));
        }
    }
    proof {
        assert(names.deep_view().take(n as int) =~= names.deep_view());
    }
    r
}

/// A fresh row holding the same cell values.
pub fn duplicate_row(row: &Vec<CellValue>) -> (r: Vec<CellValue>)
    ensures
        r.deep_view() == row.deep_view(),
{
    let n = row.len();
    let mut r: Vec<CellValue> = Vec::new();
    let mut i: usize = 0;
    proof {
        assert(r.deep_view() =~= row.deep_view().take(0));
    }
    while i < n
        invariant
            n == row@.len(),
            i <= n,
            r.deep_view() == row.deep_view().take(i as int),
        decreases n - i,
    {
        let ghost dv = r.deep_view();
        r.push(row[i].duplicate());
        i = i + 1;
        proof {
            assert(r.deep_view() =~= dv.push(row.deep_view()[i - 1]));
            assert(row.deep_view().take(i as int) =~= row.deep_view().take(i - 1).push(
                row.deep_view()[i - 1],
            ));
        }
    }
    proof {
        assert(row.deep_view().take(n as int) =~= row.deep_view());
    }
    r
}

/// Whether one of `names` has exactly the characters of `name`.
pub fn contains_name(names: &Vec<String>, name: &String) -> (r: bool)
    ensures
        r == names.deep_view().contains(name@),
{
    let n = names.len();
    let mut i: usize = 0;
    while i < n
        invariant
            n == names@.len(),
            i <= n,
            forall|k: int| 0 <= k < i ==> names.deep_view()[k] != name@,
        decreases n - i,
    {
        if str_eq(names[i].as_str(), name.as_str()) {
            proof {
                assert(names.deep_view()[i as int] == name@);
            }
            return true;
        }
        i = i + 1;
    }
    false
}

/// The indices of the columns of `names` that survive dropping `dropped`,
/// in order.
pub open spec fn spec_kept_idx(names: Seq<Seq<char>>, dropped: Seq<Seq<char>>) -> Seq<int>
    decreases names.len(),
{
    if names.len() == 0 {
        Seq::empty()
    } else {
        let pre = spec_kept_idx(names.drop_last(), dropped);
        if dropped.contains(names.last()) {
            pre
        } else {
            pre.push(names.len() - 1)
        }
    }
}

pub proof fn lemma_kept_idx_range(names: Seq<Seq<char>>, dropped: Seq<Seq<char>>)
    ensures
        forall|q: int|
            0 <= q < spec_kept_idx(names, dropped).len() ==> 0 <= #[trigger] spec_kept_idx(
                names,
                dropped,
            )[q] < names.len(),
    decreases names.len(),
{
    if names.len() > 0 {
        lemma_kept_idx_range(names.drop_last(), dropped);
        let pre = spec_kept_idx(names.drop_last(), dropped);
        let cur = spec_kept_idx(names, dropped);
        assert forall|q: int| 0 <= q < cur.len() implies 0 <= #[trigger] cur[q] < names.len() by {
            if dropped.contains(names.last()) {
                assert(cur == pre);
                assert(cur[q] == pre[q]);
            } else {
                assert(cur == pre.push(names.len() - 1));
                if q < pre.len() {
                    assert(cur[q] == pre[q]);
                } else {
                    assert(cur[q] == names.len() - 1);
                }
            }
        }
    }
}

/// The start row of a slice: a non-negative offset counts from the front,
/// a negative one from the end, both clamped to the table.
pub open spec fn spec_slice_start(h: int, offset: int) -> int {
    if offset >= 0 {
        if offset <= h {
            offset
        } else {
            h
        }
    } else {
        if h + offset >= 0 {
            h + offset
        } else {
            0
        }
    }
}

/// The stop row of a slice: `length` rows past the start when that many
/// remain, the end of the table otherwise; `None` means all remaining rows.
pub open spec fn spec_slice_stop(h: int, start: int, length: Option<usize>) -> int {
    match length {
        None => h,
        Some(l) => if start + l <= h {
            start + l
        } else {
            h
        },
    }
}

/// The rows whose mask entry is true, in order.
pub open spec fn spec_mask_filter(
    rows: Seq<Seq<SpecValue>>,
    keep: Seq<bool>,
) -> Seq<Seq<SpecValue>>
    decreases rows.len(),
{
    if rows.len() == 0 {
        Seq::empty()
    } else {
        let pre = spec_mask_filter(rows.drop_last(), keep.drop_last());
        if keep[rows.len() - 1] {
            pre.push(rows.last())
        } else {
            pre
        }
    }
}

/// The key of a row: its cells at the given column positions.
pub open spec fn spec_row_key(row: Seq<SpecValue>, ks: Seq<int>) -> Seq<SpecValue> {
    ks.map_values(|k: int| row[k])
}

/// The rows that survive first-occurrence deduplication over whole rows.
pub open spec fn spec_dedup_all(rows: Seq<Seq<SpecValue>>) -> Seq<Seq<SpecValue>>
    decreases rows.len(),
{
    if rows.len() == 0 {
        Seq::empty()
    } else {
        let pre = spec_dedup_all(rows.drop_last());
        if exists|i: int| 0 <= i < rows.len() - 1 && rows[i] == rows.last() {
            pre
        } else {
            pre.push(rows.last())
        }
    }
}

/// The rows that survive first-occurrence deduplication over the key columns
/// `ks`.
pub open spec fn spec_dedup_on(rows: Seq<Seq<SpecValue>>, ks: Seq<int>) -> Seq<Seq<SpecValue>>
    decreases rows.len(),
{
    if rows.len() == 0 {
        Seq::empty()
    } else {
        let pre = spec_dedup_on(rows.drop_last(), ks);
        if exists|i: int|
            0 <= i < rows.len() - 1 && spec_row_key(#[trigger] rows[i], ks) == spec_row_key(
                rows.last(),
                ks,
            ) {
            pre
        } else {
            pre.push(rows.last())
        }
    }
}

/// Whether two rows hold the same values.
pub fn rows_equal(a: &Vec<CellValue>, b: &Vec<CellValue>) -> (r: bool)
    ensures
        r == (a.deep_view() == b.deep_view()),
{
    let n = a.len();
    if n != b.len() {
        proof {
            assert(a.deep_view().len() != b.deep_view().len());
        }
        return false;
    }
    let mut i: usize = 0;
    while i < n
        invariant
            n == a@.len() == b@.len(),
            i <= n,
            forall|k: int| 0 <= k < i ==> a.deep_view()[k] == b.deep_view()[k],
        decreases n - i,
    {
        if !a[i].equals(&b[i]) {
            proof {
                assert(a.deep_view()[i as int] != b.deep_view()[i as int]);
            }
            return false;
        }
        i = i + 1;
    }
    proof {
        assert(a.deep_view() =~= b.deep_view());
    }
    true
}

/// Whether two rows agree on the cells at the positions `ks`.
pub fn keys_equal_on(a: &Vec<CellValue>, b: &Vec<CellValue>, ks: &Vec<usize>) -> (r: bool)
    requires
        forall|u: int| 0 <= u < ks@.len() ==> #[trigger] ks@[u] < a@.len() && ks@[u] < b@.len(),
    ensures
        r == (spec_row_key(a.deep_view(), ks@.map_values(|u: usize| u as int)) == spec_row_key(
            b.deep_view(),
            ks@.map_values(|u: usize| u as int),
        )),
{
    let ghost ksi = ks@.map_values(|u: usize| u as int);
    let n = ks.len();
    let mut i: usize = 0;
    while i < n
        invariant
            n == ks@.len(),
            ksi == ks@.map_values(|u: usize| u as int),
            forall|u: int| 0 <= u < n ==> #[trigger] ks@[u] < a@.len() && ks@[u] < b@.len(),
            i <= n,
            forall|k: int|
                0 <= k < i ==> #[trigger] a.deep_view()[ksi[k]] == b.deep_view()[ksi[k]],
        decreases n - i,
    {
        if !a[ks[i]].equals(&b[ks[i]]) {
            proof {
                assert(spec_row_key(a.deep_view(), ksi)[i as int] != spec_row_key(
                    b.deep_view(),
                    ksi,
                )[i as int]);
            }
            return false;
        }
        i = i + 1;
    }
    proof {
        assert(spec_row_key(a.deep_view(), ksi) =~= spec_row_key(b.deep_view(), ksi));
    }
    true
}

impl Table {
    /// Remove every row equal, over all columns, to an earlier row; the first
    /// occurrence stays, in its place.
    pub fn dedup_all(&self) -> (r: Table)
        requires
            self.wf(),
        ensures
            r.spec_names() == self.spec_names(),
            r.spec_rows() == spec_dedup_all(self.spec_rows()),
            r.spec_rows().len() <= self.spec_rows().len(),
            r.wf(),
    {
        let h = self.rows.len();
        let mut rows2: Vec<Vec<CellValue>> = Vec::new();
        let mut j: usize = 0;
        proof {
            assert(rows2.deep_view() =~= spec_dedup_all(self.spec_rows().take(0)));
        }
        while j < h
            invariant
                self.wf(),
                h == self.spec_rows().len(),
                j <= h,
                rows2.deep_view() == spec_dedup_all(self.spec_rows().take(j as int)),
                rows2.deep_view().len() <= j,
                forall|p: int|
                    0 <= p < rows2.deep_view().len() ==> (#[trigger] rows2.deep_view()[p]).len()
                        == self.spec_names().len(),
            decreases h - j,
        {
            let mut seen = false;
            let mut i: usize = 0;
            while i < j
                invariant
                    self.wf(),
                    h == self.spec_rows().len(),
                    j < h,
                    i <= j,
                    seen == exists|k: int|
                        0 <= k < i && #[trigger] self.spec_rows()[k] == self.spec_rows()[j as int],
                decreases j - i,
            {
                let eq = rows_equal(&self.rows[i], &self.rows[j]);
                proof {
                    assert(eq == (self.spec_rows()[i as int] == self.spec_rows()[j as int]));
                }
                if eq {
                    seen = true;
                }
                i = i + 1;
            }
            proof {
                assert(self.spec_rows().take(j + 1).drop_last() =~= self.spec_rows().take(j as int));
                assert(self.spec_rows().take(j + 1).last() == self.spec_rows()[j as int]);
                assert forall|k: int| 0 <= k < j implies self.spec_rows().take(j + 1)[k]
                    == #[trigger] self.spec_rows()[k] by {}
            }
            if !seen {
                let ghost dv = rows2.deep_view();
                rows2.push(duplicate_row(&self.rows[j]));
                proof {
                    assert(rows2.deep_view() =~= dv.push(self.spec_rows()[j as int]));
                }
            }
            j = j + 1;
        }
        proof {
            assert(self.spec_rows().take(h as int) =~= self.spec_rows());
        }
        Table { names: clone_names(&self.names), rows: rows2 }
    }

    /// Remove every row that agrees with an earlier row on the named key
    /// columns; the first occurrence stays, in its place. Succeeds if and
    /// only if every key column is present.
    pub fn dedup_on(&self, cols: &Vec<String>) -> (r: Result<Table, ToolError>)
        requires
            self.wf(),
        ensures
            match r {
                Ok(t) => {
                    &&& forall|j: int|
                        0 <= j < cols.deep_view().len() ==> spec_first_col(
                            self.spec_names(),
                            #[trigger] cols.deep_view()[j],
                        ) >= 0
                    &&& t.spec_names() == self.spec_names()
                    &&& t.spec_rows() == spec_dedup_on(
                        self.spec_rows(),
                        cols.deep_view().map_values(
                            |c: Seq<char>| spec_first_col(self.spec_names(), c),
                        ),
                    )
                    &&& t.spec_rows().len() <= self.spec_rows().len()
                    &&& t.wf()
                },
                Err(e) => {
                    &&& (e matches ToolError::ColumnNotFoundError { column } && exists|m: int|
                        0 <= m < cols.deep_view().len() && spec_first_col(
                            self.spec_names(),
                            #[trigger] cols.deep_view()[m],
                        ) == -1 && column@ == cols.deep_view()[m])
                },
            },
    {
        let nc = cols.len();
        let mut ks: Vec<usize> = Vec::new();
        let mut j: usize = 0;
        while j < nc
            invariant
                self.wf(),
                nc == cols.deep_view().len(),
                j <= nc,
                ks@.len() == j,
                forall|k: int|
                    0 <= k < j ==> #[trigger] ks@[k] == spec_first_col(
                        self.spec_names(),
                        cols.deep_view()[k],
                    ) && spec_first_col(self.spec_names(), cols.deep_view()[k]) >= 0,
            decreases nc - j,
        {
            match self.column_index(cols[j].as_str()) {
                Some(k) => {
                    ks.push(k);
                },
                None => {
                    proof {
                        assert(spec_first_col(self.spec_names(), cols.deep_view()[j as int])
                            == -1);
                    }
                    let c = cols[j].clone();
                    proof {
                        assert(c@ == cols.deep_view()[j as int]);
                    }
                    return Err(ToolError::ColumnNotFoundError { column: c });
                },
            }
            j = j + 1;
        }
        let ghost ksi = ks@.map_values(|u: usize| u as int);
        proof {
            assert(ksi =~= cols.deep_view().map_values(
                |c: Seq<char>| spec_first_col(self.spec_names(), c),
            ));
            assert forall|u: int| 0 <= u < ksi.len() implies 0 <= #[trigger] ksi[u]
                < self.spec_names().len() by {
                lemma_first_col_range(self.spec_names(), cols.deep_view()[u]);
            }
        }
        let h = self.rows.len();
        let mut rows2: Vec<Vec<CellValue>> = Vec::new();
        let mut j2: usize = 0;
        proof {
            assert(rows2.deep_view() =~= spec_dedup_on(self.spec_rows().take(0), ksi));
        }
        while j2 < h
            invariant
                self.wf(),
                h == self.spec_rows().len(),
                nc == cols.deep_view().len(),
                ks@.len() == nc,
                ksi == ks@.map_values(|u: usize| u as int),
                forall|u: int| 0 <= u < nc ==> 0 <= #[trigger] ksi[u] < self.spec_names().len(),
                j2 <= h,
                rows2.deep_view() == spec_dedup_on(self.spec_rows().take(j2 as int), ksi),
                rows2.deep_view().len() <= j2,
                forall|p: int|
                    0 <= p < rows2.deep_view().len() ==> (#[trigger] rows2.deep_view()[p]).len()
                        == self.spec_names().len(),
            decreases h - j2,
        {
            proof {
                assert(self.spec_rows()[j2 as int].len() == self.spec_names().len());
                assert forall|u: int| 0 <= u < ks@.len() implies #[trigger] ks@[u]
                    < self.rows@[j2 as int]@.len() by {
                    assert(ksi[u] == ks@[u] as int);
                }
            }
            let mut seen = false;
            let mut i: usize = 0;
            while i < j2
                invariant
                    self.wf(),
                    h == self.spec_rows().len(),
                    ks@.len() == nc,
                    ksi == ks@.map_values(|u: usize| u as int),
                    forall|u: int| 0 <= u < nc ==> 0 <= #[trigger] ksi[u] < self.spec_names().len(),
                    j2 < h,
                    i <= j2,
                    seen == exists|k: int|
                        0 <= k < i && spec_row_key(#[trigger] self.spec_rows()[k], ksi)
                            == spec_row_key(self.spec_rows()[j2 as int], ksi),
                decreases j2 - i,
            {
                proof {
                    assert(self.spec_rows()[i as int].len() == self.spec_names().len());
                    assert(self.rows@[i as int]@.len() == self.spec_rows()[i as int].len());
                    assert(self.rows@[j2 as int]@.len() == self.spec_rows()[j2 as int].len());
                    assert forall|u: int| 0 <= u < ks@.len() implies #[trigger] ks@[u]
                        < self.rows@[i as int]@.len() && ks@[u] < self.rows@[j2 as int]@.len() by {
                        assert(ksi[u] == ks@[u] as int);
                        assert(0 <= ksi[u] < self.spec_names().len());
                    }
                }
                let eq = keys_equal_on(&self.rows[i], &self.rows[j2], &ks);
                proof {
                    assert(eq == (spec_row_key(self.spec_rows()[i as int], ksi) == spec_row_key(
                        self.spec_rows()[j2 as int],
                        ksi,
                    )));
                }
                if eq {
                    seen = true;
                }
                i = i + 1;
            }
            proof {
                assert(self.spec_rows().take(j2 + 1).drop_last() =~= self.spec_rows().take(
                    j2 as int,
                ));
                assert(self.spec_rows().take(j2 + 1).last() == self.spec_rows()[j2 as int]);
                assert forall|k: int| 0 <= k <= j2 implies self.spec_rows().take(j2 + 1)[k]
                    == #[trigger] self.spec_rows()[k] by {}
            }
            if !seen {
                let ghost dv = rows2.deep_view();
                rows2.push(duplicate_row(&self.rows[j2]));
                proof {
                    assert(rows2.deep_view() =~= dv.push(self.spec_rows()[j2 as int]));
                }
            }
            j2 = j2 + 1;
        }
        proof {
            assert(self.spec_rows().take(h as int) =~= self.spec_rows());
            assert forall|jj: int| 0 <= jj < cols.deep_view().len() implies spec_first_col(
                self.spec_names(),
                #[trigger] cols.deep_view()[jj],
            ) >= 0 by {
                assert(ks@[jj] == spec_first_col(self.spec_names(), cols.deep_view()[jj]));
            }
        }
        Ok(Table { names: clone_names(&self.names), rows: rows2 })
    }

    /// Keep exactly the requested columns, in the requested order. Succeeds
    /// if and only if every requested name is present.
    pub fn select_columns(&self, cols: &Vec<String>) -> (r: Result<Table, ToolError>)
        requires
            self.wf(),
        ensures
            match r {
                Ok(t) => {
                    &&& forall|j: int|
                        0 <= j < cols.deep_view().len() ==> spec_first_col(
                            self.spec_names(),
                            #[trigger] cols.deep_view()[j],
                        ) >= 0
                    &&& t.spec_names() == cols.deep_view()
                    &&& t.spec_rows().len() == self.spec_rows().len()
                    &&& forall|i: int, j: int|
                        0 <= i < t.spec_rows().len() && 0 <= j < cols.deep_view().len()
                            ==> #[trigger] t.spec_rows()[i][j] == self.spec_rows()[i][spec_first_col(
                            self.spec_names(),
                            cols.deep_view()[j],
                        )]
                    &&& t.wf()
                },
                Err(e) => {
                    &&& (e matches ToolError::ColumnNotFoundError { column } && exists|m: int|
                        0 <= m < cols.deep_view().len() && spec_first_col(
                            self.spec_names(),
                            #[trigger] cols.deep_view()[m],
                        ) == -1 && column@ == cols.deep_view()[m])
                },
            },
    {
        let nc = cols.len();
        let mut idx: Vec<usize> = Vec::new();
        let mut j: usize = 0;
        while j < nc
            invariant
                self.wf(),
                nc == cols.deep_view().len(),
                j <= nc,
                idx@.len() == j,
                forall|k: int|
                    0 <= k < j ==> idx@[k] == spec_first_col(
                        self.spec_names(),
                        #[trigger] cols.deep_view()[k],
                    ),
                forall|k: int|
                    0 <= k < j ==> spec_first_col(self.spec_names(), #[trigger] cols.deep_view()[k])
                        >= 0,
            decreases nc - j,
        {
            match self.column_index(cols[j].as_str()) {
                Some(k) => {
                    idx.push(k);
                },
                None => {
                    proof {
                        assert(spec_first_col(self.spec_names(), cols.deep_view()[j as int])
                            == -1);
                    }
                    let c = cols[j].clone();
                    proof {
                        assert(c@ == cols.deep_view()[j as int]);
                    }
                    return Err(ToolError::ColumnNotFoundError { column: c });
                },
            }
            j = j + 1;
        }
        let h = self.rows.len();
        let mut rows2: Vec<Vec<CellValue>> = Vec::new();
        let mut i: usize = 0;
        while i < h
            invariant
                self.wf(),
                h == self.spec_rows().len(),
                i <= h,
                nc == cols.deep_view().len(),
                idx@.len() == nc,
                forall|k: int|
                    0 <= k < nc ==> idx@[k] == spec_first_col(
                        self.spec_names(),
                        #[trigger] cols.deep_view()[k],
                    ) && spec_first_col(self.spec_names(), cols.deep_view()[k]) >= 0,
                rows2.deep_view().len() == i,
                forall|p: int, q: int|
                    0 <= p < i && 0 <= q < nc ==> #[trigger] rows2.deep_view()[p][q]
                        == self.spec_rows()[p][spec_first_col(
                        self.spec_names(),
                        cols.deep_view()[q],
                    )],
                forall|p: int| 0 <= p < i ==> (#[trigger] rows2.deep_view()[p]).len() == nc,
            decreases h - i,
        {
            let mut row2: Vec<CellValue> = Vec::new();
            let mut q: usize = 0;
            while q < nc
                invariant
                    self.wf(),
                    h == self.spec_rows().len(),
                    i < h,
                    nc == cols.deep_view().len(),
                    idx@.len() == nc,
                    forall|k: int|
                        0 <= k < nc ==> idx@[k] == spec_first_col(
                            self.spec_names(),
                            #[trigger] cols.deep_view()[k],
                        ) && spec_first_col(self.spec_names(), cols.deep_view()[k]) >= 0,
                    q <= nc,
                    row2.deep_view().len() == q,
                    forall|u: int|
                        0 <= u < q ==> #[trigger] row2.deep_view()[u]
                            == self.spec_rows()[i as int][spec_first_col(
                            self.spec_names(),
                            cols.deep_view()[u],
                        )],
                decreases nc - q,
            {
                proof {
                    lemma_first_col_range(self.spec_names(), cols.deep_view()[q as int]);
                    assert(self.spec_rows()[i as int].len() == self.spec_names().len());
                }
                let ghost rdv = row2.deep_view();
                row2.push(self.rows[i][idx[q]].duplicate());
                q = q + 1;
                proof {
                    assert(row2.deep_view() =~= rdv.push(
                        self.spec_rows()[i as int][spec_first_col(
                            self.spec_names(),
                            cols.deep_view()[q - 1],
                        )],
                    ));
                }
            }
            let ghost rdv = row2.deep_view();
            let ghost dv = rows2.deep_view();
            rows2.push(row2);
            i = i + 1;
            proof {
                assert(rows2.deep_view() =~= dv.push(rdv));
            }
        }
        Ok(Table { names: clone_names(cols), rows: rows2 })
    }

    /// Remove every column whose name occurs in `cols`; absent names are
    /// ignored, so the operation is total.
    pub fn drop_columns(&self, cols: &Vec<String>) -> (r: Table)
        requires
            self.wf(),
        ensures
            ({
                let ks = spec_kept_idx(self.spec_names(), cols.deep_view());
                &&& r.spec_names() == ks.map_values(|k: int| self.spec_names()[k])
                &&& r.spec_rows().len() == self.spec_rows().len()
                &&& forall|i: int|
                    0 <= i < self.spec_rows().len() ==> #[trigger] r.spec_rows()[i]
                        == ks.map_values(|k: int| self.spec_rows()[i][k])
                &&& r.wf()
            }),
    {
        let w = self.names.len();
        let mut kept: Vec<usize> = Vec::new();
        let mut k: usize = 0;
        proof {
            assert(kept@.map_values(|u: usize| u as int) =~= spec_kept_idx(
                self.spec_names().take(0),
                cols.deep_view(),
            ));
        }
        while k < w
            invariant
                self.wf(),
                w == self.spec_names().len(),
                k <= w,
                kept@.map_values(|u: usize| u as int) == spec_kept_idx(
                    self.spec_names().take(k as int),
                    cols.deep_view(),
                ),
                forall|q: int| 0 <= q < kept@.len() ==> #[trigger] kept@[q] < k,
            decreases w - k,
        {
            let ghost prefix = self.spec_names().take(k as int);
            proof {
                assert(self.spec_names().take(k + 1).drop_last() =~= prefix);
                assert(self.spec_names().take(k + 1).last() == self.spec_names()[k as int]);
            }
            let ghost kv = kept@;
            if !contains_name(cols, &self.names[k]) {
                kept.push(k);
                proof {
                    assert(kept@.map_values(|u: usize| u as int) =~= kv.map_values(
                        |u: usize| u as int,
                    ).push(k as int));
                }
            }
            k = k + 1;
        }
        proof {
            assert(self.spec_names().take(w as int) =~= self.spec_names());
        }
        let ghost ks = spec_kept_idx(self.spec_names(), cols.deep_view());
        proof {
            lemma_kept_idx_range(self.spec_names(), cols.deep_view());
        }
        let nk = kept.len();
        let mut names2: Vec<String> = Vec::new();
        let mut q: usize = 0;
        while q < nk
            invariant
                self.wf(),
                w == self.spec_names().len(),
                nk == kept@.len(),
                kept@.map_values(|u: usize| u as int) == ks,
                forall|u: int| 0 <= u < nk ==> #[trigger] kept@[u] < w,
                q <= nk,
                names2.deep_view().len() == q,
                forall|u: int|
                    0 <= u < q ==> #[trigger] names2.deep_view()[u] == self.spec_names()[ks[u]],
            decreases nk - q,
        {
            let ghost dv = names2.deep_view();
            names2.push(self.names[kept[q]].clone());
            q = q + 1;
            proof {
                assert(ks[q - 1] == kept@[q - 1] as int);
                assert(names2.deep_view() =~= dv.push(self.spec_names()[ks[q - 1]]));
            }
        }
        let h = self.rows.len();
        let mut rows2: Vec<Vec<CellValue>> = Vec::new();
        let mut i: usize = 0;
        while i < h
            invariant
                self.wf(),
                w == self.spec_names().len(),
                h == self.spec_rows().len(),
                nk == kept@.len(),
                kept@.map_values(|u: usize| u as int) == ks,
                forall|u: int| 0 <= u < nk ==> #[trigger] kept@[u] < w,
                i <= h,
                rows2.deep_view().len() == i,
                forall|p: int|
                    0 <= p < i ==> #[trigger] rows2.deep_view()[p] == ks.map_values(
                        |k2: int| self.spec_rows()[p][k2],
                    ),
            decreases h - i,
        {
            let mut row2: Vec<CellValue> = Vec::new();
            let mut u: usize = 0;
            while u < nk
                invariant
                    self.wf(),
                    w == self.spec_names().len(),
                    h == self.spec_rows().len(),
                    i < h,
                    nk == kept@.len(),
                    kept@.map_values(|u2: usize| u2 as int) == ks,
                    forall|u2: int| 0 <= u2 < nk ==> #[trigger] kept@[u2] < w,
                    u <= nk,
                    row2.deep_view().len() == u,
                    forall|u2: int|
                        0 <= u2 < u ==> #[trigger] row2.deep_view()[u2]
                            == self.spec_rows()[i as int][ks[u2]],
                decreases nk - u,
            {
                proof {
                    assert(self.spec_rows()[i as int].len() == self.spec_names().len());
                }
                let ghost rdv = row2.deep_view();
                row2.push(self.rows[i][kept[u]].duplicate());
                u = u + 1;
                proof {
                    assert(ks[u - 1] == kept@[u - 1] as int);
                    assert(row2.deep_view() =~= rdv.push(self.spec_rows()[i as int][ks[u - 1]]));
                }
            }
            proof {
                assert(row2.deep_view() =~= ks.map_values(|k2: int| self.spec_rows()[i as int][k2]));
            }
            let ghost rdv = row2.deep_view();
            let ghost dv = rows2.deep_view();
            rows2.push(row2);
            i = i + 1;
            proof {
                assert(rows2.deep_view() =~= dv.push(rdv));
            }
        }
        proof {
            assert(names2.deep_view() =~= ks.map_values(|k2: int| self.spec_names()[k2]));
        }
        Table { names: names2, rows: rows2 }
    }

    /// Keep the row window `[start, stop)` given by a signed offset and an
    /// optional length; `None` length means all remaining rows.
    pub fn slice_rows(&self, offset: i64, length: Option<usize>) -> (r: Table)
        requires
            self.wf(),
        ensures
            ({
                let h = self.spec_rows().len() as int;
                let start = spec_slice_start(h, offset as int);
                let stop = spec_slice_stop(h, start, length);
                &&& r.spec_names() == self.spec_names()
                &&& r.spec_rows() == self.spec_rows().subrange(start, stop)
                &&& r.wf()
            }),
    {
        let h = self.rows.len();
        let start: usize = if offset >= 0 {
            if (offset as u64) >= (h as u64) {
                h
            } else {
                offset as usize
            }
        } else {
            let s: i128 = (h as i128) + (offset as i128);
            if s <= 0 {
                0
            } else {
                s as usize
            }
        };
        proof {
            assert(start == spec_slice_start(h as int, offset as int));
        }
        let stop: usize = match length {
            None => h,
            Some(l) => if l >= h - start {
                h
            } else {
                start + l
            },
        };
        proof {
            assert(stop == spec_slice_stop(h as int, start as int, length));
        }
        let mut rows2: Vec<Vec<CellValue>> = Vec::new();
        let mut i: usize = start;
        proof {
            assert(rows2.deep_view() =~= self.spec_rows().subrange(start as int, start as int));
        }
        while i < stop
            invariant
                self.wf(),
                h == self.spec_rows().len(),
                start <= i <= stop <= h,
                rows2.deep_view() == self.spec_rows().subrange(start as int, i as int),
            decreases stop - i,
        {
            let ghost dv = rows2.deep_view();
            rows2.push(duplicate_row(&self.rows[i]));
            i = i + 1;
            proof {
                assert(rows2.deep_view() =~= dv.push(self.spec_rows()[i - 1]));
                assert(self.spec_rows().subrange(start as int, i as int) =~= self.spec_rows()
                    .subrange(start as int, i - 1).push(self.spec_rows()[i - 1]));
            }
        }
        Table { names: clone_names(&self.names), rows: rows2 }
    }

    /// Keep exactly the rows whose mask entry is true, in order.
    pub fn filter_mask(&self, keep: &Vec<bool>) -> (r: Table)
        requires
            self.wf(),
            keep@.len() == self.spec_rows().len(),
        ensures
            r.spec_names() == self.spec_names(),
            r.spec_rows() == spec_mask_filter(self.spec_rows(), keep@),
            r.wf(),
    {
        let h = self.rows.len();
        let mut rows2: Vec<Vec<CellValue>> = Vec::new();
        let mut i: usize = 0;
        proof {
            assert(spec_mask_filter(self.spec_rows().take(0), keep@.take(0)) =~= Seq::<
                Seq<SpecValue>,
            >::empty());
            assert(rows2.deep_view() =~= Seq::<Seq<SpecValue>>::empty());
        }
        while i < h
            invariant
                self.wf(),
                h == self.spec_rows().len() == keep@.len(),
                i <= h,
                rows2.deep_view() == spec_mask_filter(
                    self.spec_rows().take(i as int),
                    keep@.take(i as int),
                ),
                forall|p: int|
                    0 <= p < rows2.deep_view().len() ==> (#[trigger] rows2.deep_view()[p]).len()
                        == self.spec_names().len(),
            decreases h - i,
        {
            proof {
                assert(self.spec_rows().take(i + 1).drop_last() =~= self.spec_rows().take(
                    i as int,
                ));
                assert(keep@.take(i + 1).drop_last() =~= keep@.take(i as int));
                assert(self.spec_rows().take(i + 1).last() == self.spec_rows()[i as int]);
            }
            if keep[i] {
                let ghost dv = rows2.deep_view();
                rows2.push(duplicate_row(&self.rows[i]));
                proof {
                    assert(rows2.deep_view() =~= dv.push(self.spec_rows()[i as int]));
                }
            }
            i = i + 1;
        }
        proof {
            assert(self.spec_rows().take(h as int) =~= self.spec_rows());
            assert(keep@.take(h as int) =~= keep@);
        }
        Table { names: clone_names(&self.names), rows: rows2 }
    }

    /// The rows at the given positions, in the given order. Positions may
    /// repeat; each must be in range.
    pub fn gather(&self, idx: &Vec<usize>) -> (r: Table)
        requires
            self.wf(),
            forall|k: int| 0 <= k < idx@.len() ==> #[trigger] idx@[k] < self.spec_rows().len(),
        ensures
            r.spec_names() == self.spec_names(),
            r.spec_rows().len() == idx@.len(),
            forall|k: int|
                0 <= k < idx@.len() ==> #[trigger] r.spec_rows()[k] == self.spec_rows()[idx@[k] as int],
            r.wf(),
    {
        let n = idx.len();
        let mut rows2: Vec<Vec<CellValue>> = Vec::new();
        let mut k: usize = 0;
        while k < n
            invariant
                self.wf(),
                n == idx@.len(),
                forall|u: int| 0 <= u < n ==> #[trigger] idx@[u] < self.spec_rows().len(),
                k <= n,
                rows2.deep_view().len() == k,
                forall|u: int|
                    0 <= u < k ==> #[trigger] rows2.deep_view()[u] == self.spec_rows()[idx@[u] as int],
            decreases n - k,
        {
            let ghost dv = rows2.deep_view();
            rows2.push(duplicate_row(&self.rows[idx[k]]));
            k = k + 1;
            proof {
                assert(rows2.deep_view() =~= dv.push(self.spec_rows()[idx@[k - 1] as int]));
            }
        }
        Table { names: clone_names(&self.names), rows: rows2 }
    }
}

} // verus!
