//! Recognized transformation options, independent of how the surrounding
//! command line was parsed.

use vstd::prelude::*;
use crate::args::{spec_first_pos, first_pos_in, lemma_first_pos_range};
use crate::formats::chars_of;
use crate::table::string_from_chars;

verus! {

/// The transformation options one invocation may carry. Column lists are
/// already split into individual names; `None` means the option was absent.
pub struct Options {
    /// Row predicate, opaque text handed to the engine's predicate parser.
    pub filter: Option<String>,
    /// Keep only these columns, in this order.
    pub select: Option<Vec<String>>,
    /// Remove these columns.
    pub drop: Option<Vec<String>>,
    /// Sort keys, applied in order.
    pub sort_keys: Vec<String>,
    /// Sort descending (applies uniformly to all keys).
    pub reverse: bool,
    /// Case-insensitive sort.
    pub ignore_case: bool,
    /// Remove duplicate rows over all columns.
    pub unique: bool,
    /// Remove duplicate rows over this column subset.
    pub unique_on: Option<Vec<String>>,
    /// Report rows holding nulls (lint).
    pub show_nulls: bool,
    /// Report every matching row rather than the first hundred (lint).
    pub all: bool,
    /// Report the schema (lint).
    pub show_schema: bool,
    /// Keep at most this many rows.
    pub limit: Option<usize>,
    /// Skip this many rows first; negative counts from the end.
    pub offset: Option<i64>,
}

impl Options {
    /// Options that request no transformation at all.
    pub fn none() -> (r: Options)
        ensures
            !r.spec_has_transformations(),
            r.filter is None,
            r.select is None,
            r.drop is None,
            r.sort_keys@ =~= Seq::<String>::empty(),
            !r.reverse,
            !r.ignore_case,
            !r.unique,
            r.unique_on is None,
            !r.show_nulls,
            !r.all,
            !r.show_schema,
            r.limit is None,
            r.offset is None,
    {
        Options {
            filter: None,
            select: None,
            drop: None,
            sort_keys: Vec::new(),
            reverse: false,
            ignore_case: false,
            unique: false,
            unique_on: None,
            show_nulls: false,
            all: false,
            show_schema: false,
            limit: None,
            offset: None,
        }
    }

    /// Whether any option asks for work beyond reading the input unchanged.
    pub open spec fn spec_has_transformations(&self) -> bool {
        self.filter is Some || self.select is Some || self.drop is Some
            || self.sort_keys@.len() > 0 || self.unique || self.unique_on is Some
            || self.limit is Some || self.offset is Some || self.show_nulls
    }

    /// Check if any transformations are applied.
    pub fn has_transformations(&self) -> (r: bool)
        ensures
            r == self.spec_has_transformations(),
    {
        self.filter.is_some() || self.select.is_some() || self.drop.is_some()
            || self.sort_keys.len() > 0 || self.unique || self.unique_on.is_some()
            || self.limit.is_some() || self.offset.is_some() || self.show_nulls
    }
}

/// The characters a column list's trim removes around a name.
pub open spec fn spec_is_space(c: char) -> bool {
    c == ' ' || c == '\t' || c == '\n' || c == '\r'
}

/// A piece with its surrounding spaces removed.
pub open spec fn spec_trim(s: Seq<char>) -> Seq<char>
    decreases s.len(),
{
    if s.len() == 0 {
        s
    } else if spec_is_space(s[0]) {
        spec_trim(s.drop_first())
    } else if spec_is_space(s.last()) {
        spec_trim(s.drop_last())
    } else {
        s
    }
}

/// The pieces of `s` from `lo` on, split at every occurrence of `c`.
pub open spec fn spec_split_from(s: Seq<char>, lo: int, c: char) -> Seq<Seq<char>>
    decreases s.len() - lo,
    when 0 <= lo <= s.len()
{
    let d = spec_first_pos(s, lo, s.len() as int, c, c);
    if d == -1 {
        seq![s.subrange(lo, s.len() as int)]
    } else if lo <= d < s.len() {
        seq![s.subrange(lo, d)] + spec_split_from(s, d + 1, c)
    } else {
        Seq::empty()
    }
}

/// A comma-separated column list, each name trimmed. Splitting an empty
/// text gives one empty name, as the original separator does.
pub open spec fn spec_column_list(s: Seq<char>) -> Seq<Seq<char>> {
    spec_split_from(s, 0, ',').map_values(|p: Seq<char>| spec_trim(p))
}

fn is_space(c: char) -> (r: bool)
    ensures
        r == spec_is_space(c),
{
    c == ' ' || c == '\t' || c == '\n' || c == '\r'
}

/// The trimmed text of `v[lo..hi]`.
#[verifier::loop_isolation(false)]
fn segment_trimmed(v: &Vec<char>, lo: usize, hi: usize) -> (r: String)
    requires
        lo <= hi <= v@.len(),
    ensures
        r@ == spec_trim(v@.subrange(lo as int, hi as int)),
{
    let mut a = lo;
    let mut b = hi;
    while a < b && is_space(v[a])
        invariant
            lo <= a <= b <= hi,
            spec_trim(v@.subrange(lo as int, hi as int)) == spec_trim(
                v@.subrange(a as int, b as int),
            ),
        decreases b - a,
    {
        proof {
            assert(v@.subrange(a as int, b as int).drop_first() =~= v@.subrange(
                a + 1,
                b as int,
            ));
        }
        a = a + 1;
    }
    while b > a && is_space(v[b - 1])
        invariant
            lo <= a <= b <= hi,
            a < b ==> !spec_is_space(v@[a as int]),
            spec_trim(v@.subrange(lo as int, hi as int)) == spec_trim(
                v@.subrange(a as int, b as int),
            ),
        decreases b,
    {
        proof {
            assert(v@.subrange(a as int, b as int).drop_last() =~= v@.subrange(
                a as int,
                b - 1,
            ));
        }
        b = b - 1;
    }
    let mut out: Vec<char> = Vec::new();
    let mut i = a;
    while i < b
        invariant
            a <= i <= b <= v@.len(),
            out@ =~= v@.subrange(a as int, i as int),
        decreases b - i,
    {
        out.push(v[i]);
        i = i + 1;
        proof {
            assert(out@ =~= v@.subrange(a as int, i as int));
        }
    }
    proof {
        assert(spec_trim(v@.subrange(a as int, b as int)) == v@.subrange(a as int, b as int));
    }
    string_from_chars(&out)
}

/// Split a comma-separated column list into its trimmed names.
#[verifier::loop_isolation(false)]
pub fn split_columns(s: &str) -> (r: Vec<String>)
    ensures
        r.deep_view() == spec_column_list(s@),
{
    let v = chars_of(s);
    let n = v.len();
    let mut r: Vec<String> = Vec::new();
    let mut cur: usize = 0;
    while cur <= n
        invariant
            cur <= n,
            n == v@.len(),
            spec_column_list(s@) =~= r.deep_view() + spec_split_from(
                v@,
                cur as int,
                ',',
            ).map_values(|p: Seq<char>| spec_trim(p)),
        decreases n + 1 - cur,
    {
        proof {
            lemma_first_pos_range(v@, cur as int, n as int, ',', ',');
        }
        match first_pos_in(&v, cur, n, ',', ',') {
            Some(d) => {
                let ghost dv = r.deep_view();
                r.push(segment_trimmed(&v, cur, d));
                proof {
                    assert(r.deep_view() =~= dv.push(spec_trim(v@.subrange(cur as int, d as int))));
                    assert(spec_split_from(v@, cur as int, ',').map_values(
                        |p: Seq<char>| spec_trim(p),
                    ) =~= seq![spec_trim(v@.subrange(cur as int, d as int))] + spec_split_from(
                        v@,
                        d + 1,
                        ',',
                    ).map_values(|p: Seq<char>| spec_trim(p)));
                }
                cur = d + 1;
            },
            None => {
                let ghost dv = r.deep_view();
                r.push(segment_trimmed(&v, cur, n));
                proof {
                    assert(r.deep_view() =~= dv.push(spec_trim(v@.subrange(cur as int, n as int))));
                    assert(spec_split_from(v@, cur as int, ',').map_values(
                        |p: Seq<char>| spec_trim(p),
                    ) =~= seq![spec_trim(v@.subrange(cur as int, n as int))]);
                }
                return r;
            },
        }
    }
    proof {
        assert(false);
    }
    r
}

} // verus!
