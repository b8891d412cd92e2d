//! The windowed random sampler: a bounded prefix of the rows is the
//! eligible pool, indices are drawn from it uniformly without replacement,
//! and the drawn rows are gathered. The bias toward the front of large
//! inputs is deliberate, the price of bounded memory; this is not a
//! reservoir sample, and must not silently become one.

use vstd::prelude::*;
use crate::args::{spec_all_digits, spec_digits_val, spec_first_pos, spec_is_count_literal,
    spec_count_body, spec_is_digit, parse_count, first_pos_in, all_digits_in};
use crate::error::ToolError;
use crate::formats::chars_of;
use crate::table::{SpecValue, Table, clone_names, duplicate_row};

verus! {

/// 10 to the `k`-th power.
pub open spec fn spec_pow10(k: int) -> int
    decreases k,
{
    if k <= 0 {
        1
    } else {
        10 * spec_pow10(k - 1)
    }
}

/// The sample size: never more than the rows available.
pub open spec fn spec_sample_size(n: int, total: int) -> int {
    if n <= total {
        n
    } else {
        total
    }
}

/// The eligible window: a thousand rows per requested row, at least one
/// hundred thousand, never more than the rows available.
pub open spec fn spec_sample_window(n: int, total: int) -> int {
    let w = if n * 1000 >= 100000 {
        n * 1000
    } else {
        100000
    };
    if w <= total {
        w
    } else {
        total
    }
}

/// How one sampling request will run: the full result when it covers every
/// row, otherwise a draw of `size` indices from the first `window` rows.
#[derive(Debug, Clone, Copy, PartialEq, Eq, Structural)]
pub enum SamplePlan {
    Full,
    Windowed { window: usize, size: usize },
}

/// Decide how a request for `n` rows out of `total` runs.
pub fn plan_sample(n: usize, total: usize) -> (r: SamplePlan)
    ensures
        n >= total ==> r == SamplePlan::Full,
        n < total ==> (r matches SamplePlan::Windowed { window, size } && size == n && window
            == spec_sample_window(n as int, total as int) && n <= window <= total),
{
    if n >= total {
        return SamplePlan::Full;
    }
    let w0: usize = if n > usize::MAX / 1000 {
        usize::MAX
    } else {
        n * 1000
    };
    proof {
        if n > usize::MAX / 1000 {
            assert(n * 1000 > usize::MAX) by (nonlinear_arith)
                requires
                    n > usize::MAX / 1000,
                    usize::MAX / 1000 == (usize::MAX as int) / 1000,
            ;
        }
    }
    let w1: usize = if w0 >= 100000 {
        w0
    } else {
        100000
    };
    let window: usize = if w1 <= total {
        w1
    } else {
        total
    };
    proof {
        assert(n * 1000 >= n) by (nonlinear_arith);
    }
    SamplePlan::Windowed { window, size: n }
}

/// Relies on rand::seq::index::sample: it returns exactly `amount` distinct
/// indices drawn uniformly from `0..length`, in random order, and panics
/// when `amount` exceeds `length`, so that case is excluded here. Nothing
/// more is assumed of the outcome: two calls may differ.
#[verifier::external_body]
fn draw_indices(length: usize, amount: usize) -> (r: Vec<usize>)
    requires
        amount <= length,
    ensures
        r@.len() == amount,
        forall|i: int| 0 <= i < r@.len() ==> #[trigger] r@[i] < length,
        forall|i: int, j: int| 0 <= i < j < r@.len() ==> r@[i] != r@[j],
{
    let mut rng = rand::rng();
    rand::seq::index::sample(&mut rng, length, amount).into_vec()
}

/// The eligible pool: the first `w` rows of `ts`.
pub open spec fn spec_window_rows(ts: Seq<Seq<SpecValue>>, w: int) -> Seq<Seq<SpecValue>> {
    ts.subrange(0, w)
}

/// Every row of `rs` stands somewhere in the first `w` rows of `ts`.
pub open spec fn spec_rows_from_window(
    rs: Seq<Seq<SpecValue>>,
    ts: Seq<Seq<SpecValue>>,
    w: int,
) -> bool {
    forall|k: int|
        0 <= k < rs.len() ==> spec_window_rows(ts, w).contains(#[trigger] rs[k])
}

/// The rows `rs` are `ts` gathered at the positions `idx`: as many rows as
/// positions, every position below `w`, no position twice, and each row
/// the one standing at its position.
pub open spec fn spec_gather_witness(
    rs: Seq<Seq<SpecValue>>,
    ts: Seq<Seq<SpecValue>>,
    w: int,
    idx: Seq<int>,
) -> bool {
    &&& idx.len() == rs.len()
    &&& forall|k: int| 0 <= k < idx.len() ==> 0 <= #[trigger] idx[k] < w
    &&& forall|k1: int, k2: int| 0 <= k1 < k2 < idx.len() ==> idx[k1] != idx[k2]
    &&& forall|k: int| 0 <= k < idx.len() ==> rs[k] == ts[#[trigger] idx[k]]
}

/// The rows `rs` were drawn from the first `w` rows of `ts` without
/// replacement: they are the image of pairwise-distinct window positions,
/// so no window row is taken twice.
pub open spec fn spec_drawn_without_replacement(
    rs: Seq<Seq<SpecValue>>,
    ts: Seq<Seq<SpecValue>>,
    w: int,
) -> bool {
    exists|idx: Seq<int>| #[trigger] spec_gather_witness(rs, ts, w, idx)
}

/// Sample `n` rows from the table. When `n` covers every row the table is
/// returned whole, fully materialized and unsampled; otherwise exactly `n`
/// rows are drawn without replacement from the eligible window at the front,
/// and come out in the order the draw produced them.
pub fn sample_table(t: &Table, n: usize) -> (r: Table)
    requires
        t.wf(),
    ensures
        r.spec_names() == t.spec_names(),
        r.wf(),
        r.spec_rows().len() == spec_sample_size(n as int, t.spec_rows().len() as int),
        n >= t.spec_rows().len() ==> r.spec_rows() == t.spec_rows(),
        n < t.spec_rows().len() ==> spec_rows_from_window(
            r.spec_rows(),
            t.spec_rows(),
            spec_sample_window(n as int, t.spec_rows().len() as int),
        ),
        n < t.spec_rows().len() ==> spec_drawn_without_replacement(
            r.spec_rows(),
            t.spec_rows(),
            spec_sample_window(n as int, t.spec_rows().len() as int),
        ),
{
    let total = t.height();
    match plan_sample(n, total) {
        SamplePlan::Full => Table { names: clone_names(&t.names), rows: copy_rows(&t.rows) },
        SamplePlan::Windowed { window, size } => {
            let idx = draw_indices(window, size);
            let r = t.gather(&idx);
            proof {
                let sw = spec_sample_window(n as int, t.spec_rows().len() as int);
                let win = spec_window_rows(t.spec_rows(), sw);
                assert forall|k: int| 0 <= k < r.spec_rows().len() implies win.contains(
                    #[trigger] r.spec_rows()[k],
                ) by {
                    let w = idx@[k] as int;
                    assert(r.spec_rows()[k] == t.spec_rows()[w]);
                    assert(0 <= w < window);
                    assert(win[w] == r.spec_rows()[k]);
                    assert(win.contains(win[w]));
                }
                let wi = idx@.map_values(|u: usize| u as int);
                assert forall|k: int| 0 <= k < wi.len() implies 0 <= #[trigger] wi[k] < sw by {
                    assert(wi[k] == idx@[k] as int);
                }
                assert forall|k1: int, k2: int| 0 <= k1 < k2 < wi.len() implies wi[k1]
                    != wi[k2] by {
                    assert(wi[k1] == idx@[k1] as int && wi[k2] == idx@[k2] as int);
                }
                assert forall|k: int| 0 <= k < wi.len() implies r.spec_rows()[k] == t.spec_rows()[
                    #[trigger] wi[k]] by {
                    assert(wi[k] == idx@[k] as int);
                    assert(r.spec_rows()[k] == t.spec_rows()[idx@[k] as int]);
                }
                assert(spec_gather_witness(r.spec_rows(), t.spec_rows(), sw, wi));
                assert(spec_drawn_without_replacement(r.spec_rows(), t.spec_rows(), sw));
            }
            r
        },
    }
}

/// Whether `s` holds a decimal point anywhere.
pub open spec fn spec_has_dot(s: Seq<char>) -> bool {
    spec_first_pos(s, 0, s.len() as int, '.', '.') != -1
}

/// Whether `s` reads as a signed decimal fraction: an optional sign, digits
/// around one decimal point, and at least one digit in all.
pub open spec fn spec_is_fraction_literal(s: Seq<char>) -> bool {
    let n = s.len() as int;
    let b = if n > 0 && (s[0] == '+' || s[0] == '-') {
        1int
    } else {
        0int
    };
    let d = spec_first_pos(s, b, n, '.', '.');
    d != -1 && n - b > 1 && spec_all_digits(s, b, d) && spec_all_digits(s, d + 1, n)
}

/// The number of significant fractional digits: at most eighteen.
pub open spec fn spec_frac_sig(len: int) -> int {
    if len <= 18 {
        len
    } else {
        18
    }
}

/// The share of `total` that the fraction `s` names: nothing for a negative
/// fraction, everything when a whole unit is present, and otherwise `total`
/// scaled by the significant fractional digits, rounded to nearest with
/// halves away from zero, never past `total`.
pub open spec fn spec_fraction_share(total: int, s: Seq<char>) -> int {
    let n = s.len() as int;
    let b = if n > 0 && (s[0] == '+' || s[0] == '-') {
        1int
    } else {
        0int
    };
    let d = spec_first_pos(s, b, n, '.', '.');
    let k = spec_frac_sig(n - d - 1);
    let f = spec_digits_val(s, d + 1, d + 1 + k);
    let p = spec_pow10(k);
    if n > 0 && s[0] == '-' {
        0
    } else if exists|i: int| b <= i < d && s[i] != '0' {
        total
    } else {
        let q = (2 * total * f + p) / (2 * p);
        if q <= total {
            q
        } else {
            total
        }
    }
}

pub proof fn lemma_pow10_bounds(k: int)
    ensures
        spec_pow10(k) >= 1,
        k >= 1 ==> spec_pow10(k) >= 10,
    decreases k,
{
    if k > 0 {
        lemma_pow10_bounds(k - 1);
    }
}

pub proof fn lemma_pow10_mono(a: int, b: int)
    requires
        a <= b,
    ensures
        spec_pow10(a) <= spec_pow10(b),
    decreases b - a,
{
    if a < b {
        lemma_pow10_mono(a, b - 1);
        lemma_pow10_bounds(b - 1);
    }
}

/// Resolve a textual sample argument against the pre-sample row count. A
/// plain count stands as itself; an argument holding a decimal point names
/// a fraction of `total`, resolved in exact decimal arithmetic. The
/// fraction dialect is deliberately plain — an optional sign and digits
/// around one decimal point — so exponent spellings are refused as
/// unparsable rather than resolved through binary floating point.
#[verifier::loop_isolation(false)]
pub fn resolve_sample_count(n_str: &str, total: usize) -> (r: Result<usize, ToolError>)
    ensures
        match r {
            Ok(v) => {
                &&& !spec_has_dot(n_str@) ==> spec_is_count_literal(n_str@) && v
                    == spec_digits_val(n_str@, spec_count_body(n_str@), n_str@.len() as int)
                &&& spec_has_dot(n_str@) ==> spec_is_fraction_literal(n_str@) && v
                    == spec_fraction_share(total as int, n_str@)
            },
            Err(e) => {
                &&& (e matches ToolError::ParseError { argument } && argument@ == n_str@)
                &&& spec_has_dot(n_str@) ==> !spec_is_fraction_literal(n_str@)
                &&& !spec_has_dot(n_str@) ==> (!spec_is_count_literal(n_str@) || spec_digits_val(
                    n_str@,
                    spec_count_body(n_str@),
                    n_str@.len() as int,
                ) > usize::MAX)
            },
        },
{
    let v = chars_of(n_str);
    let n = v.len();
    if first_pos_in(&v, 0, n, '.', '.').is_none() {
        return parse_count(n_str);
    }
    let b: usize = if n > 0 && (v[0] == '+' || v[0] == '-') {
        1
    } else {
        0
    };
    let refused = ToolError::ParseError { argument: n_str.to_owned() };
    let d = match first_pos_in(&v, b, n, '.', '.') {
        Some(p) => p,
        None => {
            return Err(refused);
        },
    };
    if n - b <= 1 {
        return Err(refused);
    }
    if !all_digits_in(&v, b, d) {
        return Err(refused);
    }
    if !all_digits_in(&v, d + 1, n) {
        return Err(refused);
    }
    if v[0] == '-' {
        return Ok(0);
    }
    let mut whole = false;
    let mut i: usize = b;
    while i < d
        invariant
            b <= i <= d,
            whole == exists|k: int| b <= k < i && v@[k] != '0',
        decreases d - i,
    {
        if v[i] != '0' {
            whole = true;
        }
        i = i + 1;
    }
    if whole {
        return Ok(total);
    }
    let klen = n - (d + 1);
    let kk: usize = if klen <= 18 {
        klen
    } else {
        18
    };
    proof {
        reveal_with_fuel(spec_pow10, 20);
    }
    let mut f: u64 = 0;
    let mut p: u64 = 1;
    let mut j: usize = 0;
    while j < kk
        invariant
            kk <= 18,
            d + 1 + kk <= n,
            j <= kk,
            p == spec_pow10(j as int),
            f == spec_digits_val(v@, (d + 1) as int, (d + 1 + j) as int),
            0 <= f < p,
        decreases kk - j,
    {
        proof {
            lemma_pow10_mono(j as int, 17);
            reveal_with_fuel(spec_pow10, 20);
            assert(spec_pow10(17) == 100_000_000_000_000_000);
        }
        let c = v[d + 1 + j];
        proof {
            assert(spec_is_digit(v@[(d + 1 + j) as int]));
        }
        let dg = (c as u32 - 48) as u64;
        f = f * 10 + dg;
        p = p * 10;
        j = j + 1;
    }
    proof {
        lemma_pow10_mono(kk as int, 18);
        reveal_with_fuel(spec_pow10, 20);
        assert(spec_pow10(18) == 1_000_000_000_000_000_000);
        assert(p <= 1_000_000_000_000_000_000);
    }
    let t: u128 = total as u128;
    proof {
        assert(2 * (t as int) * (f as int) + (p as int) < 0xffffffffffffffffffffffffffffffff)
            by (nonlinear_arith)
            requires
                t as int <= 0xffffffffffffffff,
                0 <= f as int,
                (f as int) < 1_000_000_000_000_000_000,
                0 < p as int <= 1_000_000_000_000_000_000,
        ;
    }
    let num: u128 = 2 * t * (f as u128) + (p as u128);
    let den: u128 = 2 * (p as u128);
    let q: u128 = num / den;
    let share: usize = if q > total as u128 {
        total
    } else {
        q as usize
    };
    Ok(share)
}

/// A fresh copy of the rows.
fn copy_rows(rows: &Vec<Vec<crate::table::CellValue>>) -> (r: Vec<Vec<crate::table::CellValue>>)
    ensures
        r.deep_view() == rows.deep_view(),
{
    let n = rows.len();
    let mut r: Vec<Vec<crate::table::CellValue>> = Vec::new();
    let mut i: usize = 0;
    proof {
        assert(r.deep_view() =~= rows.deep_view().take(0));
    }
    while i < n
        invariant
            n == rows@.len(),
            i <= n,
            r.deep_view() == rows.deep_view().take(i as int),
        decreases n - i,
    {
        let ghost dv = r.deep_view();
        r.push(duplicate_row(&rows[i]));
        i = i + 1;
        proof {
            assert(r.deep_view() =~= dv.push(rows.deep_view()[i - 1]));
            assert(rows.deep_view().take(i as int) =~= rows.deep_view().take(i - 1).push(
                rows.deep_view()[i - 1],
            ));
        }
    }
    proof {
        assert(rows.deep_view().take(n as int) =~= rows.deep_view());
    }
    r
}

/// What a textual sample argument resolves to against `total` rows: a
/// plain count stands as itself, one with a decimal point names a share.
pub open spec fn spec_resolved_count(s: Seq<char>, total: int) -> int {
    if !spec_has_dot(s) {
        spec_digits_val(s, spec_count_body(s), s.len() as int)
    } else {
        spec_fraction_share(total, s)
    }
}

/// Sample by a textual argument, resolved against the table's own row
/// count: the eager variant, for a result already held whole in memory.
pub fn sample_table_arg(t: &Table, n_str: &str) -> (r: Result<Table, ToolError>)
    requires
        t.wf(),
    ensures
        match r {
            Ok(out) => {
                let n = spec_resolved_count(n_str@, t.spec_rows().len() as int);
                &&& !spec_has_dot(n_str@) ==> spec_is_count_literal(n_str@) && spec_digits_val(
                    n_str@,
                    spec_count_body(n_str@),
                    n_str@.len() as int,
                ) <= usize::MAX
                &&& spec_has_dot(n_str@) ==> spec_is_fraction_literal(n_str@)
                &&& out.spec_names() == t.spec_names()
                &&& out.wf()
                &&& out.spec_rows().len() == spec_sample_size(n, t.spec_rows().len() as int)
                &&& n >= t.spec_rows().len() ==> out.spec_rows() == t.spec_rows()
                &&& n < t.spec_rows().len() ==> spec_rows_from_window(
                    out.spec_rows(),
                    t.spec_rows(),
                    spec_sample_window(n, t.spec_rows().len() as int),
                )
                &&& n < t.spec_rows().len() ==> spec_drawn_without_replacement(
                    out.spec_rows(),
                    t.spec_rows(),
                    spec_sample_window(n, t.spec_rows().len() as int),
                )
            },
            Err(e) => {
                &&& (e matches ToolError::ParseError { argument } && argument@ == n_str@)
                &&& spec_has_dot(n_str@) ==> !spec_is_fraction_literal(n_str@)
                &&& !spec_has_dot(n_str@) ==> (!spec_is_count_literal(n_str@) || spec_digits_val(
                    n_str@,
                    spec_count_body(n_str@),
                    n_str@.len() as int,
                ) > usize::MAX)
            },
        },
{
    let total = t.height();
    let n = match resolve_sample_count(n_str, total) {
        Ok(n) => n,
        Err(e) => {
            return Err(e);
        },
    };
    Ok(sample_table(t, n))
}

} // verus!
