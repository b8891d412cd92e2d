//! Numeric command arguments: recognizing whether a leading argument reads
//! as a number rather than a file name, and parsing unsigned decimal
//! counts exactly.

use vstd::prelude::*;
use crate::error::ToolError;
use crate::formats::chars_of;

verus! {

/// Whether `c` is a decimal digit.
pub open spec fn spec_is_digit(c: char) -> bool {
    48 <= c as u32 <= 57
}

/// The value of a decimal digit.
pub open spec fn spec_digit_val(c: char) -> int {
    c as u32 - 48
}

/// Whether every character of `s[lo..hi]` is a decimal digit.
pub open spec fn spec_all_digits(s: Seq<char>, lo: int, hi: int) -> bool {
    forall|i: int| lo <= i < hi ==> spec_is_digit(#[trigger] s[i])
}

/// The value of the digit string `s[lo..hi]`, most significant first.
pub open spec fn spec_digits_val(s: Seq<char>, lo: int, hi: int) -> int
    decreases hi - lo,
{
    if lo >= hi {
        0
    } else {
        spec_digits_val(s, lo, hi - 1) * 10 + spec_digit_val(s[hi - 1])
    }
}

pub proof fn lemma_digits_val_bounds(s: Seq<char>, lo: int, hi: int)
    requires
        spec_all_digits(s, lo, hi),
        0 <= lo,
        hi <= s.len(),
    ensures
        spec_digits_val(s, lo, hi) >= 0,
        forall|m: int| lo <= m <= hi ==> #[trigger] spec_digits_val(s, lo, m) <= spec_digits_val(
            s,
            lo,
            hi,
        ),
    decreases hi - lo,
{
    if lo < hi {
        lemma_digits_val_bounds(s, lo, hi - 1);
        assert forall|m: int| lo <= m <= hi implies #[trigger] spec_digits_val(s, lo, m)
            <= spec_digits_val(s, lo, hi) by {
            if m <= hi - 1 {
                assert(spec_digits_val(s, lo, m) <= spec_digits_val(s, lo, hi - 1));
                assert(spec_digits_val(s, lo, hi) >= spec_digits_val(s, lo, hi - 1) * 10);
            }
        }
    }
}

/// First occurrence of `c1` or `c2` within `s[lo..hi]`, or `-1`.
pub open spec fn spec_first_pos(s: Seq<char>, lo: int, hi: int, c1: char, c2: char) -> int
    decreases hi - lo,
{
    if lo >= hi {
        -1
    } else if s[lo] == c1 || s[lo] == c2 {
        lo
    } else {
        spec_first_pos(s, lo + 1, hi, c1, c2)
    }
}

pub proof fn lemma_first_pos_range(s: Seq<char>, lo: int, hi: int, c1: char, c2: char)
    ensures
        spec_first_pos(s, lo, hi, c1, c2) == -1 || lo <= spec_first_pos(s, lo, hi, c1, c2) < hi,
    decreases hi - lo,
{
    if lo < hi && !(s[lo] == c1 || s[lo] == c2) {
        lemma_first_pos_range(s, lo + 1, hi, c1, c2);
    }
}

/// Lower-case image of the letters that can occur in the special float
/// spellings; every other character stays itself.
pub open spec fn spec_lower(c: char) -> char {
    if c == 'I' {
        'i'
    } else if c == 'N' {
        'n'
    } else if c == 'F' {
        'f'
    } else if c == 'A' {
        'a'
    } else if c == 'T' {
        't'
    } else if c == 'Y' {
        'y'
    } else {
        c
    }
}

/// Whether `s[lo..hi]`, lower-cased, is exactly `lit`.
pub open spec fn spec_ci_is(s: Seq<char>, lo: int, hi: int, lit: Seq<char>) -> bool {
    s.subrange(lo, hi).map_values(|c: char| spec_lower(c)) == lit
}

/// Whether `s[lo..hi]` is a well-formed mantissa: digits with at most one
/// point somewhere, and at least one digit.
pub open spec fn spec_mantissa_ok(s: Seq<char>, lo: int, hi: int) -> bool {
    let d = spec_first_pos(s, lo, hi, '.', '.');
    if d == -1 {
        hi - lo > 0 && spec_all_digits(s, lo, hi)
    } else {
        hi - lo > 1 && spec_all_digits(s, lo, d) && spec_all_digits(s, d + 1, hi)
    }
}

/// Whether `s[lo..hi]` is a well-formed exponent body: an optional sign and
/// at least one digit.
pub open spec fn spec_exp_ok(s: Seq<char>, lo: int, hi: int) -> bool {
    let lo2 = if lo < hi && (s[lo] == '+' || s[lo] == '-') {
        lo + 1
    } else {
        lo
    };
    hi - lo2 > 0 && spec_all_digits(s, lo2, hi)
}

/// Whether `s[lo..hi]` is a number: a mantissa with an optional exponent.
pub open spec fn spec_number_ok(s: Seq<char>, lo: int, hi: int) -> bool {
    let e = spec_first_pos(s, lo, hi, 'e', 'E');
    if e == -1 {
        spec_mantissa_ok(s, lo, hi)
    } else {
        spec_mantissa_ok(s, lo, e) && spec_exp_ok(s, e + 1, hi)
    }
}

/// Whether `s` reads as a floating-point literal: an optional sign, then one
/// of the special spellings in any case, or a number.
pub open spec fn spec_is_float_literal(s: Seq<char>) -> bool {
    let n = s.len() as int;
    let b = if n > 0 && (s[0] == '+' || s[0] == '-') {
        1int
    } else {
        0int
    };
    ||| spec_ci_is(s, b, n, "inf"@)
    ||| spec_ci_is(s, b, n, "infinity"@)
    ||| spec_ci_is(s, b, n, "nan"@)
    ||| spec_number_ok(s, b, n)
}

/// Whether `s` reads as an unsigned decimal count: an optional leading plus
/// sign and at least one digit.
pub open spec fn spec_is_count_literal(s: Seq<char>) -> bool {
    let n = s.len() as int;
    let b = if n > 0 && s[0] == '+' {
        1int
    } else {
        0int
    };
    n - b > 0 && spec_all_digits(s, b, n)
}

/// Start of the digits of a count literal.
pub open spec fn spec_count_body(s: Seq<char>) -> int {
    if s.len() > 0 && s[0] == '+' {
        1
    } else {
        0
    }
}

pub(crate) fn lower_char(c: char) -> (r: char)
    ensures
        r == spec_lower(c),
{
    if c == 'I' {
        'i'
    } else if c == 'N' {
        'n'
    } else if c == 'F' {
        'f'
    } else if c == 'A' {
        'a'
    } else if c == 'T' {
        't'
    } else if c == 'Y' {
        'y'
    } else {
        c
    }
}

pub(crate) fn is_digit(c: char) -> (r: bool)
    ensures
        r == spec_is_digit(c),
{
    let u = c as u32;
    48 <= u && u <= 57
}

/// Whether `v[lo..hi]`, lower-cased, is exactly the characters of `lit`.
pub(crate) fn ci_segment_is(v: &Vec<char>, lo: usize, hi: usize, lit: &str) -> (r: bool)
    requires
        lo <= hi <= v@.len(),
    ensures
        r == spec_ci_is(v@, lo as int, hi as int, lit@),
{
    let n = lit.unicode_len();
    if hi - lo != n {
        proof {
            assert(v@.subrange(lo as int, hi as int).map_values(|c: char| spec_lower(c)).len()
                != lit@.len());
        }
        return false;
    }
    let mut i: usize = 0;
    while i < n
        invariant
            lo <= hi <= v@.len(),
            n == lit@.len(),
            hi - lo == n,
            i <= n,
            forall|k: int| 0 <= k < i ==> spec_lower(v@[lo + k]) == lit@[k],
        decreases n - i,
    {
        if lower_char(v[lo + i]) != lit.get_char(i) {
            proof {
                assert(v@.subrange(lo as int, hi as int).map_values(|c: char| spec_lower(c))[
                    i as int] != lit@[i as int]);
            }
            return false;
        }
        i = i + 1;
    }
    proof {
        assert(v@.subrange(lo as int, hi as int).map_values(|c: char| spec_lower(c)) =~= lit@);
    }
    true
}

/// Whether every character of `v[lo..hi]` is a decimal digit.
pub(crate) fn all_digits_in(v: &Vec<char>, lo: usize, hi: usize) -> (r: bool)
    requires
        lo <= hi <= v@.len(),
    ensures
        r == spec_all_digits(v@, lo as int, hi as int),
{
    let mut i: usize = lo;
    while i < hi
        invariant
            lo <= i <= hi <= v@.len(),
            spec_all_digits(v@, lo as int, i as int),
        decreases hi - i,
    {
        if !is_digit(v[i]) {
            return false;
        }
        i = i + 1;
    }
    true
}

/// First occurrence of `c1` or `c2` within `v[lo..hi]`, if any.
pub(crate) fn first_pos_in(v: &Vec<char>, lo: usize, hi: usize, c1: char, c2: char) -> (r: Option<usize>)
    requires
        lo <= hi <= v@.len(),
    ensures
        match r {
            Some(p) => lo <= p < hi && p == spec_first_pos(v@, lo as int, hi as int, c1, c2),
            None => spec_first_pos(v@, lo as int, hi as int, c1, c2) == -1,
        },
{
    let mut i: usize = lo;
    while i < hi
        invariant
            lo <= i <= hi <= v@.len(),
            spec_first_pos(v@, lo as int, hi as int, c1, c2) == spec_first_pos(
                v@,
                i as int,
                hi as int,
                c1,
                c2,
            ),
        decreases hi - i,
    {
        if v[i] == c1 || v[i] == c2 {
            return Some(i);
        }
        i = i + 1;
    }
    None
}

/// Whether the whole of `s` reads as a floating-point literal, the test that
/// decides if a leading command argument is a number rather than a file.
pub fn is_float_literal(s: &str) -> (r: bool)
    ensures
        r == spec_is_float_literal(s@),
{
    let v = chars_of(s);
    let n = v.len();
    let b: usize = if n > 0 && (v[0] == '+' || v[0] == '-') {
        1
    } else {
        0
    };
    if ci_segment_is(&v, b, n, "inf") || ci_segment_is(&v, b, n, "infinity") || ci_segment_is(
        &v,
        b,
        n,
        "nan",
    ) {
        return true;
    }
    let m_end: usize = match first_pos_in(&v, b, n, 'e', 'E') {
        Some(e) => e,
        None => n,
    };
    let mantissa_ok: bool = match first_pos_in(&v, b, m_end, '.', '.') {
        None => m_end - b > 0 && all_digits_in(&v, b, m_end),
        Some(d) => m_end - b > 1 && all_digits_in(&v, b, d) && all_digits_in(&v, d + 1, m_end),
    };
    if !mantissa_ok {
        return false;
    }
    if m_end == n {
        return true;
    }
    let e1: usize = m_end + 1;
    let e2: usize = if e1 < n && (v[e1] == '+' || v[e1] == '-') {
        e1 + 1
    } else {
        e1
    };
    n - e2 > 0 && all_digits_in(&v, e2, n)
}

/// Parse an unsigned decimal count. Succeeds exactly on a count literal
/// whose value fits the machine word; everything else is a `ParseError`
/// carrying the argument.
#[verifier::loop_isolation(false)]
pub fn parse_count(s: &str) -> (r: Result<usize, ToolError>)
    ensures
        match r {
            Ok(v) => spec_is_count_literal(s@) && v == spec_digits_val(
                s@,
                spec_count_body(s@),
                s@.len() as int,
            ),
            Err(e) => (!spec_is_count_literal(s@) || spec_digits_val(
                s@,
                spec_count_body(s@),
                s@.len() as int,
            ) > usize::MAX) && (e matches ToolError::ParseError { argument } && argument@ == s@),
        },
{
    let v = chars_of(s);
    let n = v.len();
    let b: usize = if n > 0 && v[0] == '+' {
        1
    } else {
        0
    };
    let refused = ToolError::ParseError { argument: s.to_owned() };
    if n == b {
        return Err(refused);
    }
    if !all_digits_in(&v, b, n) {
        return Err(refused);
    }
    proof {
        lemma_digits_val_bounds(v@, b as int, n as int);
    }
    let mut acc: usize = 0;
    let mut i: usize = b;
    while i < n
        invariant
            b <= i <= n,
            n == v@.len(),
            v@ == s@,
            spec_all_digits(v@, b as int, n as int),
            acc == spec_digits_val(v@, b as int, i as int),
        decreases n - i,
    {
        let d = (v[i] as u32 - 48) as usize;
        proof {
            assert(spec_is_digit(v@[i as int]));
            assert(d == spec_digit_val(v@[i as int]));
        }
        let scaled = match acc.checked_mul(10) {
            Some(x) => x,
            None => {
                proof {
                    lemma_digits_val_bounds(v@, b as int, n as int);
                    assert(spec_digits_val(v@, b as int, i + 1) > usize::MAX);
                    assert(spec_digits_val(v@, b as int, n as int) >= spec_digits_val(
                        v@,
                        b as int,
                        i + 1,
                    ));
                }
                return Err(refused);
            },
        };
        let next = match scaled.checked_add(d) {
            Some(x) => x,
            None => {
                proof {
                    lemma_digits_val_bounds(v@, b as int, n as int);
                    assert(spec_digits_val(v@, b as int, i + 1) > usize::MAX);
                    assert(spec_digits_val(v@, b as int, n as int) >= spec_digits_val(
                        v@,
                        b as int,
                        i + 1,
                    ));
                }
                return Err(refused);
            },
        };
        acc = next;
        i = i + 1;
    }
    Ok(acc)
}

/// Split a command's leading arguments: when the first one reads as a
/// number it is the count (kept as text, to preserve the count-or-fraction
/// distinction) and the rest are the files; otherwise all are files.
pub fn parse_n_and_files(files: &Vec<String>) -> (r: (Option<String>, Vec<String>))
    ensures
        files@.len() == 0 ==> r.0 is None && r.1.deep_view() =~= Seq::<Seq<char>>::empty(),
        files@.len() > 0 && spec_is_float_literal(files.deep_view()[0]) ==> (
        r.0 matches Some(n) && n@ == files.deep_view()[0]) && r.1.deep_view() == files.deep_view()
            .skip(1),
        files@.len() > 0 && !spec_is_float_literal(files.deep_view()[0]) ==> r.0 is None
            && r.1.deep_view() == files.deep_view(),
{
    if files.len() == 0 {
        return (None, Vec::new());
    }
    if is_float_literal(files[0].as_str()) {
        let mut rest: Vec<String> = Vec::new();
        let n = files.len();
        let mut i: usize = 1;
        while i < n
            invariant
                1 <= i <= n,
                n == files@.len(),
                rest.deep_view() =~= files.deep_view().subrange(1, i as int),
            decreases n - i,
        {
            let ghost dv = rest.deep_view();
            rest.push(files[i].clone());
            i = i + 1;
            proof {
                assert(rest.deep_view() =~= dv.push(files.deep_view()[i - 1]));
                assert(files.deep_view().subrange(1, i as int) =~= files.deep_view().subrange(
                    1,
                    i - 1,
                ).push(files.deep_view()[i - 1]));
            }
        }
        proof {
            assert(files.deep_view().subrange(1, n as int) =~= files.deep_view().skip(1));
        }
        (Some(files[0].clone()), rest)
    } else {
        (None, crate::table::clone_names(files))
    }
}

} // verus!
