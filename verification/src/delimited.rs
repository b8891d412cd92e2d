//! Row-oriented delimited text: rendering a materialized table to it and
//! parsing it back. These are the pure halves of writing and reading a
//! delimited file — the shell only moves the text to and from disk — so
//! the shape round trip is a statement of the library itself. Field texts
//! are escaped with a backslash lead (the backslash itself, the line
//! break, and the separator), so every table renders unambiguously and
//! the round trip holds with no condition on the data.

use vstd::prelude::*;
use crate::args::{spec_all_digits, spec_digits_val, spec_first_pos, lemma_digits_val_bounds,
    all_digits_in, first_pos_in, lemma_first_pos_range};
use crate::formats::chars_of;
use crate::lint::{spec_decimal, fmt_u64};
use crate::options::spec_split_from;
use crate::table::{CellValue, SpecValue, Table, string_from_chars};

verus! {

/// The text of one integer: a sign when negative, then its decimal digits.
pub open spec fn spec_int_text(x: int) -> Seq<char> {
    if x < 0 {
        seq!['-'] + spec_decimal(-x)
    } else {
        spec_decimal(x)
    }
}

/// The text of one cell: nothing for a null, decimal digits for an
/// integer, the text itself otherwise.
pub open spec fn spec_cell_text(v: SpecValue) -> Seq<char> {
    match v {
        SpecValue::Null => Seq::empty(),
        SpecValue::Int(x) => spec_int_text(x),
        SpecValue::Text(s) => s,
    }
}

/// The escape expansion of one character: the backslash doubles, a line
/// break becomes a backslash and `n`, the separator a backslash and `d`;
/// every other character stands alone.
pub open spec fn spec_esc_char(c: char, sep: char) -> Seq<char> {
    if c == '\\' {
        seq!['\\', '\\']
    } else if c == '\n' {
        seq!['\\', 'n']
    } else if c == sep {
        seq!['\\', 'd']
    } else {
        seq![c]
    }
}

/// A field's text with its special characters escaped.
pub open spec fn spec_escape(f: Seq<char>, sep: char) -> Seq<char>
    decreases f.len(),
{
    if f.len() == 0 {
        Seq::empty()
    } else {
        spec_esc_char(f[0], sep) + spec_escape(f.drop_first(), sep)
    }
}

/// The character an escape code names.
pub open spec fn spec_unesc_code(c: char, sep: char) -> char {
    if c == '\\' {
        '\\'
    } else if c == 'n' {
        '\n'
    } else if c == 'd' {
        sep
    } else {
        c
    }
}

/// A field's text with its escapes folded back; a stray trailing backslash
/// stands for itself, so every text unescapes.
pub open spec fn spec_unescape(g: Seq<char>, sep: char) -> Seq<char>
    decreases g.len(),
{
    if g.len() == 0 {
        Seq::empty()
    } else if g[0] == '\\' && g.len() >= 2 {
        seq![spec_unesc_code(g[1], sep)] + spec_unescape(g.skip(2), sep)
    } else {
        seq![g[0]] + spec_unescape(g.skip(1), sep)
    }
}

pub proof fn lemma_escape_concat(a: Seq<char>, b: Seq<char>, sep: char)
    ensures
        spec_escape(a + b, sep) == spec_escape(a, sep) + spec_escape(b, sep),
    decreases a.len(),
{
    if a.len() == 0 {
        assert(a + b =~= b);
        assert(spec_escape(a, sep) + spec_escape(b, sep) =~= spec_escape(b, sep));
    } else {
        assert((a + b)[0] == a[0]);
        assert((a + b).drop_first() =~= a.drop_first() + b);
        lemma_escape_concat(a.drop_first(), b, sep);
        assert(spec_esc_char(a[0], sep) + (spec_escape(a.drop_first(), sep) + spec_escape(
            b,
            sep,
        )) =~= (spec_esc_char(a[0], sep) + spec_escape(a.drop_first(), sep)) + spec_escape(
            b,
            sep,
        ));
    }
}

/// An escaped field holds no raw line break and no raw separator, provided
/// the separator is none of the escape alphabet.
pub proof fn lemma_escape_clean(f: Seq<char>, sep: char)
    requires
        sep != '\\',
        sep != '\n',
        sep != 'n',
        sep != 'd',
    ensures
        forall|i: int|
            0 <= i < spec_escape(f, sep).len() ==> #[trigger] spec_escape(f, sep)[i] != '\n'
                && spec_escape(f, sep)[i] != sep,
    decreases f.len(),
{
    if f.len() > 0 {
        lemma_escape_clean(f.drop_first(), sep);
        let e0 = spec_esc_char(f[0], sep);
        let rest = spec_escape(f.drop_first(), sep);
        assert forall|i: int| 0 <= i < spec_escape(f, sep).len() implies #[trigger] spec_escape(
            f,
            sep,
        )[i] != '\n' && spec_escape(f, sep)[i] != sep by {
            if i < e0.len() {
                assert(spec_escape(f, sep)[i] == e0[i]);
            } else {
                assert(spec_escape(f, sep)[i] == rest[i - e0.len()]);
            }
        }
    }
}

/// Unescaping inverts escaping: the round trip of every field text.
pub proof fn lemma_unescape_escape(f: Seq<char>, sep: char)
    ensures
        spec_unescape(spec_escape(f, sep), sep) == f,
    decreases f.len(),
{
    if f.len() > 0 {
        lemma_unescape_escape(f.drop_first(), sep);
        let g = spec_escape(f, sep);
        let e0 = spec_esc_char(f[0], sep);
        let rest = spec_escape(f.drop_first(), sep);
        if f[0] == '\\' || f[0] == '\n' || f[0] == sep {
            assert(e0.len() == 2 && e0[0] == '\\');
            assert(g[0] == '\\' && g[1] == e0[1]);
            assert(g.len() >= 2);
            assert(g.skip(2) =~= rest);
            assert(spec_unesc_code(e0[1], sep) == f[0]);
            assert(spec_unescape(g, sep) =~= seq![f[0]] + f.drop_first());
            assert(seq![f[0]] + f.drop_first() =~= f);
        } else {
            assert(e0 =~= seq![f[0]]);
            assert(g[0] == f[0]);
            assert(g[0] != '\\');
            assert(g.skip(1) =~= rest);
            assert(spec_unescape(g, sep) =~= seq![f[0]] + f.drop_first());
            assert(seq![f[0]] + f.drop_first() =~= f);
        }
    }
}

/// Pieces joined by a separator.
pub open spec fn spec_join(ps: Seq<Seq<char>>, c: char) -> Seq<char>
    decreases ps.len(),
{
    if ps.len() == 0 {
        Seq::empty()
    } else if ps.len() == 1 {
        ps[0]
    } else {
        spec_join(ps.drop_last(), c) + seq![c] + ps.last()
    }
}

/// One rendered row: its cell texts, escaped, joined by the separator.
pub open spec fn spec_render_row(row: Seq<SpecValue>, sep: char) -> Seq<char> {
    spec_join(row.map_values(|v: SpecValue| spec_escape(spec_cell_text(v), sep)), sep)
}

/// The rendered rows, each closed by a line break.
pub open spec fn spec_render_rows(rows: Seq<Seq<SpecValue>>, sep: char) -> Seq<char>
    decreases rows.len(),
{
    if rows.len() == 0 {
        Seq::empty()
    } else {
        spec_render_rows(rows.drop_last(), sep) + spec_render_row(rows.last(), sep) + seq!['\n']
    }
}

/// A whole rendered table: the header line of escaped names, then one line
/// per row, each line closed by a line break.
pub open spec fn spec_render_table(
    names: Seq<Seq<char>>,
    rows: Seq<Seq<SpecValue>>,
    sep: char,
) -> Seq<char> {
    spec_join(names.map_values(|x: Seq<char>| spec_escape(x, sep)), sep) + seq!['\n']
        + spec_render_rows(rows, sep)
}

/// The decimal text of a signed integer.
pub fn fmt_i64(x: i64) -> (r: String)
    ensures
        r@ == spec_int_text(x as int),
{
    if x >= 0 {
        fmt_u64(x as u64)
    } else {
        let mag: u64 = (-(x as i128)) as u64;
        proof {
            assert(mag as int == -(x as int));
        }
        let m = fmt_u64(mag);
        let s = String::from_str("-");
        let r = s.concat(m.as_str());
        proof {
            reveal_strlit("-");
            assert(r@ =~= seq!['-'] + spec_decimal(-(x as int)));
        }
        r
    }
}

/// Append the characters of `s`, escaped.
#[verifier::loop_isolation(false)]
fn push_escaped(acc: &mut Vec<char>, s: &str, sep: char)
    ensures
        final(acc)@ == old(acc)@ + spec_escape(s@, sep),
{
    let ghost base = acc@;
    let n = s.unicode_len();
    let mut i: usize = 0;
    proof {
        assert(s@.take(0) =~= Seq::<char>::empty());
        assert(acc@ =~= base + spec_escape(s@.take(0), sep));
    }
    while i < n
        invariant
            n == s@.len(),
            i <= n,
            acc@ == base + spec_escape(s@.take(i as int), sep),
        decreases n - i,
    {
        let c = s.get_char(i);
        if c == '\\' {
            acc.push('\\');
            acc.push('\\');
        } else if c == '\n' {
            acc.push('\\');
            acc.push('n');
        } else if c == sep {
            acc.push('\\');
            acc.push('d');
        } else {
            acc.push(c);
        }
        i = i + 1;
        proof {
            assert(s@.take(i as int) =~= s@.take(i - 1) + seq![s@[i - 1]]);
            lemma_escape_concat(s@.take(i - 1), seq![s@[i - 1]], sep);
            assert(seq![s@[i - 1]].drop_first() =~= Seq::<char>::empty());
            assert(spec_escape(seq![s@[i - 1]], sep) =~= spec_esc_char(s@[i - 1], sep));
            assert(acc@ =~= base + spec_escape(s@.take(i as int), sep));
        }
    }
    proof {
        assert(s@.take(n as int) =~= s@);
    }
}

/// Append one cell's text, escaped.
fn push_cell(acc: &mut Vec<char>, cell: &CellValue, sep: char)
    ensures
        final(acc)@ == old(acc)@ + spec_escape(spec_cell_text(cell@), sep),
{
    match cell {
        CellValue::Null => {
            proof {
                assert(acc@ =~= acc@ + spec_escape(Seq::<char>::empty(), sep));
            }
        },
        CellValue::Int(x) => {
            let s = fmt_i64(*x);
            push_escaped(acc, s.as_str(), sep);
        },
        CellValue::Text(s) => {
            push_escaped(acc, s.as_str(), sep);
        },
    }
}

/// Append one rendered row.
#[verifier::loop_isolation(false)]
fn push_row(acc: &mut Vec<char>, row: &Vec<CellValue>, sep: char)
    ensures
        final(acc)@ == old(acc)@ + spec_render_row(row.deep_view(), sep),
{
    let ghost base = acc@;
    let ghost target = row.deep_view().map_values(
        |v: SpecValue| spec_escape(spec_cell_text(v), sep),
    );
    let n = row.len();
    proof {
        assert(target.len() == n);
        if n == 0 {
            assert(acc@ =~= base + spec_join(target, sep));
        }
    }
    let mut j: usize = 0;
    while j < n
        invariant
            n == row@.len(),
            j <= n,
            acc@ == base + (if j == 0 {
                Seq::<char>::empty()
            } else {
                spec_join(target.take(j as int), sep)
            }),
        decreases n - j,
    {
        if j > 0 {
            acc.push(sep);
        }
        push_cell(acc, &row[j], sep);
        j = j + 1;
        proof {
            assert(target.take(j as int).drop_last() =~= target.take(j - 1));
            assert(target.take(j as int).last() == target[j - 1]);
            assert(target[j - 1] == spec_escape(spec_cell_text(row.deep_view()[j - 1]), sep));
            if j == 1 {
                assert(acc@ =~= base + spec_join(target.take(1), sep));
            } else {
                assert(acc@ =~= base + spec_join(target.take(j as int), sep));
            }
        }
    }
    proof {
        assert(target.take(n as int) =~= target);
        if n > 0 {
            assert(acc@ =~= base + spec_render_row(row.deep_view(), sep));
        }
    }
}

/// Append the header line of escaped names, without its closing break.
#[verifier::loop_isolation(false)]
fn push_names(acc: &mut Vec<char>, names: &Vec<String>, sep: char)
    ensures
        final(acc)@ == old(acc)@ + spec_join(
            names.deep_view().map_values(|x: Seq<char>| spec_escape(x, sep)),
            sep,
        ),
{
    let ghost base = acc@;
    let ghost target = names.deep_view().map_values(|x: Seq<char>| spec_escape(x, sep));
    let n = names.len();
    proof {
        if n == 0 {
            assert(acc@ =~= base + spec_join(target, sep));
        }
    }
    let mut j: usize = 0;
    while j < n
        invariant
            n == names@.len(),
            j <= n,
            acc@ == base + (if j == 0 {
                Seq::<char>::empty()
            } else {
                spec_join(target.take(j as int), sep)
            }),
        decreases n - j,
    {
        if j > 0 {
            acc.push(sep);
        }
        push_escaped(acc, names[j].as_str(), sep);
        j = j + 1;
        proof {
            assert(target.take(j as int).drop_last() =~= target.take(j - 1));
            assert(target.take(j as int).last() == target[j - 1]);
            if j == 1 {
                assert(acc@ =~= base + spec_join(target.take(1), sep));
            } else {
                assert(acc@ =~= base + spec_join(target.take(j as int), sep));
            }
        }
    }
    proof {
        assert(target.take(n as int) =~= target);
        if n > 0 {
            assert(acc@ =~= base + spec_join(target, sep));
        }
    }
}

/// Render a table as delimited text: the header line, then each row, every
/// line closed by a line break. Cells holding the separator or a line
/// break render ambiguously; the round-trip law below excludes them.
#[verifier::loop_isolation(false)]
pub fn render_table(t: &Table, sep: char) -> (r: String)
    ensures
        r@ == spec_render_table(t.spec_names(), t.spec_rows(), sep),
{
    let mut acc: Vec<char> = Vec::new();
    push_names(&mut acc, &t.names, sep);
    acc.push('\n');
    let ghost header = spec_join(
        t.spec_names().map_values(|x: Seq<char>| spec_escape(x, sep)),
        sep,
    ) + seq!['\n'];
    proof {
        assert(acc@ =~= header + spec_render_rows(t.spec_rows().take(0), sep));
    }
    let h = t.rows.len();
    let mut i: usize = 0;
    while i < h
        invariant
            h == t.spec_rows().len(),
            i <= h,
            acc@ == header + spec_render_rows(t.spec_rows().take(i as int), sep),
        decreases h - i,
    {
        push_row(&mut acc, &t.rows[i], sep);
        acc.push('\n');
        i = i + 1;
        proof {
            assert(t.spec_rows().take(i as int).drop_last() =~= t.spec_rows().take(i - 1));
            assert(t.spec_rows().take(i as int).last() == t.spec_rows()[i - 1]);
            assert(acc@ =~= header + spec_render_rows(t.spec_rows().take(i as int), sep));
        }
    }
    proof {
        assert(t.spec_rows().take(h as int) =~= t.spec_rows());
        assert(acc@ =~= spec_render_table(t.spec_names(), t.spec_rows(), sep));
    }
    string_from_chars(&acc)
}

/// Where a field's digits start: one past a leading sign.
pub open spec fn spec_field_sign(f: Seq<char>) -> int {
    if f.len() > 0 && (f[0] == '+' || f[0] == '-') {
        1
    } else {
        0
    }
}

/// Whether a field reads as a signed machine integer: an optional sign,
/// at least one digit, and a value within the machine range.
pub open spec fn spec_field_int_ok(f: Seq<char>) -> bool {
    let b = spec_field_sign(f);
    let n = f.len() as int;
    &&& n - b > 0
    &&& spec_all_digits(f, b, n)
    &&& (if f.len() > 0 && f[0] == '-' {
        spec_digits_val(f, b, n) <= 0x8000_0000_0000_0000
    } else {
        spec_digits_val(f, b, n) <= 0x7fff_ffff_ffff_ffff
    })
}

/// The value such a field names.
pub open spec fn spec_field_int_val(f: Seq<char>) -> int {
    let m = spec_digits_val(f, spec_field_sign(f), f.len() as int);
    if f.len() > 0 && f[0] == '-' {
        -m
    } else {
        m
    }
}

/// The cell a field parses to: an empty field reads as null, a signed
/// integer as a number, anything else as text.
pub open spec fn spec_infer_cell(f: Seq<char>) -> SpecValue {
    if f.len() == 0 {
        SpecValue::Null
    } else if spec_field_int_ok(f) {
        SpecValue::Int(spec_field_int_val(f))
    } else {
        SpecValue::Text(f)
    }
}

/// A parsed row fitted to the header width: cut short, or padded with
/// nulls.
pub open spec fn spec_fit(cells: Seq<SpecValue>, w: int) -> Seq<SpecValue> {
    if cells.len() >= w {
        cells.take(w)
    } else {
        cells + Seq::new((w - cells.len()) as nat, |q: int| SpecValue::Null)
    }
}

/// One parsed line: its fields unescaped and inferred, fitted to the
/// header width.
pub open spec fn spec_parse_line(line: Seq<char>, sep: char, w: int) -> Seq<SpecValue> {
    spec_fit(
        spec_split_from(line, 0, sep).map_values(
            |f: Seq<char>| spec_infer_cell(spec_unescape(f, sep)),
        ),
        w,
    )
}

/// The line pieces a text parses as: the empty piece that a final line
/// break produces is dropped; every other line, empty ones included, is a
/// row line.
pub open spec fn spec_lines(text: Seq<char>) -> Seq<Seq<char>> {
    let lines = spec_split_from(text, 0, '\n');
    if lines.len() >= 2 && lines.last().len() == 0 {
        lines.drop_last()
    } else {
        lines
    }
}

/// The names a parsed table carries: the fields of the first line,
/// unescaped.
pub open spec fn spec_parse_names(text: Seq<char>, sep: char) -> Seq<Seq<char>> {
    spec_split_from(spec_split_from(text, 0, '\n')[0], 0, sep).map_values(
        |f: Seq<char>| spec_unescape(f, sep),
    )
}

/// The rows: every later line, fitted to the header width.
pub open spec fn spec_parse_rows(text: Seq<char>, sep: char) -> Seq<Seq<SpecValue>> {
    let ls = spec_lines(text);
    ls.subrange(1, ls.len() as int).map_values(
        |l: Seq<char>| spec_parse_line(l, sep, spec_parse_names(text, sep).len() as int),
    )
}

/// A split always yields at least one piece.
pub proof fn lemma_split_nonempty(s: Seq<char>, lo: int, c: char)
    requires
        0 <= lo <= s.len(),
    ensures
        spec_split_from(s, lo, c).len() >= 1,
    decreases s.len() - lo,
{
    lemma_first_pos_range(s, lo, s.len() as int, c, c);
    let d = spec_first_pos(s, lo, s.len() as int, c, c);
    if d != -1 {
        lemma_split_nonempty(s, d + 1, c);
    }
}

/// The text of `v[lo..hi]`, as it stands.
#[verifier::loop_isolation(false)]
fn segment_plain(v: &Vec<char>, lo: usize, hi: usize) -> (r: String)
    requires
        lo <= hi <= v@.len(),
    ensures
        r@ == v@.subrange(lo as int, hi as int),
{
    let mut out: Vec<char> = Vec::new();
    let mut i = lo;
    while i < hi
        invariant
            lo <= i <= hi <= v@.len(),
            out@ =~= v@.subrange(lo as int, i as int),
        decreases hi - i,
    {
        out.push(v[i]);
        i = i + 1;
        proof {
            assert(out@ =~= v@.subrange(lo as int, i as int));
        }
    }
    string_from_chars(&out)
}

/// Split the whole of `v` at every occurrence of `c`.
#[verifier::loop_isolation(false)]
fn split_all(v: &Vec<char>, c: char) -> (r: Vec<String>)
    ensures
        r.deep_view() == spec_split_from(v@, 0, c),
{
    let n = v.len();
    let mut r: Vec<String> = Vec::new();
    let mut cur: usize = 0;
    while cur <= n
        invariant
            cur <= n,
            n == v@.len(),
            spec_split_from(v@, 0, c) =~= r.deep_view() + spec_split_from(v@, cur as int, c),
        decreases n + 1 - cur,
    {
        proof {
            lemma_first_pos_range(v@, cur as int, n as int, c, c);
        }
        match first_pos_in(&v, cur, n, c, c) {
            Some(d) => {
                let ghost dv = r.deep_view();
                r.push(segment_plain(v, cur, d));
                proof {
                    assert(r.deep_view() =~= dv.push(v@.subrange(cur as int, d as int)));
                    assert(spec_split_from(v@, cur as int, c) =~= seq![
                        v@.subrange(cur as int, d as int),
                    ] + spec_split_from(v@, d + 1, c));
                }
                cur = d + 1;
            },
            None => {
                let ghost dv = r.deep_view();
                r.push(segment_plain(v, cur, n));
                proof {
                    assert(r.deep_view() =~= dv.push(v@.subrange(cur as int, n as int)));
                    assert(spec_split_from(v@, cur as int, c) =~= seq![
                        v@.subrange(cur as int, n as int),
                    ]);
                    assert(spec_split_from(v@, 0, c) =~= r.deep_view());
                }
                return r;
            },
        }
    }
    proof {
        assert(false);
    }
    r
}

/// The cell one field reads as.
#[verifier::loop_isolation(false)]
pub fn infer_cell(f: &str) -> (r: CellValue)
    ensures
        r@ == spec_infer_cell(f@),
{
    let v = chars_of(f);
    let n = v.len();
    if n == 0 {
        return CellValue::Null;
    }
    let b: usize = if v[0] == '+' || v[0] == '-' {
        1
    } else {
        0
    };
    if n == b {
        return CellValue::Text(f.to_owned());
    }
    if !all_digits_in(&v, b, n) {
        return CellValue::Text(f.to_owned());
    }
    proof {
        lemma_digits_val_bounds(v@, b as int, n as int);
    }
    let neg = b == 1 && v[0] == '-';
    let mut m: u64 = 0;
    let mut i: usize = b;
    while i < n
        invariant
            b <= i <= n,
            m == spec_digits_val(v@, b as int, i as int),
        decreases n - i,
    {
        let d = (v[i] as u32 - 48) as u64;
        proof {
            assert(d == crate::args::spec_digit_val(v@[i as int]));
        }
        let scaled = match m.checked_mul(10) {
            Some(x) => x,
            None => {
                proof {
                    assert(spec_digits_val(v@, b as int, i + 1) > u64::MAX);
                    assert(spec_digits_val(v@, b as int, n as int) >= spec_digits_val(
                        v@,
                        b as int,
                        i + 1,
                    ));
                }
                return CellValue::Text(f.to_owned());
            },
        };
        let next = match scaled.checked_add(d) {
            Some(x) => x,
            None => {
                proof {
                    assert(spec_digits_val(v@, b as int, i + 1) > u64::MAX);
                    assert(spec_digits_val(v@, b as int, n as int) >= spec_digits_val(
                        v@,
                        b as int,
                        i + 1,
                    ));
                }
                return CellValue::Text(f.to_owned());
            },
        };
        m = next;
        i = i + 1;
    }
    if neg {
        if m > 0x8000_0000_0000_0000u64 {
            return CellValue::Text(f.to_owned());
        }
        let x: i64 = (-(m as i128)) as i64;
        proof {
            assert(x as int == -(m as int));
            assert(spec_field_int_ok(f@));
            assert(spec_field_int_val(f@) == x as int);
        }
        CellValue::Int(x)
    } else {
        if m > 0x7fff_ffff_ffff_ffffu64 {
            return CellValue::Text(f.to_owned());
        }
        CellValue::Int(m as i64)
    }
}

/// Fit a parsed row to the header width.
#[verifier::loop_isolation(false)]
fn fit_row(cells: Vec<CellValue>, w: usize) -> (r: Vec<CellValue>)
    ensures
        r.deep_view() == spec_fit(cells.deep_view(), w as int),
        r.deep_view().len() == w,
{
    let ghost c0 = cells.deep_view();
    let mut cells = cells;
    if cells.len() >= w {
        cells.truncate(w);
        proof {
            assert(cells.deep_view() =~= c0.take(w as int));
        }
        cells
    } else {
        while cells.len() < w
            invariant
                cells.deep_view().len() <= w,
                cells.deep_view() =~= c0 + Seq::new(
                    (cells.deep_view().len() - c0.len()) as nat,
                    |q: int| SpecValue::Null,
                ),
            decreases w - cells.len(),
        {
            let ghost dv = cells.deep_view();
            cells.push(CellValue::Null);
            proof {
                assert(cells.deep_view() =~= dv.push(SpecValue::Null));
                assert(cells.deep_view() =~= c0 + Seq::new(
                    (cells.deep_view().len() - c0.len()) as nat,
                    |q: int| SpecValue::Null,
                ));
            }
        }
        proof {
            assert(cells.deep_view() =~= spec_fit(c0, w as int));
        }
        cells
    }
}

/// A field's text with its escapes folded back.
#[verifier::loop_isolation(false)]
fn unescape_field(g: &str, sep: char) -> (r: String)
    ensures
        r@ == spec_unescape(g@, sep),
{
    let v = chars_of(g);
    let n = v.len();
    let mut out: Vec<char> = Vec::new();
    let mut i: usize = 0;
    proof {
        assert(v@.skip(0) =~= v@);
    }
    while i < n
        invariant
            i <= n,
            n == v@.len(),
            spec_unescape(g@, sep) == out@ + spec_unescape(v@.skip(i as int), sep),
        decreases n - i,
    {
        proof {
            assert(v@.skip(i as int)[0] == v@[i as int]);
        }
        if v[i] == '\\' && i + 1 < n {
            proof {
                assert(v@.skip(i as int).len() >= 2);
                assert(v@.skip(i as int)[1] == v@[i + 1]);
                assert(v@.skip(i as int).skip(2) =~= v@.skip(i + 2));
            }
            let c = v[i + 1];
            let u = if c == '\\' {
                '\\'
            } else if c == 'n' {
                '\n'
            } else if c == 'd' {
                sep
            } else {
                c
            };
            proof {
                assert(u == spec_unesc_code(v@[i + 1], sep));
            }
            let ghost o0 = out@;
            out.push(u);
            i = i + 2;
            proof {
                assert(out@ =~= o0 + seq![u]);
                assert(o0 + (seq![u] + spec_unescape(v@.skip(i as int), sep)) =~= out@
                    + spec_unescape(v@.skip(i as int), sep));
            }
        } else {
            proof {
                assert(v@.skip(i as int).skip(1) =~= v@.skip(i + 1));
            }
            let ghost o0 = out@;
            out.push(v[i]);
            i = i + 1;
            proof {
                assert(out@ =~= o0 + seq![v@[i - 1]]);
                assert(o0 + (seq![v@[i - 1]] + spec_unescape(v@.skip(i as int), sep)) =~= out@
                    + spec_unescape(v@.skip(i as int), sep));
            }
        }
    }
    proof {
        assert(v@.skip(n as int) =~= Seq::<char>::empty());
    }
    string_from_chars(&out)
}

/// Parse delimited text into a table: the first line's unescaped fields
/// name the columns; every later line is a row fitted to the header width,
/// the empty piece a final line break produces being no row.
#[verifier::loop_isolation(false)]
#[verifier::rlimit(60)]
pub fn parse_table(text: &str, sep: char) -> (r: Table)
    ensures
        r.spec_names() == spec_parse_names(text@, sep),
        r.spec_rows() == spec_parse_rows(text@, sep),
        r.wf(),
{
    let v = chars_of(text);
    let lines = split_all(&v, '\n');
    proof {
        lemma_split_nonempty(v@, 0, '\n');
    }
    let nl_all = lines.len();
    let last_empty = nl_all >= 2 && lines[nl_all - 1].as_str().unicode_len() == 0;
    let nl = if last_empty {
        nl_all - 1
    } else {
        nl_all
    };
    let ghost ldv = spec_lines(v@);
    proof {
        if last_empty {
            assert(ldv =~= lines.deep_view().drop_last());
        } else {
            assert(ldv =~= lines.deep_view());
        }
        assert(ldv.len() == nl);
        assert(ldv[0] == lines.deep_view()[0]);
    }
    let hv = chars_of(lines[0].as_str());
    proof {
        assert(hv@ == lines.deep_view()[0]);
    }
    let hfields = split_all(&hv, sep);
    let ghost hdv = hfields.deep_view();
    let hn = hfields.len();
    let mut names: Vec<String> = Vec::new();
    let mut k: usize = 0;
    proof {
        assert(names.deep_view() =~= hdv.take(0).map_values(|f: Seq<char>| spec_unescape(f, sep)));
    }
    while k < hn
        invariant
            k <= hn,
            hn == hdv.len(),
            names.deep_view() == hdv.take(k as int).map_values(
                |f: Seq<char>| spec_unescape(f, sep),
            ),
        decreases hn - k,
    {
        let ghost ndv = names.deep_view();
        names.push(unescape_field(hfields[k].as_str(), sep));
        k = k + 1;
        proof {
            assert(names.deep_view() =~= ndv.push(spec_unescape(hdv[k - 1], sep)));
            assert(hdv.take(k as int).map_values(|f: Seq<char>| spec_unescape(f, sep)) =~= hdv.take(
                k - 1,
            ).map_values(|f: Seq<char>| spec_unescape(f, sep)).push(
                spec_unescape(hdv[k - 1], sep),
            ));
        }
    }
    proof {
        assert(hdv.take(hn as int) =~= hdv);
        assert(names.deep_view() =~= spec_parse_names(text@, sep));
    }
    let w = names.len();
    let mut rows: Vec<Vec<CellValue>> = Vec::new();
    let mut i: usize = 1;
    proof {
        assert(ldv.subrange(1, 1) =~= Seq::<Seq<char>>::empty());
        assert(rows.deep_view() =~= ldv.subrange(1, 1).map_values(
            |l: Seq<char>| spec_parse_line(l, sep, w as int),
        ));
    }
    while i < nl
        invariant
            1 <= i <= nl,
            nl == ldv.len(),
            forall|q: int| 0 <= q < nl ==> ldv[q] == lines.deep_view()[q],
            nl <= lines.deep_view().len(),
            rows.deep_view() == ldv.subrange(1, i as int).map_values(
                |l: Seq<char>| spec_parse_line(l, sep, w as int),
            ),
            forall|p: int|
                0 <= p < rows.deep_view().len() ==> (#[trigger] rows.deep_view()[p]).len() == w,
        decreases nl - i,
    {
        proof {
            assert(ldv.subrange(1, i + 1).drop_last() =~= ldv.subrange(1, i as int));
            assert(ldv.subrange(1, i + 1).last() == ldv[i as int]);
        }
        let lv = chars_of(lines[i].as_str());
        proof {
            assert(lv@ == ldv[i as int]);
        }
        let fields = split_all(&lv, sep);
        let nf = fields.len();
        let ghost fdv = fields.deep_view();
        let mut cells: Vec<CellValue> = Vec::new();
        let mut q: usize = 0;
        proof {
            assert(cells.deep_view() =~= fdv.take(0).map_values(
                |f: Seq<char>| spec_infer_cell(spec_unescape(f, sep)),
            ));
        }
        while q < nf
            invariant
                q <= nf,
                nf == fdv.len(),
                cells.deep_view() == fdv.take(q as int).map_values(
                    |f: Seq<char>| spec_infer_cell(spec_unescape(f, sep)),
                ),
            decreases nf - q,
        {
            let ghost cdv = cells.deep_view();
            let uf = unescape_field(fields[q].as_str(), sep);
            cells.push(infer_cell(uf.as_str()));
            q = q + 1;
            proof {
                assert(cells.deep_view() =~= cdv.push(
                    spec_infer_cell(spec_unescape(fdv[q - 1], sep)),
                ));
                assert(fdv.take(q as int).map_values(
                    |f: Seq<char>| spec_infer_cell(spec_unescape(f, sep)),
                ) =~= fdv.take(q - 1).map_values(
                    |f: Seq<char>| spec_infer_cell(spec_unescape(f, sep)),
                ).push(spec_infer_cell(spec_unescape(fdv[q - 1], sep))));
            }
        }
        proof {
            assert(fdv.take(nf as int) =~= fdv);
        }
        let fitted = fit_row(cells, w);
        proof {
            assert(fitted.deep_view() =~= spec_parse_line(ldv[i as int], sep, w as int));
        }
        let ghost rdv = rows.deep_view();
        let ghost fv = fitted.deep_view();
        rows.push(fitted);
        i = i + 1;
        proof {
            assert(rows.deep_view() =~= rdv.push(fv));
            assert(ldv.subrange(1, i as int).map_values(
                |l: Seq<char>| spec_parse_line(l, sep, w as int),
            ) =~= ldv.subrange(1, i - 1).map_values(
                |l: Seq<char>| spec_parse_line(l, sep, w as int),
            ).push(spec_parse_line(ldv[i - 1], sep, w as int)));
        }
    }
    proof {
        assert(ldv.subrange(1, nl as int) =~= ldv.subrange(1, ldv.len() as int));
        assert(rows.deep_view() =~= spec_parse_rows(text@, sep));
    }
    Table { names, rows }
}


pub proof fn lemma_first_pos_none(s: Seq<char>, lo: int, hi: int, c: char)
    requires
        0 <= lo <= hi <= s.len(),
        forall|i: int| lo <= i < hi ==> #[trigger] s[i] != c,
    ensures
        spec_first_pos(s, lo, hi, c, c) == -1,
    decreases hi - lo,
{
    if lo < hi {
        lemma_first_pos_none(s, lo + 1, hi, c);
    }
}

pub proof fn lemma_first_pos_at(s: Seq<char>, lo: int, hi: int, c: char, k: int)
    requires
        0 <= lo <= k < hi <= s.len(),
        s[k] == c,
        forall|i: int| lo <= i < k ==> #[trigger] s[i] != c,
    ensures
        spec_first_pos(s, lo, hi, c, c) == k,
    decreases k - lo,
{
    if lo < k {
        lemma_first_pos_at(s, lo + 1, hi, c, k);
    }
}

pub proof fn lemma_first_pos_skip(s: Seq<char>, lo: int, hi: int, c: char, k: int)
    requires
        0 <= k <= lo <= hi <= s.len(),
    ensures
        ({
            let fp = spec_first_pos(s, lo, hi, c, c);
            let fp2 = spec_first_pos(s.skip(k), lo - k, hi - k, c, c);
            fp == if fp2 == -1 {
                -1int
            } else {
                fp2 + k
            }
        }),
    decreases hi - lo,
{
    if lo < hi {
        assert(s.skip(k)[lo - k] == s[lo]);
        if s[lo] != c {
            lemma_first_pos_skip(s, lo + 1, hi, c, k);
        }
    }
}

pub proof fn lemma_split_suffix(s: Seq<char>, lo: int, c: char)
    requires
        0 <= lo <= s.len(),
    ensures
        spec_split_from(s, lo, c) == spec_split_from(s.skip(lo), 0, c),
    decreases s.len() - lo,
{
    let s2 = s.skip(lo);
    lemma_first_pos_range(s, lo, s.len() as int, c, c);
    lemma_first_pos_range(s2, 0, s2.len() as int, c, c);
    lemma_first_pos_skip(s, lo, s.len() as int, c, lo);
    let d = spec_first_pos(s, lo, s.len() as int, c, c);
    if d == -1 {
        assert(s.subrange(lo, s.len() as int) =~= s2.subrange(0, s2.len() as int));
        assert(spec_split_from(s, lo, c) =~= spec_split_from(s2, 0, c));
    } else {
        let d2 = d - lo;
        assert(s.subrange(lo, d) =~= s2.subrange(0, d2));
        lemma_split_suffix(s, d + 1, c);
        lemma_split_suffix(s2, d2 + 1, c);
        assert(s.skip(d + 1) =~= s2.skip(d2 + 1));
        assert(spec_split_from(s, lo, c) =~= spec_split_from(s2, 0, c));
    }
}

pub proof fn lemma_join_front(ps: Seq<Seq<char>>, c: char)
    requires
        ps.len() >= 2,
    ensures
        spec_join(ps, c) == ps[0] + seq![c] + spec_join(ps.drop_first(), c),
    decreases ps.len(),
{
    if ps.len() == 2 {
        assert(ps.drop_last() =~= seq![ps[0]]);
        assert(ps.drop_first() =~= seq![ps[1]]);
        assert(spec_join(ps, c) =~= ps[0] + seq![c] + spec_join(ps.drop_first(), c));
    } else {
        lemma_join_front(ps.drop_last(), c);
        let a = ps[0];
        let x = spec_join(ps.drop_first().drop_last(), c);
        let y = ps.drop_first().last();
        assert(ps.drop_last()[0] == a);
        assert(ps.drop_last().drop_first() =~= ps.drop_first().drop_last());
        assert(y == ps.last());
        assert(spec_join(ps.drop_last(), c) == a + seq![c] + x);
        assert(spec_join(ps, c) == (a + seq![c] + x) + seq![c] + y);
        assert(ps.drop_first().len() >= 2);
        assert(spec_join(ps.drop_first(), c) == x + seq![c] + y);
        assert((a + seq![c] + x) + seq![c] + y =~= a + seq![c] + (x + seq![c] + y));
        assert(spec_join(ps, c) =~= a + seq![c] + spec_join(ps.drop_first(), c));
    }
}

pub proof fn lemma_join_clean(ps: Seq<Seq<char>>, c: char, d: char)
    requires
        c != d,
        forall|p: int, i: int|
            0 <= p < ps.len() && 0 <= i < ps[p].len() ==> #[trigger] ps[p][i] != d,
    ensures
        forall|i: int| 0 <= i < spec_join(ps, c).len() ==> #[trigger] spec_join(ps, c)[i] != d,
    decreases ps.len(),
{
    if ps.len() >= 2 {
        lemma_join_clean(ps.drop_last(), c, d);
        assert forall|i: int| 0 <= i < spec_join(ps, c).len() implies #[trigger] spec_join(
            ps,
            c,
        )[i] != d by {
            let pre = spec_join(ps.drop_last(), c);
            if i < pre.len() {
                assert(spec_join(ps, c)[i] == pre[i]);
            } else if i == pre.len() {
                assert(spec_join(ps, c)[i] == c);
            } else {
                assert(spec_join(ps, c)[i] == ps.last()[i - pre.len() - 1]);
                assert(ps[ps.len() - 1][i - pre.len() - 1] != d);
            }
        }
    } else if ps.len() == 1 {
        assert forall|i: int| 0 <= i < spec_join(ps, c).len() implies #[trigger] spec_join(
            ps,
            c,
        )[i] != d by {
            assert(spec_join(ps, c)[i] == ps[0][i]);
        }
    }
}

/// Splitting a join of clean pieces gives the pieces back.
pub proof fn lemma_split_join(ps: Seq<Seq<char>>, c: char)
    requires
        ps.len() >= 1,
        forall|p: int, i: int|
            0 <= p < ps.len() && 0 <= i < ps[p].len() ==> #[trigger] ps[p][i] != c,
    ensures
        spec_split_from(spec_join(ps, c), 0, c) == ps,
    decreases ps.len(),
{
    let s = spec_join(ps, c);
    if ps.len() == 1 {
        assert forall|i: int| 0 <= i < s.len() implies #[trigger] s[i] != c by {
            assert(s[i] == ps[0][i]);
        }
        lemma_first_pos_none(s, 0, s.len() as int, c);
        assert(s.subrange(0, s.len() as int) =~= ps[0]);
        assert(spec_split_from(s, 0, c) =~= ps);
    } else {
        lemma_join_front(ps, c);
        let k = ps[0].len() as int;
        let rest = spec_join(ps.drop_first(), c);
        assert(s =~= ps[0] + seq![c] + rest);
        assert(s[k] == c);
        assert forall|i: int| 0 <= i < k implies #[trigger] s[i] != c by {
            assert(s[i] == ps[0][i]);
        }
        lemma_first_pos_at(s, 0, s.len() as int, c, k);
        assert(s.subrange(0, k) =~= ps[0]);
        lemma_split_suffix(s, k + 1, c);
        assert(s.skip(k + 1) =~= rest);
        assert forall|p: int, i: int|
            0 <= p < ps.drop_first().len() && 0 <= i < ps.drop_first()[p].len()
            implies #[trigger] ps.drop_first()[p][i] != c by {
            assert(ps.drop_first()[p] == ps[p + 1]);
            assert(ps[p + 1][i] != c);
        }
        lemma_split_join(ps.drop_first(), c);
        assert(spec_split_from(s, 0, c) =~= seq![ps[0]] + ps.drop_first());
        assert(seq![ps[0]] + ps.drop_first() =~= ps);
    }
}

pub proof fn lemma_render_rows_join(rows: Seq<Seq<SpecValue>>, sep: char)
    requires
        rows.len() >= 1,
    ensures
        spec_render_rows(rows, sep) == spec_join(
            rows.map_values(|r: Seq<SpecValue>| spec_render_row(r, sep)),
            '\n',
        ) + seq!['\n'],
    decreases rows.len(),
{
    let m = rows.map_values(|r: Seq<SpecValue>| spec_render_row(r, sep));
    if rows.len() == 1 {
        assert(m =~= seq![spec_render_row(rows[0], sep)]);
        assert(spec_render_rows(rows, sep) =~= spec_join(m, '\n') + seq!['\n']);
    } else {
        lemma_render_rows_join(rows.drop_last(), sep);
        let md = m.drop_last();
        assert(rows.drop_last().map_values(|r: Seq<SpecValue>| spec_render_row(r, sep)) =~= md);
        assert(m.last() == spec_render_row(rows.last(), sep));
        assert(spec_render_rows(rows.drop_last(), sep) == spec_join(md, '\n') + seq!['\n']);
        assert(spec_render_rows(rows, sep) == (spec_join(md, '\n') + seq!['\n'])
            + spec_render_row(rows.last(), sep) + seq!['\n']);
        assert(m.len() >= 2);
        assert(spec_join(m, '\n') == spec_join(md, '\n') + seq!['\n'] + m.last());
        assert((spec_join(md, '\n') + seq!['\n']) + spec_render_row(rows.last(), sep)
            + seq!['\n'] =~= (spec_join(md, '\n') + seq!['\n'] + m.last()) + seq!['\n']);
        assert(spec_render_rows(rows, sep) =~= spec_join(m, '\n') + seq!['\n']);
    }
}

pub proof fn lemma_fit_len(cells: Seq<SpecValue>, w: int)
    requires
        w >= 0,
    ensures
        spec_fit(cells, w).len() == w,
{
}

/// The shape round trip: rendering any table and parsing the text back
/// yields the same column names and the same number of rows, each parsed
/// row as wide as the header — with no condition on the data, since the
/// escaping makes every name and cell text render unambiguously. The
/// cells themselves may come back retyped, digits re-read as numbers,
/// which is why only the shape and the names are claimed. The separator
/// must lie outside the escape alphabet (so not the backslash, a line
/// break, or the letters the codes use), and a delimited header always
/// names at least one column.
pub proof fn lemma_round_trip_shape(names: Seq<Seq<char>>, rows: Seq<Seq<SpecValue>>, sep: char)
    requires
        sep != '\n',
        sep != '\\',
        sep != 'n',
        sep != 'd',
        names.len() >= 1,
    ensures
        spec_parse_names(spec_render_table(names, rows, sep), sep) == names,
        spec_parse_rows(spec_render_table(names, rows, sep), sep).len() == rows.len(),
        forall|r: int|
            0 <= r < rows.len() ==> (#[trigger] spec_parse_rows(
                spec_render_table(names, rows, sep),
                sep,
            )[r]).len() == names.len(),
{
    let text = spec_render_table(names, rows, sep);
    let en = names.map_values(|x: Seq<char>| spec_escape(x, sep));
    let nl = spec_join(en, sep);
    let m = rows.map_values(|r: Seq<SpecValue>| spec_render_row(r, sep));
    let pieces = seq![nl] + m + seq![Seq::<char>::empty()];
    // the rendered text is the line pieces joined by line breaks
    if rows.len() == 0 {
        assert(m =~= Seq::<Seq<char>>::empty());
        assert(pieces =~= seq![nl, Seq::<char>::empty()]);
        assert(pieces.drop_last() =~= seq![nl]);
        assert(spec_join(pieces, '\n') =~= nl + seq!['\n']);
        assert(text =~= spec_join(pieces, '\n'));
    } else {
        lemma_render_rows_join(rows, sep);
        assert(pieces.drop_last() =~= seq![nl] + m);
        lemma_join_front(seq![nl] + m, '\n');
        assert((seq![nl] + m)[0] == nl);
        assert((seq![nl] + m).drop_first() =~= m);
        assert(spec_join(pieces, '\n') == spec_join(seq![nl] + m, '\n') + seq!['\n']
            + Seq::<char>::empty());
        assert(spec_join(pieces, '\n') =~= nl + seq!['\n'] + spec_join(m, '\n')
            + seq!['\n']);
        assert(text =~= spec_join(pieces, '\n'));
    }
    // every line piece is clean of line breaks, escaping having removed them
    assert forall|p: int, i: int|
        0 <= p < en.len() && 0 <= i < en[p].len() implies #[trigger] en[p][i] != '\n'
        && en[p][i] != sep by {
        assert(en[p] == spec_escape(names[p], sep));
        lemma_escape_clean(names[p], sep);
    }
    lemma_join_clean(en, sep, '\n');
    assert forall|p: int, i: int|
        0 <= p < pieces.len() && 0 <= i < pieces[p].len() implies #[trigger] pieces[p][i]
        != '\n' by {
        if p == 0 {
            assert(pieces[p] == nl);
        } else if p < 1 + m.len() {
            let r = p - 1;
            assert(pieces[p] == spec_render_row(rows[r], sep));
            let target = rows[r].map_values(
                |v: SpecValue| spec_escape(spec_cell_text(v), sep),
            );
            assert forall|q: int, u: int|
                0 <= q < target.len() && 0 <= u < target[q].len() implies #[trigger] target[q][u]
                != '\n' by {
                assert(target[q] == spec_escape(spec_cell_text(rows[r][q]), sep));
                lemma_escape_clean(spec_cell_text(rows[r][q]), sep);
            }
            lemma_join_clean(target, sep, '\n');
        }
    }
    lemma_split_join(pieces, '\n');
    let lines0 = spec_split_from(text, 0, '\n');
    assert(lines0 == pieces);
    // the final empty piece falls away, leaving the header and the rows
    assert(lines0.len() == rows.len() + 2);
    assert(lines0.last() == Seq::<char>::empty());
    let cut = spec_lines(text);
    assert(cut =~= seq![nl] + m);
    // the header line splits back into the escaped names, which unescape
    lemma_split_join(en, sep);
    assert(lines0[0] == nl);
    assert(spec_split_from(cut[0], 0, sep) == en) by {
        assert(cut[0] == nl);
    }
    assert(spec_parse_names(text, sep) =~= names) by {
        assert forall|j: int| 0 <= j < en.len() implies spec_unescape(#[trigger] en[j], sep)
            == names[j] by {
            assert(en[j] == spec_escape(names[j], sep));
            lemma_unescape_escape(names[j], sep);
        }
    }
    // the later lines are exactly the rendered rows
    assert(cut.subrange(1, cut.len() as int) =~= m);
    assert(spec_parse_rows(text, sep).len() == rows.len());
    assert forall|r: int| 0 <= r < rows.len() implies (#[trigger] spec_parse_rows(text, sep)[r]).len()
        == names.len() by {
        assert(spec_parse_rows(text, sep)[r] == spec_parse_line(
            m[r],
            sep,
            spec_parse_names(text, sep).len() as int,
        ));
        lemma_fit_len(
            spec_split_from(m[r], 0, sep).map_values(
                |f: Seq<char>| spec_infer_cell(spec_unescape(f, sep)),
            ),
            names.len() as int,
        );
    }
}

} // verus!
