//! File-format resolution from the extension chain, the shape-count strategy
//! each format allows, and the output-routing decision table.

use vstd::prelude::*;
use crate::error::ToolError;

verus! {

/// The supported tabular formats. `txt` resolves to `Csv`; `pq` to `Parquet`;
/// `ndjson` to `Jsonl`.
#[derive(Debug, Clone, Copy, PartialEq, Eq, Structural)]
pub enum FileFormat {
    Csv,
    Tsv,
    Parquet,
    Json,
    Jsonl,
}

/// A recognized compression wrapper around the format extension.
#[derive(Debug, Clone, Copy, PartialEq, Eq, Structural)]
pub enum Compression {
    Plain,
    Gzip,
    Zstd,
}

/// How a row/column count can be obtained without transformations.
#[derive(Debug, Clone, Copy, PartialEq, Eq, Structural)]
pub enum CountStrategy {
    /// Row-oriented delimited text: the schema comes from the header, but the
    /// rows must be scanned since no row-count metadata exists.
    DelimitedScan,
    /// Columnar binary: both counts come from metadata without reading rows.
    ColumnarMetadata,
    /// Line-delimited structured records: full eager parsing is required.
    EagerParse,
}

/// Whether a result can be streamed to a destination or must be fully
/// materialized first.
#[derive(Debug, Clone, Copy, PartialEq, Eq, Structural)]
pub enum WriteMode {
    Stream,
    Materialize,
}

/// Position of the last occurrence of `c` within `s[lo..hi]`, or `-1`.
pub open spec fn spec_last_pos(s: Seq<char>, lo: int, hi: int, c: char) -> int
    decreases hi - lo,
{
    if lo >= hi {
        -1
    } else if s[hi - 1] == c {
        hi - 1
    } else {
        spec_last_pos(s, lo, hi - 1, c)
    }
}

/// The format a bare extension names, if any.
pub open spec fn spec_format_of(e: Seq<char>) -> Option<FileFormat> {
    if e == "csv"@ || e == "txt"@ {
        Some(FileFormat::Csv)
    } else if e == "tsv"@ {
        Some(FileFormat::Tsv)
    } else if e == "parquet"@ || e == "pq"@ {
        Some(FileFormat::Parquet)
    } else if e == "json"@ {
        Some(FileFormat::Json)
    } else if e == "jsonl"@ || e == "ndjson"@ {
        Some(FileFormat::Jsonl)
    } else {
        None
    }
}

/// Start of the file name within a path: one past the last `/`.
pub open spec fn spec_name_start(p: Seq<char>) -> int {
    spec_last_pos(p, 0, p.len() as int, '/') + 1
}

/// The extension of the segment `p[lo..hi]`: the part after its last dot,
/// provided that dot is neither absent nor leading.
pub open spec fn spec_ext_dot(p: Seq<char>, lo: int, hi: int) -> int {
    spec_last_pos(p, lo, hi, '.')
}

/// Whether `p[lo..hi]` has an extension at all.
pub open spec fn spec_has_ext(p: Seq<char>, lo: int, hi: int) -> bool {
    spec_ext_dot(p, lo, hi) > lo
}

/// The format and compression a whole input path resolves to, if any:
/// the last extension, looking inside one recognized compression suffix.
pub open spec fn spec_detect(p: Seq<char>) -> Option<(FileFormat, Compression)> {
    let lo = spec_name_start(p);
    let hi = p.len() as int;
    if !spec_has_ext(p, lo, hi) {
        None
    } else {
        let d1 = spec_ext_dot(p, lo, hi);
        let e1 = p.subrange(d1 + 1, hi);
        if e1 == "gz"@ || e1 == "zst"@ {
            let comp = if e1 == "gz"@ {
                Compression::Gzip
            } else {
                Compression::Zstd
            };
            if !spec_has_ext(p, lo, d1) {
                None
            } else {
                let d2 = spec_ext_dot(p, lo, d1);
                match spec_format_of(p.subrange(d2 + 1, d1)) {
                    Some(f) => Some((f, comp)),
                    None => None,
                }
            }
        } else {
            match spec_format_of(e1) {
                Some(f) => Some((f, Compression::Plain)),
                None => None,
            }
        }
    }
}

/// The format an output path resolves to, if any: its bare last extension,
/// with no compression suffix recognized.
pub open spec fn spec_detect_output(p: Seq<char>) -> Option<FileFormat> {
    let lo = spec_name_start(p);
    let hi = p.len() as int;
    if !spec_has_ext(p, lo, hi) {
        None
    } else {
        spec_format_of(p.subrange(spec_ext_dot(p, lo, hi) + 1, hi))
    }
}

/// The characters of `s`, as a vector.
pub fn chars_of(s: &str) -> (r: Vec<char>)
    ensures
        r@ == s@,
{
    let n = s.unicode_len();
    let mut r: Vec<char> = Vec::new();
    let mut i: usize = 0;
    while i < n
        invariant
            n == s@.len(),
            i <= n,
            r@ == s@.take(i as int),
        decreases n - i,
    {
        r.push(s.get_char(i));
        i = i + 1;
        proof {
            assert(s@.take(i as int) =~= s@.take(i - 1).push(s@[i - 1]));
        }
    }
    proof {
        assert(s@.take(n as int) =~= s@);
    }
    r
}

/// Last occurrence of `c` within `v[lo..hi]`, if any.
fn last_pos_in(v: &Vec<char>, lo: usize, hi: usize, c: char) -> (r: Option<usize>)
    requires
        lo <= hi <= v@.len(),
    ensures
        match r {
            Some(p) => lo <= p < hi && p == spec_last_pos(v@, lo as int, hi as int, c),
            None => spec_last_pos(v@, lo as int, hi as int, c) == -1,
        },
{
    let mut j: usize = hi;
    while j > lo
        invariant
            lo <= j <= hi <= v@.len(),
            spec_last_pos(v@, lo as int, hi as int, c) == spec_last_pos(
                v@,
                lo as int,
                j as int,
                c,
            ),
        decreases j,
    {
        if v[j - 1] == c {
            return Some(j - 1);
        }
        j = j - 1;
    }
    None
}

/// Whether `v[lo..hi]` holds exactly the characters of `lit`.
fn segment_is(v: &Vec<char>, lo: usize, hi: usize, lit: &str) -> (r: bool)
    requires
        lo <= hi <= v@.len(),
    ensures
        r == (v@.subrange(lo as int, hi as int) == lit@),
{
    let n = lit.unicode_len();
    if hi - lo != n {
        proof {
            assert(v@.subrange(lo as int, hi as int).len() != lit@.len());
        }
        return false;
    }
    let mut i: usize = 0;
    while i < n
        invariant
            lo <= hi <= v@.len(),
            n == lit@.len(),
            hi - lo == n,
            i <= n,
            forall|k: int| 0 <= k < i ==> v@[lo + k] == lit@[k],
        decreases n - i,
    {
        if lit.get_char(i) != v[lo + i] {
            proof {
                assert(v@.subrange(lo as int, hi as int)[i as int] != lit@[i as int]);
            }
            return false;
        }
        i = i + 1;
    }
    proof {
        assert(v@.subrange(lo as int, hi as int) =~= lit@);
    }
    true
}

/// The format named by `v[lo..hi]` as a bare extension.
fn format_of_segment(v: &Vec<char>, lo: usize, hi: usize) -> (r: Option<FileFormat>)
    requires
        lo <= hi <= v@.len(),
    ensures
        r == spec_format_of(v@.subrange(lo as int, hi as int)),
{
    if segment_is(v, lo, hi, "csv") || segment_is(v, lo, hi, "txt") {
        Some(FileFormat::Csv)
    } else if segment_is(v, lo, hi, "tsv") {
        Some(FileFormat::Tsv)
    } else if segment_is(v, lo, hi, "parquet") || segment_is(v, lo, hi, "pq") {
        Some(FileFormat::Parquet)
    } else if segment_is(v, lo, hi, "json") {
        Some(FileFormat::Json)
    } else if segment_is(v, lo, hi, "jsonl") || segment_is(v, lo, hi, "ndjson") {
        Some(FileFormat::Jsonl)
    } else {
        None
    }
}

/// Resolve an input path to its format and compression wrapper, by the last
/// extension and, under a recognized compression suffix, the one inside it.
pub fn detect_format(path: &str) -> (r: Result<(FileFormat, Compression), ToolError>)
    ensures
        match r {
            Ok(fc) => spec_detect(path@) == Some(fc),
            Err(e) => spec_detect(path@) is None && (e matches ToolError::FormatError { path: p }
                && p@ == path@),
        },
{
    let v = chars_of(path);
    let n = v.len();
    let lo = match last_pos_in(&v, 0, n, '/') {
        Some(p) => p + 1,
        None => 0,
    };
    let refused = ToolError::FormatError { path: path.to_owned() };
    let d1 = match last_pos_in(&v, lo, n, '.') {
        Some(p) => p,
        None => {
            return Err(refused);
        },
    };
    if d1 <= lo {
        return Err(refused);
    }
    let gz = segment_is(&v, d1 + 1, n, "gz");
    let zst = segment_is(&v, d1 + 1, n, "zst");
    if gz || zst {
        let comp = if gz {
            Compression::Gzip
        } else {
            Compression::Zstd
        };
        let d2 = match last_pos_in(&v, lo, d1, '.') {
            Some(p) => p,
            None => {
                return Err(refused);
            },
        };
        if d2 <= lo {
            return Err(refused);
        }
        match format_of_segment(&v, d2 + 1, d1) {
            Some(f) => Ok((f, comp)),
            None => Err(refused),
        }
    } else {
        match format_of_segment(&v, d1 + 1, n) {
            Some(f) => Ok((f, Compression::Plain)),
            None => Err(refused),
        }
    }
}

/// Resolve an output path to its format by its bare last extension.
pub fn detect_output_format(path: &str) -> (r: Result<FileFormat, ToolError>)
    ensures
        match r {
            Ok(f) => spec_detect_output(path@) == Some(f),
            Err(e) => spec_detect_output(path@) is None && (e matches ToolError::FormatError {
                path: p,
            } && p@ == path@),
        },
{
    let v = chars_of(path);
    let n = v.len();
    let lo = match last_pos_in(&v, 0, n, '/') {
        Some(p) => p + 1,
        None => 0,
    };
    let refused = ToolError::FormatError { path: path.to_owned() };
    let d1 = match last_pos_in(&v, lo, n, '.') {
        Some(p) => p,
        None => {
            return Err(refused);
        },
    };
    if d1 <= lo {
        return Err(refused);
    }
    match format_of_segment(&v, d1 + 1, n) {
        Some(f) => Ok(f),
        None => Err(refused),
    }
}

/// The field separator of a row-oriented text format.
pub fn separator(f: FileFormat) -> (r: u8)
    requires
        f == FileFormat::Csv || f == FileFormat::Tsv,
    ensures
        f == FileFormat::Csv ==> r == 44,
        f == FileFormat::Tsv ==> r == 9,
{
    match f {
        FileFormat::Tsv => 9,
        _ => 44,
    }
}

/// The fastest shape-count path each format allows when no transformation was
/// requested.
pub fn count_strategy(f: FileFormat) -> (r: CountStrategy)
    ensures
        r == match f {
            FileFormat::Csv | FileFormat::Tsv => CountStrategy::DelimitedScan,
            FileFormat::Parquet => CountStrategy::ColumnarMetadata,
            FileFormat::Json | FileFormat::Jsonl => CountStrategy::EagerParse,
        },
{
    match f {
        FileFormat::Csv | FileFormat::Tsv => CountStrategy::DelimitedScan,
        FileFormat::Parquet => CountStrategy::ColumnarMetadata,
        FileFormat::Json | FileFormat::Jsonl => CountStrategy::EagerParse,
    }
}

/// Whether a target format can be written by a direct streamed sink.
pub open spec fn spec_streamable(f: FileFormat) -> bool {
    f == FileFormat::Parquet || f == FileFormat::Csv
}

/// The output-routing decision: a sample is always materialized before
/// writing; otherwise the target format decides whether the result streams
/// straight to the destination or is collected first.
pub fn route_output(f: FileFormat, is_sample: bool) -> (r: WriteMode)
    ensures
        r == (if !is_sample && spec_streamable(f) {
            WriteMode::Stream
        } else {
            WriteMode::Materialize
        }),
{
    if is_sample {
        WriteMode::Materialize
    } else {
        match f {
            FileFormat::Parquet | FileFormat::Csv => WriteMode::Stream,
            _ => WriteMode::Materialize,
        }
    }
}

} // verus!
