//! The commands and the small decisions around them: which command a word
//! names, and how a head or tail count argument becomes a limit or a
//! negative offset.

use vstd::prelude::*;
use crate::args::{parse_count, spec_is_count_literal, spec_count_body, spec_digits_val};
use crate::error::ToolError;
use crate::table::str_eq;

verus! {

/// The commands the tool answers to.
#[derive(Debug, Clone, Copy, PartialEq, Eq, Structural)]
pub enum Command {
    Cat,
    Head,
    Tail,
    Sample,
    Stats,
    Count,
    Lint,
}

/// The command a word names, if any.
pub open spec fn spec_command_of(s: Seq<char>) -> Option<Command> {
    if s == "cat"@ {
        Some(Command::Cat)
    } else if s == "head"@ {
        Some(Command::Head)
    } else if s == "tail"@ {
        Some(Command::Tail)
    } else if s == "sample"@ {
        Some(Command::Sample)
    } else if s == "stats"@ {
        Some(Command::Stats)
    } else if s == "count"@ {
        Some(Command::Count)
    } else if s == "lint"@ {
        Some(Command::Lint)
    } else {
        None
    }
}

/// Recognize a command word.
pub fn parse_command(s: &str) -> (r: Option<Command>)
    ensures
        r == spec_command_of(s@),
{
    if str_eq(s, "cat") {
        Some(Command::Cat)
    } else if str_eq(s, "head") {
        Some(Command::Head)
    } else if str_eq(s, "tail") {
        Some(Command::Tail)
    } else if str_eq(s, "sample") {
        Some(Command::Sample)
    } else if str_eq(s, "stats") {
        Some(Command::Stats)
    } else if str_eq(s, "count") {
        Some(Command::Count)
    } else if str_eq(s, "lint") {
        Some(Command::Lint)
    } else {
        None
    }
}

/// The count a head or tail argument names: the parsed argument, or ten
/// when none was given.
pub open spec fn spec_head_n(n: Option<Seq<char>>) -> int {
    match n {
        Some(s) => spec_digits_val(s, spec_count_body(s), s.len() as int),
        None => 10,
    }
}

/// Whether a head or tail argument parses.
pub open spec fn spec_head_n_ok(n: Option<Seq<char>>) -> bool {
    match n {
        Some(s) => spec_is_count_literal(s) && spec_digits_val(
            s,
            spec_count_body(s),
            s.len() as int,
        ) <= usize::MAX,
        None => true,
    }
}

/// The limit a head command runs with: the existing limit if one was given,
/// else the count argument, else ten. A count that does not parse is a
/// `ParseError` carrying it, whether or not a limit already stands.
pub fn head_limit(existing: Option<usize>, n: &Option<String>) -> (r: Result<
    Option<usize>,
    ToolError,
>)
    ensures
        match r {
            Ok(l) => {
                &&& spec_head_n_ok(match n {
                    Some(s) => Some(s@),
                    None => None,
                })
                &&& l == (if existing is Some {
                    existing
                } else {
                    Some(spec_head_n(
                        match n {
                            Some(s) => Some(s@),
                            None => None,
                        },
                    ) as usize)
                })
            },
            Err(e) => {
                &&& !spec_head_n_ok(match n {
                    Some(s) => Some(s@),
                    None => None,
                })
                &&& (e matches ToolError::ParseError { argument } && n matches Some(s)
                    && argument@ == s@)
            },
        },
{
    let v: usize = match n {
        Some(s) => match parse_count(s.as_str()) {
            Ok(v) => v,
            Err(e) => {
                return Err(e);
            },
        },
        None => 10,
    };
    match existing {
        Some(l) => Ok(Some(l)),
        None => Ok(Some(v)),
    }
}

/// The offset a tail command runs with: the existing offset if one was
/// given, else the count argument negated, counting from the end. A count
/// that does not parse, or that cannot be negated in a signed offset, is a
/// `ParseError`.
pub fn tail_offset(existing: Option<i64>, n: &Option<String>) -> (r: Result<
    Option<i64>,
    ToolError,
>)
    ensures
        match r {
            Ok(o) => {
                &&& spec_head_n_ok(match n {
                    Some(s) => Some(s@),
                    None => None,
                })
                &&& spec_head_n(
                    match n {
                        Some(s) => Some(s@),
                        None => None,
                    },
                ) <= i64::MAX
                &&& o == (if existing is Some {
                    existing
                } else {
                    Some((-spec_head_n(
                        match n {
                            Some(s) => Some(s@),
                            None => None,
                        },
                    )) as i64)
                })
            },
            Err(e) => {
                &&& (!spec_head_n_ok(match n {
                    Some(s) => Some(s@),
                    None => None,
                }) || spec_head_n(
                    match n {
                        Some(s) => Some(s@),
                        None => None,
                    },
                ) > i64::MAX)
                &&& (e matches ToolError::ParseError { argument } && (n matches Some(s)
                    && argument@ == s@))
            },
        },
{
    let v: usize = match n {
        Some(s) => match parse_count(s.as_str()) {
            Ok(v) => v,
            Err(e) => {
                return Err(e);
            },
        },
        None => 10,
    };
    if (v as u64) > (i64::MAX as u64) {
        match n {
            Some(s) => {
                return Err(ToolError::ParseError { argument: s.clone() });
            },
            None => {
                proof {
                    assert(false);
                }
                return Err(ToolError::ParseError { argument: String::new() });
            },
        }
    }
    match existing {
        Some(o) => Ok(Some(o)),
        None => Ok(Some(-(v as i64))),
    }
}

} // verus!
