//! `init`: choosing a project and writing the repository configuration.
use vstd::prelude::*;
use vstd::string::*;
use crate::text::{chars_of, trim, trim_bounds, parsed_usize, parse_usize_range};

verus! {

/// Why a typed selection was refused.
#[derive(Debug)]
pub enum SelectionError {
    /// Not a number.
    Invalid,
    /// Not one of the listed projects.
    OutOfRange,
}

/// The position in the list that a typed answer selects: the answer is
/// trimmed and read as a number from 1 to `count`.
pub fn parse_selection(input: &str, count: usize) -> (r: Result<usize, SelectionError>)
    ensures
        match parsed_usize(trim(input@)) {
            None => r matches Err(SelectionError::Invalid),
            Some(c) => if 1 <= c <= count {
                r == Ok::<usize, SelectionError>((c - 1) as usize)
            } else {
                r matches Err(SelectionError::OutOfRange)
            },
        },
{
    let cs = chars_of(input);
    let (a, b) = trim_bounds(&cs, 0, cs.len());
    assert(cs@.subrange(0, cs@.len() as int) =~= input@);
    match parse_usize_range(&cs, a, b) {
        None => Err(SelectionError::Invalid),
        Some(c) => {
            if c < 1 || c > count {
                Err(SelectionError::OutOfRange)
            } else {
                Ok(c - 1)
            }
        },
    }
}

/// The environment a typed answer names: the trimmed answer, or `dev` when empty.
pub fn chosen_env(input: &str) -> (r: String)
    ensures
        r@ == (if trim(input@).len() == 0 { "dev"@ } else { trim(input@) }),
{
    let cs = chars_of(input);
    let (a, b) = trim_bounds(&cs, 0, cs.len());
    assert(cs@.subrange(0, cs@.len() as int) =~= input@);
    if a == b {
        String::from_str("dev")
    } else {
        String::from_str(input.substring_char(a, b))
    }
}

/// The text of the `casier.yml` that `init` writes.
pub open spec fn project_config_text(slug: Seq<char>, env: Seq<char>) -> Seq<char> {
    "project:\n  slug: "@ + slug + "\n  environment: "@ + env + "\n"@
}

pub fn project_config_yaml(slug: &str, env: &str) -> (r: String)
    ensures
        r@ == project_config_text(slug@, env@),
{
    let mut out = String::from_str("project:\n  slug: ");
    out.append(slug);
    out.append("\n  environment: ");
    out.append(env);
    out.append("\n");
    out
}

} // verus!
