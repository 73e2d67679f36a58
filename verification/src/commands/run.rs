//! `run`: where the environment of the child process comes from, and the exit
//! code it hands back.
use vstd::prelude::*;
use vstd::string::*;

verus! {

/// Why `run` refuses to start.
pub open spec fn no_command_text() -> Seq<char> {
    "No command provided. Usage: casier run -s <project> -e <env> -- <command...>"@
}

/// `run` needs a command to start: an empty one is refused.
pub fn check_command(command: &[String]) -> (r: Result<(), String>)
    ensures
        match r {
            Ok(()) => command@.len() > 0,
            Err(m) => command@.len() == 0 && m@ == no_command_text(),
        },
{
    if command.len() == 0 {
        Err(String::from_str("No command provided. Usage: casier run -s <project> -e <env> -- <command...>"))
    } else {
        Ok(())
    }
}

/// How reading the secrets from the server went.
pub enum FetchOutcome {
    /// The values came back.
    Fetched,
    /// The server answered, but without values.
    MissingValues,
    /// The server could not be read (not reached, refused, not signed in).
    Unreachable,
}

/// What to do next.
pub enum NextStep {
    /// Use the values just read, and cache them.
    UseFetched,
    /// Fall back to the cached copy, if there is one.
    TryCache,
    /// Stop with the error.
    Fail,
}

/// After a fetch: fresh values are used; a server that answered without values
/// was reached perfectly well, so running against a stale cache would hide the
/// very problem, and it fails; only an unreachable server falls back to the cache.
pub fn after_fetch(outcome: &FetchOutcome) -> (r: NextStep)
    ensures
        match outcome {
            FetchOutcome::Fetched => r is UseFetched,
            FetchOutcome::MissingValues => r is Fail,
            FetchOutcome::Unreachable => r is TryCache,
        },
{
    match outcome {
        FetchOutcome::Fetched => NextStep::UseFetched,
        FetchOutcome::MissingValues => NextStep::Fail,
        FetchOutcome::Unreachable => NextStep::TryCache,
    }
}

/// The exit code `run` passes on: the child's code clamped to 0..=255, or 1
/// when the child has none (it was killed by a signal).
pub open spec fn passed_exit_code(code: Option<i32>) -> int {
    let c = match code {
        Some(c) => c as int,
        None => 1,
    };
    if c > 255 {
        255
    } else if c < 0 {
        0
    } else {
        c
    }
}

pub fn exit_code_byte(code: Option<i32>) -> (r: u8)
    ensures
        r as int == passed_exit_code(code),
{
    let c = match code {
        Some(c) => c,
        None => 1,
    };
    let c = if c > 255 { 255 } else { c };
    let c = if c < 0 { 0 } else { c };
    c as u8
}

/// The child's exit code is passed on unchanged whenever it fits in a byte
/// (0 to 255); a larger one becomes 255, a negative one 0, and a child with no
/// code (killed by a signal) gives 1.
pub proof fn lemma_exit_code_passed_on(code: i32)
    ensures
        0 <= code <= 255 ==> passed_exit_code(Some(code)) == code,
        code > 255 ==> passed_exit_code(Some(code)) == 255,
        code < 0 ==> passed_exit_code(Some(code)) == 0,
        passed_exit_code(None) == 1,
{
}

} // verus!
