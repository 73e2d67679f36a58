//! Where the bearer token comes from.
use vstd::prelude::*;
use vstd::string::*;
use crate::text::{chars_of, trim, trim_bounds};

verus! {

/// The token a `CASIER_TOKEN` value supplies: the trimmed value, unless it is
/// empty, in which case the keychain is asked instead.
pub fn env_token(value: &str) -> (r: Option<String>)
    ensures
        match r {
            Some(t) => trim(value@).len() > 0 && t@ == trim(value@),
            None => trim(value@).len() == 0,
        },
{
    let cs = chars_of(value);
    let (a, b) = trim_bounds(&cs, 0, cs.len());
    assert(cs@.subrange(0, cs@.len() as int) =~= value@);
    if a == b {
        None
    } else {
        Some(String::from_str(value.substring_char(a, b)))
    }
}

} // verus!
