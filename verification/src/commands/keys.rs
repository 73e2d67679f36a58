//! `keys`: the labels and checks of API key management.
use vstd::prelude::*;
use vstd::string::*;
use crate::text::{chars_of, trim, trim_bounds, eq_ignore_ascii_case, range_eq_ignore_ascii_case, signed_decimal, signed_decimal_string};

verus! {

/// Why a key command refuses its arguments.
#[derive(Debug)]
pub enum KeysError {
    /// `create` was given a blank `--app`.
    AppRequired,
    /// `revoke` was given an id that is not positive.
    BadKeyId,
}

impl KeysError {
    pub open spec fn text(&self) -> Seq<char> {
        match self {
            KeysError::AppRequired => "--app is required"@,
            KeysError::BadKeyId => "key id must be a positive integer"@,
        }
    }

    /// The message that explains the refusal.
    pub fn to_string(&self) -> (r: String)
        ensures
            r@ == self.text(),
    {
        match self {
            KeysError::AppRequired => String::from_str("--app is required"),
            KeysError::BadKeyId => String::from_str("key id must be a positive integer"),
        }
    }
}

/// A key is created for an app: a blank name is refused.
pub fn check_app(app: &str) -> (r: Result<(), KeysError>)
    ensures
        match r {
            Ok(()) => trim(app@).len() > 0,
            Err(e) => trim(app@).len() == 0 && e is AppRequired,
        },
{
    let cs = chars_of(app);
    let (a, b) = trim_bounds(&cs, 0, cs.len());
    assert(cs@.subrange(0, cs@.len() as int) =~= app@);
    if a == b {
        Err(KeysError::AppRequired)
    } else {
        Ok(())
    }
}

/// Key ids are positive: any other is refused before the server is asked.
pub fn check_key_id(id: i64) -> (r: Result<(), KeysError>)
    ensures
        match r {
            Ok(()) => id > 0,
            Err(e) => id <= 0 && e is BadKeyId,
        },
{
    if id <= 0 {
        Err(KeysError::BadKeyId)
    } else {
        Ok(())
    }
}

/// The quota column: `{quota}/day ({used} used)` for a positive daily quota,
/// else `unlimited`.
pub open spec fn quota_text(daily_quota: int, used_today: int) -> Seq<char> {
    if daily_quota > 0 {
        signed_decimal(daily_quota) + "/day ("@ + signed_decimal(used_today) + " used)"@
    } else {
        "unlimited"@
    }
}

pub fn quota_label(daily_quota: i32, used_today: i32) -> (r: String)
    ensures
        r@ == quota_text(daily_quota as int, used_today as int),
{
    if daily_quota > 0 {
        let mut out = signed_decimal_string(daily_quota);
        out.append("/day (");
        let u = signed_decimal_string(used_today);
        out.append(u.as_str());
        out.append(" used)");
        out
    } else {
        String::from_str("unlimited")
    }
}

/// The status column.
pub fn status_label(revoked: bool) -> (r: String)
    ensures
        r@ == (if revoked { "revoked"@ } else { "active"@ }),
{
    if revoked {
        String::from_str("revoked")
    } else {
        String::from_str("active")
    }
}

/// The kind of key to create.
pub fn key_kind(public: bool) -> (r: String)
    ensures
        r@ == (if public { "public"@ } else { "secret"@ }),
{
    if public {
        String::from_str("public")
    } else {
        String::from_str("secret")
    }
}

/// Whether an answer confirms a revocation: `y` or `yes` in any ASCII case,
/// once trimmed.
pub fn confirms_revocation(answer: &str) -> (r: bool)
    ensures
        r == (eq_ignore_ascii_case(trim(answer@), "y"@) || eq_ignore_ascii_case(trim(answer@), "yes"@)),
{
    let cs = chars_of(answer);
    let (a, b) = trim_bounds(&cs, 0, cs.len());
    assert(cs@.subrange(0, cs@.len() as int) =~= answer@);
    range_eq_ignore_ascii_case(&cs, a, b, "y") || range_eq_ignore_ascii_case(&cs, a, b, "yes")
}

} // verus!
