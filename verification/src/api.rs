//! What the Casier REST API answers, and the checks the client makes of it.
use vstd::prelude::*;
use vstd::string::*;
use crate::text::{decimal, decimal_string, trim_end_char, chars_of, lemma_trim_end_char_take};

verus! {

/// The answer to a password login.
#[derive(Debug)]
pub struct AuthResponse {
    pub token: String,
}

/// How a server lets people sign in.
#[derive(Debug)]
pub struct AuthConfigResponse {
    pub sso_only: bool,
    pub oidc_enabled: bool,
}

/// Who the bearer of a token is.
#[derive(Debug)]
pub struct MeResponse {
    pub email: String,
}

/// A project the user belongs to.
#[derive(Debug)]
pub struct Project {
    pub name: String,
    pub slug: String,
    pub description: String,
}

/// A secret as the list route returns it. `value` is absent unless the request
/// asked to reveal it: a missing value must never read as an empty one.
#[derive(Debug)]
pub struct Secret {
    pub key: String,
    pub value: Option<String>,
    pub version: i32,
}

/// A secret that is known to carry its value.
#[derive(Debug)]
pub struct RevealedSecret {
    pub key: String,
    pub value: String,
    pub version: i32,
}

/// The server answered a revealing read with metadata alone: `missing` of
/// `total` secrets came without a value.
#[derive(Debug)]
pub struct MissingValues {
    pub missing: usize,
    pub total: usize,
}

/// The outcome of an `.env` import.
#[derive(Debug)]
pub struct ImportResponse {
    pub created: i32,
    pub updated: i32,
    pub skipped: i32,
}

/// An environment exported as `.env` text.
#[derive(Debug)]
pub struct ExportResponse {
    pub content: String,
}

/// How many secrets of `s` lack a value.
pub open spec fn missing_count(s: Seq<Secret>) -> nat
    decreases s.len(),
{
    if s.len() == 0 {
        0
    } else {
        missing_count(s.drop_last()) + if s.last().value is None { 1nat } else { 0nat }
    }
}

/// `r` is `s` with each value taken out of its `Some`.
pub open spec fn revealed_from(r: Seq<RevealedSecret>, s: Seq<Secret>) -> bool {
    &&& r.len() == s.len()
    &&& forall|i: int|
        #![trigger r[i]]
        #![trigger s[i]]
        0 <= i < s.len() ==> {
            &&& r[i].key == s[i].key
            &&& s[i].value == Some(r[i].value)
            &&& r[i].version == s[i].version
        }
}

/// The text of the refusal.
pub open spec fn missing_values_text(missing: nat, total: nat) -> Seq<char> {
    "the server returned "@ + decimal(missing) + " of "@ + decimal(total)
        + " secrets without values — this casier CLI is older than the server it is talking to. Reinstall it, then retry."@
}

impl MissingValues {
    /// The message that explains the refusal.
    pub fn to_string(&self) -> (r: String)
        ensures
            r@ == missing_values_text(self.missing as nat, self.total as nat),
    {
        let mut out = String::from_str("the server returned ");
        let missing = decimal_string(self.missing as u64);
        out.append(missing.as_str());
        out.append(" of ");
        let total = decimal_string(self.total as u64);
        out.append(total.as_str());
        out.append(
            " secrets without values — this casier CLI is older than the server it is talking to. Reinstall it, then retry.",
        );
        out
    }
}

/// Converts a list that was requested with `reveal=true`, refusing it when any
/// secret came back without its value. That happens when this client is older
/// than the server: injecting such a list would run a process with nothing in
/// its environment and no error.
pub fn into_revealed(secrets: Vec<Secret>) -> (r: Result<Vec<RevealedSecret>, MissingValues>)
    ensures
        match r {
            Ok(v) => missing_count(secrets@) == 0 && revealed_from(v@, secrets@),
            Err(e) => missing_count(secrets@) > 0 && e.missing == missing_count(secrets@)
                && e.total == secrets@.len(),
        },
{
    let n = secrets.len();
    let mut missing: usize = 0;
    let mut i: usize = 0;
    while i < n
        invariant
            n == secrets@.len(),
            i <= n,
            missing == missing_count(secrets@.take(i as int)),
            missing <= i,
        decreases n - i,
    {
        assert(secrets@.take(i + 1).drop_last() =~= secrets@.take(i as int));
        if secrets[i].value.is_none() {
            missing = missing + 1;
        }
        i = i + 1;
    }
    assert(secrets@.take(n as int) =~= secrets@);
    if missing > 0 {
        return Err(MissingValues { missing, total: n });
    }
    let mut out: Vec<RevealedSecret> = Vec::new();
    let mut rest = secrets;
    let ghost all = rest@;
    let mut taken: Vec<RevealedSecret> = Vec::new();
    // Values are moved out back to front, then put in order.
    while rest.len() > 0
        invariant
            missing_count(all) == 0,
            rest@ == all.take(rest@.len() as int),
            rest@.len() + taken@.len() == all.len(),
            forall|j: int|
                0 <= j < taken@.len() ==> {
                    let s = #[trigger] all[all.len() - 1 - j];
                    &&& taken@[j].key == s.key
                    &&& s.value == Some(taken@[j].value)
                    &&& taken@[j].version == s.version
                },
        decreases rest@.len(),
    {
        let ghost k = rest@.len() - 1;
        let s = rest.pop().unwrap();
        proof {
            lemma_no_missing_prefix(all, k + 1);
            assert(all.take(k + 1).drop_last() =~= all.take(k));
        }
        let value = match s.value {
            Some(v) => v,
            None => String::new(),
        };
        taken.push(RevealedSecret { key: s.key, value, version: s.version });
        assert(rest@ =~= all.take(k));
    }
    let m = taken.len();
    while taken.len() > 0
        invariant
            m == all.len(),
            taken@.len() + out@.len() == m,
            forall|j: int|
                0 <= j < taken@.len() ==> {
                    let s = #[trigger] all[m - 1 - j];
                    &&& taken@[j].key == s.key
                    &&& s.value == Some(taken@[j].value)
                    &&& taken@[j].version == s.version
                },
            forall|j: int|
                0 <= j < out@.len() ==> {
                    let s = #[trigger] all[j];
                    &&& out@[j].key == s.key
                    &&& s.value == Some(out@[j].value)
                    &&& out@[j].version == s.version
                },
        decreases taken@.len(),
    {
        let ghost t = taken@;
        let x = taken.pop().unwrap();
        assert(x == t[t.len() - 1]);
        let ghost j0 = out@.len();
        assert(all[m - 1 - (t.len() - 1)] == all[j0 as int]);
        out.push(x);
        assert forall|j: int| 0 <= j < taken@.len() implies ({
            let s = #[trigger] all[m - 1 - j];
            &&& taken@[j].key == s.key
            &&& s.value == Some(taken@[j].value)
            &&& taken@[j].version == s.version
        }) by {
            assert(taken@[j] == t[j]);
        }
    }
    Ok(out)
}

/// In a list with no missing value, no prefix has one either, and its last
/// secret has a value.
proof fn lemma_no_missing_prefix(s: Seq<Secret>, k: int)
    requires
        missing_count(s) == 0,
        0 < k <= s.len(),
    ensures
        missing_count(s.take(k)) == 0,
        s[k - 1].value is Some,
    decreases s.len(),
{
    if k < s.len() {
        lemma_no_missing_prefix(s.drop_last(), k);
        assert(s.drop_last().take(k) =~= s.take(k));
    } else {
        assert(s.take(k) =~= s);
    }
}

/// A server URL without its trailing slashes, as the client joins paths to it.
pub fn trim_base_url(base_url: &str) -> (r: String)
    ensures
        r@ == trim_end_char(base_url@, '/'),
{
    let cs = chars_of(base_url);
    let mut b = cs.len();
    while b > 0 && cs[b - 1] == '/'
        invariant
            b <= cs@.len(),
            cs@ == base_url@,
            forall|j: int| b <= j < cs@.len() ==> cs@[j] == '/',
        decreases b,
    {
        b = b - 1;
    }
    proof {
        lemma_trim_end_char_take(cs@, '/', b as int);
    }
    String::from_str(base_url.substring_char(0, b))
}

/// The route of the secrets of one environment of a project.
pub open spec fn secrets_route(project: Seq<char>, env: Seq<char>) -> Seq<char> {
    "/projects/"@ + project + "/environments/"@ + env + "/secrets"@
}

/// `/projects/{project}/environments/{env}/secrets`, then `suffix`.
pub fn secrets_path(project: &str, env: &str, suffix: &str) -> (r: String)
    ensures
        r@ == secrets_route(project@, env@) + suffix@,
{
    let mut out = String::from_str("/projects/");
    out.append(project);
    out.append("/environments/");
    out.append(env);
    out.append("/secrets");
    out.append(suffix);
    out
}

/// The route that lists secrets, with `?reveal=true` when values are wanted.
pub fn list_secrets_path(project: &str, env: &str, reveal: bool) -> (r: String)
    ensures
        r@ == secrets_route(project@, env@) + (if reveal { "?reveal=true"@ } else { ""@ }),
{
    if reveal {
        secrets_path(project, env, "?reveal=true")
    } else {
        secrets_path(project, env, "")
    }
}

/// The route of one secret, then `suffix` (`""` or `"/reveal"`).
pub fn secret_key_path(project: &str, env: &str, key: &str, suffix: &str) -> (r: String)
    ensures
        r@ == secrets_route(project@, env@) + "/"@ + key@ + suffix@,
{
    let mut out = secrets_path(project, env, "/");
    out.append(key);
    out.append(suffix);
    out
}

/// The full URL of `path` on the server at `base_url`.
pub fn endpoint(base_url: &str, path: &str) -> (r: String)
    ensures
        r@ == base_url@ + path@,
{
    let mut out = String::from_str(base_url);
    out.append(path);
    out
}

} // verus!
