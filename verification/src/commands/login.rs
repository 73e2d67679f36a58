//! `login`: which server to sign in to, how, and where the browser goes.
use vstd::prelude::*;
use vstd::string::*;
use crate::config::{ConfigError, normalize_server_url, normalized_server_url};
use crate::text::{chars_of, trim, trim_bounds, ends_with, eq_ignore_ascii_case, range_eq_ignore_ascii_case, decimal, decimal_string, ascii_lower};

verus! {

/// The URLs tried for the API: the given one, then the same with `/api`
/// appended unless it already ends so; both forms of the production URL work.
pub fn api_candidates(server_url: &str) -> (r: Vec<String>)
    ensures
        r@.len() == (if ends_with(server_url@, "/api"@) { 1int } else { 2int }),
        r@[0]@ == server_url@,
        r@.len() == 2 ==> r@[1]@ == server_url@ + "/api"@,
{
    let mut out: Vec<String> = Vec::new();
    out.push(String::from_str(server_url));
    let cs = chars_of(server_url);
    let n = cs.len();
    proof {
        reveal_strlit("/api");
    }
    let ends = n >= 4 && cs[n - 4] == '/' && cs[n - 3] == 'a' && cs[n - 2] == 'p' && cs[n - 1] == 'i';
    proof {
        if n >= 4 {
            let t = cs@.skip(n - 4);
            if ends {
                assert(t =~= "/api"@);
            } else if t == "/api"@ {
                assert(t[0] == cs@[n - 4]);
                assert(t[1] == cs@[n - 3]);
                assert(t[2] == cs@[n - 2]);
                assert(t[3] == cs@[n - 1]);
            }
        }
    }
    if !ends {
        let mut with_api = String::from_str(server_url);
        with_api.append("/api");
        out.push(with_api);
    }
    out
}

/// The server named without asking: the `--server` flag, then the
/// `CASIER_SERVER_URL` variable, then the saved configuration, the first one
/// present normalized; `None` when there is none and the user must be asked.
pub fn server_without_prompt(
    flag: Option<String>,
    env_var: Option<String>,
    stored: Option<String>,
) -> (r: Option<Result<String, ConfigError>>)
    ensures
        ({
            let first = if flag is Some { flag } else if env_var is Some { env_var } else { stored };
            match first {
                None => r is None,
                Some(raw) => match r {
                    Some(Ok(url)) => normalized_server_url(raw@) == Some(url@),
                    Some(Err(_)) => normalized_server_url(raw@) is None,
                    None => false,
                },
            }
        }),
{
    let first = match flag {
        Some(f) => Some(f),
        None => match env_var {
            Some(e) => Some(e),
            None => stored,
        },
    };
    match first {
        Some(raw) => Some(normalize_server_url(raw.as_str())),
        None => None,
    }
}

/// The server an answer to the prompt names: the default when the answer is
/// empty, else the trimmed answer normalized.
pub fn server_from_answer(answer: &str, fallback: String) -> (r: Result<String, ConfigError>)
    ensures
        trim(answer@).len() == 0 ==> r == Ok::<String, ConfigError>(fallback),
        trim(answer@).len() > 0 ==> match r {
            Ok(url) => normalized_server_url(trim(answer@)) == Some(url@),
            Err(_) => normalized_server_url(trim(answer@)) is None,
        },
{
    let cs = chars_of(answer);
    let (a, b) = trim_bounds(&cs, 0, cs.len());
    assert(cs@.subrange(0, cs@.len() as int) =~= answer@);
    if a == b {
        Ok(fallback)
    } else {
        normalize_server_url(answer.substring_char(a, b))
    }
}

/// How to sign in.
pub enum LoginPlan {
    /// The server only allows SSO but has no OIDC provider: sign-in is impossible.
    SsoUnavailable,
    /// Sign in with SSO without asking.
    Sso,
    /// Ask whether to use SSO.
    AskSso,
    /// Sign in with email and password.
    Password,
}

/// Chooses how to sign in from how the server lets people sign in.
pub fn plan_login(sso_only: bool, oidc_enabled: bool) -> (r: LoginPlan)
    ensures
        sso_only && !oidc_enabled ==> r is SsoUnavailable,
        sso_only && oidc_enabled ==> r is Sso,
        !sso_only && oidc_enabled ==> r is AskSso,
        !sso_only && !oidc_enabled ==> r is Password,
{
    if sso_only {
        if !oidc_enabled {
            LoginPlan::SsoUnavailable
        } else {
            LoginPlan::Sso
        }
    } else if oidc_enabled {
        LoginPlan::AskSso
    } else {
        LoginPlan::Password
    }
}

/// Whether an answer to a yes/no question that defaults to yes is a yes: the
/// trimmed answer is empty, `y` or `yes`, in any case. (Lowercasing a string
/// gives `y` or `yes` only for these letters in upper or lower case, so ASCII
/// case folding decides the same.)
pub open spec fn is_yes_answer(answer: Seq<char>) -> bool {
    let t = trim(answer);
    t.len() == 0 || eq_ignore_ascii_case(t, "y"@) || eq_ignore_ascii_case(t, "yes"@)
}

pub fn is_yes(answer: &str) -> (r: bool)
    ensures
        r == is_yes_answer(answer@),
{
    let cs = chars_of(answer);
    let (a, b) = trim_bounds(&cs, 0, cs.len());
    assert(cs@.subrange(0, cs@.len() as int) =~= answer@);
    a == b || range_eq_ignore_ascii_case(&cs, a, b, "y") || range_eq_ignore_ascii_case(&cs, a, b, "yes")
}

/// The page that starts SSO for this client, with its callback port and state.
pub open spec fn sso_url_text(server_url: Seq<char>, port: nat, state: Seq<char>) -> Seq<char> {
    server_url + "/auth/oidc?cli_port="@ + decimal(port) + "&cli_state="@ + state
}

pub fn sso_url(server_url: &str, port: u16, state: &str) -> (r: String)
    ensures
        r@ == sso_url_text(server_url@, port as nat, state@),
{
    let mut out = String::from_str(server_url);
    out.append("/auth/oidc?cli_port=");
    let p = decimal_string(port as u64);
    out.append(p.as_str());
    out.append("&cli_state=");
    out.append(state);
    out
}

/// A character folds to the lowercase letter `lo` exactly when it is `lo` or
/// its uppercase `up`.
proof fn lemma_folds_to(c: char, lo: char, up: char)
    requires
        'a' <= lo <= 'z',
        up as u32 + 32 == lo as u32,
    ensures
        ascii_lower(c) == ascii_lower(lo) <==> (c == lo || c == up),
{
    assert('A' <= up <= 'Z');
    if 'A' <= c && c <= 'Z' {
        if ascii_lower(c) == ascii_lower(lo) {
            assert(c as u32 == up as u32);
        }
    } else {
        if ascii_lower(c) == ascii_lower(lo) {
            assert(c as u32 == lo as u32);
        }
    }
}

/// An answer is a yes exactly when, once trimmed, it is empty, `y` or `yes`,
/// each letter in either case. So `n`, `no`, or any other word is a no.
pub proof fn lemma_yes_answers(answer: Seq<char>)
    ensures
        is_yes_answer(answer) <==> ({
            let t = trim(answer);
            ||| t.len() == 0
            ||| t.len() == 1 && (t[0] == 'y' || t[0] == 'Y')
            ||| t.len() == 3 && (t[0] == 'y' || t[0] == 'Y') && (t[1] == 'e' || t[1] == 'E')
                && (t[2] == 's' || t[2] == 'S')
        }),
{
    reveal_strlit("y");
    reveal_strlit("yes");
    let t = trim(answer);
    if t.len() >= 1 {
        lemma_folds_to(t[0], 'y', 'Y');
    }
    if t.len() >= 3 {
        lemma_folds_to(t[1], 'e', 'E');
        lemma_folds_to(t[2], 's', 'S');
    }
    if t.len() == 1 {
        if eq_ignore_ascii_case(t, "y"@) {
            assert(ascii_lower(t[0]) == ascii_lower('y'));
        }
        if t[0] == 'y' || t[0] == 'Y' {
            assert forall|i: int| 0 <= i < t.len() implies ascii_lower(#[trigger] t[i]) == ascii_lower("y"@[i]) by {
                assert(i == 0);
            }
        }
    }
    if t.len() == 3 {
        if eq_ignore_ascii_case(t, "yes"@) {
            assert(ascii_lower(t[0]) == ascii_lower('y'));
            assert(ascii_lower(t[1]) == ascii_lower('e'));
            assert(ascii_lower(t[2]) == ascii_lower('s'));
        }
        if (t[0] == 'y' || t[0] == 'Y') && (t[1] == 'e' || t[1] == 'E') && (t[2] == 's' || t[2] == 'S') {
            assert forall|i: int| 0 <= i < t.len() implies ascii_lower(#[trigger] t[i]) == ascii_lower("yes"@[i]) by {
                assert(i == 0 || i == 1 || i == 2);
            }
        }
    }
}

} // verus!
