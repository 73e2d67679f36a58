//! `push dokploy`: the environment block sent to a Dokploy compose service.
use vstd::prelude::*;
use vstd::string::*;
use crate::api::RevealedSecret;
use crate::text::{trim_end_char, chars_of, lemma_trim_end_char_take};

verus! {

/// `KEY=value` lines joined by line feeds, in order.
pub open spec fn env_block(s: Seq<RevealedSecret>) -> Seq<char>
    decreases s.len(),
{
    if s.len() == 0 {
        Seq::empty()
    } else if s.len() == 1 {
        s[0].key@ + "="@ + s[0].value@
    } else {
        env_block(s.drop_last()) + "\n"@ + s.last().key@ + "="@ + s.last().value@
    }
}

/// The environment block of a list of secrets.
pub fn dokploy_env(secrets: &[RevealedSecret]) -> (r: String)
    ensures
        r@ == env_block(secrets@),
{
    let mut out = String::new();
    let n = secrets.len();
    let mut i: usize = 0;
    assert(secrets@.take(0).len() == 0);
    while i < n
        invariant
            n == secrets@.len(),
            i <= n,
            out@ == env_block(secrets@.take(i as int)),
        decreases n - i,
    {
        let ghost prev = secrets@.take(i as int);
        assert(secrets@.take(i + 1).drop_last() =~= prev);
        assert(secrets@.take(i + 1).last() == secrets@[i as int]);
        if i > 0 {
            out.append("\n");
        }
        out.append(secrets[i].key.as_str());
        out.append("=");
        out.append(secrets[i].value.as_str());
        if i == 0 {
            assert(secrets@.take(1)[0] == secrets@[0]);
        }
        i = i + 1;
    }
    assert(secrets@.take(n as int) =~= secrets@);
    out
}

/// Why an empty environment is not pushed.
pub open spec fn empty_push_text(project: Seq<char>, env: Seq<char>, compose_id: Seq<char>) -> Seq<char> {
    project + "/"@ + env
        + " has no secrets to push — refusing to overwrite the Dokploy environment of compose "@
        + compose_id + " with an empty block"@
}

/// The block to push: an environment with no secrets is refused, since saving
/// an empty block would wipe the service's environment and look like success.
pub fn dokploy_body(
    project: &str,
    env: &str,
    compose_id: &str,
    secrets: &[RevealedSecret],
) -> (r: Result<String, String>)
    ensures
        match r {
            Ok(b) => secrets@.len() > 0 && b@ == env_block(secrets@),
            Err(m) => secrets@.len() == 0 && m@ == empty_push_text(project@, env@, compose_id@),
        },
{
    if secrets.len() == 0 {
        let mut m = String::from_str(project);
        m.append("/");
        m.append(env);
        m.append(" has no secrets to push — refusing to overwrite the Dokploy environment of compose ");
        m.append(compose_id);
        m.append(" with an empty block");
        Err(m)
    } else {
        Ok(dokploy_env(secrets))
    }
}

/// The route that saves a compose service's environment on a Dokploy server.
pub open spec fn dokploy_endpoint(base: Seq<char>) -> Seq<char> {
    trim_end_char(base, '/') + "/api/compose.saveEnvironment"@
}

pub fn dokploy_url(base: &str) -> (r: String)
    ensures
        r@ == dokploy_endpoint(base@),
{
    let cs = chars_of(base);
    let mut b = cs.len();
    while b > 0 && cs[b - 1] == '/'
        invariant
            b <= cs@.len(),
            cs@ == base@,
            forall|j: int| b <= j < cs@.len() ==> cs@[j] == '/',
        decreases b,
    {
        b = b - 1;
    }
    proof {
        lemma_trim_end_char_take(cs@, '/', b as int);
    }
    let mut out = String::from_str(base.substring_char(0, b));
    out.append("/api/compose.saveEnvironment");
    out
}

} // verus!
