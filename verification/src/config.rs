//! The client's configuration: which server it talks to, and which project
//! and environment a repository works with.
use vstd::prelude::*;
use vstd::string::*;
use crate::text::{chars_of, trim, trim_bounds, trim_end_char, starts_with, ends_with, lemma_trim_end_char_take};

verus! {

/// The saved client configuration.
#[derive(Debug)]
pub struct Config {
    pub server_url: String,
}

/// The per-repository configuration file.
#[derive(Debug)]
pub struct ProjectConfig {
    pub project: ProjectSection,
}

/// The `project:` section of the per-repository configuration.
#[derive(Debug)]
pub struct ProjectSection {
    pub slug: String,
    pub environment: String,
}

/// Why a configuration value was refused.
#[derive(Debug)]
pub enum ConfigError {
    /// The server URL was empty once trimmed.
    EmptyServerUrl,
    /// No project was given and no repository configuration names one.
    NoProject,
}

impl ConfigError {
    pub open spec fn text(&self) -> Seq<char> {
        match self {
            ConfigError::EmptyServerUrl => "server URL cannot be empty"@,
            ConfigError::NoProject => "no project specified: pass --project or run `casier init`"@,
        }
    }

    /// The message that explains the refusal.
    pub fn to_string(&self) -> (r: String)
        ensures
            r@ == self.text(),
    {
        match self {
            ConfigError::EmptyServerUrl => String::from_str("server URL cannot be empty"),
            ConfigError::NoProject => String::from_str(
                "no project specified: pass --project or run `casier init`",
            ),
        }
    }
}

/// The server used when nothing else names one.
pub open spec fn default_server_url_text() -> Seq<char> {
    "https://casier.facile.studio/api"@
}

pub fn default_server_url() -> (r: String)
    ensures
        r@ == default_server_url_text(),
{
    String::from_str("https://casier.facile.studio/api")
}

/// The environment used when nothing else names one.
pub open spec fn default_env_text() -> Seq<char> {
    "dev"@
}

pub fn default_env() -> (r: String)
    ensures
        r@ == default_env_text(),
{
    String::from_str("dev")
}

/// What a typed server URL normalizes to: trimmed, without trailing slashes,
/// and with `https://` in front unless it names `http://` or `https://`.
pub open spec fn normalized_server_url(raw: Seq<char>) -> Option<Seq<char>> {
    let t = trim_end_char(trim(raw), '/');
    if t.len() == 0 {
        None
    } else if starts_with(t, "http://"@) || starts_with(t, "https://"@) {
        Some(t)
    } else {
        Some("https://"@ + t)
    }
}

/// Whether `cs[a..b]` starts with `p`.
fn range_starts_with(cs: &Vec<char>, a: usize, b: usize, p: &str) -> (r: bool)
    requires
        a <= b <= cs@.len(),
    ensures
        r == starts_with(cs@.subrange(a as int, b as int), p@),
{
    let pc = chars_of(p);
    if b - a < pc.len() {
        return false;
    }
    let mut i: usize = 0;
    while i < pc.len()
        invariant
            a <= b <= cs@.len(),
            pc@ == p@,
            pc@.len() <= b - a,
            i <= pc@.len(),
            forall|x: int| 0 <= x < i ==> cs@[a + x] == pc@[x],
        decreases pc@.len() - i,
    {
        if cs[a + i] != pc[i] {
            assert(cs@.subrange(a as int, b as int).take(pc@.len() as int)[i as int] != p@[i as int]);
            return false;
        }
        i = i + 1;
    }
    assert(cs@.subrange(a as int, b as int).take(pc@.len() as int) =~= p@);
    true
}

/// Normalizes a server URL; an empty one is refused.
pub fn normalize_server_url(raw: &str) -> (r: Result<String, ConfigError>)
    ensures
        match r {
            Ok(url) => normalized_server_url(raw@) == Some(url@),
            Err(e) => normalized_server_url(raw@) is None && e is EmptyServerUrl,
        },
{
    let cs = chars_of(raw);
    let (a, b0) = trim_bounds(&cs, 0, cs.len());
    assert(cs@.subrange(0, cs@.len() as int) =~= raw@);
    let mut b = b0;
    while b > a && cs[b - 1] == '/'
        invariant
            a <= b <= b0 <= cs@.len(),
            forall|j: int| b <= j < b0 ==> cs@[j] == '/',
        decreases b - a,
    {
        b = b - 1;
    }
    proof {
        let t0 = cs@.subrange(a as int, b0 as int);
        lemma_trim_end_char_take(t0, '/', b - a);
        assert(t0.take(b - a) =~= cs@.subrange(a as int, b as int));
    }
    if a == b {
        return Err(ConfigError::EmptyServerUrl);
    }
    let trimmed = String::from_str(raw.substring_char(a, b));
    if range_starts_with(&cs, a, b, "http://") || range_starts_with(&cs, a, b, "https://") {
        Ok(trimmed)
    } else {
        let mut out = String::from_str("https://");
        out.append(trimmed.as_str());
        Ok(out)
    }
}

/// The project and environment a command works with: the flags win, then the
/// repository configuration; the environment falls back to `dev`.
pub fn resolve_project_env(
    project: Option<String>,
    env: Option<String>,
    local: Option<ProjectConfig>,
) -> (r: Result<(String, String), ConfigError>)
    ensures
        match r {
            Ok((p, e)) => {
                &&& (match project {
                    Some(given) => p == given,
                    None => local matches Some(c) && p == c.project.slug,
                })
                &&& (match env {
                    Some(given) => e == given,
                    None => match local {
                        Some(c) => e == c.project.environment,
                        None => e@ == default_env_text(),
                    },
                })
            },
            Err(err) => project is None && local is None && err is NoProject,
        },
{
    let (slug, environment) = match local {
        Some(c) => (Some(c.project.slug), Some(c.project.environment)),
        None => (None, None),
    };
    let p = match project {
        Some(p) => p,
        None => match slug {
            Some(s) => s,
            None => {
                return Err(ConfigError::NoProject);
            },
        },
    };
    let e = match env {
        Some(e) => e,
        None => match environment {
            Some(e) => e,
            None => default_env(),
        },
    };
    Ok((p, e))
}

/// How a configuration file is written.
#[derive(Debug)]
pub enum ConfigFormat {
    Toml,
    Yaml,
}

/// A name ending in `.toml` is TOML; anything else is read as YAML.
pub fn config_format(name: &str) -> (r: ConfigFormat)
    ensures
        (r is Toml) == ends_with(name@, ".toml"@),
{
    let cs = chars_of(name);
    let n = cs.len();
    let suffix = chars_of(".toml");
    proof {
        reveal_strlit(".toml");
    }
    if n < 5 {
        return ConfigFormat::Yaml;
    }
    let mut i: usize = 0;
    while i < 5
        invariant
            n == cs@.len(),
            cs@ == name@,
            n >= 5,
            suffix@ == ".toml"@,
            suffix@.len() == 5,
            i <= 5,
            forall|x: int| 0 <= x < i ==> cs@[n - 5 + x] == suffix@[x],
        decreases 5 - i,
    {
        if cs[n - 5 + i] != suffix[i] {
            assert(cs@.skip(n - 5)[i as int] != suffix@[i as int]);
            return ConfigFormat::Yaml;
        }
        i = i + 1;
    }
    assert(cs@.skip(n - 5) =~= ".toml"@);
    ConfigFormat::Toml
}

/// The per-repository configuration file names, in the order they are looked
/// for; the first is the one `init` writes. `.casier.toml` is still read so a
/// repository that has not been converted keeps working.
pub fn project_config_names() -> (r: Vec<&'static str>)
    ensures
        r@.len() == 3,
        r@[0]@ == "casier.yml"@,
        r@[1]@ == "casier.yaml"@,
        r@[2]@ == ".casier.toml"@,
{
    let mut v: Vec<&'static str> = Vec::new();
    v.push("casier.yml");
    v.push("casier.yaml");
    v.push(".casier.toml");
    v
}

/// Which of the configuration files to read, given which of them exist (in the
/// order of `project_config_names`): the first one present, so `casier.yml`
/// wins over the legacy `.casier.toml`; `None` when there is none, which is not
/// an error.
pub fn pick_project_config(present: &Vec<bool>) -> (r: Option<usize>)
    ensures
        match r {
            Some(i) => i < present@.len() && present@[i as int]
                && forall|j: int| 0 <= j < i ==> !present@[j],
            None => forall|j: int| 0 <= j < present@.len() ==> !present@[j],
        },
{
    let mut i: usize = 0;
    while i < present.len()
        invariant
            i <= present@.len(),
            forall|j: int| 0 <= j < i ==> !present@[j],
        decreases present@.len() - i,
    {
        if present[i] {
            return Some(i);
        }
        i = i + 1;
    }
    None
}

} // verus!

verus! {

/// Once stripped of every trailing `c`, text is empty or ends otherwise.
proof fn lemma_trim_end_char_last(s: Seq<char>, c: char)
    ensures
        trim_end_char(s, c).len() == 0 || trim_end_char(s, c).last() != c,
    decreases s.len(),
{
    if s.len() > 0 && s.last() == c {
        lemma_trim_end_char_last(s.drop_last(), c);
    }
}

/// A normalized server URL names its scheme, `http://` or `https://`, and has
/// no trailing slash, so paths can be appended to it as they are.
pub proof fn lemma_normalized_url_shape(raw: Seq<char>)
    ensures
        normalized_server_url(raw) matches Some(u) ==> {
            &&& starts_with(u, "http://"@) || starts_with(u, "https://"@)
            &&& u.len() > 0 && u.last() != '/'
        },
{
    let t = trim_end_char(trim(raw), '/');
    lemma_trim_end_char_last(trim(raw), '/');
    if t.len() > 0 && !(starts_with(t, "http://"@) || starts_with(t, "https://"@)) {
        let u = "https://"@ + t;
        assert(u.take(("https://"@).len() as int) =~= "https://"@);
        assert(u.last() == t.last());
    }
}

} // verus!
