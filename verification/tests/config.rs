use casier::auth::env_token;
use casier::config::{
    config_format, default_env, default_server_url, normalize_server_url, pick_project_config,
    project_config_names,
    resolve_project_env, ConfigError, ConfigFormat, ProjectConfig, ProjectSection,
};

fn local(slug: &str, env: &str) -> Option<ProjectConfig> {
    Some(ProjectConfig {
        project: ProjectSection { slug: slug.to_string(), environment: env.to_string() },
    })
}

#[test]
fn server_urls_are_normalized() {
    assert_eq!(normalize_server_url("  example.com/ ").unwrap(), "https://example.com");
    assert_eq!(normalize_server_url("http://localhost:4000//").unwrap(), "http://localhost:4000");
    assert_eq!(normalize_server_url("https://casier.facile.studio/api").unwrap(), "https://casier.facile.studio/api");
    assert_eq!(normalize_server_url("a /").unwrap(), "https://a ");
    assert_eq!(normalize_server_url("http://").unwrap(), "https://http:");
}

#[test]
fn an_empty_server_url_is_refused() {
    let err = normalize_server_url(" / ").unwrap_err();
    assert!(matches!(err, ConfigError::EmptyServerUrl));
    assert_eq!(err.to_string(), "server URL cannot be empty");
    assert!(normalize_server_url("").is_err());
}

#[test]
fn normalized_urls_name_a_scheme_and_end_without_a_slash() {
    for raw in ["x", " http://a/b/ ", "https://c", "d.e//", "ftp://f/"] {
        let u = normalize_server_url(raw).unwrap();
        assert!(u.starts_with("http://") || u.starts_with("https://"), "{}", u);
        assert!(!u.ends_with('/'), "{}", u);
    }
}

#[test]
fn defaults() {
    assert_eq!(default_server_url(), "https://casier.facile.studio/api");
    assert_eq!(default_env(), "dev");
    assert_eq!(project_config_names(), vec!["casier.yml", "casier.yaml", ".casier.toml"]);
}

#[test]
fn flags_win_over_the_repository_config() {
    let (p, e) = resolve_project_env(Some("a".into()), Some("prod".into()), local("b", "stage")).unwrap();
    assert_eq!((p.as_str(), e.as_str()), ("a", "prod"));
    let (p, e) = resolve_project_env(None, None, local("b", "stage")).unwrap();
    assert_eq!((p.as_str(), e.as_str()), ("b", "stage"));
    let (p, e) = resolve_project_env(Some("a".into()), None, None).unwrap();
    assert_eq!((p.as_str(), e.as_str()), ("a", "dev"));
}

#[test]
fn no_project_anywhere_is_an_error() {
    let err = resolve_project_env(None, Some("prod".into()), None).unwrap_err();
    assert!(matches!(err, ConfigError::NoProject));
    assert!(err.to_string().contains("no project specified"));
}

#[test]
fn config_formats_follow_the_name() {
    assert!(matches!(config_format(".casier.toml"), ConfigFormat::Toml));
    assert!(matches!(config_format("casier.yml"), ConfigFormat::Yaml));
    assert!(matches!(config_format("casier.yaml"), ConfigFormat::Yaml));
    assert!(matches!(config_format("toml"), ConfigFormat::Yaml));
}

#[test]
fn environment_tokens() {
    assert_eq!(env_token("  casier_abc \n"), Some("casier_abc".to_string()));
    assert_eq!(env_token("   "), None);
    assert_eq!(env_token(""), None);
}

#[test]
fn yaml_is_picked_before_the_legacy_toml() {
    assert_eq!(pick_project_config(&vec![true, false, true]), Some(0));
    assert_eq!(pick_project_config(&vec![false, true, true]), Some(1));
    assert_eq!(pick_project_config(&vec![false, false, true]), Some(2));
}

#[test]
fn no_config_file_picks_none() {
    assert_eq!(pick_project_config(&vec![false, false, false]), None);
    assert_eq!(pick_project_config(&vec![]), None);
}
