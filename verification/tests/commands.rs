use casier::api::{Project, RevealedSecret, Secret};
use casier::commands::diff::{can_mask, diff_maps, mask, DiffEntry};
use casier::commands::init::{chosen_env, parse_selection, project_config_yaml, SelectionError};
use casier::commands::keys::{
    check_app, check_key_id, confirms_revocation, key_kind, quota_label, status_label, KeysError,
};
use casier::commands::login::{
    api_candidates, is_yes, plan_login, server_from_answer, server_without_prompt, sso_url,
    LoginPlan,
};
use casier::commands::projects::{project_names, project_slugs};
use casier::commands::push::{dokploy_body, dokploy_env, dokploy_url};
use casier::commands::run::{after_fetch, check_command, exit_code_byte, FetchOutcome, NextStep};
use casier::commands::secrets::{check_value, masked_rows, revealed_rows, row_keys};
use casier::commands::sync::{is_blank, line_count};
use casier::envfile::parse;
use casier::text::column_width_of;

fn revealed(key: &str, value: &str) -> RevealedSecret {
    RevealedSecret { key: key.to_string(), value: value.to_string(), version: 1 }
}

#[test]
fn masks() {
    assert_eq!(mask(""), "***");
    assert_eq!(mask("ab"), "***");
    assert_eq!(mask("abcd"), "****");
    assert_eq!(mask("abcdef"), "ab**ef");
    assert_eq!(mask("sk-1234567890abcdef"), "sk********ef");
    assert_eq!(mask("éxyzé"), "é***é");
    assert!(can_mask("éxyzé"));
    assert!(!can_mask("aéxyz"));
}

#[test]
fn diffs_come_in_order() {
    let a = parse("A=1\nB=2\nC=3\n");
    let b = parse("B=2\nC=4\nD=5\n");
    let d = diff_maps(&a, &b);
    assert_eq!(d.len(), 3);
    assert!(matches!(&d[0], DiffEntry::OnlyInFirst { key } if key == "A"));
    assert!(matches!(&d[1], DiffEntry::Changed { key, from, to } if key == "C" && from == "3" && to == "4"));
    assert!(matches!(&d[2], DiffEntry::OnlyInSecond { key } if key == "D"));
}

#[test]
fn no_differences_exactly_when_the_environments_match() {
    let a = parse("A=1\nB=2\n");
    let b = parse("B=2\nA=1\n");
    assert!(diff_maps(&a, &b).is_empty());
    let c = parse("A=1\nB=3\n");
    assert!(!diff_maps(&a, &c).is_empty());
}

#[test]
fn selections() {
    assert_eq!(parse_selection("2\n", 3).unwrap(), 1);
    assert_eq!(parse_selection(" +1 ", 3).unwrap(), 0);
    assert!(matches!(parse_selection("0", 3), Err(SelectionError::OutOfRange)));
    assert!(matches!(parse_selection("4", 3), Err(SelectionError::OutOfRange)));
    assert!(matches!(parse_selection("two", 3), Err(SelectionError::Invalid)));
    assert!(matches!(parse_selection("-1", 3), Err(SelectionError::Invalid)));
    assert!(matches!(parse_selection("", 3), Err(SelectionError::Invalid)));
    assert!(matches!(parse_selection("99999999999999999999999", 3), Err(SelectionError::Invalid)));
}

#[test]
fn init_writes_yaml() {
    assert_eq!(chosen_env("\n"), "dev");
    assert_eq!(chosen_env(" prod \n"), "prod");
    assert_eq!(
        project_config_yaml("antenne", "dev"),
        "project:\n  slug: antenne\n  environment: dev\n"
    );
}

#[test]
fn login_choices() {
    assert!(matches!(plan_login(true, false), LoginPlan::SsoUnavailable));
    assert!(matches!(plan_login(true, true), LoginPlan::Sso));
    assert!(matches!(plan_login(false, true), LoginPlan::AskSso));
    assert!(matches!(plan_login(false, false), LoginPlan::Password));
    assert!(is_yes("\n"));
    assert!(is_yes(" YeS "));
    assert!(is_yes("y"));
    assert!(!is_yes("no"));
    assert!(!is_yes("yess"));
}

#[test]
fn api_urls_tried() {
    assert_eq!(api_candidates("https://x.io"), vec!["https://x.io".to_string(), "https://x.io/api".to_string()]);
    assert_eq!(api_candidates("https://x.io/api"), vec!["https://x.io/api".to_string()]);
}

#[test]
fn server_precedence() {
    let r = server_without_prompt(Some("a.io".into()), Some("b.io".into()), Some("c.io".into()));
    assert_eq!(r.unwrap().unwrap(), "https://a.io");
    let r = server_without_prompt(None, Some("b.io".into()), Some("c.io".into()));
    assert_eq!(r.unwrap().unwrap(), "https://b.io");
    let r = server_without_prompt(None, None, Some("http://c.io/".into()));
    assert_eq!(r.unwrap().unwrap(), "http://c.io");
    assert!(server_without_prompt(None, None, None).is_none());
    assert!(server_without_prompt(Some(" ".into()), None, None).unwrap().is_err());
    assert_eq!(server_from_answer("\n", "https://d".into()).unwrap(), "https://d");
    assert_eq!(server_from_answer(" e.io/\n", "https://d".into()).unwrap(), "https://e.io");
    assert_eq!(
        sso_url("https://x.io/api", 8080, "ab12"),
        "https://x.io/api/auth/oidc?cli_port=8080&cli_state=ab12"
    );
}

#[test]
fn keys_labels() {
    assert_eq!(quota_label(100, 7), "100/day (7 used)");
    assert_eq!(quota_label(5, -2), "5/day (-2 used)");
    assert_eq!(quota_label(0, 3), "unlimited");
    assert_eq!(status_label(true), "revoked");
    assert_eq!(status_label(false), "active");
    assert_eq!(key_kind(true), "public");
    assert_eq!(key_kind(false), "secret");
    assert!(confirms_revocation("Y\n"));
    assert!(confirms_revocation("yes"));
    assert!(!confirms_revocation(""));
    assert!(!confirms_revocation("nope"));
}

#[test]
fn dokploy_block() {
    let s = vec![revealed("A", "1"), revealed("B", "x=y")];
    assert_eq!(dokploy_env(&s), "A=1\nB=x=y");
    assert_eq!(dokploy_env(&[]), "");
    assert_eq!(dokploy_url("https://gare.facile.studio//"), "https://gare.facile.studio/api/compose.saveEnvironment");
}

#[test]
fn run_decisions() {
    assert!(matches!(after_fetch(&FetchOutcome::Fetched), NextStep::UseFetched));
    assert!(matches!(after_fetch(&FetchOutcome::MissingValues), NextStep::Fail));
    assert!(matches!(after_fetch(&FetchOutcome::Unreachable), NextStep::TryCache));
    assert_eq!(exit_code_byte(Some(0)), 0);
    assert_eq!(exit_code_byte(Some(3)), 3);
    assert_eq!(exit_code_byte(Some(300)), 255);
    assert_eq!(exit_code_byte(Some(-4)), 0);
    assert_eq!(exit_code_byte(None), 1);
}

#[test]
fn pull_checks() {
    assert!(is_blank(" \n\t"));
    assert!(!is_blank(" A=1 "));
    assert_eq!(line_count(""), 0);
    assert_eq!(line_count("A=1"), 1);
    assert_eq!(line_count("A=1\nB=2\n"), 2);
    assert_eq!(line_count("A=1\n\nB=2"), 3);
}

#[test]
fn table_rows_and_widths() {
    let secrets = vec![
        Secret { key: "K".into(), value: None, version: 2 },
        Secret { key: "LONGKEY".into(), value: Some("v".into()), version: 5 },
    ];
    let rows = masked_rows(&secrets);
    assert_eq!(rows[0].value, "********");
    assert_eq!(rows[1].value, "********");
    assert_eq!(rows[1].version, 5);
    assert_eq!(column_width_of(&row_keys(&rows), 3), 7);
    let shown = revealed_rows(&[revealed("A", "secret")]);
    assert_eq!(shown[0].value, "secret");
    assert_eq!(column_width_of(&row_keys(&shown), 3), 3);
    let projects = vec![Project { name: "Antenne".into(), slug: "ant".into(), description: String::new() }];
    assert_eq!(column_width_of(&project_names(&projects), 0), 7);
    assert_eq!(column_width_of(&project_slugs(&projects), 0), 3);
    assert_eq!(column_width_of(&[], 0), 0);
    assert_eq!(column_width_of(&["é".to_string()], 0), 2);
}

#[test]
fn run_refuses_an_empty_command() {
    assert_eq!(
        check_command(&[]),
        Err("No command provided. Usage: casier run -s <project> -e <env> -- <command...>".to_string())
    );
    assert_eq!(check_command(&["env".to_string()]), Ok(()));
}

#[test]
fn an_empty_environment_is_not_pushed() {
    assert_eq!(
        dokploy_body("api", "prod", "c1", &[]),
        Err("api/prod has no secrets to push — refusing to overwrite the Dokploy environment of compose c1 with an empty block".to_string())
    );
    assert_eq!(
        dokploy_body("api", "prod", "c1", &[revealed("A", "1"), revealed("B", "")]),
        Ok("A=1\nB=".to_string())
    );
}

#[test]
fn an_empty_value_is_not_set() {
    assert_eq!(check_value("API_KEY", ""), Err("refusing to set API_KEY to an empty value".to_string()));
    assert_eq!(check_value("API_KEY", " "), Ok(()));
    assert_eq!(check_value("API_KEY", "x"), Ok(()));
}

#[test]
fn key_arguments_are_checked() {
    assert!(matches!(check_app("  "), Err(KeysError::AppRequired)));
    assert!(matches!(check_app(""), Err(KeysError::AppRequired)));
    assert!(check_app(" web ").is_ok());
    assert!(matches!(check_key_id(0), Err(KeysError::BadKeyId)));
    assert!(matches!(check_key_id(-3), Err(KeysError::BadKeyId)));
    assert!(check_key_id(7).is_ok());
    assert_eq!(KeysError::AppRequired.to_string(), "--app is required");
    assert_eq!(KeysError::BadKeyId.to_string(), "key id must be a positive integer");
}
