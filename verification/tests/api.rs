use casier::api::{
    endpoint, into_revealed, list_secrets_path, secret_key_path, secrets_path, trim_base_url,
    Secret,
};

fn secret(key: &str, value: Option<&str>, version: i32) -> Secret {
    Secret {
        key: key.to_string(),
        value: value.map(|v| v.to_string()),
        version,
    }
}

#[test]
fn revealed_list_keeps_its_values() {
    let secrets = into_revealed(vec![secret("A", Some("1"), 3)]).unwrap();
    assert_eq!(secrets.len(), 1);
    assert_eq!(secrets[0].key, "A");
    assert_eq!(secrets[0].value, "1");
    assert_eq!(secrets[0].version, 3);
}

#[test]
fn an_empty_value_is_a_real_value() {
    let secrets = into_revealed(vec![secret("A", Some(""), 0)]).unwrap();
    assert_eq!(secrets[0].value, "");
}

#[test]
fn an_empty_environment_is_not_an_error() {
    assert!(into_revealed(vec![]).unwrap().is_empty());
}

#[test]
fn metadata_without_values_is_refused() {
    let err = into_revealed(vec![secret("A", None, 1), secret("B", None, 1)]).err().unwrap();
    let message = err.to_string();
    assert!(message.contains("without values"), "{}", message);
    assert!(message.contains("older than the server"), "{}", message);
}

#[test]
fn a_partially_valueless_list_is_refused() {
    let err = into_revealed(vec![secret("A", Some("1"), 0), secret("B", None, 0)]).err().unwrap();
    assert!(err.to_string().contains("1 of 2"));
}

#[test]
fn revealed_order_is_kept() {
    let secrets =
        into_revealed(vec![secret("B", Some("2"), 1), secret("A", Some("1"), 7)]).unwrap();
    assert_eq!(secrets[0].key, "B");
    assert_eq!(secrets[1].key, "A");
    assert_eq!(secrets[1].version, 7);
}

#[test]
fn refusal_message_is_exact() {
    let err = into_revealed(vec![secret("A", None, 0)]).err().unwrap();
    assert_eq!(err.missing, 1);
    assert_eq!(err.total, 1);
    assert_eq!(
        err.to_string(),
        "the server returned 1 of 1 secrets without values — this casier CLI is older than the server it is talking to. Reinstall it, then retry."
    );
}

#[test]
fn routes() {
    assert_eq!(trim_base_url("https://x.io/api//"), "https://x.io/api");
    assert_eq!(list_secrets_path("p", "dev", true), "/projects/p/environments/dev/secrets?reveal=true");
    assert_eq!(list_secrets_path("p", "dev", false), "/projects/p/environments/dev/secrets");
    assert_eq!(secrets_path("p", "e", "/import"), "/projects/p/environments/e/secrets/import");
    assert_eq!(secret_key_path("p", "e", "K", "/reveal"), "/projects/p/environments/e/secrets/K/reveal");
    assert_eq!(secret_key_path("p", "e", "K", ""), "/projects/p/environments/e/secrets/K");
    assert_eq!(endpoint("https://x.io", "/auth/me"), "https://x.io/auth/me");
}
