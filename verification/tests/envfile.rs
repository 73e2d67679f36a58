use casier::envfile::parse;

#[test]
fn parses_env_format() {
    let content = r#"
# comment
FOO=bar

export BAZ=qux
QUOTED="hello world"
SINGLE='single'
EMPTY=
NOEQUALS
  SPACED = padded
"#;
    let map = parse(content);
    assert_eq!(map.get("FOO").unwrap(), "bar");
    assert_eq!(map.get("BAZ").unwrap(), "qux");
    assert_eq!(map.get("QUOTED").unwrap(), "hello world");
    assert_eq!(map.get("SINGLE").unwrap(), "single");
    assert_eq!(map.get("EMPTY").unwrap(), "");
    assert_eq!(map.get("SPACED").unwrap(), "padded");
    assert!(!map.contains_key("NOEQUALS"));
    assert_eq!(map.len(), 6);
}

#[test]
fn a_later_line_wins() {
    let map = parse("A=1\nA=2\n");
    assert_eq!(map.get("A").unwrap(), "2");
    assert_eq!(map.len(), 1);
}

#[test]
fn keys_come_out_sorted() {
    let map = parse("b=2\nC=3\na=1\n");
    let keys = map.keys();
    assert_eq!(keys, vec!["C".to_string(), "a".to_string(), "b".to_string()]);
}

#[test]
fn crlf_lines_and_unmatched_quotes() {
    let map = parse("X=\"open\r\nY='\r\nZ=\"\"\r\n=nokey\r\n#C=1\r\n");
    assert_eq!(map.get("X").unwrap(), "\"open");
    assert_eq!(map.get("Y").unwrap(), "'");
    assert_eq!(map.get("Z").unwrap(), "");
    assert!(!map.contains_key(""));
    assert!(!map.contains_key("#C"));
    assert_eq!(map.len(), 3);
}

#[test]
fn only_the_first_equals_splits() {
    let map = parse("export URL=postgres://u:p@h/db?x=1");
    assert_eq!(map.get("URL").unwrap(), "postgres://u:p@h/db?x=1");
}

#[test]
fn empty_content_is_an_empty_map() {
    assert!(parse("").is_empty());
    assert!(parse("\n\n   \n").is_empty());
}
