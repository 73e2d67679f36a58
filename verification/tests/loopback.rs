use casier::loopback::{
    callback_action, fallback_state_bytes, http_response, parse_callback, percent_decode,
    percent_decode_bytes, state_text,
    CallbackAction, RequestLine, MAX_REQUEST_LINE,
};

#[test]
fn parses_code_and_state_from_root_redirect() {
    let line = "GET /?code=abc-123_XY&state=deadbeef HTTP/1.1";
    let (code, state) = parse_callback(line).unwrap();
    assert_eq!(code, "abc-123_XY");
    assert_eq!(state, "deadbeef");
}

#[test]
fn accepts_the_legacy_callback_path() {
    let line = "GET /callback?code=abc&state=deadbeef HTTP/1.1";
    let (code, state) = parse_callback(line).unwrap();
    assert_eq!(code, "abc");
    assert_eq!(state, "deadbeef");
}

#[test]
fn decodes_escaped_values() {
    let line = "GET /?code=a%2Fb%26c&state=x+y HTTP/1.1";
    let (code, state) = parse_callback(line).unwrap();
    assert_eq!(code, "a/b&c");
    assert_eq!(state, "x y");
}

#[test]
fn ignores_unrelated_requests() {
    assert!(parse_callback("GET /favicon.ico HTTP/1.1").is_none());
    assert!(parse_callback("GET /?code=only HTTP/1.1").is_none());
    assert!(parse_callback("garbage").is_none());
}

#[test]
fn a_pair_without_equals_spoils_the_query() {
    assert!(parse_callback("GET /?code=a&flag&state=b HTTP/1.1").is_none());
    assert!(parse_callback("GET /? HTTP/1.1").is_none());
    assert!(parse_callback("GET /other?code=a&state=b HTTP/1.1").is_none());
}

#[test]
fn the_last_pair_wins_and_others_are_ignored() {
    let (code, state) =
        parse_callback("  GET\t/?x=1&code=a&state=s&code=b  HTTP/1.1").unwrap();
    assert_eq!(code, "b");
    assert_eq!(state, "s");
}

#[test]
fn percent_decoding_edge_cases() {
    assert_eq!(percent_decode("100%"), "100%");
    assert_eq!(percent_decode("%zz"), "%zz");
    assert_eq!(percent_decode("%+f"), "\u{f}");
    assert_eq!(percent_decode("%41%62"), "Ab");
    assert_eq!(percent_decode("%C3%A9"), "é");
    assert_eq!(percent_decode("%ff"), "\u{fffd}");
    assert_eq!(percent_decode_bytes("a+%20"), vec![b'a', b' ', b' ']);
}

#[test]
fn callback_actions() {
    match callback_action("GET /?code=c&state=s HTTP/1.1", "s") {
        CallbackAction::Accept(code) => assert_eq!(code, "c"),
        _ => panic!("expected the callback to be accepted"),
    }
    assert!(matches!(
        callback_action("GET /?code=c&state=other HTTP/1.1", "s"),
        CallbackAction::Reject
    ));
    assert!(matches!(
        callback_action("GET /favicon.ico HTTP/1.1", "s"),
        CallbackAction::Ignore
    ));
}

#[test]
fn response_text() {
    assert_eq!(
        http_response("404 Not Found", ""),
        "HTTP/1.1 404 Not Found\r\nContent-Type: text/html; charset=utf-8\r\nContent-Length: 0\r\nConnection: close\r\n\r\n"
    );
    assert!(http_response("200 OK", "é").ends_with("Content-Length: 2\r\nConnection: close\r\n\r\né"));
}

#[test]
fn request_line_reader() {
    let mut line = RequestLine::new();
    for b in b"GET / HTTP/1.1\r" {
        assert!(!line.push_byte(*b));
    }
    assert!(line.push_byte(b'\n'));
    assert_eq!(line.text(), "GET / HTTP/1.1");
    assert!(line.wants_more());
    let mut long = RequestLine::new();
    let mut n = 0;
    while long.wants_more() {
        long.push_byte(b'a');
        n += 1;
    }
    assert_eq!(n, MAX_REQUEST_LINE);
}

#[test]
fn the_state_is_32_lowercase_hex_digits() {
    let bytes = [0x00, 0x0f, 0xa0, 0xff, 0x12, 0x34, 0x56, 0x78, 0x9a, 0xbc, 0xde, 0xf0, 1, 2, 3, 4];
    let state = state_text(&bytes);
    assert_eq!(state, "000fa0ff123456789abcdef001020304");
    assert_eq!(state.len(), 32);
    assert!(state.chars().all(|c| c.is_ascii_digit() || ('a'..='f').contains(&c)));
}

#[test]
fn fallback_states_differ_with_the_clock() {
    let mut a = [0u8; 16];
    let mut b = [0u8; 16];
    a.copy_from_slice(&fallback_state_bytes(1_000, 42));
    b.copy_from_slice(&fallback_state_bytes(1_001, 42));
    assert_ne!(state_text(&a), state_text(&b));
    assert_eq!(state_text(&a).len(), 32);
}
