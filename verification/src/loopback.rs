//! The sign-in callback: what the browser's redirect to the local port carries,
//! how it is decoded, and what the listener answers.
use vstd::prelude::*;
use vstd::utf8::*;
use crate::text::{
    chars_of, find_char, find_in, split_on, substring, is_ws, is_whitespace, lossy_text,
    utf8_lossy, decimal, decimal_string, lemma_find_char_facts, hex_lower, hex_text,
    is_hex_digit_char, lemma_hex_text_shape,
};

verus! {

/// The longest request line the listener reads, in bytes.
pub const MAX_REQUEST_LINE: usize = 8192;

/// The value of an ASCII hexadecimal digit.
pub open spec fn hex_digit(b: u8) -> Option<u8> {
    if 48 <= b <= 57 {
        Some((b - 48) as u8)
    } else if 97 <= b <= 102 {
        Some((b - 87) as u8)
    } else if 65 <= b <= 70 {
        Some((b - 55) as u8)
    } else {
        None
    }
}

/// What `u8::from_str_radix(.., 16)` makes of the two bytes after a `%`: two
/// hex digits, or a `+` sign and one digit.
pub open spec fn hex_pair(h1: u8, h2: u8) -> Option<u8> {
    match (hex_digit(h1), hex_digit(h2)) {
        (Some(a), Some(b)) => Some((a * 16 + b) as u8),
        (None, Some(b)) => if h1 == 43 { Some(b) } else { None },
        _ => None,
    }
}

/// The bytes that percent-decoding makes of `b`: `+` is a space, `%` and a valid
/// pair is the byte they spell, and anything else is kept.
pub open spec fn percent_decoded(b: Seq<u8>) -> Seq<u8>
    decreases b.len(),
{
    if b.len() == 0 {
        Seq::empty()
    } else if b[0] == 43 {
        seq![32u8] + percent_decoded(b.skip(1))
    } else if b[0] == 37 && b.len() >= 3 && hex_pair(b[1], b[2]) is Some {
        seq![hex_pair(b[1], b[2])->0] + percent_decoded(b.skip(3))
    } else {
        seq![b[0]] + percent_decoded(b.skip(1))
    }
}

/// The text a percent-encoded value decodes to.
pub open spec fn decoded_text(value: Seq<char>) -> Seq<char> {
    lossy_text(percent_decoded(encode_utf8(value)))
}

/// The ASCII hex digit for `d` (below 16), lowercase or uppercase.
pub open spec fn hex_digit_byte(d: nat, upper: bool) -> u8 {
    if d < 10 {
        (48 + d) as u8
    } else if upper {
        (55 + d) as u8
    } else {
        (87 + d) as u8
    }
}

/// An escape is byte-exact: `%` followed by the two hex digits of a byte `x`,
/// in either case, decodes to exactly `x`, and decoding goes on after them.
pub proof fn lemma_escape_decodes_to_its_byte(x: u8, upper_hi: bool, upper_lo: bool, rest: Seq<u8>)
    ensures
        percent_decoded(
            seq![37u8, hex_digit_byte((x / 16) as nat, upper_hi), hex_digit_byte((x % 16) as nat, upper_lo)] + rest,
        ) == seq![x] + percent_decoded(rest),
{
    let h1 = hex_digit_byte((x / 16) as nat, upper_hi);
    let h2 = hex_digit_byte((x % 16) as nat, upper_lo);
    let s = seq![37u8, h1, h2] + rest;
    assert(s[0] == 37u8 && s[1] == h1 && s[2] == h2);
    assert(hex_digit(h1) == Some((x / 16) as u8));
    assert(hex_digit(h2) == Some((x % 16) as u8));
    assert(hex_pair(h1, h2) == Some(x));
    assert(s.skip(3) =~= rest);
}

/// Only a literal `+` becomes a space.
pub proof fn lemma_plus_decodes_to_space(rest: Seq<u8>)
    ensures
        percent_decoded(seq![43u8] + rest) == seq![32u8] + percent_decoded(rest),
{
    assert((seq![43u8] + rest).skip(1) =~= rest);
}

/// Any byte other than `%` and `+` is kept as it is.
pub proof fn lemma_plain_byte_kept(c: u8, rest: Seq<u8>)
    requires
        c != 37,
        c != 43,
    ensures
        percent_decoded(seq![c] + rest) == seq![c] + percent_decoded(rest),
{
    assert((seq![c] + rest).skip(1) =~= rest);
}

fn hex_digit_of(b: u8) -> (r: Option<u8>)
    ensures
        r == hex_digit(b),
{
    if 48 <= b && b <= 57 {
        Some(b - 48)
    } else if 97 <= b && b <= 102 {
        Some(b - 87)
    } else if 65 <= b && b <= 70 {
        Some(b - 55)
    } else {
        None
    }
}

fn hex_pair_of(h1: u8, h2: u8) -> (r: Option<u8>)
    ensures
        r == hex_pair(h1, h2),
{
    match (hex_digit_of(h1), hex_digit_of(h2)) {
        (Some(a), Some(b)) => Some(a * 16 + b),
        (None, Some(b)) => if h1 == 43 { Some(b) } else { None },
        _ => None,
    }
}

/// The bytes that percent-decoding `value` gives, before they become text.
pub fn percent_decode_bytes(value: &str) -> (r: Vec<u8>)
    ensures
        r@ == percent_decoded(encode_utf8(value@)),
{
    let bytes = value.as_bytes();
    let ghost b = bytes@;
    let n = bytes.len();
    let mut out: Vec<u8> = Vec::new();
    let mut i: usize = 0;
    assert(b.skip(0) =~= b);
    while i < n
        invariant
            b == bytes@,
            b == encode_utf8(value@),
            n == b.len(),
            i <= n,
            percent_decoded(b) == out@ + percent_decoded(b.skip(i as int)),
        decreases n - i,
    {
        let ghost rest = b.skip(i as int);
        let ghost before = out@;
        assert(rest[0] == b[i as int]);
        if bytes[i] == 43 {
            out.push(32);
            assert(rest.skip(1) =~= b.skip(i + 1));
            assert(before + (seq![32u8] + percent_decoded(b.skip(i + 1))) =~= out@ + percent_decoded(b.skip(i + 1)));
            i = i + 1;
        } else {
            let pair = if bytes[i] == 37 && n - i >= 3 {
                hex_pair_of(bytes[i + 1], bytes[i + 2])
            } else {
                None
            };
            if bytes[i] == 37 && n - i >= 3 {
                assert(rest[1] == b[i + 1]);
                assert(rest[2] == b[i + 2]);
            }
            match pair {
                Some(v) => {
                    out.push(v);
                    assert(rest.skip(3) =~= b.skip(i + 3));
                    assert(before + (seq![v] + percent_decoded(b.skip(i + 3))) =~= out@ + percent_decoded(b.skip(i + 3)));
                    i = i + 3;
                },
                None => {
                    out.push(bytes[i]);
                    assert(rest.skip(1) =~= b.skip(i + 1));
                    assert(before + (seq![b[i as int]] + percent_decoded(b.skip(i + 1))) =~= out@ + percent_decoded(b.skip(i + 1)));
                    i = i + 1;
                },
            }
        }
    }
    assert(b.skip(n as int) =~= Seq::<u8>::empty());
    assert(out@ + Seq::<u8>::empty() =~= out@);
    out
}

/// Decodes a percent-encoded query value; bytes that are not UTF-8 become U+FFFD.
pub fn percent_decode(value: &str) -> (r: String)
    ensures
        r@ == decoded_text(value@),
        valid_utf8(percent_decoded(encode_utf8(value@))) ==> r@ == decode_utf8(
            percent_decoded(encode_utf8(value@)),
        ),
{
    let out = percent_decode_bytes(value);
    utf8_lossy(out.as_slice())
}

/// The position of the first whitespace character of `s`, or -1.
pub open spec fn find_ws(s: Seq<char>) -> int
    decreases s.len(),
{
    if s.len() == 0 {
        -1
    } else if is_ws(s[0]) {
        0
    } else {
        let r = find_ws(s.drop_first());
        if r < 0 {
            -1
        } else {
            r + 1
        }
    }
}

/// The whitespace-separated words of `s` (`str::split_whitespace`).
pub open spec fn words(s: Seq<char>) -> Seq<Seq<char>>
    decreases s.len(),
{
    if s.len() == 0 {
        Seq::empty()
    } else if is_ws(s[0]) {
        words(s.drop_first())
    } else {
        let e = find_ws(s);
        if e < 1 || e > s.len() {
            seq![s]
        } else {
            seq![s.take(e)] + words(s.skip(e))
        }
    }
}

proof fn lemma_find_ws(s: Seq<char>, i: int)
    requires
        0 <= i <= s.len(),
        forall|j: int| 0 <= j < i ==> !is_ws(s[j]),
        i < s.len() ==> is_ws(s[i]),
    ensures
        find_ws(s) == (if i < s.len() { i } else { -1 }),
    decreases s.len(),
{
    if s.len() > 0 && i > 0 {
        assert forall|j: int| 0 <= j < i - 1 implies !is_ws(s.drop_first()[j]) by {
            assert(s.drop_first()[j] == s[j + 1]);
        }
        lemma_find_ws(s.drop_first(), i - 1);
    }
}

/// Leading whitespace does not change the words.
proof fn lemma_words_skip_ws(s: Seq<char>, i: int)
    requires
        0 <= i <= s.len(),
        forall|j: int| 0 <= j < i ==> is_ws(s[j]),
    ensures
        words(s) == words(s.skip(i)),
    decreases i,
{
    if i == 0 {
        assert(s.skip(0) =~= s);
    } else {
        assert forall|j: int| 0 <= j < i - 1 implies is_ws(s.drop_first()[j]) by {
            assert(s.drop_first()[j] == s[j + 1]);
        }
        lemma_words_skip_ws(s.drop_first(), i - 1);
        assert(s.drop_first().skip(i - 1) =~= s.skip(i));
    }
}

/// A word at the front of `s`, ending at `e`.
proof fn lemma_words_word(s: Seq<char>, e: int)
    requires
        0 < e <= s.len(),
        forall|j: int| 0 <= j < e ==> !is_ws(s[j]),
        e < s.len() ==> is_ws(s[e]),
    ensures
        words(s) == seq![s.take(e)] + words(s.skip(e)),
{
    lemma_find_ws(s, e);
    if e == s.len() {
        assert(s.take(e) =~= s);
        assert(s.skip(e) =~= Seq::<char>::empty());
        assert(seq![s] + Seq::<Seq<char>>::empty() =~= seq![s]);
    }
}

/// The second word of `cs`, as a range of positions.
fn second_word(cs: &Vec<char>) -> (r: Option<(usize, usize)>)
    ensures
        match r {
            Some((a, b)) => a <= b <= cs@.len() && words(cs@).len() >= 2 && words(cs@)[1]
                == cs@.subrange(a as int, b as int),
            None => words(cs@).len() < 2,
        },
{
    let n = cs.len();
    let mut i: usize = 0;
    while i < n && is_whitespace(cs[i])
        invariant
            i <= n == cs@.len(),
            forall|j: int| 0 <= j < i ==> is_ws(cs@[j]),
        decreases n - i,
    {
        i = i + 1;
    }
    proof {
        lemma_words_skip_ws(cs@, i as int);
    }
    if i == n {
        assert(cs@.skip(i as int) =~= Seq::<char>::empty());
        return None;
    }
    let mut j: usize = i;
    while j < n && !is_whitespace(cs[j])
        invariant
            i <= j <= n == cs@.len(),
            forall|x: int| i <= x < j ==> !is_ws(cs@[x]),
        decreases n - j,
    {
        j = j + 1;
    }
    let ghost s1 = cs@.skip(i as int);
    proof {
        lemma_words_word(s1, j - i);
        assert(s1.skip(j - i) =~= cs@.skip(j as int));
    }
    let mut k: usize = j;
    while k < n && is_whitespace(cs[k])
        invariant
            j <= k <= n == cs@.len(),
            forall|x: int| j <= x < k ==> is_ws(cs@[x]),
        decreases n - k,
    {
        k = k + 1;
    }
    let ghost s2 = cs@.skip(j as int);
    proof {
        lemma_words_skip_ws(s2, k - j);
        assert(s2.skip(k - j) =~= cs@.skip(k as int));
    }
    if k == n {
        assert(cs@.skip(k as int) =~= Seq::<char>::empty());
        assert(words(cs@) =~= seq![s1.take(j - i)]);
        return None;
    }
    let mut l: usize = k;
    while l < n && !is_whitespace(cs[l])
        invariant
            k <= l <= n == cs@.len(),
            forall|x: int| k <= x < l ==> !is_ws(cs@[x]),
        decreases n - l,
    {
        l = l + 1;
    }
    let ghost s3 = cs@.skip(k as int);
    proof {
        lemma_words_word(s3, l - k);
        assert(s3.take(l - k) =~= cs@.subrange(k as int, l as int));
        let w = words(cs@);
        assert(w == seq![s1.take(j - i)] + (seq![s3.take(l - k)] + words(s3.skip(l - k))));
        assert(w[1] == s3.take(l - k));
    }
    Some((k, l))
}

/// `code` spelled as characters.
pub open spec fn code_name() -> Seq<char> {
    seq!['c', 'o', 'd', 'e']
}

/// `state` spelled as characters.
pub open spec fn state_name() -> Seq<char> {
    seq!['s', 't', 'a', 't', 'e']
}

/// The `code` and `state` a list of `key=value` query pairs sets, the later
/// pair winning; `None` as soon as a pair has no `=`.
pub open spec fn query_fields(
    pairs: Seq<Seq<char>>,
    code: Option<Seq<char>>,
    state: Option<Seq<char>>,
) -> Option<(Option<Seq<char>>, Option<Seq<char>>)>
    decreases pairs.len(),
{
    if pairs.len() == 0 {
        Some((code, state))
    } else {
        let p = pairs[0];
        let e = find_char(p, '=');
        if e < 0 {
            None
        } else {
            let k = p.take(e);
            let v = p.skip(e + 1);
            if k == code_name() {
                query_fields(pairs.drop_first(), Some(decoded_text(v)), state)
            } else if k == state_name() {
                query_fields(pairs.drop_first(), code, Some(decoded_text(v)))
            } else {
                query_fields(pairs.drop_first(), code, state)
            }
        }
    }
}

/// Whether a path is one the callback is served on: `/` or `/callback`.
pub open spec fn is_callback_path(path: Seq<char>) -> bool {
    path == seq!['/'] || path == seq!['/', 'c', 'a', 'l', 'l', 'b', 'a', 'c', 'k']
}

/// The code and state a request line carries: its second word is the target,
/// which must have a query after `?` and the path `/` or `/callback`; every
/// query pair must have a `=`; and both `code` and `state` must be set.
pub open spec fn callback_fields(line: Seq<char>) -> Option<(Seq<char>, Seq<char>)> {
    let ws = words(line);
    if ws.len() < 2 {
        None
    } else {
        let target = ws[1];
        let q = find_char(target, '?');
        if q < 0 {
            None
        } else if !is_callback_path(target.take(q)) {
            None
        } else {
            match query_fields(split_on(target.skip(q + 1), '&'), None, None) {
                Some((Some(code), Some(state))) => Some((code, state)),
                _ => None,
            }
        }
    }
}

/// Whether `cs[a..b]` is `name`.
fn range_is(cs: &Vec<char>, a: usize, b: usize, name: &str) -> (r: bool)
    requires
        a <= b <= cs@.len(),
    ensures
        r == (cs@.subrange(a as int, b as int) == name@),
{
    let ncs = chars_of(name);
    if b - a != ncs.len() {
        return false;
    }
    let mut i: usize = 0;
    while i < ncs.len()
        invariant
            a <= b <= cs@.len(),
            ncs@ == name@,
            b - a == ncs@.len(),
            i <= ncs@.len(),
            forall|x: int| 0 <= x < i ==> cs@[a + x] == ncs@[x],
        decreases ncs@.len() - i,
    {
        if cs[a + i] != ncs[i] {
            assert(cs@.subrange(a as int, b as int)[i as int] != name@[i as int]);
            return false;
        }
        i = i + 1;
    }
    assert(cs@.subrange(a as int, b as int) =~= name@);
    true
}

/// Reads the code and state out of the first line of a callback request.
pub fn parse_callback(request_line: &str) -> (r: Option<(String, String)>)
    ensures
        match r {
            Some((code, state)) => callback_fields(request_line@) == Some((code@, state@)),
            None => callback_fields(request_line@) is None,
        },
{
    let cs = chars_of(request_line);
    let (ta, tb) = match second_word(&cs) {
        Some(w) => w,
        None => {
            return None;
        },
    };
    let ghost target = cs@.subrange(ta as int, tb as int);
    let q = find_in(&cs, ta, tb, '?');
    if q == tb {
        return None;
    }
    assert(cs@.subrange(ta as int, q as int) =~= target.take(q - ta));
    proof {
        reveal_strlit("/");
        reveal_strlit("/callback");
    }
    let is_root = range_is(&cs, ta, q, "/");
    let is_legacy = range_is(&cs, ta, q, "/callback");
    assert(("/")@ =~= seq!['/']);
    assert(("/callback")@ =~= seq!['/', 'c', 'a', 'l', 'l', 'b', 'a', 'c', 'k']);
    if !is_root && !is_legacy {
        return None;
    }
    let ghost query = target.skip(q - ta + 1);
    assert(query =~= cs@.subrange(q + 1, tb as int));
    assert(callback_fields(request_line@) == match query_fields(split_on(query, '&'), None, None) {
        Some((Some(c), Some(s))) => Some((c, s)),
        _ => None,
    });
    let mut code: Option<String> = None;
    let mut state: Option<String> = None;
    let mut start: usize = q + 1;
    proof {
        reveal_strlit("code");
        reveal_strlit("state");
        assert(("code")@ =~= code_name());
        assert(("state")@ =~= state_name());
    }
    loop
        invariant_except_break
            query_fields(split_on(query, '&'), None, None) == query_fields(
                split_on(cs@.subrange(start as int, tb as int), '&'),
                match code { Some(c) => Some(c@), None => None },
                match state { Some(s) => Some(s@), None => None },
            ),
        invariant
            q + 1 <= start <= tb <= cs@.len(),
            cs@ == request_line@,
            callback_fields(request_line@) == match query_fields(split_on(query, '&'), None, None) {
                Some((Some(c), Some(s))) => Some((c, s)),
                _ => None,
            },
            ("code")@ == code_name(),
            ("state")@ == state_name(),
        ensures
            query_fields(split_on(query, '&'), None, None) == Some((
                match code { Some(c) => Some(c@), None => None },
                match state { Some(s) => Some(s@), None => None },
            )),
        decreases tb - start,
    {
        let ghost rest = cs@.subrange(start as int, tb as int);
        let amp = find_in(&cs, start, tb, '&');
        let ghost piece = cs@.subrange(start as int, amp as int);
        let ghost tail = if amp < tb {
            split_on(cs@.subrange(amp + 1, tb as int), '&')
        } else {
            Seq::<Seq<char>>::empty()
        };
        proof {
            lemma_find_char_facts(rest, '&');
            if amp < tb {
                assert(rest.take(amp - start) =~= piece);
                assert(rest.skip(amp - start + 1) =~= cs@.subrange(amp + 1, tb as int));
            } else {
                assert(piece =~= rest);
            }
            assert(split_on(rest, '&') == seq![piece] + tail);
            assert((seq![piece] + tail)[0] == piece);
            assert((seq![piece] + tail).drop_first() =~= tail);
        }
        let eq = find_in(&cs, start, amp, '=');
        if eq == amp {
            return None;
        }
        assert(cs@.subrange(start as int, eq as int) =~= piece.take(eq - start));
        assert(cs@.subrange(eq + 1, amp as int) =~= piece.skip(eq - start + 1));
        if range_is(&cs, start, eq, "code") {
            let raw = substring(request_line, eq + 1, amp);
            code = Some(percent_decode(raw.as_str()));
        } else if range_is(&cs, start, eq, "state") {
            let raw = substring(request_line, eq + 1, amp);
            state = Some(percent_decode(raw.as_str()));
        }
        if amp == tb {
            assert(query_fields(Seq::<Seq<char>>::empty(), 
                match code { Some(c) => Some(c@), None => None },
                match state { Some(s) => Some(s@), None => None }) == Some((
                match code { Some(c) => Some(c@), None => None },
                match state { Some(s) => Some(s@), None => None },
            )));
            break;
        }
        start = amp + 1;
    }
    match (code, state) {
        (Some(c), Some(s)) => Some((c, s)),
        _ => None,
    }
}

/// What the listener does with a request.
pub enum CallbackAction {
    /// The callback of this sign-in: answer with the success page and hand the code on.
    Accept(String),
    /// A callback for another sign-in: answer with the failure page and give up.
    Reject,
    /// Not a callback: answer 404 and keep listening.
    Ignore,
}

/// Decides what to do with the request whose first line is `request_line`, when
/// this sign-in was started with `expected_state`.
pub fn callback_action(request_line: &str, expected_state: &str) -> (r: CallbackAction)
    ensures
        match callback_fields(request_line@) {
            Some((code, state)) => if state == expected_state@ {
                r matches CallbackAction::Accept(c) && c@ == code
            } else {
                r is Reject
            },
            None => r is Ignore,
        },
{
    match parse_callback(request_line) {
        Some((code, state)) => {
            if string_eq(state.as_str(), expected_state) {
                CallbackAction::Accept(code)
            } else {
                CallbackAction::Reject
            }
        },
        None => CallbackAction::Ignore,
    }
}

/// Whether two strings are equal.
pub fn string_eq(a: &str, b: &str) -> (r: bool)
    ensures
        r == (a@ == b@),
{
    match crate::order::compare_keys(a, b) {
        crate::order::KeyOrder::Equal => true,
        _ => false,
    }
}

/// The text of an HTTP/1.1 response with an HTML body that closes the connection.
pub open spec fn response_text(status: Seq<char>, body: Seq<char>) -> Seq<char> {
    "HTTP/1.1 "@ + status + "\r\nContent-Type: text/html; charset=utf-8\r\nContent-Length: "@
        + decimal(encode_utf8(body).len()) + "\r\nConnection: close\r\n\r\n"@ + body
}

/// The response the listener writes for `status` and `body`.
pub fn http_response(status: &str, body: &str) -> (r: String)
    ensures
        r@ == response_text(status@, body@),
{
    let mut out = String::from_str("HTTP/1.1 ");
    out.append(status);
    out.append("\r\nContent-Type: text/html; charset=utf-8\r\nContent-Length: ");
    let len = decimal_string(body.as_bytes().len() as u64);
    out.append(len.as_str());
    out.append("\r\nConnection: close\r\n\r\n");
    out.append(body);
    out
}

/// Collects the request line from the bytes of a connection: a carriage
/// return is dropped, a line feed ends the line, and no more than
/// `MAX_REQUEST_LINE` bytes are kept.
pub struct RequestLine {
    buffer: Vec<u8>,
}

impl View for RequestLine {
    type V = Seq<u8>;

    closed spec fn view(&self) -> Seq<u8> {
        self.buffer@
    }
}

impl RequestLine {
    pub fn new() -> (r: RequestLine)
        ensures
            r@ == Seq::<u8>::empty(),
    {
        RequestLine { buffer: Vec::new() }
    }

    /// Whether another byte should be read.
    pub fn wants_more(&self) -> (r: bool)
        ensures
            r == (self@.len() < MAX_REQUEST_LINE),
    {
        self.buffer.len() < MAX_REQUEST_LINE
    }

    /// Takes one byte; returns whether the line has ended.
    pub fn push_byte(&mut self, byte: u8) -> (done: bool)
        ensures
            done == (byte == 10),
            final(self)@ == (if byte == 10 || byte == 13 { old(self)@ } else { old(self)@.push(byte) }),
    {
        if byte == 10 {
            return true;
        }
        if byte != 13 {
            self.buffer.push(byte);
        }
        false
    }

    /// The line read so far, as text.
    pub fn text(&self) -> (r: String)
        ensures
            r@ == lossy_text(self@),
    {
        utf8_lossy(self.buffer.as_slice())
    }
}

} // verus!

verus! {

/// The number the state falls back to when no random bytes can be read: the
/// clock's nanoseconds with the process id mixed into the top 32 bits.
pub open spec fn fallback_seed(nanos: u128, pid: u32) -> u128 {
    nanos ^ ((pid as u128) << 96u128)
}

/// The 16 little-endian bytes of the fallback number.
pub fn fallback_state_bytes(nanos: u128, pid: u32) -> (r: Vec<u8>)
    ensures
        r@.len() == 16,
        forall|i: int| 0 <= i < 16 ==> #[trigger] r@[i] == ((fallback_seed(nanos, pid) >> (8 * i) as u128) & 0xff) as u8,
{
    let mixed = nanos ^ ((pid as u128) << 96u128);
    let mut v = mixed;
    let mut out: Vec<u8> = Vec::new();
    let mut i: u32 = 0;
    assert(mixed >> 0u128 == mixed) by (bit_vector);
    while i < 16
        invariant
            i <= 16,
            mixed == fallback_seed(nanos, pid),
            v == mixed >> (8 * i) as u128,
            out@.len() == i,
            forall|j: int| 0 <= j < i ==> #[trigger] out@[j] == ((mixed >> (8 * j) as u128) & 0xff) as u8,
        decreases 16 - i,
    {
        out.push((v & 0xff) as u8);
        let ghost s = (8 * i) as u128;
        assert((mixed >> s) >> 8u128 == mixed >> (s + 8) as u128) by (bit_vector)
            requires
                s < 128,
        ;
        v = v >> 8u128;
        i = i + 1;
    }
    out
}

/// The sign-in state sent with the login URL and expected back on the
/// callback: the 16 state bytes as 32 lowercase hex digits, which need no
/// escaping in a URL.
pub fn state_text(bytes: &[u8; 16]) -> (r: String)
    ensures
        r@ == hex_text(bytes@),
        r@.len() == 32,
        forall|i: int| 0 <= i < 32 ==> is_hex_digit_char(#[trigger] r@[i]),
{
    let r = hex_lower(bytes.as_slice());
    proof {
        lemma_hex_text_shape(bytes@);
    }
    r
}

} // verus!
