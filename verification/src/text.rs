use vstd::prelude::*;
use vstd::string::*;
use vstd::utf8::*;

verus! {

/// Unicode `White_Space` characters, the set that `char::is_whitespace` tests.
pub open spec fn is_ws(c: char) -> bool {
    ||| c == ' '
    ||| ('\t' <= c && c <= '\r')
    ||| c == '\u{85}'
    ||| c == '\u{A0}'
    ||| c == '\u{1680}'
    ||| ('\u{2000}' <= c && c <= '\u{200A}')
    ||| c == '\u{2028}'
    ||| c == '\u{2029}'
    ||| c == '\u{202F}'
    ||| c == '\u{205F}'
    ||| c == '\u{3000}'
}

pub fn is_whitespace(c: char) -> (r: bool)
    ensures
        r == is_ws(c),
{
    c == ' ' || ('\t' <= c && c <= '\r') || c == '\u{85}' || c == '\u{A0}' || c == '\u{1680}'
        || ('\u{2000}' <= c && c <= '\u{200A}') || c == '\u{2028}' || c == '\u{2029}'
        || c == '\u{202F}' || c == '\u{205F}' || c == '\u{3000}'
}

} // verus!

verus! {

/// The characters of `s`, in order.
pub fn chars_of(s: &str) -> (r: Vec<char>)
    ensures
        r@ == s@,
{
    let n = s.unicode_len();
    let mut out: Vec<char> = Vec::new();
    let mut i: usize = 0;
    while i < n
        invariant
            n == s@.len(),
            i <= n,
            out@ == s@.take(i as int),
        decreases n - i,
    {
        out.push(s.get_char(i));
        i = i + 1;
        assert(out@ =~= s@.take(i as int));
    }
    assert(out@ =~= s@);
    out
}

} // verus!

verus! {

/// `s` without its leading whitespace (`str::trim_start`).
pub open spec fn trim_start(s: Seq<char>) -> Seq<char>
    decreases s.len(),
{
    if s.len() > 0 && is_ws(s[0]) {
        trim_start(s.drop_first())
    } else {
        s
    }
}

/// `s` without its trailing whitespace (`str::trim_end`).
pub open spec fn trim_end(s: Seq<char>) -> Seq<char>
    decreases s.len(),
{
    if s.len() > 0 && is_ws(s.last()) {
        trim_end(s.drop_last())
    } else {
        s
    }
}

/// `s` without leading and trailing whitespace (`str::trim`).
pub open spec fn trim(s: Seq<char>) -> Seq<char> {
    trim_end(trim_start(s))
}

/// `s` without every trailing `c` (`str::trim_end_matches` with a `char`).
pub open spec fn trim_end_char(s: Seq<char>, c: char) -> Seq<char>
    decreases s.len(),
{
    if s.len() > 0 && s.last() == c {
        trim_end_char(s.drop_last(), c)
    } else {
        s
    }
}

/// Whether `s` begins with `p`.
pub open spec fn starts_with(s: Seq<char>, p: Seq<char>) -> bool {
    s.len() >= p.len() && s.take(p.len() as int) == p
}

/// Whether `s` ends with `p`.
pub open spec fn ends_with(s: Seq<char>, p: Seq<char>) -> bool {
    s.len() >= p.len() && s.skip(s.len() - p.len()) == p
}

/// The position of the first `c` in `s`, or -1 when there is none.
pub open spec fn find_char(s: Seq<char>, c: char) -> int
    decreases s.len(),
{
    if s.len() == 0 {
        -1
    } else if s[0] == c {
        0
    } else {
        let r = find_char(s.drop_first(), c);
        if r < 0 {
            -1
        } else {
            r + 1
        }
    }
}

/// The pieces of `s` between the occurrences of `c` (`str::split` with a `char`):
/// one more piece than there are separators.
pub open spec fn split_on(s: Seq<char>, c: char) -> Seq<Seq<char>>
    decreases s.len(),
{
    let i = find_char(s, c);
    if i < 0 || i >= s.len() {
        seq![s]
    } else {
        seq![s.take(i)] + split_on(s.skip(i + 1), c)
    }
}

/// `find_char` is the first position of `c`.
pub proof fn lemma_find_char(s: Seq<char>, c: char, i: int)
    requires
        0 <= i <= s.len(),
        forall|j: int| 0 <= j < i ==> s[j] != c,
        i < s.len() ==> s[i] == c,
    ensures
        find_char(s, c) == (if i < s.len() { i } else { -1 }),
    decreases s.len(),
{
    if s.len() > 0 && i > 0 {
        assert forall|j: int| 0 <= j < i - 1 implies s.drop_first()[j] != c by {
            assert(s.drop_first()[j] == s[j + 1]);
        }
        lemma_find_char(s.drop_first(), c, i - 1);
    }
}

/// What `find_char` reports about `s`.
pub proof fn lemma_find_char_facts(s: Seq<char>, c: char)
    ensures
        -1 <= find_char(s, c) < s.len(),
        find_char(s, c) >= 0 ==> s[find_char(s, c)] == c,
        forall|j: int| 0 <= j < s.len() && (find_char(s, c) < 0 || j < find_char(s, c)) ==> s[j] != c,
    decreases s.len(),
{
    if s.len() > 0 && s[0] != c {
        lemma_find_char_facts(s.drop_first(), c);
        assert forall|j: int| 0 <= j < s.len() && (find_char(s, c) < 0 || j < find_char(s, c)) implies s[j] != c by {
            if j > 0 {
                assert(s[j] == s.drop_first()[j - 1]);
            }
        }
    }
}

/// Skipping a run of leading whitespace that ends at `i` (or at the end) gives the trimmed text.
pub proof fn lemma_trim_start_skip(s: Seq<char>, i: int)
    requires
        0 <= i <= s.len(),
        forall|j: int| 0 <= j < i ==> is_ws(s[j]),
        i < s.len() ==> !is_ws(s[i]),
    ensures
        trim_start(s) == s.skip(i),
    decreases s.len(),
{
    if i == 0 {
        assert(s.skip(0) =~= s);
    } else {
        assert forall|j: int| 0 <= j < i - 1 implies is_ws(s.drop_first()[j]) by {
            assert(s.drop_first()[j] == s[j + 1]);
        }
        lemma_trim_start_skip(s.drop_first(), i - 1);
        assert(s.drop_first().skip(i - 1) =~= s.skip(i));
    }
}

/// Dropping trailing whitespace.
pub proof fn lemma_trim_end_take(s: Seq<char>, i: int)
    requires
        0 <= i <= s.len(),
        forall|j: int| i <= j < s.len() ==> is_ws(s[j]),
        i > 0 ==> !is_ws(s[i - 1]),
    ensures
        trim_end(s) == s.take(i),
    decreases s.len(),
{
    if i == s.len() {
        assert(s.take(i) =~= s);
    } else {
        assert forall|j: int| i <= j < s.drop_last().len() implies is_ws(s.drop_last()[j]) by {
        }
        lemma_trim_end_take(s.drop_last(), i);
        assert(s.drop_last().take(i) =~= s.take(i));
    }
}

/// Dropping trailing `c`s.
pub proof fn lemma_trim_end_char_take(s: Seq<char>, c: char, i: int)
    requires
        0 <= i <= s.len(),
        forall|j: int| i <= j < s.len() ==> s[j] == c,
        i > 0 ==> s[i - 1] != c,
    ensures
        trim_end_char(s, c) == s.take(i),
    decreases s.len(),
{
    if i == s.len() {
        assert(s.take(i) =~= s);
    } else {
        lemma_trim_end_char_take(s.drop_last(), c, i);
        assert(s.drop_last().take(i) =~= s.take(i));
    }
}

/// The bounds of `trim(cs[lo..hi])` inside `cs`.
pub fn trim_bounds(cs: &Vec<char>, lo: usize, hi: usize) -> (r: (usize, usize))
    requires
        lo <= hi <= cs@.len(),
    ensures
        lo <= r.0 <= r.1 <= hi,
        cs@.subrange(r.0 as int, r.1 as int) == trim(cs@.subrange(lo as int, hi as int)),
{
    let mut a = lo;
    while a < hi && is_whitespace(cs[a])
        invariant
            lo <= a <= hi <= cs@.len(),
            forall|j: int| lo <= j < a ==> is_ws(cs@[j]),
        decreases hi - a,
    {
        a = a + 1;
    }
    proof {
        let s = cs@.subrange(lo as int, hi as int);
        lemma_trim_start_skip(s, a - lo);
        assert(s.skip(a - lo) =~= cs@.subrange(a as int, hi as int));
    }
    let mut b = hi;
    while b > a && is_whitespace(cs[b - 1])
        invariant
            a <= b <= hi <= cs@.len(),
            forall|j: int| b <= j < hi ==> is_ws(cs@[j]),
        decreases b - a,
    {
        b = b - 1;
    }
    proof {
        let t = cs@.subrange(a as int, hi as int);
        lemma_trim_end_take(t, b - a);
        assert(t.take(b - a) =~= cs@.subrange(a as int, b as int));
    }
    (a, b)
}

/// The first position of `c` in `cs[lo..hi]`, or `hi` when there is none.
pub fn find_in(cs: &Vec<char>, lo: usize, hi: usize, c: char) -> (r: usize)
    requires
        lo <= hi <= cs@.len(),
    ensures
        lo <= r <= hi,
        r < hi ==> cs@[r as int] == c,
        forall|j: int| lo <= j < r ==> cs@[j] != c,
        find_char(cs@.subrange(lo as int, hi as int), c) == (if r < hi { r - lo } else { -1 }),
{
    let mut i = lo;
    while i < hi && cs[i] != c
        invariant
            lo <= i <= hi <= cs@.len(),
            forall|j: int| lo <= j < i ==> cs@[j] != c,
        decreases hi - i,
    {
        i = i + 1;
    }
    proof {
        lemma_find_char(cs@.subrange(lo as int, hi as int), c, i - lo);
    }
    i
}

/// The string made of the characters `from..to` of `s`.
pub fn substring(s: &str, from: usize, to: usize) -> (r: String)
    requires
        from <= to <= s@.len(),
    ensures
        r@ == s@.subrange(from as int, to as int),
{
    String::from_str(s.substring_char(from, to))
}

} // verus!

verus! {

/// Names the text that `String::from_utf8_lossy` makes of `bytes`.
pub uninterp spec fn lossy_text(bytes: Seq<u8>) -> Seq<char>;

/// Calls `String::from_utf8_lossy` and takes ownership of the result. Claimed of
/// it: the result depends on the bytes alone, and when they are valid UTF-8 it
/// is exactly the text they encode (the documentation says valid input comes
/// back unchanged). What it makes of invalid input, where each invalid sequence
/// becomes U+FFFD, is left to the name `lossy_text`.
#[verifier::external_body]
pub fn utf8_lossy(bytes: &[u8]) -> (r: String)
    ensures
        r@ == lossy_text(bytes@),
        valid_utf8(bytes@) ==> r@ == decode_utf8(bytes@),
{
    String::from_utf8_lossy(bytes).into_owned()
}

/// The decimal digits of `n`, without leading zeros ("0" for zero).
pub open spec fn decimal(n: nat) -> Seq<char>
    decreases n,
{
    if n < 10 {
        seq![digit_char(n)]
    } else {
        decimal(n / 10).push(digit_char(n % 10))
    }
}

/// The character of a decimal digit.
pub open spec fn digit_char(d: nat) -> char {
    if d == 0 { '0' }
    else if d == 1 { '1' }
    else if d == 2 { '2' }
    else if d == 3 { '3' }
    else if d == 4 { '4' }
    else if d == 5 { '5' }
    else if d == 6 { '6' }
    else if d == 7 { '7' }
    else if d == 8 { '8' }
    else { '9' }
}

/// `decimal(n)` padded on the left with zeros to at least `width` characters,
/// as `{:0width$}` prints it.
pub open spec fn zero_padded(n: nat, width: nat) -> Seq<char> {
    let d = decimal(n);
    if d.len() >= width {
        d
    } else {
        Seq::new((width - d.len()) as nat, |i: int| '0') + d
    }
}

/// The ASCII byte of a decimal digit.
fn digit_byte(d: u64) -> (r: u8)
    requires
        d < 10,
    ensures
        r as char == digit_char(d as nat),
        r < 128,
{
    if d == 0 { 48 }
    else if d == 1 { 49 }
    else if d == 2 { 50 }
    else if d == 3 { 51 }
    else if d == 4 { 52 }
    else if d == 5 { 53 }
    else if d == 6 { 54 }
    else if d == 7 { 55 }
    else if d == 8 { 56 }
    else { 57 }
}

/// The ASCII text of `bytes`, all of which are below 128.
pub open spec fn ascii_text(bytes: Seq<u8>) -> Seq<char> {
    bytes.map_values(|b: u8| b as char)
}

proof fn lemma_ascii_valid(bytes: Seq<u8>)
    requires
        forall|i: int| 0 <= i < bytes.len() ==> bytes[i] < 128,
    ensures
        valid_utf8(bytes),
        decode_utf8(bytes) == ascii_text(bytes),
{
    let cs = ascii_text(bytes);
    assert(is_ascii_chars(cs));
    is_ascii_chars_encode_utf8(cs);
    assert(encode_utf8(cs) =~= bytes);
    encode_utf8_valid_utf8(cs);
    encode_utf8_decode_utf8(cs);
}

/// The string of ASCII bytes.
pub fn ascii_string(bytes: &[u8]) -> (r: String)
    requires
        forall|i: int| 0 <= i < bytes@.len() ==> bytes@[i] < 128,
    ensures
        r@ == ascii_text(bytes@),
{
    proof {
        lemma_ascii_valid(bytes@);
    }
    utf8_lossy(bytes)
}

/// The decimal digits of `n`, most significant first, as ASCII bytes.
fn decimal_bytes(n: u64) -> (r: Vec<u8>)
    ensures
        ascii_text(r@) == decimal(n as nat),
        forall|i: int| 0 <= i < r@.len() ==> r@[i] < 128,
    decreases n,
{
    if n < 10 {
        let mut v: Vec<u8> = Vec::new();
        v.push(digit_byte(n));
        assert(ascii_text(v@) =~= decimal(n as nat));
        v
    } else {
        let mut v = decimal_bytes(n / 10);
        let ghost before = v@;
        v.push(digit_byte(n % 10));
        assert(ascii_text(v@) =~= ascii_text(before).push(digit_char((n % 10) as nat)));
        v
    }
}

/// `n` in decimal.
pub fn decimal_string(n: u64) -> (r: String)
    ensures
        r@ == decimal(n as nat),
{
    let v = decimal_bytes(n);
    ascii_string(v.as_slice())
}

/// `n` in decimal, zero-padded to `width` characters.
pub fn zero_padded_string(n: u64, width: usize) -> (r: String)
    ensures
        r@ == zero_padded(n as nat, width as nat),
{
    let digits = decimal_bytes(n);
    let mut v: Vec<u8> = Vec::new();
    let pad: usize = if digits.len() >= width { 0 } else { width - digits.len() };
    let mut i: usize = 0;
    while i < pad
        invariant
            i <= pad,
            v@ == Seq::new(i as nat, |j: int| 48u8),
        decreases pad - i,
    {
        v.push(48u8);
        assert(v@ =~= Seq::new((i + 1) as nat, |j: int| 48u8));
        i = i + 1;
    }
    let ghost zeros = v@;
    let mut k: usize = 0;
    while k < digits.len()
        invariant
            k <= digits@.len(),
            v@ == zeros + digits@.take(k as int),
            zeros == Seq::new(pad as nat, |j: int| 48u8),
        decreases digits@.len() - k,
    {
        v.push(digits[k]);
        assert(v@ =~= zeros + digits@.take(k + 1));
        k = k + 1;
    }
    assert(digits@.take(digits@.len() as int) =~= digits@);
    assert(forall|j: int| 0 <= j < v@.len() ==> v@[j] < 128) by {
        assert forall|j: int| 0 <= j < v@.len() implies v@[j] < 128 by {
            if j >= pad {
                assert(v@[j] == digits@[j - pad]);
            }
        }
    }
    let r = ascii_string(v.as_slice());
    assert(ascii_text(v@) =~= zero_padded(n as nat, width as nat)) by {
        assert(ascii_text(zeros) =~= Seq::new(pad as nat, |j: int| '0'));
        assert(ascii_text(v@) =~= ascii_text(zeros) + ascii_text(digits@));
    }
    r
}

} // verus!

verus! {

/// `n` in decimal, with a `-` when negative.
pub open spec fn signed_decimal(n: int) -> Seq<char> {
    if n < 0 {
        seq!['-'] + decimal((-n) as nat)
    } else {
        decimal(n as nat)
    }
}

pub fn signed_decimal_string(n: i32) -> (r: String)
    ensures
        r@ == signed_decimal(n as int),
{
    if n < 0 {
        let mut out = String::from_str("-");
        let digits = decimal_string((-(n as i64)) as u64);
        out.append(digits.as_str());
        proof {
            reveal_strlit("-");
        }
        assert(out@ =~= seq!['-'] + decimal((-n) as nat));
        out
    } else {
        decimal_string(n as u64)
    }
}

/// The widest of `values` in bytes, and at least `min`.
pub open spec fn column_width(values: Seq<Seq<char>>, min: nat) -> nat
    decreases values.len(),
{
    if values.len() == 0 {
        min
    } else {
        let w = column_width(values.drop_last(), min);
        let l = encode_utf8(values.last()).len();
        if l > w { l } else { w }
    }
}

/// The width of a table column: the longest value's length in bytes, and at
/// least `min`.
pub fn column_width_of(values: &[String], min: usize) -> (r: usize)
    ensures
        r == column_width(values@.map_values(|s: String| s@), min as nat),
{
    let ghost vs = values@.map_values(|s: String| s@);
    let n = values.len();
    let mut w = min;
    let mut i: usize = 0;
    assert(vs.take(0).len() == 0);
    while i < n
        invariant
            n == values@.len(),
            vs == values@.map_values(|s: String| s@),
            i <= n,
            w == column_width(vs.take(i as int), min as nat),
        decreases n - i,
    {
        assert(vs.take(i + 1).drop_last() =~= vs.take(i as int));
        assert(vs.take(i + 1).last() == values@[i as int]@);
        let l = values[i].as_str().as_bytes().len();
        if l > w {
            w = l;
        }
        i = i + 1;
    }
    assert(vs.take(n as int) =~= vs);
    w
}

/// Lowercase hexadecimal digits of a value below 16.
pub open spec fn hex_char(v: nat) -> char {
    if v < 10 { digit_char(v) } else if v == 10 { 'a' } else if v == 11 { 'b' } else if v == 12 { 'c' }
    else if v == 13 { 'd' } else if v == 14 { 'e' } else { 'f' }
}

/// Each byte as two lowercase hexadecimal digits (`{:02x}`), in order.
pub open spec fn hex_text(bytes: Seq<u8>) -> Seq<char>
    decreases bytes.len(),
{
    if bytes.len() == 0 {
        Seq::empty()
    } else {
        hex_text(bytes.drop_last()) + seq![hex_char((bytes.last() / 16) as nat), hex_char((bytes.last() % 16) as nat)]
    }
}

fn hex_byte(v: u8) -> (r: u8)
    requires
        v < 16,
    ensures
        r as char == hex_char(v as nat),
        r < 128,
{
    if v < 10 {
        digit_byte(v as u64)
    } else {
        v + 87
    }
}

/// The lowercase hexadecimal text of some bytes.
pub fn hex_lower(bytes: &[u8]) -> (r: String)
    ensures
        r@ == hex_text(bytes@),
{
    let n = bytes.len();
    let mut out: Vec<u8> = Vec::new();
    let mut i: usize = 0;
    assert(bytes@.take(0).len() == 0);
    assert(ascii_text(out@) =~= hex_text(bytes@.take(0)));
    while i < n
        invariant
            n == bytes@.len(),
            i <= n,
            ascii_text(out@) == hex_text(bytes@.take(i as int)),
            forall|j: int| 0 <= j < out@.len() ==> out@[j] < 128,
        decreases n - i,
    {
        let ghost before = out@;
        assert(bytes@.take(i + 1).drop_last() =~= bytes@.take(i as int));
        assert(bytes@.take(i + 1).last() == bytes@[i as int]);
        out.push(hex_byte(bytes[i] / 16));
        out.push(hex_byte(bytes[i] % 16));
        assert(ascii_text(out@) =~= ascii_text(before) + seq![hex_char((bytes@[i as int] / 16) as nat), hex_char((bytes@[i as int] % 16) as nat)]);
        i = i + 1;
    }
    assert(bytes@.take(n as int) =~= bytes@);
    ascii_string(out.as_slice())
}

} // verus!

verus! {

/// The code of `c`, with an ASCII capital turned into its small letter.
pub open spec fn ascii_lower(c: char) -> u32 {
    if 'A' <= c && c <= 'Z' {
        ((c as u32) + 32) as u32
    } else {
        c as u32
    }
}

/// Equality up to ASCII case (`str::eq_ignore_ascii_case`).
pub open spec fn eq_ignore_ascii_case(a: Seq<char>, b: Seq<char>) -> bool {
    a.len() == b.len() && forall|i: int| 0 <= i < a.len() ==> ascii_lower(#[trigger] a[i]) == ascii_lower(b[i])
}

fn lower_char(c: char) -> (r: u32)
    ensures
        r == ascii_lower(c),
{
    if 'A' <= c && c <= 'Z' {
        (c as u32) + 32
    } else {
        c as u32
    }
}

/// Whether `cs[a..b]` equals `target` up to ASCII case.
pub fn range_eq_ignore_ascii_case(cs: &Vec<char>, a: usize, b: usize, target: &str) -> (r: bool)
    requires
        a <= b <= cs@.len(),
    ensures
        r == eq_ignore_ascii_case(cs@.subrange(a as int, b as int), target@),
{
    let t = chars_of(target);
    let ghost s = cs@.subrange(a as int, b as int);
    if b - a != t.len() {
        return false;
    }
    let mut i: usize = 0;
    while i < t.len()
        invariant
            a <= b <= cs@.len(),
            s == cs@.subrange(a as int, b as int),
            t@ == target@,
            b - a == t@.len(),
            i <= t@.len(),
            forall|x: int| 0 <= x < i ==> ascii_lower(#[trigger] s[x]) == ascii_lower(t@[x]),
        decreases t@.len() - i,
    {
        assert(s[i as int] == cs@[a + i]);
        if lower_char(cs[a + i]) != lower_char(t[i]) {
            return false;
        }
        i = i + 1;
    }
    true
}

/// The decimal value of a run of ASCII digits.
pub open spec fn digits_value(s: Seq<char>) -> nat
    decreases s.len(),
{
    if s.len() == 0 {
        0
    } else {
        digits_value(s.drop_last()) * 10 + ((s.last() as u32) - 48) as nat
    }
}

/// Whether every character is an ASCII digit.
pub open spec fn all_digits(s: Seq<char>) -> bool {
    forall|i: int| 0 <= i < s.len() ==> '0' <= #[trigger] s[i] && s[i] <= '9'
}

/// What `str::parse::<usize>` accepts: an optional `+`, then one or more
/// ASCII digits whose value fits in a `usize`.
pub open spec fn parsed_usize(s: Seq<char>) -> Option<nat> {
    let d = if s.len() > 0 && s[0] == '+' { s.skip(1) } else { s };
    if d.len() > 0 && all_digits(d) && digits_value(d) <= usize::MAX {
        Some(digits_value(d))
    } else {
        None
    }
}

proof fn lemma_digits_value_grows(s: Seq<char>, k: int)
    requires
        0 <= k <= s.len(),
        all_digits(s),
    ensures
        digits_value(s.take(k)) <= digits_value(s),
    decreases s.len(),
{
    if k < s.len() {
        assert(all_digits(s.drop_last()));
        lemma_digits_value_grows(s.drop_last(), k);
        assert(s.drop_last().take(k) =~= s.take(k));
    } else {
        assert(s.take(k) =~= s);
    }
}

/// Parses `cs[a..b]` as `str::parse::<usize>` does.
pub fn parse_usize_range(cs: &Vec<char>, a: usize, b: usize) -> (r: Option<usize>)
    requires
        a <= b <= cs@.len(),
    ensures
        match r {
            Some(v) => parsed_usize(cs@.subrange(a as int, b as int)) == Some(v as nat),
            None => parsed_usize(cs@.subrange(a as int, b as int)) is None,
        },
{
    let ghost s = cs@.subrange(a as int, b as int);
    let start = if a < b && cs[a] == '+' { a + 1 } else { a };
    let ghost d = cs@.subrange(start as int, b as int);
    assert(d =~= (if s.len() > 0 && s[0] == '+' { s.skip(1) } else { s }));
    if start == b {
        return None;
    }
    let mut acc: usize = 0;
    let mut i: usize = start;
    while i < b
        invariant
            start <= i <= b <= cs@.len(),
            a <= start,
            s == cs@.subrange(a as int, b as int),
            d == (if s.len() > 0 && s[0] == '+' { s.skip(1) } else { s }),
            d.len() > 0,
            d == cs@.subrange(start as int, b as int),
            all_digits(cs@.subrange(start as int, i as int)),
            acc as nat == digits_value(cs@.subrange(start as int, i as int)),
        decreases b - i,
    {
        let c = cs[i];
        if c < '0' || c > '9' {
            assert(d[i - start] == c);
            assert(!all_digits(d));
            return None;
        }
        let dv = (c as u32 - 48) as usize;
        assert(cs@.subrange(start as int, i + 1).drop_last() =~= cs@.subrange(start as int, i as int));
        if acc > (usize::MAX - dv) / 10 {
            proof {
                let p = cs@.subrange(start as int, i + 1);
                assert(digits_value(p) == acc * 10 + dv);
                assert(acc * 10 + dv > usize::MAX) by (nonlinear_arith)
                    requires
                        acc > (usize::MAX - dv) / 10,
                        dv <= 9,
                ;
                if all_digits(d) {
                    lemma_digits_value_grows(d, (i + 1 - start) as int);
                    assert(d.take((i + 1 - start) as int) =~= p);
                }
            }
            return None;
        }
        acc = acc * 10 + dv;
        i = i + 1;
    }
    Some(acc)
}

} // verus!

verus! {

/// A lowercase hexadecimal digit.
pub open spec fn is_hex_digit_char(c: char) -> bool {
    ('0' <= c && c <= '9') || ('a' <= c && c <= 'f')
}

/// Hex text is two digits per byte, all of them `0`-`9` or `a`-`f`: it is safe
/// to put in a URL as it is.
pub proof fn lemma_hex_text_shape(bytes: Seq<u8>)
    ensures
        hex_text(bytes).len() == 2 * bytes.len(),
        forall|i: int| 0 <= i < hex_text(bytes).len() ==> is_hex_digit_char(#[trigger] hex_text(bytes)[i]),
    decreases bytes.len(),
{
    if bytes.len() > 0 {
        lemma_hex_text_shape(bytes.drop_last());
        let prev = hex_text(bytes.drop_last());
        let hi = hex_char((bytes.last() / 16) as nat);
        let lo = hex_char((bytes.last() % 16) as nat);
        assert forall|i: int| 0 <= i < hex_text(bytes).len() implies is_hex_digit_char(#[trigger] hex_text(bytes)[i]) by {
            if i < prev.len() {
                assert(hex_text(bytes)[i] == prev[i]);
            } else if i == prev.len() {
                assert(hex_text(bytes)[i] == hi);
            } else {
                assert(hex_text(bytes)[i] == lo);
            }
        }
    }
}

/// Distinct digit values have distinct hex digits.
proof fn lemma_hex_char_injective(a: nat, b: nat)
    requires
        a < 16,
        b < 16,
        hex_char(a) == hex_char(b),
    ensures
        a == b,
{
}

/// Hex text tells its bytes apart: equal text comes only from equal bytes, so
/// distinct bytes give distinct states.
pub proof fn lemma_hex_text_injective(a: Seq<u8>, b: Seq<u8>)
    requires
        hex_text(a) == hex_text(b),
    ensures
        a == b,
    decreases a.len(),
{
    lemma_hex_text_shape(a);
    lemma_hex_text_shape(b);
    if a.len() > 0 {
        let ta = hex_text(a);
        let n = ta.len();
        let x = a.last();
        let y = b.last();
        assert(ta[n - 2] == hex_char((x / 16) as nat));
        assert(ta[n - 1] == hex_char((x % 16) as nat));
        assert(hex_text(b)[n - 2] == hex_char((y / 16) as nat));
        assert(hex_text(b)[n - 1] == hex_char((y % 16) as nat));
        lemma_hex_char_injective((x / 16) as nat, (y / 16) as nat);
        lemma_hex_char_injective((x % 16) as nat, (y % 16) as nat);
        assert(x == y) by (nonlinear_arith)
            requires
                x / 16 == y / 16,
                x % 16 == y % 16,
        ;
        assert(hex_text(a.drop_last()) =~= ta.take(n - 2));
        assert(hex_text(b.drop_last()) =~= hex_text(b).take(n - 2));
        lemma_hex_text_injective(a.drop_last(), b.drop_last());
        assert(a =~= a.drop_last().push(x));
        assert(b =~= b.drop_last().push(y));
    }
}

/// Trimming text padded with whitespace on both sides gives the text back, when
/// the text itself starts and ends with something else.
pub proof fn lemma_trim_padded(w1: Seq<char>, s: Seq<char>, w2: Seq<char>)
    requires
        s.len() > 0,
        !is_ws(s[0]),
        !is_ws(s.last()),
        forall|j: int| 0 <= j < w1.len() ==> is_ws(#[trigger] w1[j]),
        forall|j: int| 0 <= j < w2.len() ==> is_ws(#[trigger] w2[j]),
    ensures
        trim(w1 + s + w2) == s,
{
    let full = w1 + s + w2;
    assert forall|j: int| 0 <= j < w1.len() implies is_ws(full[j]) by {
        assert(full[j] == w1[j]);
    }
    assert(full[w1.len() as int] == s[0]);
    lemma_trim_start_skip(full, w1.len() as int);
    let rest = full.skip(w1.len() as int);
    assert(rest =~= s + w2);
    assert forall|j: int| s.len() <= j < rest.len() implies is_ws(rest[j]) by {
        assert(rest[j] == w2[j - s.len()]);
    }
    assert(rest[s.len() - 1] == s.last());
    lemma_trim_end_take(rest, s.len() as int);
    assert(rest.take(s.len() as int) =~= s);
}

} // verus!
