//! Reading `.env` files: `KEY=value` lines, comments, blank lines, an optional
//! `export ` prefix and optionally quoted values.
use vstd::prelude::*;
use crate::strmap::{StringMap, pairs_to_map};
use crate::text::{
    chars_of, find_char, find_in, split_on, substring, trim, trim_bounds, starts_with,
    lemma_find_char_facts, lemma_find_char, lemma_trim_padded, is_ws,
};

verus! {

/// The `export ` prefix a line may carry.
pub open spec fn export_prefix() -> Seq<char> {
    seq!['e', 'x', 'p', 'o', 'r', 't', ' ']
}

/// A value without one pair of matching surrounding quotes, double quotes tried first.
pub open spec fn unquote(v: Seq<char>) -> Seq<char> {
    if v.len() >= 2 && ((v[0] == '"' && v.last() == '"') || (v[0] == '\'' && v.last() == '\'')) {
        v.subrange(1, v.len() - 1)
    } else {
        v
    }
}

/// The entry one line contributes, if any. The line is trimmed; an empty line
/// or one starting with `#` contributes nothing; an `export ` prefix is
/// dropped; the key is what comes before the first `=`, trimmed, and must not
/// be empty; the value is what follows, trimmed and unquoted.
pub open spec fn parse_line(line: Seq<char>) -> Option<(Seq<char>, Seq<char>)> {
    let t = trim(line);
    if t.len() == 0 || t[0] == '#' {
        None
    } else {
        let l = if starts_with(t, export_prefix()) { t.skip(7) } else { t };
        let e = find_char(l, '=');
        if e < 0 {
            None
        } else {
            let key = trim(l.take(e));
            if key.len() == 0 {
                None
            } else {
                Some((key, unquote(trim(l.skip(e + 1)))))
            }
        }
    }
}

/// The entries of a list of lines, in order.
pub open spec fn line_entries(lines: Seq<Seq<char>>) -> Seq<(Seq<char>, Seq<char>)>
    decreases lines.len(),
{
    if lines.len() == 0 {
        Seq::empty()
    } else {
        match parse_line(lines[0]) {
            Some(p) => seq![p] + line_entries(lines.drop_first()),
            None => line_entries(lines.drop_first()),
        }
    }
}

/// The entries of a file, in file order. Splitting at `\n` yields the same
/// lines as `str::lines`, except for a trailing `\r` and an empty last piece,
/// which trimming and the empty-line rule discard anyway.
pub open spec fn env_entries(content: Seq<char>) -> Seq<(Seq<char>, Seq<char>)> {
    line_entries(split_on(content, '\n'))
}

/// The entry of the line `cs[lo..hi]` of `content`.
fn parse_line_at(content: &str, cs: &Vec<char>, lo: usize, hi: usize) -> (r: Option<(String, String)>)
    requires
        cs@ == content@,
        lo <= hi <= cs@.len(),
    ensures
        match r {
            Some(p) => parse_line(cs@.subrange(lo as int, hi as int)) == Some((p.0@, p.1@)),
            None => parse_line(cs@.subrange(lo as int, hi as int)) is None,
        },
{
    let ghost line = cs@.subrange(lo as int, hi as int);
    let (a, b) = trim_bounds(cs, lo, hi);
    let ghost t = cs@.subrange(a as int, b as int);
    if a == b || cs[a] == '#' {
        return None;
    }
    let has_export = b - a >= 7 && cs[a] == 'e' && cs[a + 1] == 'x' && cs[a + 2] == 'p'
        && cs[a + 3] == 'o' && cs[a + 4] == 'r' && cs[a + 5] == 't' && cs[a + 6] == ' ';
    proof {
        if has_export {
            assert(t.take(7) =~= export_prefix());
        } else if t.len() >= 7 {
            if t.take(7) == export_prefix() {
                assert(t.take(7)[0] == t[0]);
                assert(t.take(7)[1] == t[1]);
                assert(t.take(7)[2] == t[2]);
                assert(t.take(7)[3] == t[3]);
                assert(t.take(7)[4] == t[4]);
                assert(t.take(7)[5] == t[5]);
                assert(t.take(7)[6] == t[6]);
            }
        }
    }
    let a2 = if has_export { a + 7 } else { a };
    let ghost l = cs@.subrange(a2 as int, b as int);
    assert(l =~= (if starts_with(t, export_prefix()) { t.skip(7) } else { t }));
    let e = find_in(cs, a2, b, '=');
    if e == b {
        return None;
    }
    let (ka, kb) = trim_bounds(cs, a2, e);
    assert(cs@.subrange(a2 as int, e as int) =~= l.take(e - a2));
    if ka == kb {
        return None;
    }
    let (va, vb) = trim_bounds(cs, e + 1, b);
    assert(cs@.subrange(e + 1, b as int) =~= l.skip(e - a2 + 1));
    let ghost v = cs@.subrange(va as int, vb as int);
    let quoted = vb - va >= 2 && ((cs[va] == '"' && cs[vb - 1] == '"') || (cs[va] == '\''
        && cs[vb - 1] == '\''));
    let (ua, ub) = if quoted { (va + 1, vb - 1) } else { (va, vb) };
    assert(cs@.subrange(ua as int, ub as int) =~= unquote(v));
    let key = substring(content, ka, kb);
    let value = substring(content, ua, ub);
    Some((key, value))
}

/// Reads the entries of `.env` text into a map; where a key repeats, the last
/// line wins.
pub fn parse(content: &str) -> (r: StringMap)
    ensures
        r.wf(),
        r.as_map() == pairs_to_map(env_entries(content@)),
{
    let cs = chars_of(content);
    let n = cs.len();
    let mut m = StringMap::new();
    let mut start: usize = 0;
    let ghost mut acc: Seq<(Seq<char>, Seq<char>)> = Seq::empty();
    assert(cs@.skip(0) =~= cs@);
    loop
        invariant_except_break
            env_entries(content@) == acc + line_entries(split_on(cs@.skip(start as int), '\n')),
        invariant
            cs@ == content@,
            n == cs@.len(),
            start <= n,
            m.wf(),
            m.as_map() == pairs_to_map(acc),
        ensures
            m.wf(),
            m.as_map() == pairs_to_map(env_entries(content@)),
        decreases n - start,
    {
        let end = find_in(&cs, start, n, '\n');
        let ghost rest = cs@.skip(start as int);
        let ghost line = cs@.subrange(start as int, end as int);
        proof {
            assert(rest =~= cs@.subrange(start as int, n as int));
            lemma_find_char_facts(rest, '\n');
            if end < n {
                assert(rest.take(end - start) =~= line);
                assert(rest.skip(end - start + 1) =~= cs@.skip(end + 1));
                assert(split_on(rest, '\n') == seq![line] + split_on(cs@.skip(end + 1), '\n'));
                assert((seq![line] + split_on(cs@.skip(end + 1), '\n')).drop_first()
                    =~= split_on(cs@.skip(end + 1), '\n'));
            } else {
                assert(line =~= rest);
                assert(split_on(rest, '\n') == seq![line]);
                assert(seq![line].drop_first() =~= Seq::<Seq<char>>::empty());
            }
        }
        let ghost tail = if end < n {
            split_on(cs@.skip(end + 1), '\n')
        } else {
            Seq::<Seq<char>>::empty()
        };
        assert(split_on(rest, '\n') == seq![line] + tail);
        assert((seq![line] + tail).drop_first() =~= tail);
        assert((seq![line] + tail)[0] == line);
        match parse_line_at(content, &cs, start, end) {
            Some((k, v)) => {
                let ghost p = (k@, v@);
                m.insert(k, v);
                proof {
                    assert(acc.push(p).drop_last() =~= acc);
                    assert(acc + (seq![p] + line_entries(tail)) =~= acc.push(p) + line_entries(tail));
                    acc = acc.push(p);
                }
            },
            None => {},
        }
        if end == n {
            assert(line_entries(Seq::<Seq<char>>::empty()) =~= Seq::<(Seq<char>, Seq<char>)>::empty());
            assert(acc + Seq::<(Seq<char>, Seq<char>)>::empty() =~= acc);
            break;
        }
        start = end + 1;
    }
    m
}

/// A line `KEY = "value"`, with any whitespace around the key, around `=` and
/// after the closing quote, gives the key and the value inside the quotes,
/// whatever the value holds: the value is trimmed first, then unquoted. The key
/// is a word without whitespace or `=` that does not start a comment and is not
/// the bare word `export`.
pub proof fn lemma_quoted_line(
    w1: Seq<char>,
    key: Seq<char>,
    w2: Seq<char>,
    w3: Seq<char>,
    value: Seq<char>,
    w4: Seq<char>,
)
    requires
        key.len() > 0,
        key[0] != '#',
        key != seq!['e', 'x', 'p', 'o', 'r', 't'],
        forall|j: int| 0 <= j < key.len() ==> !is_ws(#[trigger] key[j]) && key[j] != '=',
        forall|j: int| 0 <= j < w1.len() ==> is_ws(#[trigger] w1[j]),
        forall|j: int| 0 <= j < w2.len() ==> is_ws(#[trigger] w2[j]),
        forall|j: int| 0 <= j < w3.len() ==> is_ws(#[trigger] w3[j]),
        forall|j: int| 0 <= j < w4.len() ==> is_ws(#[trigger] w4[j]),
    ensures
        parse_line(w1 + key + w2 + seq!['='] + w3 + seq!['"'] + value + seq!['"'] + w4)
            == Some((key, value)),
{
    let q = seq!['"'] + value + seq!['"'];
    let tail = seq!['='] + w3 + q;
    let t = key + w2 + tail;
    let line = w1 + key + w2 + seq!['='] + w3 + seq!['"'] + value + seq!['"'] + w4;
    assert(line =~= w1 + t + w4);
    assert(t[0] == key[0]);
    assert(t.last() == '"');
    lemma_trim_padded(w1, t, w4);
    assert(trim(line) == t);
    let n: int = key.len() as int;
    // No `export ` prefix.
    if starts_with(t, export_prefix()) {
        assert(t.take(7)[6] == ' ');
        if n >= 7 {
            assert(t[6] == key[6]);
        } else if n == 6 {
            assert forall|j: int| 0 <= j < 6 implies key[j] == export_prefix()[j] by {
                assert(t[j] == key[j]);
                assert(t.take(7)[j] == t[j]);
            }
            assert(key =~= seq!['e', 'x', 'p', 'o', 'r', 't']);
        } else {
            assert(t.take(7)[n] == t[n]);
            if w2.len() > 0 {
                assert(t[n] == w2[0]);
            } else {
                assert(t[n] == '=');
            }
        }
    }
    // The first `=` follows the key and its padding.
    let e: int = n + w2.len();
    assert forall|j: int| 0 <= j < e implies t[j] != '=' by {
        if j < n {
            assert(t[j] == key[j]);
        } else {
            assert(t[j] == w2[j - n]);
        }
    }
    assert(t[e] == '=');
    lemma_find_char(t, '=', e);
    assert(t.take(e) =~= key + w2);
    lemma_trim_padded(Seq::<char>::empty(), key, w2);
    assert(Seq::<char>::empty() + key + w2 =~= key + w2);
    assert(t.skip(e + 1) =~= w3 + q);
    assert(q[0] == '"' && q.last() == '"');
    lemma_trim_padded(w3, q, Seq::<char>::empty());
    assert(w3 + q + Seq::<char>::empty() =~= w3 + q);
    assert(q.subrange(1, q.len() - 1) =~= value);
}

} // verus!
