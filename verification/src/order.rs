//! The order in which `String` keys sort: byte-wise lexicographic order of
//! their UTF-8 encodings, which is what `Ord for String` compares.
use vstd::prelude::*;
use vstd::utf8::*;
use vstd::string::*;

verus! {

/// Lexicographic "less than" on byte sequences; a proper prefix sorts first.
pub open spec fn bytes_lt(a: Seq<u8>, b: Seq<u8>) -> bool
    decreases a.len(),
{
    if a.len() == 0 {
        b.len() > 0
    } else if b.len() == 0 {
        false
    } else if a[0] < b[0] {
        true
    } else if a[0] > b[0] {
        false
    } else {
        bytes_lt(a.drop_first(), b.drop_first())
    }
}

/// Order of two string keys, as `String`'s `Ord` orders them.
pub open spec fn key_lt(a: Seq<char>, b: Seq<char>) -> bool {
    bytes_lt(encode_utf8(a), encode_utf8(b))
}

/// Keys listed in strictly increasing order (and so without repeats).
pub open spec fn strictly_sorted(ks: Seq<Seq<char>>) -> bool {
    forall|i: int, j: int| 0 <= i < j < ks.len() ==> key_lt(#[trigger] ks[i], #[trigger] ks[j])
}

pub proof fn lemma_bytes_lt_irreflexive(a: Seq<u8>)
    ensures
        !bytes_lt(a, a),
    decreases a.len(),
{
    if a.len() > 0 {
        lemma_bytes_lt_irreflexive(a.drop_first());
    }
}

pub proof fn lemma_bytes_lt_transitive(a: Seq<u8>, b: Seq<u8>, c: Seq<u8>)
    requires
        bytes_lt(a, b),
        bytes_lt(b, c),
    ensures
        bytes_lt(a, c),
    decreases a.len(),
{
    if a.len() > 0 && b.len() > 0 && c.len() > 0 && a[0] == b[0] && b[0] == c[0] {
        lemma_bytes_lt_transitive(a.drop_first(), b.drop_first(), c.drop_first());
    }
}

pub proof fn lemma_bytes_lt_total(a: Seq<u8>, b: Seq<u8>)
    requires
        a != b,
    ensures
        bytes_lt(a, b) || bytes_lt(b, a),
    decreases a.len(),
{
    if a.len() > 0 && b.len() > 0 && a[0] == b[0] {
        if a.drop_first() == b.drop_first() {
            assert(a =~= seq![a[0]] + a.drop_first());
            assert(b =~= seq![b[0]] + b.drop_first());
        }
        lemma_bytes_lt_total(a.drop_first(), b.drop_first());
    } else if a.len() == 0 && b.len() == 0 {
        assert(a =~= b);
    }
}

pub proof fn lemma_key_lt_irreflexive(a: Seq<char>)
    ensures
        !key_lt(a, a),
{
    lemma_bytes_lt_irreflexive(encode_utf8(a));
}

pub proof fn lemma_key_lt_transitive(a: Seq<char>, b: Seq<char>, c: Seq<char>)
    requires
        key_lt(a, b),
        key_lt(b, c),
    ensures
        key_lt(a, c),
{
    lemma_bytes_lt_transitive(encode_utf8(a), encode_utf8(b), encode_utf8(c));
}

/// The outcome of comparing two keys.
#[derive(PartialEq, Eq, Structural, Clone, Copy, Debug)]
pub enum KeyOrder {
    Less,
    Equal,
    Greater,
}

/// Compares two strings the way `Ord for str` does.
pub fn compare_keys(a: &str, b: &str) -> (r: KeyOrder)
    ensures
        (r == KeyOrder::Less) == key_lt(a@, b@),
        (r == KeyOrder::Equal) == (a@ == b@),
        (r == KeyOrder::Greater) == key_lt(b@, a@),
{
    let ab = a.as_bytes();
    let bb = b.as_bytes();
    let ghost ea = encode_utf8(a@);
    let ghost eb = encode_utf8(b@);
    let mut i: usize = 0;
    let r: KeyOrder;
    assert(ea.skip(0) =~= ea);
    assert(eb.skip(0) =~= eb);
    loop
        invariant
            ab@ == ea,
            bb@ == eb,
            i <= ab@.len(),
            i <= bb@.len(),
            ea.take(i as int) == eb.take(i as int),
            bytes_lt(ea, eb) == bytes_lt(ea.skip(i as int), eb.skip(i as int)),
            bytes_lt(eb, ea) == bytes_lt(eb.skip(i as int), ea.skip(i as int)),
        ensures
            (r == KeyOrder::Less) == bytes_lt(ea, eb),
            (r == KeyOrder::Equal) == (ea == eb),
            (r == KeyOrder::Greater) == bytes_lt(eb, ea),
        decreases ab@.len() - i,
    {
        proof {
            lemma_bytes_lt_irreflexive(ea);
            if ea != eb {
                lemma_bytes_lt_total(ea, eb);
            }
            if bytes_lt(ea, eb) && bytes_lt(eb, ea) {
                lemma_bytes_lt_transitive(ea, eb, ea);
            }
        }
        if i == ab.len() {
            if i == bb.len() {
                assert(ea =~= ea.take(i as int));
                assert(eb =~= eb.take(i as int));
                r = KeyOrder::Equal;
            } else {
                r = KeyOrder::Less;
            }
            break;
        }
        if i == bb.len() {
            r = KeyOrder::Greater;
            break;
        }
        if ab[i] < bb[i] {
            r = KeyOrder::Less;
            break;
        }
        if ab[i] > bb[i] {
            r = KeyOrder::Greater;
            break;
        }
        assert(ea.skip(i as int).drop_first() =~= ea.skip(i + 1));
        assert(eb.skip(i as int).drop_first() =~= eb.skip(i + 1));
        assert(ea.take(i + 1) =~= ea.take(i as int).push(ea[i as int]));
        assert(eb.take(i + 1) =~= eb.take(i as int).push(eb[i as int]));
        i = i + 1;
    }
    proof {
        encode_utf8_decode_utf8(a@);
        encode_utf8_decode_utf8(b@);
    }
    r
}

} // verus!
