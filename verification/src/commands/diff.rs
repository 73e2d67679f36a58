//! `diff`: how two environments of a project differ.
use vstd::prelude::*;
use vstd::string::*;
use vstd::utf8::*;
use crate::strmap::{StringMap, map_of, keys_of, lemma_map_of_sorted, has_key, key_index};

verus! {

/// `n` stars.
pub open spec fn stars(n: nat) -> Seq<char> {
    Seq::new(n, |i: int| '*')
}

/// Whether `mask` can cut `value`: a value of more than four bytes keeps its
/// first two and last two bytes, which must then be whole characters.
pub open spec fn maskable(value: Seq<char>) -> bool {
    let b = encode_utf8(value);
    b.len() <= 4 || (is_char_boundary(b, 2) && is_char_boundary(b, b.len() - 2))
}

/// A value with its middle hidden: up to four bytes become at least three
/// stars; a longer value keeps its first two and last two bytes around up to
/// eight stars.
pub open spec fn masked(value: Seq<char>) -> Seq<char> {
    let b = encode_utf8(value);
    let n = b.len();
    if n <= 4 {
        stars(if n >= 3 { n } else { 3 })
    } else {
        decode_utf8(b.take(2)) + stars(if n - 4 <= 8 { (n - 4) as nat } else { 8 }) + decode_utf8(
            b.skip(n - 2),
        )
    }
}

/// Whether `mask` can be applied to `value` without cutting a character.
pub fn can_mask(value: &str) -> (r: bool)
    ensures
        r == maskable(value@),
{
    let n = value.as_bytes().len();
    n <= 4 || (value.is_char_boundary(2) && value.is_char_boundary(n - 2))
}

fn push_stars(out: &mut String, k: usize)
    ensures
        final(out)@ == old(out)@ + stars(k as nat),
{
    let mut i: usize = 0;
    proof {
        reveal_strlit("*");
    }
    assert(old(out)@ + stars(0) =~= old(out)@);
    while i < k
        invariant
            i <= k,
            out@ == old(out)@ + stars(i as nat),
            ("*")@ == seq!['*'],
        decreases k - i,
    {
        out.append("*");
        assert(out@ =~= old(out)@ + stars((i + 1) as nat));
        i = i + 1;
    }
}

/// Hides the middle of a secret value.
pub fn mask(value: &str) -> (r: String)
    requires
        maskable(value@),
    ensures
        r@ == masked(value@),
{
    let n = value.as_bytes().len();
    if n <= 4 {
        let mut out = String::new();
        push_stars(&mut out, if n >= 3 { n } else { 3 });
        out
    } else {
        let (head, rest) = value.split_at(2);
        let (_, tail) = value.split_at(n - 2);
        proof {
            encode_utf8_decode_utf8(head@);
            encode_utf8_decode_utf8(tail@);
        }
        let mut out = String::from_str(head);
        push_stars(&mut out, if n - 4 <= 8 { n - 4 } else { 8 });
        out.append(tail);
        out
    }
}

/// One difference between two environments.
#[derive(Debug)]
pub enum DiffEntry {
    /// Both have the key, with different values (first, then second).
    Changed { key: String, from: String, to: String },
    /// Only the first environment has the key.
    OnlyInFirst { key: String },
    /// Only the second environment has the key.
    OnlyInSecond { key: String },
}

/// A difference, as plain text values.
pub enum DiffItem {
    Changed(Seq<char>, Seq<char>, Seq<char>),
    OnlyInFirst(Seq<char>),
    OnlyInSecond(Seq<char>),
}

impl View for DiffEntry {
    type V = DiffItem;

    open spec fn view(&self) -> DiffItem {
        match self {
            DiffEntry::Changed { key, from, to } => DiffItem::Changed(key@, from@, to@),
            DiffEntry::OnlyInFirst { key } => DiffItem::OnlyInFirst(key@),
            DiffEntry::OnlyInSecond { key } => DiffItem::OnlyInSecond(key@),
        }
    }
}

/// The views of a list of differences.
pub open spec fn diff_views(v: Seq<DiffEntry>) -> Seq<DiffItem> {
    v.map_values(|e: DiffEntry| e@)
}

/// For each entry of the first environment, in order: nothing when the second
/// has the same value, a change when it has another, and a removal when it
/// lacks the key.
pub open spec fn first_pass(pa: Seq<(Seq<char>, Seq<char>)>, mb: Map<Seq<char>, Seq<char>>) -> Seq<DiffItem>
    decreases pa.len(),
{
    if pa.len() == 0 {
        Seq::empty()
    } else {
        let (k, v) = pa.last();
        let rest = first_pass(pa.drop_last(), mb);
        if !mb.contains_key(k) {
            rest.push(DiffItem::OnlyInFirst(k))
        } else if mb[k] != v {
            rest.push(DiffItem::Changed(k, v, mb[k]))
        } else {
            rest
        }
    }
}

/// For each key of the second environment, in order, that the first lacks: an addition.
pub open spec fn second_pass(pb: Seq<(Seq<char>, Seq<char>)>, ma: Map<Seq<char>, Seq<char>>) -> Seq<DiffItem>
    decreases pb.len(),
{
    if pb.len() == 0 {
        Seq::empty()
    } else {
        let rest = second_pass(pb.drop_last(), ma);
        if !ma.contains_key(pb.last().0) {
            rest.push(DiffItem::OnlyInSecond(pb.last().0))
        } else {
            rest
        }
    }
}

/// The differences between two environments, in the order `diff` prints them.
pub open spec fn differences(a: Seq<(Seq<char>, Seq<char>)>, b: Seq<(Seq<char>, Seq<char>)>) -> Seq<DiffItem> {
    first_pass(a, map_of(b)) + second_pass(b, map_of(a))
}

/// Lists how the environment `b` differs from `a`.
pub fn diff_maps(a: &StringMap, b: &StringMap) -> (r: Vec<DiffEntry>)
    requires
        a.wf(),
        b.wf(),
    ensures
        diff_views(r@) == differences(a@, b@),
{
    let mut out: Vec<DiffEntry> = Vec::new();
    let na = a.len();
    let mut i: usize = 0;
    assert(a@.take(0) =~= Seq::<(Seq<char>, Seq<char>)>::empty());
    assert(diff_views(out@) =~= Seq::<DiffItem>::empty());
    while i < na
        invariant
            a.wf(),
            b.wf(),
            na == a@.len(),
            i <= na,
            diff_views(out@) == first_pass(a@.take(i as int), b.as_map()),
        decreases na - i,
    {
        let (key, va) = a.entry(i);
        assert(a@.take(i + 1).drop_last() =~= a@.take(i as int));
        assert(a@.take(i + 1).last() == a@[i as int]);
        let ghost before = diff_views(out@);
        match b.get(key.as_str()) {
            None => {
                out.push(DiffEntry::OnlyInFirst { key: key.clone() });
                assert(diff_views(out@) =~= before.push(DiffItem::OnlyInFirst(key@)));
            },
            Some(vb) => {
                if !crate::loopback::string_eq(va.as_str(), vb.as_str()) {
                    out.push(DiffEntry::Changed { key: key.clone(), from: va.clone(), to: vb.clone() });
                    assert(diff_views(out@) =~= before.push(DiffItem::Changed(key@, va@, vb@)));
                }
            },
        }
        i = i + 1;
    }
    assert(a@.take(na as int) =~= a@);
    let ghost first = diff_views(out@);
    let nb = b.len();
    let mut j: usize = 0;
    assert(b@.take(0) =~= Seq::<(Seq<char>, Seq<char>)>::empty());
    assert(first + Seq::<DiffItem>::empty() =~= first);
    while j < nb
        invariant
            a.wf(),
            b.wf(),
            nb == b@.len(),
            j <= nb,
            diff_views(out@) == first + second_pass(b@.take(j as int), a.as_map()),
        decreases nb - j,
    {
        let (key, _) = b.entry(j);
        assert(b@.take(j + 1).drop_last() =~= b@.take(j as int));
        assert(b@.take(j + 1).last() == b@[j as int]);
        let ghost before = diff_views(out@);
        if !a.contains_key(key.as_str()) {
            out.push(DiffEntry::OnlyInSecond { key: key.clone() });
            assert(diff_views(out@) =~= before.push(DiffItem::OnlyInSecond(key@)));
            assert(first + second_pass(b@.take(j + 1), a.as_map()) =~= (first + second_pass(b@.take(j as int), a.as_map())).push(DiffItem::OnlyInSecond(key@)));
        }
        j = j + 1;
    }
    assert(b@.take(nb as int) =~= b@);
    out
}

/// An empty first pass means every key of `pa` is in `mb` with the same value.
proof fn lemma_first_pass_empty(pa: Seq<(Seq<char>, Seq<char>)>, mb: Map<Seq<char>, Seq<char>>, i: int)
    requires
        first_pass(pa, mb).len() == 0,
        0 <= i < pa.len(),
    ensures
        mb.contains_key(pa[i].0),
        mb[pa[i].0] == pa[i].1,
    decreases pa.len(),
{
    if i < pa.len() - 1 {
        lemma_first_pass_empty(pa.drop_last(), mb, i);
    }
}

/// An empty second pass means every key of `pb` is in `ma`.
proof fn lemma_second_pass_empty(pb: Seq<(Seq<char>, Seq<char>)>, ma: Map<Seq<char>, Seq<char>>, i: int)
    requires
        second_pass(pb, ma).len() == 0,
        0 <= i < pb.len(),
    ensures
        ma.contains_key(pb[i].0),
    decreases pb.len(),
{
    if i < pb.len() - 1 {
        lemma_second_pass_empty(pb.drop_last(), ma, i);
    }
}

/// Every key of `pa` in `mb` with the same value: an empty first pass.
proof fn lemma_first_pass_none(pa: Seq<(Seq<char>, Seq<char>)>, mb: Map<Seq<char>, Seq<char>>)
    requires
        forall|i: int| 0 <= i < pa.len() ==> mb.contains_key(#[trigger] pa[i].0) && mb[pa[i].0] == pa[i].1,
    ensures
        first_pass(pa, mb).len() == 0,
    decreases pa.len(),
{
    if pa.len() > 0 {
        assert forall|i: int| 0 <= i < pa.drop_last().len() implies mb.contains_key(#[trigger] pa.drop_last()[i].0) && mb[pa.drop_last()[i].0] == pa.drop_last()[i].1 by {
            assert(pa.drop_last()[i] == pa[i]);
        }
        lemma_first_pass_none(pa.drop_last(), mb);
        assert(pa.last() == pa[pa.len() - 1]);
    }
}

/// Every key of `pb` in `ma`: an empty second pass.
proof fn lemma_second_pass_none(pb: Seq<(Seq<char>, Seq<char>)>, ma: Map<Seq<char>, Seq<char>>)
    requires
        forall|i: int| 0 <= i < pb.len() ==> ma.contains_key(#[trigger] pb[i].0),
    ensures
        second_pass(pb, ma).len() == 0,
    decreases pb.len(),
{
    if pb.len() > 0 {
        assert forall|i: int| 0 <= i < pb.drop_last().len() implies ma.contains_key(#[trigger] pb.drop_last()[i].0) by {
            assert(pb.drop_last()[i] == pb[i]);
        }
        lemma_second_pass_none(pb.drop_last(), ma);
        assert(pb.last() == pb[pb.len() - 1]);
    }
}

/// `diff` reports no difference exactly when the two environments hold the
/// same keys with the same values.
pub proof fn lemma_no_differences_iff_same(a: &StringMap, b: &StringMap)
    requires
        a.wf(),
        b.wf(),
    ensures
        differences(a@, b@).len() == 0 <==> a.as_map() == b.as_map(),
{
    let pa = a@;
    let pb = b@;
    let ma = map_of(pa);
    let mb = map_of(pb);
    if differences(pa, pb).len() == 0 {
        assert(first_pass(pa, mb).len() == 0);
        assert(second_pass(pb, ma).len() == 0);
        assert forall|k: Seq<char>| #[trigger] ma.contains_key(k) implies mb.contains_key(k) && mb[k] == ma[k] by {
            let i = key_index(pa, k);
            lemma_map_of_sorted(pa, i);
            lemma_first_pass_empty(pa, mb, i);
        }
        assert forall|k: Seq<char>| #[trigger] mb.contains_key(k) implies ma.contains_key(k) by {
            let i = key_index(pb, k);
            lemma_second_pass_empty(pb, ma, i);
        }
        assert(ma =~= mb);
    }
    if ma == mb {
        assert forall|i: int| 0 <= i < pa.len() implies mb.contains_key(#[trigger] pa[i].0) && mb[pa[i].0] == pa[i].1 by {
            lemma_map_of_sorted(pa, i);
        }
        lemma_first_pass_none(pa, mb);
        assert forall|i: int| 0 <= i < pb.len() implies ma.contains_key(#[trigger] pb[i].0) by {
            lemma_map_of_sorted(pb, i);
        }
        lemma_second_pass_none(pb, ma);
    }
}

/// Every key of `pb` that `ma` lacks is reported as an addition.
proof fn lemma_second_pass_complete(pb: Seq<(Seq<char>, Seq<char>)>, ma: Map<Seq<char>, Seq<char>>, i: int)
    requires
        0 <= i < pb.len(),
        !ma.contains_key(pb[i].0),
    ensures
        second_pass(pb, ma).contains(DiffItem::OnlyInSecond(pb[i].0)),
    decreases pb.len(),
{
    let rest = second_pass(pb.drop_last(), ma);
    if i == pb.len() - 1 {
        let r = rest.push(DiffItem::OnlyInSecond(pb.last().0));
        assert(r[rest.len() as int] == DiffItem::OnlyInSecond(pb[i].0));
    } else {
        assert(pb.drop_last()[i] == pb[i]);
        lemma_second_pass_complete(pb.drop_last(), ma, i);
        let j = choose|j: int| 0 <= j < rest.len() && rest[j] == DiffItem::OnlyInSecond(pb[i].0);
        if !ma.contains_key(pb.last().0) {
            assert(rest.push(DiffItem::OnlyInSecond(pb.last().0))[j] == rest[j]);
        }
    }
}

/// Each item of the second pass is an addition of a key of `pb` that `ma` lacks.
proof fn lemma_second_pass_sound(pb: Seq<(Seq<char>, Seq<char>)>, ma: Map<Seq<char>, Seq<char>>, j: int)
    requires
        0 <= j < second_pass(pb, ma).len(),
    ensures
        second_pass(pb, ma)[j] matches DiffItem::OnlyInSecond(k) && has_key(pb, k) && !ma.contains_key(k),
    decreases pb.len(),
{
    let rest = second_pass(pb.drop_last(), ma);
    if j < rest.len() {
        lemma_second_pass_sound(pb.drop_last(), ma, j);
        let k = rest[j]->OnlyInSecond_0;
        let i = choose|i: int| 0 <= i < pb.drop_last().len() && #[trigger] pb.drop_last()[i].0 == k;
        assert(pb[i].0 == k);
        if !ma.contains_key(pb.last().0) {
            assert(rest.push(DiffItem::OnlyInSecond(pb.last().0))[j] == rest[j]);
        }
    } else {
        assert(pb[pb.len() - 1].0 == pb.last().0);
    }
}

/// Every key of `pa` that `mb` lacks is reported as a removal, and every key
/// that `mb` holds with another value as a change.
proof fn lemma_first_pass_complete(pa: Seq<(Seq<char>, Seq<char>)>, mb: Map<Seq<char>, Seq<char>>, i: int)
    requires
        0 <= i < pa.len(),
    ensures
        !mb.contains_key(pa[i].0) ==> first_pass(pa, mb).contains(DiffItem::OnlyInFirst(pa[i].0)),
        mb.contains_key(pa[i].0) && mb[pa[i].0] != pa[i].1 ==> first_pass(pa, mb).contains(
            DiffItem::Changed(pa[i].0, pa[i].1, mb[pa[i].0]),
        ),
    decreases pa.len(),
{
    let rest = first_pass(pa.drop_last(), mb);
    let (k, v) = pa.last();
    if i == pa.len() - 1 {
        if !mb.contains_key(k) {
            let r = rest.push(DiffItem::OnlyInFirst(k));
            assert(r[rest.len() as int] == DiffItem::OnlyInFirst(k));
        } else if mb[k] != v {
            let r = rest.push(DiffItem::Changed(k, v, mb[k]));
            assert(r[rest.len() as int] == DiffItem::Changed(k, v, mb[k]));
        }
    } else {
        assert(pa.drop_last()[i] == pa[i]);
        lemma_first_pass_complete(pa.drop_last(), mb, i);
        assert forall|d: DiffItem| rest.contains(d) implies first_pass(pa, mb).contains(d) by {
            let j = choose|j: int| 0 <= j < rest.len() && rest[j] == d;
            if !mb.contains_key(k) {
                assert(rest.push(DiffItem::OnlyInFirst(k))[j] == rest[j]);
            } else if mb[k] != v {
                assert(rest.push(DiffItem::Changed(k, v, mb[k]))[j] == rest[j]);
            }
        }
    }
}

/// Each item of the first pass is a removal of a key of `pa` that `mb` lacks,
/// or a change of an entry of `pa` that `mb` holds with another value.
proof fn lemma_first_pass_sound(pa: Seq<(Seq<char>, Seq<char>)>, mb: Map<Seq<char>, Seq<char>>, j: int)
    requires
        0 <= j < first_pass(pa, mb).len(),
    ensures
        first_pass(pa, mb)[j] !is OnlyInSecond,
        first_pass(pa, mb)[j] matches DiffItem::OnlyInFirst(k) ==> has_key(pa, k) && !mb.contains_key(k),
        first_pass(pa, mb)[j] matches DiffItem::Changed(k, x, y) ==> (exists|i: int|
            0 <= i < pa.len() && #[trigger] pa[i] == (k, x)) && mb.contains_key(k) && mb[k] == y && x != y,
    decreases pa.len(),
{
    let rest = first_pass(pa.drop_last(), mb);
    let (k, v) = pa.last();
    assert(pa[pa.len() - 1] == pa.last());
    if j < rest.len() {
        lemma_first_pass_sound(pa.drop_last(), mb, j);
        if !mb.contains_key(k) {
            assert(rest.push(DiffItem::OnlyInFirst(k))[j] == rest[j]);
        } else if mb[k] != v {
            assert(rest.push(DiffItem::Changed(k, v, mb[k]))[j] == rest[j]);
        }
        match rest[j] {
            DiffItem::OnlyInFirst(k2) => {
                let i = choose|i: int| 0 <= i < pa.drop_last().len() && #[trigger] pa.drop_last()[i].0 == k2;
                assert(pa[i].0 == k2);
            },
            DiffItem::Changed(k2, x, y) => {
                let i = choose|i: int| 0 <= i < pa.drop_last().len() && #[trigger] pa.drop_last()[i] == (k2, x);
                assert(pa[i] == (k2, x));
            },
            _ => {},
        }
    }
}

/// `diff` reports every difference and nothing else: a key only the second
/// environment has is an addition, a key only the first has is a removal, and
/// a key both have with different values is a change from the first value to
/// the second.
pub proof fn lemma_differences_complete(a: &StringMap, b: &StringMap)
    requires
        a.wf(),
        b.wf(),
    ensures
        forall|k: Seq<char>|
            #[trigger] differences(a@, b@).contains(DiffItem::OnlyInSecond(k))
                <==> (b.as_map().contains_key(k) && !a.as_map().contains_key(k)),
        forall|k: Seq<char>|
            #[trigger] differences(a@, b@).contains(DiffItem::OnlyInFirst(k))
                <==> (a.as_map().contains_key(k) && !b.as_map().contains_key(k)),
        forall|k: Seq<char>, x: Seq<char>, y: Seq<char>|
            #[trigger] differences(a@, b@).contains(DiffItem::Changed(k, x, y)) <==> (
                a.as_map().contains_key(k) && b.as_map().contains_key(k) && a.as_map()[k] == x
                    && b.as_map()[k] == y && x != y),
{
    let pa = a@;
    let pb = b@;
    let ma = map_of(pa);
    let mb = map_of(pb);
    let f = first_pass(pa, mb);
    let sp = second_pass(pb, ma);
    let d = differences(pa, pb);
    assert(d == f + sp);
    // What `d` holds comes from one of its two passes.
    assert forall|item: DiffItem| #[trigger] d.contains(item) implies (
        (item is OnlyInSecond && (exists|j: int| 0 <= j < sp.len() && sp[j] == item))
        || (!(item is OnlyInSecond) && (exists|j: int| 0 <= j < f.len() && f[j] == item))
    ) by {
        let j = choose|j: int| 0 <= j < d.len() && d[j] == item;
        if j < f.len() {
            assert(d[j] == f[j]);
            lemma_first_pass_sound(pa, mb, j);
        } else {
            assert(d[j] == sp[j - f.len()]);
            lemma_second_pass_sound(pb, ma, j - f.len());
        }
    }
    assert forall|item: DiffItem| #[trigger] sp.contains(item) implies d.contains(item) by {
        let j = choose|j: int| 0 <= j < sp.len() && sp[j] == item;
        assert(d[f.len() + j] == item);
    }
    assert forall|item: DiffItem| #[trigger] f.contains(item) implies d.contains(item) by {
        let j = choose|j: int| 0 <= j < f.len() && f[j] == item;
        assert(d[j] == item);
    }
    assert forall|k: Seq<char>|
        #[trigger] d.contains(DiffItem::OnlyInSecond(k)) <==> (mb.contains_key(k) && !ma.contains_key(k)) by {
        if d.contains(DiffItem::OnlyInSecond(k)) {
            let j = choose|j: int| 0 <= j < sp.len() && sp[j] == DiffItem::OnlyInSecond(k);
            lemma_second_pass_sound(pb, ma, j);
        }
        if mb.contains_key(k) && !ma.contains_key(k) {
            let i = key_index(pb, k);
            lemma_second_pass_complete(pb, ma, i);
        }
    }
    assert forall|k: Seq<char>|
        #[trigger] d.contains(DiffItem::OnlyInFirst(k)) <==> (ma.contains_key(k) && !mb.contains_key(k)) by {
        if d.contains(DiffItem::OnlyInFirst(k)) {
            let j = choose|j: int| 0 <= j < f.len() && f[j] == DiffItem::OnlyInFirst(k);
            lemma_first_pass_sound(pa, mb, j);
        }
        if ma.contains_key(k) && !mb.contains_key(k) {
            let i = key_index(pa, k);
            lemma_first_pass_complete(pa, mb, i);
        }
    }
    assert forall|k: Seq<char>, x: Seq<char>, y: Seq<char>|
        #[trigger] d.contains(DiffItem::Changed(k, x, y)) <==> (
            ma.contains_key(k) && mb.contains_key(k) && ma[k] == x && mb[k] == y && x != y) by {
        if d.contains(DiffItem::Changed(k, x, y)) {
            let j = choose|j: int| 0 <= j < f.len() && f[j] == DiffItem::Changed(k, x, y);
            lemma_first_pass_sound(pa, mb, j);
            let i = choose|i: int| 0 <= i < pa.len() && #[trigger] pa[i] == (k, x);
            lemma_map_of_sorted(pa, i);
        }
        if ma.contains_key(k) && mb.contains_key(k) && ma[k] == x && mb[k] == y && x != y {
            let i = key_index(pa, k);
            lemma_map_of_sorted(pa, i);
            lemma_first_pass_complete(pa, mb, i);
        }
    }
}

} // verus!
