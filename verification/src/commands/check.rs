//! `check`: which keys a local `.env` file and the server disagree on.
use vstd::prelude::*;
use crate::order::strictly_sorted;
use crate::strmap::{KeySet, views, without};

verus! {

/// The keys only `local` has, then the keys only `remote` has, each in order.
pub fn compare(local: &KeySet, remote: &KeySet) -> (r: (Vec<String>, Vec<String>))
    requires
        local.wf(),
        remote.wf(),
    ensures
        views(r.0@) == without(local@, remote@),
        views(r.1@) == without(remote@, local@),
        strictly_sorted(views(r.0@)),
        strictly_sorted(views(r.1@)),
{
    let missing_remote = local.difference(remote);
    let missing_local = remote.difference(local);
    (missing_remote, missing_local)
}

/// The check passes when the server has every key of the file; keys only the
/// server has are reported but do not fail it.
pub fn check_passes(missing_remote: &Vec<String>) -> (r: bool)
    ensures
        r == (missing_remote@.len() == 0),
{
    missing_remote.len() == 0
}

} // verus!

verus! {

/// Nothing is left of `s` exactly when every member of `s` is in `o`.
proof fn lemma_without_empty(s: Seq<Seq<char>>, o: Seq<Seq<char>>)
    ensures
        without(s, o).len() == 0 <==> (forall|i: int| 0 <= i < s.len() ==> o.contains(#[trigger] s[i])),
    decreases s.len(),
{
    if s.len() > 0 {
        lemma_without_empty(s.drop_last(), o);
        if without(s, o).len() == 0 {
            assert forall|i: int| 0 <= i < s.len() implies o.contains(#[trigger] s[i]) by {
                if i < s.len() - 1 {
                    assert(s.drop_last()[i] == s[i]);
                }
            }
        }
        if forall|i: int| 0 <= i < s.len() ==> o.contains(#[trigger] s[i]) {
            assert(o.contains(s[s.len() - 1]));
            assert forall|i: int| 0 <= i < s.drop_last().len() implies o.contains(#[trigger] s.drop_last()[i]) by {
                assert(s.drop_last()[i] == s[i]);
            }
        }
    }
}

/// A file and a server are in sync, with nothing to report either way,
/// exactly when they hold the same set of keys.
pub proof fn lemma_in_sync_iff_same_keys(local: &KeySet, remote: &KeySet)
    ensures
        (without(local@, remote@).len() == 0 && without(remote@, local@).len() == 0)
            <==> local.as_set() == remote.as_set(),
{
    let l = local@;
    let r = remote@;
    lemma_without_empty(l, r);
    lemma_without_empty(r, l);
    if without(l, r).len() == 0 && without(r, l).len() == 0 {
        assert forall|k: Seq<char>| l.to_set().contains(k) <==> r.to_set().contains(k) by {
            if l.contains(k) {
                let i = choose|i: int| 0 <= i < l.len() && l[i] == k;
                assert(r.contains(l[i]));
            }
            if r.contains(k) {
                let i = choose|i: int| 0 <= i < r.len() && r[i] == k;
                assert(l.contains(r[i]));
            }
        }
        assert(l.to_set() =~= r.to_set());
    }
    if l.to_set() == r.to_set() {
        assert forall|i: int| 0 <= i < l.len() implies r.contains(#[trigger] l[i]) by {
            assert(l.to_set().contains(l[i]));
            assert(r.to_set().contains(l[i]));
        }
        assert forall|i: int| 0 <= i < r.len() implies l.contains(#[trigger] r[i]) by {
            assert(r.to_set().contains(r[i]));
            assert(l.to_set().contains(r[i]));
        }
    }
}

} // verus!
