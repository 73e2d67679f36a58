//! Maps and sets of strings kept in key order, the way a `BTreeMap<String, String>`
//! or a `BTreeSet<String>` walks them.
use vstd::prelude::*;
use vstd::string::*;
use crate::order::{key_lt, strictly_sorted, compare_keys, KeyOrder, lemma_key_lt_irreflexive, lemma_key_lt_transitive};

verus! {

/// The keys of a list of pairs, in list order.
pub open spec fn keys_of(ps: Seq<(Seq<char>, Seq<char>)>) -> Seq<Seq<char>> {
    ps.map_values(|p: (Seq<char>, Seq<char>)| p.0)
}

/// The views of a list of strings.
pub open spec fn views(v: Seq<String>) -> Seq<Seq<char>> {
    v.map_values(|s: String| s@)
}

/// Whether some pair of `ps` has key `k`.
pub open spec fn has_key(ps: Seq<(Seq<char>, Seq<char>)>, k: Seq<char>) -> bool {
    exists|i: int| 0 <= i < ps.len() && #[trigger] ps[i].0 == k
}

/// A position of `ps` whose key is `k`, where there is one.
pub open spec fn key_index(ps: Seq<(Seq<char>, Seq<char>)>, k: Seq<char>) -> int {
    choose|i: int| 0 <= i < ps.len() && #[trigger] ps[i].0 == k
}

/// The map that a list of pairs with distinct keys describes.
pub open spec fn map_of(ps: Seq<(Seq<char>, Seq<char>)>) -> Map<Seq<char>, Seq<char>> {
    Map::new(|k: Seq<char>| has_key(ps, k), |k: Seq<char>| ps[key_index(ps, k)].1)
}

/// The map that inserting the pairs one after another, in order, builds: a later
/// pair replaces an earlier one with the same key.
pub open spec fn pairs_to_map(ps: Seq<(Seq<char>, Seq<char>)>) -> Map<Seq<char>, Seq<char>>
    decreases ps.len(),
{
    if ps.len() == 0 {
        Map::empty()
    } else {
        pairs_to_map(ps.drop_last()).insert(ps.last().0, ps.last().1)
    }
}

/// In a sorted list, a key occurs at one position only.
pub proof fn lemma_sorted_unique(ks: Seq<Seq<char>>, i: int, j: int)
    requires
        strictly_sorted(ks),
        0 <= i < ks.len(),
        0 <= j < ks.len(),
        ks[i] == ks[j],
    ensures
        i == j,
{
    if i < j {
        assert(key_lt(ks[i], ks[j]));
        lemma_key_lt_irreflexive(ks[i]);
    } else if j < i {
        assert(key_lt(ks[j], ks[i]));
        lemma_key_lt_irreflexive(ks[i]);
    }
}

/// In a list whose keys are strictly sorted, each pair is the map's entry for its key.
pub proof fn lemma_map_of_sorted(ps: Seq<(Seq<char>, Seq<char>)>, i: int)
    requires
        strictly_sorted(keys_of(ps)),
        0 <= i < ps.len(),
    ensures
        map_of(ps).contains_key(ps[i].0),
        map_of(ps)[ps[i].0] == ps[i].1,
{
    let k = ps[i].0;
    assert(has_key(ps, k)) by {
        assert(ps[i].0 == k);
    }
    let j = key_index(ps, k);
    assert(keys_of(ps)[i] == k);
    assert(keys_of(ps)[j] == k);
    lemma_sorted_unique(keys_of(ps), i, j);
}

/// A sorted list has no repeats.
pub proof fn lemma_sorted_no_duplicates(ks: Seq<Seq<char>>)
    requires
        strictly_sorted(ks),
    ensures
        ks.no_duplicates(),
{
    assert forall|i: int, j: int| 0 <= i < ks.len() && 0 <= j < ks.len() && i != j implies ks[i] != ks[j] by {
        if ks[i] == ks[j] {
            lemma_sorted_unique(ks, i, j);
        }
    }
}

/// The map of a sorted list has one key per pair.
pub proof fn lemma_map_of_len(ps: Seq<(Seq<char>, Seq<char>)>)
    requires
        strictly_sorted(keys_of(ps)),
    ensures
        map_of(ps).dom() == keys_of(ps).to_set(),
        map_of(ps).dom().finite(),
        map_of(ps).len() == ps.len(),
{
    let ks = keys_of(ps);
    assert forall|k: Seq<char>| map_of(ps).dom().contains(k) <==> ks.to_set().contains(k) by {
        if has_key(ps, k) {
            let i = key_index(ps, k);
            assert(ks[i] == k);
        }
        if ks.contains(k) {
            let i = choose|i: int| 0 <= i < ks.len() && ks[i] == k;
            assert(ps[i].0 == k);
        }
    }
    assert(map_of(ps).dom() =~= ks.to_set());
    lemma_sorted_no_duplicates(ks);
    ks.unique_seq_to_set();
}

/// Inserting a key at the place where it sorts keeps a list sorted.
pub proof fn lemma_sorted_insert(ks: Seq<Seq<char>>, i: int, k: Seq<char>)
    requires
        strictly_sorted(ks),
        0 <= i <= ks.len(),
        forall|j: int| 0 <= j < i ==> key_lt(#[trigger] ks[j], k),
        i < ks.len() ==> key_lt(k, ks[i]),
    ensures
        strictly_sorted(ks.insert(i, k)),
{
    let r = ks.insert(i, k);
    assert forall|a: int, b: int| 0 <= a < b < r.len() implies key_lt(#[trigger] r[a], #[trigger] r[b]) by {
        lemma_sorted_insert_pair(ks, i, k, a, b);
    }
}

proof fn lemma_sorted_insert_pair(ks: Seq<Seq<char>>, i: int, k: Seq<char>, a: int, b: int)
    requires
        strictly_sorted(ks),
        0 <= i <= ks.len(),
        forall|j: int| 0 <= j < i ==> key_lt(#[trigger] ks[j], k),
        i < ks.len() ==> key_lt(k, ks[i]),
        0 <= a < b <= ks.len(),
    ensures
        key_lt(ks.insert(i, k)[a], ks.insert(i, k)[b]),
{
    let r = ks.insert(i, k);
    ks.insert_ensures(i, k);
    let ra = if a < i { ks[a] } else if a == i { k } else { ks[a - 1] };
    let rb = if b < i { ks[b] } else if b == i { k } else { ks[b - 1] };
    assert(r[a] == ra);
    assert(r[b] == rb);
    if b < i {
        assert(key_lt(ks[a], ks[b]));
    } else if b == i {
        assert(key_lt(ks[a], k));
    } else {
        // b > i: rb is ks[b - 1], and k sorts before it.
        if b - 1 > i {
            assert(key_lt(ks[i], ks[b - 1]));
            lemma_key_lt_transitive(k, ks[i], ks[b - 1]);
        }
        if a < i {
            assert(key_lt(ks[a], k));
            lemma_key_lt_transitive(ks[a], k, ks[b - 1]);
        } else if a > i {
            assert(key_lt(ks[a - 1], ks[b - 1]));
        }
    }
}

/// A string-to-string map that keeps its entries in key order.
#[derive(Debug)]
pub struct StringMap {
    entries: Vec<(String, String)>,
}

impl View for StringMap {
    type V = Seq<(Seq<char>, Seq<char>)>;

    closed spec fn view(&self) -> Seq<(Seq<char>, Seq<char>)> {
        self.entries@.map_values(|e: (String, String)| (e.0@, e.1@))
    }
}

impl StringMap {
    /// The entries are in strictly increasing key order.
    pub open spec fn wf(&self) -> bool {
        strictly_sorted(keys_of(self@))
    }

    /// The content of the map.
    pub open spec fn as_map(&self) -> Map<Seq<char>, Seq<char>> {
        map_of(self@)
    }

    pub fn new() -> (r: StringMap)
        ensures
            r@ == Seq::<(Seq<char>, Seq<char>)>::empty(),
            r.wf(),
    {
        let r = StringMap { entries: Vec::new() };
        assert(r@ =~= Seq::<(Seq<char>, Seq<char>)>::empty());
        r
    }

    /// The number of entries, which is the number of keys of the map.
    pub fn len(&self) -> (r: usize)
        ensures
            r == self@.len(),
            self.wf() ==> self.as_map().len() == r,
    {
        proof {
            if self.wf() {
                lemma_map_of_len(self@);
            }
        }
        self.entries.len()
    }

    pub fn is_empty(&self) -> (r: bool)
        ensures
            r == (self@.len() == 0),
    {
        self.entries.len() == 0
    }

    /// The `i`-th entry in key order.
    pub fn entry(&self, i: usize) -> (r: (&String, &String))
        requires
            i < self@.len(),
        ensures
            r.0@ == self@[i as int].0,
            r.1@ == self@[i as int].1,
    {
        let e = &self.entries[i];
        (&e.0, &e.1)
    }

    /// Where `key` is or would go: every key before the slot sorts before it.
    fn slot(&self, key: &str) -> (r: (usize, bool))
        requires
            self.wf(),
        ensures
            r.0 <= self@.len(),
            forall|j: int| 0 <= j < r.0 ==> key_lt(#[trigger] self@[j].0, key@),
            r.1 ==> r.0 < self@.len() && self@[r.0 as int].0 == key@,
            !r.1 && r.0 < self@.len() ==> key_lt(key@, self@[r.0 as int].0),
    {
        let n = self.entries.len();
        let mut i: usize = 0;
        while i < n
            invariant
                n == self@.len(),
                i <= n,
                forall|j: int| 0 <= j < i ==> key_lt(#[trigger] self@[j].0, key@),
            decreases n - i,
        {
            let c = compare_keys(self.entries[i].0.as_str(), key);
            assert(self@[i as int].0 == self.entries@[i as int].0@);
            match c {
                KeyOrder::Less => {
                    i = i + 1;
                },
                KeyOrder::Equal => {
                    return (i, true);
                },
                KeyOrder::Greater => {
                    return (i, false);
                },
            }
        }
        (i, false)
    }

    /// Inserts or replaces the entry for `key`.
    pub fn insert(&mut self, key: String, value: String)
        requires
            old(self).wf(),
        ensures
            final(self).wf(),
            final(self).as_map() == old(self).as_map().insert(key@, value@),
    {
        let ghost ps = self@;
        let (i, found) = self.slot(key.as_str());
        let ghost k = key@;
        let ghost v = value@;
        if found {
            self.entries.set(i, (key, value));
            let ghost qs = self@;
            assert(qs =~= ps.update(i as int, (k, v)));
            assert(keys_of(qs) =~= keys_of(ps));
            assert forall|q: Seq<char>| #![auto] map_of(qs).contains_key(q) == map_of(ps).insert(k, v).contains_key(q) by {
                if has_key(qs, q) {
                    let j = choose|j: int| 0 <= j < qs.len() && #[trigger] qs[j].0 == q;
                    assert(ps[j].0 == q);
                }
                if has_key(ps, q) {
                    let j = choose|j: int| 0 <= j < ps.len() && #[trigger] ps[j].0 == q;
                    assert(qs[j].0 == q);
                }
                if q == k {
                    assert(qs[i as int].0 == q);
                }
            }
            assert forall|q: Seq<char>| #[trigger] map_of(qs).contains_key(q) implies map_of(qs)[q] == map_of(ps).insert(k, v)[q] by {
                let j = key_index(qs, q);
                lemma_map_of_sorted(qs, j);
                if j != i {
                    assert(qs[j] == ps[j]);
                    lemma_map_of_sorted(ps, j);
                    if q == k {
                        assert(keys_of(ps)[j] == q);
                        assert(keys_of(ps)[i as int] == k);
                        lemma_sorted_unique(keys_of(ps), i as int, j);
                    }
                } else {
                    assert(qs[j] == (k, v));
                }
            }
            assert(map_of(qs) =~= map_of(ps).insert(k, v));
        } else {
            self.entries.insert(i, (key, value));
            let ghost qs = self@;
            assert(qs =~= ps.insert(i as int, (k, v)));
            proof {
                ps.insert_ensures(i as int, (k, v));
            }
            assert(keys_of(qs) =~= keys_of(ps).insert(i as int, k));
            proof {
                assert forall|j: int| 0 <= j < i implies key_lt(#[trigger] keys_of(ps)[j], k) by {
                    assert(keys_of(ps)[j] == ps[j].0);
                }
                lemma_sorted_insert(keys_of(ps), i as int, k);
            }
            assert forall|q: Seq<char>| #![auto] map_of(qs).contains_key(q) == map_of(ps).insert(k, v).contains_key(q) by {
                if has_key(qs, q) {
                    let j = choose|j: int| 0 <= j < qs.len() && #[trigger] qs[j].0 == q;
                    if j < i {
                        assert(ps[j].0 == q);
                    } else if j > i {
                        assert(ps[j - 1].0 == q);
                    }
                }
                if has_key(ps, q) {
                    let j = choose|j: int| 0 <= j < ps.len() && #[trigger] ps[j].0 == q;
                    if j < i {
                        assert(qs[j].0 == q);
                    } else {
                        assert(qs[j + 1].0 == q);
                    }
                }
                if q == k {
                    assert(qs[i as int].0 == q);
                }
            }
            assert forall|q: Seq<char>| #[trigger] map_of(qs).contains_key(q) implies map_of(qs)[q] == map_of(ps).insert(k, v)[q] by {
                let j = key_index(qs, q);
                lemma_map_of_sorted(qs, j);
                if j == i {
                    assert(qs[j] == (k, v));
                } else if j < i {
                    assert(qs[j] == ps[j]);
                    assert(ps[j].0 == q);
                    lemma_map_of_sorted(ps, j);
                    assert(key_lt(ps[j].0, k));
                    lemma_key_lt_irreflexive(q);
                } else if j > i {
                    assert(qs[j] == ps[j - 1]);
                    assert(ps[j - 1].0 == q);
                    assert(key_lt(k, ps[i as int].0));
                    lemma_map_of_sorted(ps, j - 1);
                    if j - 1 > i {
                        assert(key_lt(keys_of(ps)[i as int], keys_of(ps)[j - 1]));
                        lemma_key_lt_transitive(k, ps[i as int].0, q);
                    }
                    lemma_key_lt_irreflexive(q);
                }
            }
            assert(map_of(qs) =~= map_of(ps).insert(k, v));
        }
    }

    /// The value stored for `key`, if any.
    pub fn get(&self, key: &str) -> (r: Option<&String>)
        requires
            self.wf(),
        ensures
            match r {
                Some(v) => self.as_map().contains_key(key@) && v@ == self.as_map()[key@],
                None => !self.as_map().contains_key(key@),
            },
    {
        let (i, found) = self.slot(key);
        if found {
            proof {
                lemma_map_of_sorted(self@, i as int);
                assert(self@[i as int].1 == self.entries@[i as int].1@);
            }
            Some(&self.entries[i].1)
        } else {
            proof {
                if has_key(self@, key@) {
                    let j = choose|j: int| 0 <= j < self@.len() && #[trigger] self@[j].0 == key@;
                    if j <= i {
                        lemma_key_lt_irreflexive(key@);
                    } else {
                        assert(key_lt(keys_of(self@)[i as int], keys_of(self@)[j]));
                        lemma_key_lt_transitive(key@, self@[i as int].0, key@);
                        lemma_key_lt_irreflexive(key@);
                    }
                }
            }
            None
        }
    }

    /// Whether the map has an entry for `key`.
    pub fn contains_key(&self, key: &str) -> (r: bool)
        requires
            self.wf(),
        ensures
            r == self.as_map().contains_key(key@),
    {
        match self.get(key) {
            Some(_) => true,
            None => false,
        }
    }

    /// The keys, in order.
    pub fn keys(&self) -> (r: Vec<String>)
        ensures
            views(r@) == keys_of(self@),
    {
        let n = self.entries.len();
        let mut out: Vec<String> = Vec::new();
        let mut i: usize = 0;
        while i < n
            invariant
                n == self@.len(),
                i <= n,
                views(out@) == keys_of(self@).take(i as int),
            decreases n - i,
        {
            let ghost before = out@;
            out.push(self.entries[i].0.clone());
            assert(self@[i as int].0 == self.entries@[i as int].0@);
            assert(out@ == before.push(self.entries@[i as int].0));
            assert(views(out@) =~= keys_of(self@).take(i + 1)) by {
                assert(views(out@) =~= views(before).push(self@[i as int].0));
            }
            i = i + 1;
        }
        assert(keys_of(self@).take(n as int) =~= keys_of(self@));
        out
    }
}

} // verus!

verus! {

/// A set of strings that keeps its members in order.
#[derive(Debug)]
pub struct KeySet {
    keys: Vec<String>,
}

impl View for KeySet {
    type V = Seq<Seq<char>>;

    closed spec fn view(&self) -> Seq<Seq<char>> {
        views(self.keys@)
    }
}

impl KeySet {
    /// The members are in strictly increasing order.
    pub open spec fn wf(&self) -> bool {
        strictly_sorted(self@)
    }

    /// The members, as a set.
    pub open spec fn as_set(&self) -> Set<Seq<char>> {
        self@.to_set()
    }

    pub fn new() -> (r: KeySet)
        ensures
            r@ == Seq::<Seq<char>>::empty(),
            r.wf(),
    {
        let r = KeySet { keys: Vec::new() };
        assert(r@ =~= Seq::<Seq<char>>::empty());
        r
    }

    /// The number of members, which is the size of the set.
    pub fn len(&self) -> (r: usize)
        ensures
            r == self@.len(),
            self.wf() ==> self.as_set().len() == r,
    {
        proof {
            if self.wf() {
                lemma_sorted_no_duplicates(self@);
                self@.unique_seq_to_set();
            }
        }
        self.keys.len()
    }

    pub fn is_empty(&self) -> (r: bool)
        ensures
            r == (self@.len() == 0),
    {
        self.keys.len() == 0
    }

    /// The `i`-th member in order.
    pub fn member(&self, i: usize) -> (r: &String)
        requires
            i < self@.len(),
        ensures
            r@ == self@[i as int],
    {
        &self.keys[i]
    }

    /// The members in order.
    pub fn to_vec(&self) -> (r: Vec<String>)
        ensures
            views(r@) == self@,
    {
        let n = self.keys.len();
        let mut out: Vec<String> = Vec::new();
        let mut i: usize = 0;
        while i < n
            invariant
                n == self@.len(),
                i <= n,
                views(out@) == self@.take(i as int),
            decreases n - i,
        {
            let ghost before = out@;
            out.push(self.keys[i].clone());
            assert(views(out@) =~= self@.take(i + 1)) by {
                assert(views(out@) =~= views(before).push(self@[i as int]));
            }
            i = i + 1;
        }
        assert(self@.take(n as int) =~= self@);
        out
    }

    fn slot(&self, key: &str) -> (r: (usize, bool))
        requires
            self.wf(),
        ensures
            r.0 <= self@.len(),
            forall|j: int| 0 <= j < r.0 ==> key_lt(#[trigger] self@[j], key@),
            r.1 ==> r.0 < self@.len() && self@[r.0 as int] == key@,
            !r.1 && r.0 < self@.len() ==> key_lt(key@, self@[r.0 as int]),
    {
        let n = self.keys.len();
        let mut i: usize = 0;
        while i < n
            invariant
                n == self@.len(),
                i <= n,
                forall|j: int| 0 <= j < i ==> key_lt(#[trigger] self@[j], key@),
            decreases n - i,
        {
            let c = compare_keys(self.keys[i].as_str(), key);
            assert(self@[i as int] == self.keys@[i as int]@);
            match c {
                KeyOrder::Less => {
                    i = i + 1;
                },
                KeyOrder::Equal => {
                    return (i, true);
                },
                KeyOrder::Greater => {
                    return (i, false);
                },
            }
        }
        (i, false)
    }

    /// Whether `key` is a member.
    pub fn contains(&self, key: &str) -> (r: bool)
        requires
            self.wf(),
        ensures
            r == self@.contains(key@),
    {
        let (i, found) = self.slot(key);
        proof {
            if !found && self@.contains(key@) {
                let j = choose|j: int| 0 <= j < self@.len() && self@[j] == key@;
                if j <= i {
                    lemma_key_lt_irreflexive(key@);
                } else {
                    assert(key_lt(self@[i as int], self@[j]));
                    lemma_key_lt_transitive(key@, self@[i as int], key@);
                    lemma_key_lt_irreflexive(key@);
                }
            }
        }
        found
    }

    /// Adds `key`, unless it is already a member.
    pub fn insert(&mut self, key: String)
        requires
            old(self).wf(),
        ensures
            final(self).wf(),
            final(self).as_set() == old(self).as_set().insert(key@),
    {
        let ghost ks = self@;
        let (i, found) = self.slot(key.as_str());
        let ghost k = key@;
        if !found {
            self.keys.insert(i, key);
            assert(self@ =~= ks.insert(i as int, k));
            proof {
                lemma_sorted_insert(ks, i as int, k);
                ks.insert_ensures(i as int, k);
            }
            assert forall|q: Seq<char>| self@.to_set().contains(q) == ks.to_set().insert(k).contains(q) by {
                if self@.contains(q) {
                    let j = choose|j: int| 0 <= j < self@.len() && self@[j] == q;
                    if j < i {
                        assert(ks[j] == q);
                    } else if j > i {
                        assert(ks[j - 1] == q);
                    }
                }
                if ks.contains(q) {
                    let j = choose|j: int| 0 <= j < ks.len() && ks[j] == q;
                    if j < i {
                        assert(self@[j] == q);
                    } else {
                        assert(self@[j + 1] == q);
                    }
                }
                if q == k {
                    assert(self@[i as int] == q);
                }
            }
            assert(self@.to_set() =~= ks.to_set().insert(k));
        } else {
            assert(ks.to_set().contains(k));
            assert(ks.to_set() =~= ks.to_set().insert(k));
        }
    }

    /// The keys of a map, which are already sorted.
    pub fn from_map_keys(m: &StringMap) -> (r: KeySet)
        requires
            m.wf(),
        ensures
            r.wf(),
            r@ == keys_of(m@),
    {
        KeySet { keys: m.keys() }
    }

    /// The members of `self` that `other` lacks, in order.
    pub fn difference(&self, other: &KeySet) -> (r: Vec<String>)
        requires
            self.wf(),
            other.wf(),
        ensures
            views(r@) == without(self@, other@),
            strictly_sorted(views(r@)),
    {
        let n = self.keys.len();
        let mut out: Vec<String> = Vec::new();
        let mut i: usize = 0;
        assert(self@.take(0) =~= Seq::<Seq<char>>::empty());
        assert(views(out@) =~= Seq::<Seq<char>>::empty());
        while i < n
            invariant
                n == self@.len(),
                i <= n,
                self.wf(),
                other.wf(),
                views(out@) == without(self@.take(i as int), other@),
            decreases n - i,
        {
            let ghost before = views(out@);
            let present = other.contains(self.keys[i].as_str());
            assert(self@[i as int] == self.keys@[i as int]@);
            assert(self@.take(i + 1).drop_last() =~= self@.take(i as int));
            if !present {
                out.push(self.keys[i].clone());
                assert(views(out@) =~= before.push(self@[i as int]));
            } else {
                assert(views(out@) =~= before);
            }
            i = i + 1;
        }
        assert(self@.take(n as int) =~= self@);
        proof {
            lemma_without_sorted(self@, other@);
        }
        out
    }
}

/// The members of `s` that `other` lacks, in the order of `s`.
pub open spec fn without(s: Seq<Seq<char>>, other: Seq<Seq<char>>) -> Seq<Seq<char>>
    decreases s.len(),
{
    if s.len() == 0 {
        s
    } else if other.contains(s.last()) {
        without(s.drop_last(), other)
    } else {
        without(s.drop_last(), other).push(s.last())
    }
}

/// Everything `without` keeps comes from its first argument.
pub proof fn lemma_without_from(s: Seq<Seq<char>>, other: Seq<Seq<char>>, a: int)
    requires
        0 <= a < without(s, other).len(),
    ensures
        exists|b: int| 0 <= b < s.len() && #[trigger] s[b] == without(s, other)[a],
    decreases s.len(),
{
    if s.len() > 0 {
        let w = without(s.drop_last(), other);
        if a < w.len() {
            lemma_without_from(s.drop_last(), other, a);
            let b = choose|b: int| 0 <= b < s.drop_last().len() && #[trigger] s.drop_last()[b] == w[a];
            assert(s[b] == without(s, other)[a]);
        } else {
            assert(s[s.len() - 1] == without(s, other)[a]);
        }
    }
}

/// Dropping members from a sorted list leaves it sorted.
pub proof fn lemma_without_sorted(s: Seq<Seq<char>>, other: Seq<Seq<char>>)
    requires
        strictly_sorted(s),
    ensures
        strictly_sorted(without(s, other)),
    decreases s.len(),
{
    if s.len() > 0 {
        let d = s.drop_last();
        assert(strictly_sorted(d)) by {
            assert forall|i: int, j: int| 0 <= i < j < d.len() implies key_lt(#[trigger] d[i], #[trigger] d[j]) by {
                assert(d[i] == s[i] && d[j] == s[j]);
            }
        }
        lemma_without_sorted(d, other);
        let w = without(d, other);
        if !other.contains(s.last()) {
            let r = w.push(s.last());
            assert forall|i: int, j: int| 0 <= i < j < r.len() implies key_lt(#[trigger] r[i], #[trigger] r[j]) by {
                if j == w.len() {
                    lemma_without_from(d, other, i);
                    let b = choose|b: int| 0 <= b < d.len() && #[trigger] d[b] == w[i];
                    assert(s[b] == d[b]);
                    assert(key_lt(s[b], s[s.len() - 1]));
                } else {
                    assert(r[i] == w[i] && r[j] == w[j]);
                }
            }
        }
    }
}

} // verus!
