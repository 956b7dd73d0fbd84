use vstd::prelude::*;

use crate::text::{lemma_text_lt_irreflexive, lemma_text_lt_total, lemma_text_lt_transitive, str_lt, text_lt};

verus! {

/// Position of the entry whose key is `k` in an association sequence, or `-1` when there is
/// none. On a sequence whose keys are distinct the position is unique.
pub open spec fn key_pos<B>(ps: Seq<(Seq<char>, B)>, k: Seq<char>) -> int {
    if exists|i: int| 0 <= i < ps.len() && #[trigger] ps[i].0 == k {
        choose|i: int| 0 <= i < ps.len() && #[trigger] ps[i].0 == k
    } else {
        -1
    }
}

/// No key occurs twice.
pub open spec fn keys_distinct<B>(ps: Seq<(Seq<char>, B)>) -> bool {
    forall|i: int, j: int| 0 <= i < ps.len() && 0 <= j < ps.len() && i != j ==> #[trigger] ps[i].0 != #[trigger] ps[j].0
}

/// The value stored under `k`, if any.
pub open spec fn assoc_get<B>(ps: Seq<(Seq<char>, B)>, k: Seq<char>) -> Option<B> {
    if key_pos(ps, k) >= 0 {
        Some(ps[key_pos(ps, k)].1)
    } else {
        None
    }
}

/// Storing `v` under `k`: an existing entry keeps its place and takes the new value, a new key
/// goes to the end.
pub open spec fn assoc_insert<B>(ps: Seq<(Seq<char>, B)>, k: Seq<char>, v: B) -> Seq<(Seq<char>, B)> {
    if key_pos(ps, k) >= 0 {
        ps.update(key_pos(ps, k), (k, v))
    } else {
        ps.push((k, v))
    }
}

/// The association sequence read as a finite map.
pub open spec fn assoc_map<B>(ps: Seq<(Seq<char>, B)>) -> Map<Seq<char>, B> {
    Map::new(|k: Seq<char>| key_pos(ps, k) >= 0, |k: Seq<char>| ps[key_pos(ps, k)].1)
}

pub proof fn lemma_key_pos<B>(ps: Seq<(Seq<char>, B)>, k: Seq<char>)
    requires
        keys_distinct(ps),
    ensures
        -1 <= key_pos(ps, k) < ps.len(),
        key_pos(ps, k) >= 0 ==> ps[key_pos(ps, k)].0 == k,
        key_pos(ps, k) < 0 ==> forall|i: int| 0 <= i < ps.len() ==> #[trigger] ps[i].0 != k,
        forall|i: int| 0 <= i < ps.len() && #[trigger] ps[i].0 == k ==> key_pos(ps, k) == i,
{
}

pub proof fn lemma_assoc_insert<B>(ps: Seq<(Seq<char>, B)>, k: Seq<char>, v: B)
    requires
        keys_distinct(ps),
    ensures
        keys_distinct(assoc_insert(ps, k, v)),
        assoc_map(assoc_insert(ps, k, v)) == assoc_map(ps).insert(k, v),
        forall|k2: Seq<char>| #[trigger] assoc_get(assoc_insert(ps, k, v), k2) == if k2 == k {
            Some(v)
        } else {
            assoc_get(ps, k2)
        },
{
    lemma_key_pos(ps, k);
    let qs = assoc_insert(ps, k, v);
    assert(keys_distinct(qs));
    assert forall|k2: Seq<char>| #[trigger] assoc_get(qs, k2) == if k2 == k {
        Some(v)
    } else {
        assoc_get(ps, k2)
    } by {
        lemma_key_pos(ps, k2);
        lemma_key_pos(qs, k2);
        if k2 == k {
            if key_pos(ps, k) >= 0 {
                assert(qs[key_pos(ps, k)].0 == k);
            } else {
                assert(qs[ps.len() as int].0 == k);
            }
        } else {
            if key_pos(ps, k2) >= 0 {
                assert(qs[key_pos(ps, k2)].0 == k2);
            }
        }
    }
    assert forall|k2: Seq<char>| #[trigger] assoc_map(qs).contains_key(k2) == assoc_map(ps).insert(k, v).contains_key(k2)
        && (assoc_map(qs).contains_key(k2) ==> assoc_map(qs)[k2] == assoc_map(ps).insert(k, v)[k2]) by {
        assert(assoc_get(qs, k2) == if k2 == k { Some(v) } else { assoc_get(ps, k2) });
    }
    assert(assoc_map(qs) =~= assoc_map(ps).insert(k, v));
}

/// Appending `x` to the list stored under `k`, starting a new list when `k` has none.
pub open spec fn assoc_append<B>(ps: Seq<(Seq<char>, Seq<B>)>, k: Seq<char>, x: B) -> Seq<(Seq<char>, Seq<B>)> {
    match assoc_get(ps, k) {
        Some(v) => assoc_insert(ps, k, v.push(x)),
        None => assoc_insert(ps, k, seq![x]),
    }
}

/// An association sequence without repeated keys is a finite map with one key per entry.
pub proof fn lemma_assoc_map_len<B>(ps: Seq<(Seq<char>, B)>)
    requires
        keys_distinct(ps),
    ensures
        assoc_map(ps).dom().finite(),
        assoc_map(ps).dom().len() == ps.len(),
    decreases ps.len(),
{
    if ps.len() == 0 {
        assert(assoc_map(ps).dom() =~= Set::<Seq<char>>::empty());
    } else {
        let pre = ps.drop_last();
        let k = ps.last().0;
        assert forall|i: int, j: int| 0 <= i < pre.len() && 0 <= j < pre.len() && i != j implies #[trigger] pre[i].0
            != #[trigger] pre[j].0 by {
            assert(pre[i] == ps[i] && pre[j] == ps[j]);
        }
        lemma_assoc_map_len(pre);
        assert forall|x: Seq<char>| #[trigger] assoc_map(ps).dom().contains(x) == assoc_map(pre).dom().insert(k).contains(x) by {
            if assoc_map(ps).dom().contains(x) && x != k {
                let i = choose|i: int| 0 <= i < ps.len() && #[trigger] ps[i].0 == x;
                assert(pre[i].0 == x);
            }
            if assoc_map(pre).dom().contains(x) {
                let i = choose|i: int| 0 <= i < pre.len() && #[trigger] pre[i].0 == x;
                assert(ps[i].0 == x);
            }
            if x == k {
                assert(ps[ps.len() - 1].0 == x);
            }
        }
        assert(assoc_map(ps).dom() =~= assoc_map(pre).dom().insert(k));
        if assoc_map(pre).dom().contains(k) {
            let i = choose|i: int| 0 <= i < pre.len() && #[trigger] pre[i].0 == k;
            assert(ps[i].0 == ps[ps.len() - 1].0);
        }
    }
}

/// The keys appear in increasing order, as `String`s sort.
pub open spec fn keys_sorted<B>(ps: Seq<(Seq<char>, B)>) -> bool {
    forall|i: int, j: int| 0 <= i < j < ps.len() ==> text_lt(#[trigger] ps[i].0, #[trigger] ps[j].0)
}

proof fn lemma_sorted_distinct<B>(ps: Seq<(Seq<char>, B)>)
    requires
        keys_sorted(ps),
    ensures
        keys_distinct(ps),
{
    assert forall|i: int, j: int| 0 <= i < ps.len() && 0 <= j < ps.len() && i != j implies #[trigger] ps[i].0
        != #[trigger] ps[j].0 by {
        lemma_text_lt_irreflexive(ps[i].0);
        if i < j {
            assert(text_lt(ps[i].0, ps[j].0));
        } else {
            assert(text_lt(ps[j].0, ps[i].0));
        }
    }
}

/// Putting a new key anywhere in an association sequence stores it in the map.
proof fn lemma_assoc_insert_at<B>(ps: Seq<(Seq<char>, B)>, p: int, k: Seq<char>, v: B)
    requires
        0 <= p <= ps.len(),
        keys_distinct(ps.insert(p, (k, v))),
    ensures
        assoc_map(ps.insert(p, (k, v))) == assoc_map(ps).insert(k, v),
{
    let qs = ps.insert(p, (k, v));
    assert forall|i: int| 0 <= i < ps.len() implies #[trigger] ps[i].0 != k by {
        let qi = if i < p { i } else { i + 1 };
        assert(qs[qi] == ps[i]);
        assert(qs[p] == (k, v));
        assert(qs[qi].0 != qs[p].0);
    }
    assert forall|i: int, j: int| 0 <= i < ps.len() && 0 <= j < ps.len() && i != j implies #[trigger] ps[i].0
        != #[trigger] ps[j].0 by {
        let qi = if i < p { i } else { i + 1 };
        let qj = if j < p { j } else { j + 1 };
        assert(qs[qi] == ps[i]);
        assert(qs[qj] == ps[j]);
    }
    assert forall|x: Seq<char>| #[trigger] assoc_map(qs).contains_key(x) == assoc_map(ps).insert(k, v).contains_key(x)
        && (assoc_map(qs).contains_key(x) ==> assoc_map(qs)[x] == assoc_map(ps).insert(k, v)[x]) by {
        lemma_key_pos(qs, x);
        lemma_key_pos(ps, x);
        if x == k {
            assert(qs[p].0 == k);
        } else if key_pos(ps, x) >= 0 {
            let i = key_pos(ps, x);
            let qi = if i < p { i } else { i + 1 };
            assert(qs[qi] == ps[i]);
        } else if key_pos(qs, x) >= 0 {
            let qi = key_pos(qs, x);
            if qi < p {
                assert(qs[qi] == ps[qi]);
            } else if qi > p {
                assert(qs[qi] == ps[qi - 1]);
            }
        }
    }
    assert(assoc_map(qs) =~= assoc_map(ps).insert(k, v));
}

/// A map from strings to values that keeps its entries in insertion order.
///
/// Its contents are an association sequence in which no key occurs twice.
#[derive(Debug, PartialEq, Eq)]
pub struct StrMap<V: DeepView> {
    entries: Vec<(String, V)>,
}

impl<V: DeepView> StrMap<V> {
    /// The entries, in order, each key by its characters and each value by its deep view.
    pub closed spec fn pairs(&self) -> Seq<(Seq<char>, V::V)> {
        self.entries.deep_view()
    }

    /// The entries read as a map.
    pub open spec fn as_map(&self) -> Map<Seq<char>, V::V> {
        assoc_map(self.pairs())
    }

    /// No key occurs twice; every value of the type keeps this.
    #[verifier::type_invariant]
    pub open spec fn distinct_keys(&self) -> bool {
        keys_distinct(self.pairs())
    }

    /// An empty map.
    pub fn new() -> (m: Self)
        ensures
            m.pairs() == Seq::<(Seq<char>, V::V)>::empty(),
    {
        let m = StrMap { entries: Vec::new() };
        assert(m.pairs() =~= Seq::<(Seq<char>, V::V)>::empty());
        m
    }

    /// Number of entries, which is the number of keys.
    pub fn len(&self) -> (n: usize)
        ensures
            n == self.pairs().len(),
            n == self.as_map().dom().len(),
    {
        proof {
            use_type_invariant(self);
            lemma_assoc_map_len(self.pairs());
        }
        self.entries.len()
    }

    /// Whether there are no entries.
    pub fn is_empty(&self) -> (b: bool)
        ensures
            b == (self.pairs().len() == 0),
    {
        self.entries.len() == 0
    }

    /// Position of `key` among the entries.
    fn find(&self, key: &str) -> (r: Option<usize>)
        ensures
            match r {
                Some(i) => i == key_pos(self.pairs(), key@) && i < self.pairs().len(),
                None => key_pos(self.pairs(), key@) == -1,
            },
    {
        proof {
            use_type_invariant(self);
            lemma_key_pos(self.pairs(), key@);
        }
        let k: String = key.to_owned();
        let n = self.entries.len();
        let mut i: usize = 0;
        while i < n
            invariant
                n == self.entries.len(),
                self.entries.deep_view() == self.pairs(),
                k@ == key@,
                i <= n,
                forall|j: int| 0 <= j < i ==> #[trigger] self.pairs()[j].0 != key@,
                forall|j: int| 0 <= j < n && #[trigger] self.pairs()[j].0 == key@ ==> key_pos(self.pairs(), key@) == j,
                key_pos(self.pairs(), key@) < 0 ==> forall|j: int| 0 <= j < n ==> #[trigger] self.pairs()[j].0 != key@,
                -1 <= key_pos(self.pairs(), key@),
            decreases n - i,
        {
            assert(self.pairs()[i as int].0 == self.entries[i as int].0@);
            if self.entries[i].0 == k {
                return Some(i);
            }
            i += 1;
        }
        None
    }

    /// Whether `key` has an entry.
    pub fn contains_key(&self, key: &str) -> (b: bool)
        ensures
            b == self.as_map().contains_key(key@),
    {
        self.find(key).is_some()
    }

    /// The value stored under `key`.
    pub fn get(&self, key: &str) -> (r: Option<&V>)
        ensures
            match r {
                Some(v) => self.as_map().contains_key(key@) && v.deep_view() == self.as_map()[key@],
                None => !self.as_map().contains_key(key@),
            },
            r is Some <==> assoc_get(self.pairs(), key@) is Some,
            r matches Some(v) ==> assoc_get(self.pairs(), key@) == Some(v.deep_view()),
    {
        match self.find(key) {
            Some(i) => {
                assert(self.entries.deep_view()[i as int].1 == self.entries[i as int].1.deep_view());
                Some(&self.entries[i].1)
            },
            None => None,
        }
    }

    /// The keys, in order.
    pub fn keys(&self) -> (ks: Vec<String>)
        ensures
            ks.deep_view() == self.pairs().map_values(|p: (Seq<char>, V::V)| p.0),
    {
        let mut ks: Vec<String> = Vec::new();
        let n = self.entries.len();
        for i in 0..n
            invariant
                n == self.entries.len(),
                self.entries.deep_view() == self.pairs(),
                ks.deep_view() == self.pairs().take(i as int).map_values(|p: (Seq<char>, V::V)| p.0),
        {
            let k = self.entries[i].0.clone();
            assert(self.pairs()[i as int].0 == self.entries[i as int].0@);
            let ghost prev = ks.deep_view();
            ks.push(k);
            assert(ks.deep_view() =~= prev.push(self.pairs()[i as int].0));
            assert(self.pairs().take(i + 1) =~= self.pairs().take(i as int).push(self.pairs()[i as int]));
            assert(ks.deep_view() =~= self.pairs().take(i + 1).map_values(|p: (Seq<char>, V::V)| p.0));
        }
        assert(self.pairs().take(n as int) =~= self.pairs());
        ks
    }

    /// The entry at position `i`, in insertion order.
    pub fn entry_at(&self, i: usize) -> (r: (&String, &V))
        requires
            i < self.pairs().len(),
        ensures
            r.0@ == self.pairs()[i as int].0,
            r.1.deep_view() == self.pairs()[i as int].1,
    {
        let e = &self.entries[i];
        (&e.0, &e.1)
    }

    /// Store `value` under `key`, giving back the value it replaces.
    pub fn insert(&mut self, key: String, value: V) -> (old_value: Option<V>)
        ensures
            final(self).pairs() == assoc_insert(old(self).pairs(), key@, value.deep_view()),
            final(self).as_map() == old(self).as_map().insert(key@, value.deep_view()),
            old_value is Some <==> old(self).as_map().contains_key(key@),
            old_value matches Some(v) ==> v.deep_view() == old(self).as_map()[key@],
    {
        proof {
            use_type_invariant(&*self);
            lemma_assoc_insert(self.pairs(), key@, value.deep_view());
            lemma_key_pos(self.pairs(), key@);
        }
        let ghost vv = value.deep_view();
        let ghost kk = key@;
        let ghost before = self.pairs();
        match self.find(key.as_str()) {
            Some(i) => {
                let mut entries = Vec::new();
                std::mem::swap(&mut entries, &mut self.entries);
                let (k0, v0) = entries.remove(i);
                entries.insert(i, (key, value));
                assert(entries.deep_view() =~= assoc_insert(before, kk, vv));
                self.entries = entries;
                Some(v0)
            },
            None => {
                let mut entries = Vec::new();
                std::mem::swap(&mut entries, &mut self.entries);
                entries.push((key, value));
                assert(entries.deep_view() =~= assoc_insert(before, kk, vv));
                self.entries = entries;
                None
            },
        }
    }
}

impl<V: DeepView> StrMap<V> {
    /// The same map with its entries in increasing order of their keys.
    pub fn into_sorted(self) -> (r: StrMap<V>)
        ensures
            r.as_map() == self.as_map(),
            keys_sorted(r.pairs()),
    {
        proof {
            use_type_invariant(&self);
        }
        let ghost ps = self.pairs();
        let mut rest = self.entries;
        let mut out: Vec<(String, V)> = Vec::new();
        let ghost mut taken: int = 0;
        assert(ps.skip(0) =~= ps);
        assert(assoc_map(out.deep_view()) =~= assoc_map(ps.take(0)));
        while rest.len() > 0
            invariant
                keys_distinct(ps),
                0 <= taken <= ps.len(),
                rest.deep_view() == ps.skip(taken),
                keys_sorted(out.deep_view()),
                assoc_map(out.deep_view()) == assoc_map(ps.take(taken)),
            decreases rest.len(),
        {
            let ghost ov = out.deep_view();
            let ghost rv = rest.deep_view();
            assert(rv.len() == rest@.len());
            assert(taken < ps.len());
            assert(rv[0] == ps[taken]);
            let (k, v) = rest.remove(0);
            assert(rest.deep_view() =~= rv.drop_first());
            assert(rest.deep_view() =~= ps.skip(taken + 1));
            assert((k@, v.deep_view()) == ps[taken]);
            // The key is new: the keys so far are those of the entries before it.
            proof {
                lemma_key_pos(ps.take(taken), k@);
                assert forall|q: int| 0 <= q < ps.take(taken).len() implies #[trigger] ps.take(taken)[q].0 != k@ by {
                    assert(ps.take(taken)[q] == ps[q]);
                    assert(ps[q].0 != ps[taken].0);
                }
            }
            assert(!assoc_map(ov).contains_key(k@));
            let mut p: usize = 0;
            while p < out.len() && str_lt(out[p].0.as_str(), k.as_str())
                invariant
                    ov == out.deep_view(),
                    p <= ov.len(),
                    forall|q: int| 0 <= q < p ==> text_lt(#[trigger] ov[q].0, k@),
                decreases ov.len() - p,
            {
                assert(ov[p as int].0 == out[p as int].0@);
                p += 1;
            }
            proof {
                if p < ov.len() {
                    assert(ov[p as int].0 == out[p as int].0@);
                    lemma_text_lt_total(ov[p as int].0, k@);
                    lemma_sorted_distinct(ov);
                    lemma_key_pos(ov, k@);
                    assert(ov[p as int].0 != k@);
                    assert(text_lt(k@, ov[p as int].0));
                }
            }
            let ghost e = (k@, v.deep_view());
            out.insert(p, (k, v));
            let ghost nv = ov.insert(p as int, e);
            assert(out.deep_view() =~= nv);
            proof {
                assert forall|i: int, j: int| 0 <= i < j < nv.len() implies text_lt(#[trigger] nv[i].0, #[trigger] nv[j].0) by {
                    if j < p {
                        assert(nv[i] == ov[i] && nv[j] == ov[j]);
                    } else if j == p {
                        assert(nv[i] == ov[i]);
                    } else if i < p {
                        assert(nv[i] == ov[i] && nv[j] == ov[j - 1]);
                        assert(text_lt(ov[i].0, k@));
                        lemma_text_lt_transitive(ov[i].0, k@, ov[p as int].0);
                        if j - 1 > p {
                            lemma_text_lt_transitive(ov[i].0, ov[p as int].0, ov[j - 1].0);
                        }
                    } else if i == p {
                        assert(nv[j] == ov[j - 1]);
                        if j - 1 > p {
                            lemma_text_lt_transitive(k@, ov[p as int].0, ov[j - 1].0);
                        }
                    } else {
                        assert(nv[i] == ov[i - 1] && nv[j] == ov[j - 1]);
                    }
                }
                lemma_sorted_distinct(nv);
                lemma_assoc_insert_at(ov, p as int, e.0, e.1);
                assert(ps.take(taken + 1) =~= ps.take(taken).push(e));
                lemma_key_pos(ps.take(taken), e.0);
                assert(assoc_insert(ps.take(taken), e.0, e.1) == ps.take(taken).push(e));
                assert(keys_distinct(ps.take(taken))) by {
                    assert forall|i: int, j: int| 0 <= i < ps.take(taken).len() && 0 <= j < ps.take(taken).len() && i != j
                        implies #[trigger] ps.take(taken)[i].0 != #[trigger] ps.take(taken)[j].0 by {
                        assert(ps.take(taken)[i] == ps[i] && ps.take(taken)[j] == ps[j]);
                    }
                }
                lemma_assoc_insert(ps.take(taken), e.0, e.1);
                taken = taken + 1;
            }
        }
        assert(ps.skip(taken).len() == 0);
        assert(ps.take(taken) =~= ps);
        proof {
            lemma_sorted_distinct(out.deep_view());
        }
        StrMap { entries: out }
    }
}

impl<T: DeepView> StrMap<Vec<T>> {
    /// Append `item` to the list stored under `key`, starting a new list when there is none.
    pub fn push_to(&mut self, key: String, item: T)
        ensures
            final(self).pairs() == assoc_append(old(self).pairs(), key@, item.deep_view()),
    {
        proof {
            use_type_invariant(&*self);
            lemma_key_pos(self.pairs(), key@);
        }
        let ghost kk = key@;
        let ghost xv = item.deep_view();
        let ghost before = self.pairs();
        match self.find(key.as_str()) {
            Some(i) => {
                let mut entries = Vec::new();
                std::mem::swap(&mut entries, &mut self.entries);
                let (k0, mut list) = entries.remove(i);
                assert(list.deep_view() == before[i as int].1);
                let ghost prev = list.deep_view();
                list.push(item);
                assert(list.deep_view() =~= prev.push(xv));
                entries.insert(i, (key, list));
                proof {
                    lemma_assoc_insert(before, kk, prev.push(xv));
                }
                assert(entries.deep_view() =~= assoc_append(before, kk, xv));
                self.entries = entries;
            },
            None => {
                let mut entries = Vec::new();
                std::mem::swap(&mut entries, &mut self.entries);
                let mut list: Vec<T> = Vec::new();
                list.push(item);
                assert(list.deep_view() =~= seq![xv]);
                entries.push((key, list));
                proof {
                    lemma_assoc_insert(before, kk, seq![xv]);
                }
                assert(entries.deep_view() =~= assoc_append(before, kk, xv));
                self.entries = entries;
            },
        }
    }
}

impl<V: DeepView + Clone> Clone for StrMap<V> {
    /// A copy with the same keys, in the same order; each value is cloned.
    fn clone(&self) -> (r: Self)
        ensures
            r.pairs().len() == self.pairs().len(),
            forall|i: int| 0 <= i < self.pairs().len() ==> #[trigger] r.pairs()[i].0 == self.pairs()[i].0,
    {
        proof {
            use_type_invariant(self);
        }
        let mut entries: Vec<(String, V)> = Vec::new();
        let n = self.entries.len();
        for i in 0..n
            invariant
                n == self.entries.len(),
                self.entries.deep_view() == self.pairs(),
                keys_distinct(self.pairs()),
                entries@.len() == i,
                forall|j: int| 0 <= j < i ==> #[trigger] entries.deep_view()[j].0 == self.pairs()[j].0,
        {
            let k = self.entries[i].0.clone();
            let v = self.entries[i].1.clone();
            assert(self.pairs()[i as int].0 == self.entries[i as int].0@);
            let ghost prev = entries.deep_view();
            entries.push((k, v));
            assert forall|j: int| 0 <= j < i + 1 implies #[trigger] entries.deep_view()[j].0 == self.pairs()[j].0 by {
                if j < i {
                    assert(entries.deep_view()[j] == prev[j]);
                }
            }
        }
        assert(keys_distinct(entries.deep_view())) by {
            assert forall|a: int, b: int| 0 <= a < entries.deep_view().len() && 0 <= b < entries.deep_view().len() && a != b
                implies #[trigger] entries.deep_view()[a].0 != #[trigger] entries.deep_view()[b].0 by {
                assert(entries.deep_view()[a].0 == self.pairs()[a].0);
                assert(entries.deep_view()[b].0 == self.pairs()[b].0);
            }
        }
        StrMap { entries }
    }
}

} // verus!
