//! A map from strings to values that keeps its keys in lexicographic order.
use vstd::prelude::*;

use crate::lex::{lemma_lex_asymmetric, lemma_lex_irreflexive, lemma_lex_total, lemma_lex_transitive, lex_lt, str_lt};

verus! {

/// The keys of `s` strictly increase.
pub open spec fn keys_sorted<V>(s: Seq<(Seq<char>, V)>) -> bool {
    forall|i: int, j: int| 0 <= i < j < s.len() ==> lex_lt(#[trigger] s[i].0, #[trigger] s[j].0)
}

pub open spec fn has_key<V>(s: Seq<(Seq<char>, V)>, k: Seq<char>) -> bool {
    exists|i: int| 0 <= i < s.len() && #[trigger] s[i].0 == k
}

/// An index at which `k` is a key of `s`, if there is one.
pub open spec fn key_index<V>(s: Seq<(Seq<char>, V)>, k: Seq<char>) -> int {
    choose|i: int| 0 <= i < s.len() && #[trigger] s[i].0 == k
}

/// The map that a list of (key, value) entries describes.
pub open spec fn entries_map<V>(s: Seq<(Seq<char>, V)>) -> Map<Seq<char>, V> {
    Map::new(|k: Seq<char>| has_key(s, k), |k: Seq<char>| s[key_index(s, k)].1)
}

/// In sorted entries, each key is found at exactly one index.
pub proof fn lemma_sorted_key_unique<V>(s: Seq<(Seq<char>, V)>, i: int, j: int)
    requires
        keys_sorted(s),
        0 <= i < s.len(),
        0 <= j < s.len(),
        s[i].0 == s[j].0,
    ensures
        i == j,
{
    if i < j {
        lemma_lex_irreflexive(s[i].0);
    } else if j < i {
        lemma_lex_irreflexive(s[i].0);
    }
}

/// The map of sorted entries gives each entry's value for its key.
pub proof fn lemma_entries_map_at<V>(s: Seq<(Seq<char>, V)>, i: int)
    requires
        keys_sorted(s),
        0 <= i < s.len(),
    ensures
        entries_map(s).contains_key(s[i].0),
        entries_map(s)[s[i].0] == s[i].1,
{
    let k = s[i].0;
    assert(has_key(s, k));
    let j = key_index(s, k);
    lemma_sorted_key_unique(s, i, j);
}

/// Two sorted entry lists with the same map are the same list.
pub proof fn lemma_sorted_entries_determined<V>(s: Seq<(Seq<char>, V)>, t: Seq<(Seq<char>, V)>)
    requires
        keys_sorted(s),
        keys_sorted(t),
        entries_map(s) == entries_map(t),
    ensures
        s == t,
    decreases s.len() + t.len(),
{
    if s.len() == 0 {
        if t.len() > 0 {
            lemma_entries_map_at(t, 0);
        }
        assert(s =~= t);
    } else if t.len() == 0 {
        lemma_entries_map_at(s, 0);
    } else {
        // The last keys agree: each is the greatest key of the same map.
        let ks = s.last().0;
        let kt = t.last().0;
        lemma_entries_map_at(s, s.len() - 1);
        lemma_entries_map_at(t, t.len() - 1);
        assert(has_key(t, ks));
        let it = choose|i: int| 0 <= i < t.len() && #[trigger] t[i].0 == ks;
        assert(has_key(s, kt));
        let is = choose|i: int| 0 <= i < s.len() && #[trigger] s[i].0 == kt;
        if it < t.len() - 1 {
            assert(lex_lt(ks, kt));
            if is < s.len() - 1 {
                assert(lex_lt(kt, ks));
                lemma_lex_asymmetric(ks, kt);
            } else {
                lemma_lex_irreflexive(ks);
            }
        }
        assert(it == t.len() - 1);
        assert(ks == kt);
        lemma_entries_map_at(t, it);
        let s2 = s.drop_last();
        let t2 = t.drop_last();
        assert(keys_sorted(s2));
        assert(keys_sorted(t2));
        assert(entries_map(s2) =~= entries_map(t2)) by {
            assert forall|k: Seq<char>| #[trigger] entries_map(s2).contains_key(k) implies entries_map(
                t2,
            ).contains_key(k) && entries_map(s2)[k] == entries_map(t2)[k] by {
                let a = choose|a: int| 0 <= a < s2.len() && #[trigger] s2[a].0 == k;
                lemma_entries_map_at(s2, a);
                lemma_entries_map_at(s, a);
                assert(entries_map(t).contains_key(k));
                let b = choose|b: int| 0 <= b < t.len() && #[trigger] t[b].0 == k;
                lemma_entries_map_at(t, b);
                if b == t.len() - 1 {
                    lemma_sorted_key_unique(s, a, s.len() - 1);
                }
                lemma_entries_map_at(t2, b);
            }
            assert forall|k: Seq<char>| #[trigger] entries_map(t2).contains_key(k) implies entries_map(
                s2,
            ).contains_key(k) by {
                let b = choose|b: int| 0 <= b < t2.len() && #[trigger] t2[b].0 == k;
                lemma_entries_map_at(t, b);
                assert(entries_map(s).contains_key(k));
                let a = choose|a: int| 0 <= a < s.len() && #[trigger] s[a].0 == k;
                if a == s.len() - 1 {
                    lemma_sorted_key_unique(t, b, t.len() - 1);
                }
                assert(s2[a].0 == k);
            }
        }
        lemma_sorted_entries_determined(s2, t2);
        assert(s =~= s2.push(s.last()));
        assert(t =~= t2.push(t.last()));
    }
}

/// A map from strings to values, kept as a list of entries sorted by key.
#[derive(Debug, Clone, PartialEq, Eq)]
pub struct StrMap<V> {
    entries: Vec<(String, V)>,
}

impl<V: DeepView> View for StrMap<V> {
    type V = Map<Seq<char>, V::V>;

    open spec fn view(&self) -> Map<Seq<char>, V::V> {
        entries_map(self.entries_view())
    }
}

impl<V: DeepView> StrMap<V> {
    /// The entries, in key order.
    pub closed spec fn entries_view(&self) -> Seq<(Seq<char>, V::V)> {
        self.entries@.map_values(|e: (String, V)| (e.0@, e.1.deep_view()))
    }

    /// The keys are strictly increasing.
    pub open spec fn wf(&self) -> bool {
        keys_sorted(self.entries_view())
    }

    /// The keys in order.
    pub open spec fn keys_view(&self) -> Seq<Seq<char>> {
        self.entries_view().map_values(|e: (Seq<char>, V::V)| e.0)
    }

    pub fn new() -> (m: Self)
        ensures
            m.wf(),
            m.entries_view() == Seq::<(Seq<char>, V::V)>::empty(),
            m@ == Map::<Seq<char>, V::V>::empty(),
    {
        let m = StrMap { entries: Vec::new() };
        assert(m.entries_view() =~= Seq::<(Seq<char>, V::V)>::empty());
        assert(m@ =~= Map::<Seq<char>, V::V>::empty());
        m
    }

    /// The number of entries.
    pub fn len(&self) -> (n: usize)
        ensures
            n == self.entries_view().len(),
    {
        self.entries.len()
    }

    /// The key of the entry at `i`.
    pub fn key_at(&self, i: usize) -> (k: &String)
        requires
            i < self.entries_view().len(),
        ensures
            k@ == self.entries_view()[i as int].0,
    {
        &self.entries[i].0
    }

    /// The value of the entry at `i`.
    pub fn value_at(&self, i: usize) -> (v: &V)
        requires
            i < self.entries_view().len(),
        ensures
            v.deep_view() == self.entries_view()[i as int].1,
    {
        &self.entries[i].1
    }

    /// The number of keys that sort before `key`: where `key` is, or would go.
    pub fn lower_bound(&self, key: &str) -> (i: usize)
        requires
            self.wf(),
        ensures
            i <= self.entries_view().len(),
            forall|j: int| 0 <= j < i ==> lex_lt(#[trigger] self.entries_view()[j].0, key@),
            forall|j: int| i <= j < self.entries_view().len() ==> !lex_lt(#[trigger] self.entries_view()[j].0, key@),
    {
        let ghost ev = self.entries_view();
        let mut lo: usize = 0;
        let mut hi: usize = self.entries.len();
        while lo < hi
            invariant
                ev == self.entries_view(),
                keys_sorted(ev),
                ev.len() == self.entries@.len(),
                lo <= hi <= ev.len(),
                forall|j: int| 0 <= j < lo ==> lex_lt(#[trigger] ev[j].0, key@),
                forall|j: int| hi <= j < ev.len() ==> !lex_lt(#[trigger] ev[j].0, key@),
            decreases hi - lo,
        {
            let mid = lo + (hi - lo) / 2;
            assert(self.entries@[mid as int].0@ == ev[mid as int].0);
            if str_lt(self.entries[mid].0.as_str(), key) {
                proof {
                    assert forall|j: int| 0 <= j <= mid implies lex_lt(#[trigger] ev[j].0, key@) by {
                        if j < mid {
                            lemma_lex_transitive(ev[j].0, ev[mid as int].0, key@);
                        }
                    }
                }
                lo = mid + 1;
            } else {
                proof {
                    assert forall|j: int| mid <= j < ev.len() implies !lex_lt(#[trigger] ev[j].0, key@) by {
                        if j > mid && lex_lt(ev[j].0, key@) {
                            lemma_lex_transitive(ev[mid as int].0, ev[j].0, key@);
                        }
                    }
                }
                hi = mid;
            }
        }
        lo
    }

    /// The index of the entry with `key`, if any.
    pub fn find(&self, key: &str) -> (r: Option<usize>)
        requires
            self.wf(),
        ensures
            match r {
                Some(i) => i < self.entries_view().len() && self.entries_view()[i as int].0 == key@,
                None => !has_key(self.entries_view(), key@),
            },
            r is Some <==> self@.contains_key(key@),
    {
        let ghost ev = self.entries_view();
        let k = key.to_owned();
        let i = self.lower_bound(key);
        if i < self.entries.len() {
            assert(self.entries@[i as int].0@ == ev[i as int].0);
            if self.entries[i].0 == k {
                return Some(i);
            }
            proof {
                lemma_lex_total(ev[i as int].0, key@);
                assert forall|j: int| i < j < ev.len() implies (#[trigger] ev[j]).0 != key@ by {
                    if ev[j].0 == key@ {
                        lemma_lex_asymmetric(ev[i as int].0, key@);
                    }
                }
            }
        }
        proof {
            assert forall|j: int| 0 <= j < ev.len() implies (#[trigger] ev[j]).0 != key@ by {
                if j < i {
                    lemma_lex_irreflexive(key@);
                }
            }
        }
        None
    }

    /// Whether `key` has an entry.
    pub fn contains_key(&self, key: &str) -> (r: bool)
        requires
            self.wf(),
        ensures
            r == self@.contains_key(key@),
    {
        self.find(key).is_some()
    }

    /// The value for `key`, if any.
    pub fn get(&self, key: &str) -> (r: Option<&V>)
        requires
            self.wf(),
        ensures
            r is Some <==> self@.contains_key(key@),
            r matches Some(v) ==> v.deep_view() == self@[key@],
    {
        match self.find(key) {
            Some(i) => {
                proof {
                    lemma_entries_map_at(self.entries_view(), i as int);
                }
                Some(&self.entries[i].1)
            },
            None => None,
        }
    }

    /// Set the value for `key`, replacing any earlier one.
    pub fn insert(&mut self, key: String, value: V)
        requires
            old(self).wf(),
        ensures
            final(self).wf(),
            final(self)@ == old(self)@.insert(key@, value.deep_view()),
    {
        let ghost old_s = self.entries_view();
        let ghost kv = key@;
        let ghost vv = value.deep_view();
        match self.find(key.as_str()) {
            Some(i) => {
                self.entries.set(i, (key, value));
                proof {
                    let s = self.entries_view();
                    assert(s =~= old_s.update(i as int, (kv, vv)));
                    assert(keys_sorted(s));
                    assert(self@ =~= entries_map(old_s).insert(kv, vv)) by {
                        lemma_entries_map_at(s, i as int);
                        assert forall|k: Seq<char>| #[trigger] entries_map(s).contains_key(k) implies
                            entries_map(old_s).insert(kv, vv).contains_key(k) && entries_map(s)[k]
                            == entries_map(old_s).insert(kv, vv)[k] by {
                            let a = choose|a: int| 0 <= a < s.len() && #[trigger] s[a].0 == k;
                            lemma_entries_map_at(s, a);
                            if a != i {
                                lemma_entries_map_at(old_s, a);
                            }
                        }
                        assert forall|k: Seq<char>| #[trigger] entries_map(old_s).insert(
                            kv,
                            vv,
                        ).contains_key(k) implies entries_map(s).contains_key(k) by {
                            if k != kv {
                                let a = choose|a: int| 0 <= a < old_s.len() && #[trigger] old_s[a].0 == k;
                                assert(s[a].0 == k);
                            }
                        }
                    }
                }
            },
            None => {
                let p = self.lower_bound(key.as_str());
                proof {
                    if p < old_s.len() {
                        lemma_lex_total(old_s[p as int].0, kv);
                        assert(lex_lt(kv, old_s[p as int].0));
                        assert forall|j: int| p <= j < old_s.len() implies lex_lt(kv, #[trigger] old_s[j].0) by {
                            if j > p {
                                lemma_lex_transitive(kv, old_s[p as int].0, old_s[j].0);
                            }
                        }
                    }
                }
                self.entries.insert(p, (key, value));
                proof {
                    let s = self.entries_view();
                    assert(s =~= old_s.insert(p as int, (kv, vv)));
                    assert(keys_sorted(s)) by {
                        assert forall|i: int, j: int| 0 <= i < j < s.len() implies lex_lt(#[trigger] s[i].0, #[trigger] s[j].0) by {
                            if j < p {
                            } else if j == p {
                            } else if i < p {
                                assert(s[j] == old_s[j - 1]);
                                lemma_lex_transitive(s[i].0, kv, s[j].0);
                            } else if i == p {
                            } else {
                                assert(s[i] == old_s[i - 1]);
                                assert(s[j] == old_s[j - 1]);
                            }
                        }
                    }
                    assert(self@ =~= entries_map(old_s).insert(kv, vv)) by {
                        assert forall|k: Seq<char>| #[trigger] entries_map(s).contains_key(k) implies
                            entries_map(old_s).insert(kv, vv).contains_key(k) && entries_map(s)[k]
                            == entries_map(old_s).insert(kv, vv)[k] by {
                            let a = choose|a: int| 0 <= a < s.len() && #[trigger] s[a].0 == k;
                            lemma_entries_map_at(s, a);
                            if a < p {
                                lemma_entries_map_at(old_s, a);
                            } else if a > p {
                                lemma_entries_map_at(old_s, a - 1);
                            }
                        }
                        assert forall|k: Seq<char>| #[trigger] entries_map(old_s).insert(
                            kv,
                            vv,
                        ).contains_key(k) implies entries_map(s).contains_key(k) by {
                            if k == kv {
                                assert(s[p as int].0 == k);
                            } else {
                                let a = choose|a: int| 0 <= a < old_s.len() && #[trigger] old_s[a].0 == k;
                                if a < p {
                                    assert(s[a].0 == k);
                                } else {
                                    assert(s[a + 1].0 == k);
                                }
                            }
                        }
                    }
                }
            },
        }
    }

    /// Remove the entry for `key`, returning its value if there was one.
    pub fn remove(&mut self, key: &str) -> (r: Option<V>)
        requires
            old(self).wf(),
        ensures
            final(self).wf(),
            final(self)@ == old(self)@.remove(key@),
            r is Some <==> old(self)@.contains_key(key@),
            r matches Some(v) ==> v.deep_view() == old(self)@[key@],
    {
        let ghost old_s = self.entries_view();
        match self.find(key) {
            Some(i) => {
                proof {
                    lemma_entries_map_at(old_s, i as int);
                }
                let (_, v) = self.entries.remove(i);
                proof {
                    let s = self.entries_view();
                    assert(s =~= old_s.remove(i as int));
                    assert(keys_sorted(s)) by {
                        assert forall|a: int, b: int| 0 <= a < b < s.len() implies lex_lt(#[trigger] s[a].0, #[trigger] s[b].0) by {
                            if a < i {
                                if b >= i {
                                    assert(s[b] == old_s[b + 1]);
                                }
                            } else {
                                assert(s[a] == old_s[a + 1]);
                                assert(s[b] == old_s[b + 1]);
                            }
                        }
                    }
                    assert(self@ =~= entries_map(old_s).remove(key@)) by {
                        assert forall|k: Seq<char>| #[trigger] entries_map(s).contains_key(k) implies
                            entries_map(old_s).remove(key@).contains_key(k) && entries_map(s)[k]
                            == entries_map(old_s).remove(key@)[k] by {
                            let a = choose|a: int| 0 <= a < s.len() && #[trigger] s[a].0 == k;
                            lemma_entries_map_at(s, a);
                            if a < i {
                                lemma_entries_map_at(old_s, a);
                                if k == key@ {
                                    lemma_sorted_key_unique(old_s, a, i as int);
                                }
                            } else {
                                lemma_entries_map_at(old_s, a + 1);
                                if k == key@ {
                                    lemma_sorted_key_unique(old_s, a + 1, i as int);
                                }
                            }
                        }
                        assert forall|k: Seq<char>| #[trigger] entries_map(old_s).remove(
                            key@,
                        ).contains_key(k) implies entries_map(s).contains_key(k) by {
                            let a = choose|a: int| 0 <= a < old_s.len() && #[trigger] old_s[a].0 == k;
                            if a < i {
                                assert(s[a].0 == k);
                            } else {
                                assert(a != i);
                                assert(s[a - 1].0 == k);
                            }
                        }
                    }
                }
                Some(v)
            },
            None => {
                assert(self@ =~= old(self)@.remove(key@));
                None
            },
        }
    }

    /// Append an entry whose key sorts after every key present.
    pub fn push_last(&mut self, key: String, value: V)
        requires
            old(self).wf(),
            old(self).entries_view().len() == 0 || lex_lt(
                old(self).entries_view().last().0,
                key@,
            ),
        ensures
            final(self).wf(),
            final(self).entries_view() == old(self).entries_view().push((key@, value.deep_view())),
            final(self)@ == old(self)@.insert(key@, value.deep_view()),
    {
        let ghost old_s = self.entries_view();
        let ghost kv = key@;
        self.entries.push((key, value));
        proof {
            let s = self.entries_view();
            assert(s =~= old_s.push((kv, value.deep_view())));
            assert forall|i: int, j: int| 0 <= i < j < s.len() implies lex_lt(#[trigger] s[i].0, #[trigger] s[j].0) by {
                if j == s.len() - 1 && i < j - 1 {
                    lemma_lex_transitive(s[i].0, old_s.last().0, kv);
                }
            }
            lemma_entries_map_push(old_s, kv, value.deep_view());
        }
    }

    /// The entries, in key order, giving up the map.
    pub fn into_entries(self) -> (v: Vec<(String, V)>)
        ensures
            v@.map_values(|e: (String, V)| (e.0@, e.1.deep_view())) == self.entries_view(),
    {
        self.entries
    }
}

/// Sorted entries describe a finite map with one key per entry.
pub proof fn lemma_entries_map_len<V>(s: Seq<(Seq<char>, V)>)
    requires
        keys_sorted(s),
    ensures
        entries_map(s).dom() == s.map_values(|e: (Seq<char>, V)| e.0).to_set(),
        entries_map(s).dom().finite(),
        entries_map(s).dom().len() == s.len(),
{
    let ks = s.map_values(|e: (Seq<char>, V)| e.0);
    assert(entries_map(s).dom() =~= ks.to_set()) by {
        assert forall|k: Seq<char>| entries_map(s).dom().contains(k) <==> #[trigger] ks.to_set().contains(k) by {
            if ks.to_set().contains(k) {
                let i = choose|i: int| 0 <= i < ks.len() && ks[i] == k;
                assert(s[i].0 == k);
            }
            if entries_map(s).dom().contains(k) {
                let i = key_index(s, k);
                assert(ks[i] == k);
            }
        }
    }
    assert(ks.no_duplicates()) by {
        assert forall|i: int, j: int| 0 <= i < ks.len() && 0 <= j < ks.len() && i != j implies ks[i] != ks[j] by {
            if ks[i] == ks[j] {
                lemma_sorted_key_unique(s, i, j);
            }
        }
    }
    ks.unique_seq_to_set();
    vstd::seq_lib::seq_to_set_is_finite(ks);
}

/// The elements of `v` in reverse order.
pub fn into_reversed<T>(v: Vec<T>) -> (r: Vec<T>)
    ensures
        r@.len() == v@.len(),
        forall|j: int| 0 <= j < v@.len() ==> #[trigger] r@[j] == v@[v@.len() - 1 - j],
{
    let ghost orig = v@;
    let mut v = v;
    let mut r: Vec<T> = Vec::new();
    while v.len() > 0
        invariant
            v@ == orig.take(v@.len() as int),
            v@.len() <= orig.len(),
            r@.len() == orig.len() - v@.len(),
            forall|j: int| 0 <= j < r@.len() ==> #[trigger] r@[j] == orig[orig.len() - 1 - j],
        decreases v@.len(),
    {
        let x = v.pop().unwrap();
        r.push(x);
        assert(v@ =~= orig.take(v@.len() as int));
    }
    r
}

/// Appending an entry whose key sorts last adds that key to the map.
pub proof fn lemma_entries_map_push<V>(s: Seq<(Seq<char>, V)>, k: Seq<char>, v: V)
    requires
        keys_sorted(s.push((k, v))),
    ensures
        entries_map(s.push((k, v))) == entries_map(s).insert(k, v),
{
    let t = s.push((k, v));
    assert(keys_sorted(s)) by {
        assert forall|i: int, j: int| 0 <= i < j < s.len() implies lex_lt(#[trigger] s[i].0, #[trigger] s[j].0) by {
            assert(s[i] == t[i] && s[j] == t[j]);
        }
    }
    assert(entries_map(t) =~= entries_map(s).insert(k, v)) by {
        assert forall|x: Seq<char>| #[trigger] entries_map(t).contains_key(x) implies entries_map(
            s,
        ).insert(k, v).contains_key(x) && entries_map(t)[x] == entries_map(s).insert(k, v)[x] by {
            let a = key_index(t, x);
            lemma_entries_map_at(t, a);
            if a < s.len() {
                assert(t[a] == s[a]);
                lemma_entries_map_at(s, a);
                if x == k {
                    lemma_sorted_key_unique(t, a, s.len() as int);
                }
            }
        }
        assert forall|x: Seq<char>| #[trigger] entries_map(s).insert(k, v).contains_key(x) implies entries_map(
            t,
        ).contains_key(x) by {
            if x == k {
                assert(t[s.len() as int].0 == x);
            } else {
                let a = key_index(s, x);
                assert(t[a].0 == x);
            }
        }
    }
}

} // verus!
