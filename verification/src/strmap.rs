//! A map with string keys that is walked in the order of its keys.
use vstd::prelude::*;

use crate::order::{lemma_str_irreflexive, lemma_str_total, lemma_str_transitive, less, str_less};

verus! {

/// Whether the keys of `s` strictly ascend.
pub open spec fn keys_ascend<V>(s: Seq<(Seq<char>, V)>) -> bool {
    forall|i: int, j: int|
        0 <= i < j < s.len() ==> str_less((#[trigger] s[i]).0, (#[trigger] s[j]).0)
}

/// The map that lists the pairs `s`.
pub open spec fn pairs_map<V>(s: Seq<(Seq<char>, V)>) -> Map<Seq<char>, V>
    decreases s.len(),
{
    if s.len() == 0 {
        Map::empty()
    } else {
        pairs_map(s.drop_last()).insert(s.last().0, s.last().1)
    }
}

/// Where the keys ascend, no key comes twice, and the map holds at each key
/// what its one pair says.
pub proof fn lemma_pairs_map<V>(s: Seq<(Seq<char>, V)>)
    requires
        keys_ascend(s),
    ensures
        forall|i: int|
            0 <= i < s.len() ==> pairs_map(s).contains_key((#[trigger] s[i]).0) && pairs_map(
                s,
            )[s[i].0] == s[i].1,
        forall|k: Seq<char>| #[trigger]
            pairs_map(s).contains_key(k) ==> exists|i: int|
                0 <= i < s.len() && (#[trigger] s[i]).0 == k,
    decreases s.len(),
{
    if s.len() > 0 {
        let t = s.drop_last();
        lemma_pairs_map(t);
        assert forall|i: int| 0 <= i < s.len() implies pairs_map(s).contains_key(
            (#[trigger] s[i]).0,
        ) && pairs_map(s)[s[i].0] == s[i].1 by {
            if i < t.len() {
                assert(t[i] == s[i]);
                assert(str_less(s[i].0, s[s.len() - 1].0));
                lemma_str_irreflexive(s[i].0);
            }
        }
        assert forall|k: Seq<char>| #[trigger] pairs_map(s).contains_key(k) implies exists|i: int|
            0 <= i < s.len() && (#[trigger] s[i]).0 == k by {
            if k == s.last().0 {
                assert(s[s.len() - 1].0 == k);
            } else {
                assert(pairs_map(t).contains_key(k));
                let i = choose|i: int| 0 <= i < t.len() && (#[trigger] t[i]).0 == k;
                assert(s[i].0 == k);
            }
        }
    }
}

/// A list of pairs with ascending keys is determined by its map.
pub proof fn lemma_pairs_unique<V>(s: Seq<(Seq<char>, V)>, t: Seq<(Seq<char>, V)>)
    requires
        keys_ascend(s),
        keys_ascend(t),
        pairs_map(s) == pairs_map(t),
    ensures
        s == t,
    decreases s.len(),
{
    lemma_pairs_map(s);
    lemma_pairs_map(t);
    if s.len() == 0 {
        if t.len() > 0 {
            assert(pairs_map(t).contains_key(t[0].0));
        }
        assert(s == t);
    } else {
        assert(pairs_map(s).contains_key(s[0].0));
        assert(t.len() > 0);
        let a = s.last();
        let b = t.last();
        let i = choose|i: int| 0 <= i < t.len() && (#[trigger] t[i]).0 == a.0;
        let j = choose|j: int| 0 <= j < s.len() && (#[trigger] s[j]).0 == b.0;
        assert(pairs_map(t).contains_key(s[s.len() - 1].0));
        assert(pairs_map(s).contains_key(t[t.len() - 1].0));
        if a.0 != b.0 {
            assert(str_less(t[i].0, t[t.len() - 1].0));
            assert(str_less(s[j].0, s[s.len() - 1].0));
            lemma_str_transitive(a.0, b.0, a.0);
            lemma_str_irreflexive(a.0);
        }
        assert(pairs_map(s)[a.0] == a.1);
        assert(pairs_map(t)[b.0] == b.1);
        let ps = s.drop_last();
        let pt = t.drop_last();
        assert(keys_ascend(ps));
        assert(keys_ascend(pt));
        lemma_pairs_map(ps);
        lemma_pairs_map(pt);
        assert(!pairs_map(ps).contains_key(a.0)) by {
            if pairs_map(ps).contains_key(a.0) {
                let m = choose|m: int| 0 <= m < ps.len() && (#[trigger] ps[m]).0 == a.0;
                assert(str_less(s[m].0, s[s.len() - 1].0));
                lemma_str_irreflexive(a.0);
            }
        }
        assert(!pairs_map(pt).contains_key(a.0)) by {
            if pairs_map(pt).contains_key(a.0) {
                let m = choose|m: int| 0 <= m < pt.len() && (#[trigger] pt[m]).0 == a.0;
                assert(str_less(t[m].0, t[t.len() - 1].0));
                lemma_str_irreflexive(a.0);
            }
        }
        assert(pairs_map(ps) == pairs_map(s).remove(a.0));
        assert(pairs_map(pt) == pairs_map(t).remove(a.0));
        lemma_pairs_unique(ps, pt);
        assert(s == ps.push(a));
        assert(t == pt.push(b));
    }
}

proof fn lemma_insert_pair<V>(s: Seq<(Seq<char>, V)>, i: int, k: Seq<char>, v: V)
    requires
        keys_ascend(s),
        0 <= i <= s.len(),
        forall|j: int| 0 <= j < i ==> str_less((#[trigger] s[j]).0, k),
        forall|j: int| i <= j < s.len() ==> str_less(k, (#[trigger] s[j]).0),
    ensures
        keys_ascend(s.insert(i, (k, v))),
        pairs_map(s.insert(i, (k, v))) == pairs_map(s).insert(k, v),
{
    let t = s.insert(i, (k, v));
    assert(keys_ascend(t));
    lemma_pairs_map(s);
    lemma_pairs_map(t);
    let m = pairs_map(s).insert(k, v);
    assert forall|x: Seq<char>|
        #![trigger pairs_map(t).dom().contains(x)]
        #![trigger pairs_map(t)[x]]
        pairs_map(t).contains_key(x) == m.contains_key(x) && (m.contains_key(x) ==> pairs_map(t)[x]
            == m[x]) by {
        if pairs_map(t).contains_key(x) {
            let j = choose|j: int| 0 <= j < t.len() && (#[trigger] t[j]).0 == x;
            if j < i {
                assert(t[j] == s[j]);
                lemma_str_irreflexive(k);
            } else if j > i {
                assert(t[j] == s[j - 1]);
                lemma_str_irreflexive(k);
            }
        }
        if pairs_map(s).contains_key(x) {
            let j = choose|j: int| 0 <= j < s.len() && (#[trigger] s[j]).0 == x;
            if j < i {
                assert(t[j] == s[j]);
            } else {
                assert(t[j + 1] == s[j]);
            }
        }
        if x == k {
            assert(t[i].0 == k);
        }
    }
    assert(pairs_map(t) =~= m);
}

proof fn lemma_replace_pair<V>(s: Seq<(Seq<char>, V)>, i: int, v: V)
    requires
        keys_ascend(s),
        0 <= i < s.len(),
    ensures
        keys_ascend(s.update(i, (s[i].0, v))),
        pairs_map(s.update(i, (s[i].0, v))) == pairs_map(s).insert(s[i].0, v),
{
    let k = s[i].0;
    let t = s.update(i, (k, v));
    assert(keys_ascend(t)) by {
        assert forall|a: int, b: int| 0 <= a < b < t.len() implies str_less(
            (#[trigger] t[a]).0,
            (#[trigger] t[b]).0,
        ) by {
            assert(str_less(s[a].0, s[b].0));
        }
    }
    lemma_pairs_map(s);
    lemma_pairs_map(t);
    let m = pairs_map(s).insert(k, v);
    assert forall|x: Seq<char>|
        #![trigger pairs_map(t).dom().contains(x)]
        #![trigger pairs_map(t)[x]]
        pairs_map(t).contains_key(x) == m.contains_key(x) && (m.contains_key(x) ==> pairs_map(t)[x]
            == m[x]) by {
        if pairs_map(t).contains_key(x) {
            let j = choose|j: int| 0 <= j < t.len() && (#[trigger] t[j]).0 == x;
            assert(s[j].0 == x);
        }
        if pairs_map(s).contains_key(x) {
            let j = choose|j: int| 0 <= j < s.len() && (#[trigger] s[j]).0 == x;
            assert(t[j].0 == x);
        }
        if x == k {
            assert(t[i].0 == k);
        }
    }
    assert(pairs_map(t) =~= m);
}

proof fn lemma_remove_pair<V>(s: Seq<(Seq<char>, V)>, i: int)
    requires
        keys_ascend(s),
        0 <= i < s.len(),
    ensures
        keys_ascend(s.remove(i)),
        pairs_map(s.remove(i)) == pairs_map(s).remove(s[i].0),
{
    let k = s[i].0;
    let t = s.remove(i);
    assert(keys_ascend(t));
    lemma_pairs_map(s);
    lemma_pairs_map(t);
    let m = pairs_map(s).remove(k);
    assert forall|x: Seq<char>|
        #![trigger pairs_map(t).dom().contains(x)]
        #![trigger pairs_map(t)[x]]
        pairs_map(t).contains_key(x) == m.contains_key(x) && (m.contains_key(x) ==> pairs_map(t)[x]
            == m[x]) by {
        if pairs_map(t).contains_key(x) {
            let j = choose|j: int| 0 <= j < t.len() && (#[trigger] t[j]).0 == x;
            lemma_str_irreflexive(k);
            if j < i {
                assert(t[j] == s[j]);
                assert(str_less(s[j].0, s[i].0));
            } else {
                assert(t[j] == s[j + 1]);
                assert(str_less(s[i].0, s[j + 1].0));
            }
        }
        if pairs_map(s).contains_key(x) && x != k {
            let j = choose|j: int| 0 <= j < s.len() && (#[trigger] s[j]).0 == x;
            if j < i {
                assert(t[j] == s[j]);
            } else {
                assert(t[j - 1] == s[j]);
            }
        }
    }
    assert(pairs_map(t) =~= m);
}

/// A map from strings to `V`, held as a list of pairs with ascending keys.
#[derive(Debug, PartialEq, Eq)]
pub struct StrMap<V> {
    entries: Vec<(String, V)>,
}

impl<V> View for StrMap<V> {
    type V = Seq<(Seq<char>, V)>;

    /// The pairs of key and value, by ascending key.
    closed spec fn view(&self) -> Seq<(Seq<char>, V)> {
        self.entries@.map_values(|e: (String, V)| (e.0@, e.1))
    }
}

impl<V> StrMap<V> {
    #[verifier::type_invariant]
    spec fn wf(self) -> bool {
        keys_ascend(self@)
    }

    /// What the map holds at each key.
    pub open spec fn map(self) -> Map<Seq<char>, V> {
        pairs_map(self@)
    }

    /// The empty map.
    pub fn new() -> (r: Self)
        ensures
            r@ == Seq::<(Seq<char>, V)>::empty(),
            r.map() == Map::<Seq<char>, V>::empty(),
    {
        let r = StrMap { entries: Vec::new() };
        assert(r@ == Seq::<(Seq<char>, V)>::empty());
        r
    }

    /// The number of keys.
    pub fn len(&self) -> (r: usize)
        ensures
            r == self@.len(),
            keys_ascend(self@),
    {
        proof {
            use_type_invariant(self);
        }
        self.entries.len()
    }

    /// Whether the map has no keys.
    pub fn is_empty(&self) -> (r: bool)
        ensures
            r == (self@.len() == 0),
    {
        self.entries.len() == 0
    }

    /// The pair at position `i` of the list.
    pub fn entry(&self, i: usize) -> (r: (&str, &V))
        requires
            i < self@.len(),
        ensures
            r.0@ == self@[i as int].0,
            *r.1 == self@[i as int].1,
    {
        let e = &self.entries[i];
        (e.0.as_str(), &e.1)
    }

    /// The position of `key`, or else of the first key after it.
    fn seek(&self, key: &str) -> (r: usize)
        ensures
            r <= self@.len(),
            keys_ascend(self@),
            forall|i: int| 0 <= i < r ==> str_less((#[trigger] self@[i]).0, key@),
            forall|i: int| r <= i < self@.len() ==> !str_less((#[trigger] self@[i]).0, key@),
    {
        proof {
            use_type_invariant(self);
        }
        let mut i: usize = 0;
        while i < self.entries.len() && less(self.entries[i].0.as_str(), key)
            invariant
                i <= self@.len(),
                self@.len() == self.entries@.len(),
                keys_ascend(self@),
                forall|j: int| 0 <= j < i ==> str_less((#[trigger] self@[j]).0, key@),
            decreases self@.len() - i,
        {
            i += 1;
        }
        proof {
            assert forall|j: int| i <= j < self@.len() implies !str_less(
                (#[trigger] self@[j]).0,
                key@,
            ) by {
                if j > i && str_less(self@[j].0, key@) {
                    lemma_str_transitive(self@[i as int].0, self@[j].0, key@);
                }
            }
        }
        i
    }

    /// The position of `key`, if the map has it.
    fn find(&self, key: &str) -> (r: Option<usize>)
        ensures
            keys_ascend(self@),
            match r {
                Some(i) => i < self@.len() && self@[i as int].0 == key@,
                None => !self.map().contains_key(key@),
            },
    {
        let i = self.seek(key);
        proof {
            lemma_pairs_map(self@);
        }
        if i < self.entries.len() && !less(key, self.entries[i].0.as_str()) {
            proof {
                lemma_str_total(key@, self@[i as int].0);
            }
            Some(i)
        } else {
            proof {
                if self.map().contains_key(key@) {
                    let j = choose|j: int| 0 <= j < self@.len() && (#[trigger] self@[j]).0 == key@;
                    lemma_str_irreflexive(key@);
                    assert(!(j < i));
                    if i < j {
                        assert(str_less(self@[i as int].0, self@[j].0));
                    }
                }
            }
            None
        }
    }

    /// What the map holds at `key`.
    pub fn get(&self, key: &str) -> (r: Option<&V>)
        ensures
            match r {
                Some(v) => self.map().contains_key(key@) && self.map()[key@] == *v,
                None => !self.map().contains_key(key@),
            },
    {
        match self.find(key) {
            Some(i) => {
                proof {
                    lemma_pairs_map(self@);
                }
                Some(&self.entries[i].1)
            },
            None => None,
        }
    }

    /// Puts `value` at `key`, in the place of what was there.
    pub fn insert(&mut self, key: String, value: V)
        ensures
            final(self).map() == old(self).map().insert(key@, value),
            keys_ascend(final(self)@),
    {
        let found = self.find(key.as_str());
        let at = self.seek(key.as_str());
        let ghost before = self@;
        let mut entries: Vec<(String, V)> = Vec::new();
        std::mem::swap(&mut entries, &mut self.entries);
        let ghost list = entries@;
        match found {
            Some(i) => {
                proof {
                    lemma_replace_pair(before, i as int, value);
                }
                let (k, _) = entries.remove(i);
                entries.insert(i, (k, value));
                assert(entries@.map_values(|e: (String, V)| (e.0@, e.1)) == before.update(
                    i as int,
                    (before[i as int].0, value),
                ));
            },
            None => {
                proof {
                    lemma_pairs_map(before);
                    assert forall|j: int| at <= j < before.len() implies str_less(
                        key@,
                        (#[trigger] before[j]).0,
                    ) by {
                        lemma_str_total(key@, before[j].0);
                    }
                    lemma_insert_pair(before, at as int, key@, value);
                }
                let ghost k = key@;
                entries.insert(at, (key, value));
                assert(entries@.map_values(|e: (String, V)| (e.0@, e.1)) == before.insert(
                    at as int,
                    (k, value),
                ));
            },
        }
        self.entries = entries;
    }

    /// Takes out `key` and what was at it.
    pub fn remove(&mut self, key: &str) -> (r: Option<V>)
        ensures
            final(self).map() == old(self).map().remove(key@),
            keys_ascend(final(self)@),
            match r {
                Some(v) => old(self).map().contains_key(key@) && old(self).map()[key@] == v,
                None => !old(self).map().contains_key(key@),
            },
    {
        match self.find(key) {
            Some(i) => {
                let ghost before = self@;
                proof {
                    lemma_remove_pair(before, i as int);
                    lemma_pairs_map(before);
                }
                let mut entries: Vec<(String, V)> = Vec::new();
                std::mem::swap(&mut entries, &mut self.entries);
                let (_, v) = entries.remove(i);
                assert(entries@.map_values(|e: (String, V)| (e.0@, e.1)) == before.remove(
                    i as int,
                ));
                self.entries = entries;
                Some(v)
            },
            None => {
                assert(self.map().remove(key@) == self.map());
                None
            },
        }
    }

    /// The list of pairs.
    pub fn into_entries(self) -> (r: Vec<(String, V)>)
        ensures
            r@.map_values(|e: (String, V)| (e.0@, e.1)) == self@,
            keys_ascend(self@),
    {
        proof {
            use_type_invariant(&self);
        }
        self.entries
    }
}

impl<V: Clone> Clone for StrMap<V> {
    fn clone(&self) -> (r: Self)
        ensures
            r@.len() == self@.len(),
            forall|i: int|
                0 <= i < self@.len() ==> (#[trigger] r@[i]).0 == self@[i].0 && cloned::<V>(
                    self@[i].1,
                    r@[i].1,
                ),
    {
        proof {
            use_type_invariant(self);
        }
        let mut entries: Vec<(String, V)> = Vec::new();
        let mut i: usize = 0;
        while i < self.entries.len()
            invariant
                i <= self.entries@.len(),
                entries@.len() == i,
                forall|j: int|
                    0 <= j < i ==> (#[trigger] entries@[j]).0@ == self.entries@[j].0@
                        && cloned::<V>(self.entries@[j].1, entries@[j].1),
            decreases self.entries@.len() - i,
        {
            entries.push((self.entries[i].0.clone(), self.entries[i].1.clone()));
            i += 1;
        }
        let ghost list = entries@.map_values(|e: (String, V)| (e.0@, e.1));
        assert(keys_ascend(list)) by {
            assert forall|a: int, b: int| 0 <= a < b < list.len() implies str_less(
                (#[trigger] list[a]).0,
                (#[trigger] list[b]).0,
            ) by {
                assert(str_less(self@[a].0, self@[b].0));
            }
        }
        StrMap { entries }
    }
}

/// The last pair of a key counts, and a key that no pair has is not there.
pub proof fn law_last_pair_counts<V>(
    a: Seq<(Seq<char>, V)>,
    k: Seq<char>,
    v: V,
    b: Seq<(Seq<char>, V)>,
)
    requires
        forall|i: int| 0 <= i < b.len() ==> (#[trigger] b[i]).0 != k,
    ensures
        pairs_map(a + seq![(k, v)] + b).contains_key(k),
        pairs_map(a + seq![(k, v)] + b)[k] == v,
        !pairs_map(b).contains_key(k),
    decreases b.len(),
{
    let all = a + seq![(k, v)] + b;
    if b.len() > 0 {
        let t = b.drop_last();
        assert(all.drop_last() == a + seq![(k, v)] + t);
        assert(all.last() == b.last());
        assert(b[b.len() - 1].0 != k);
        assert forall|i: int| 0 <= i < t.len() implies (#[trigger] t[i]).0 != k by {
            assert(t[i] == b[i]);
        }
        law_last_pair_counts(a, k, v, t);
    } else {
        assert(all.last() == (k, v));
    }
}

} // verus!
