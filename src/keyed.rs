//! An association list keyed by strings, with distinct keys.

use vstd::prelude::*;

verus! {

/// The map that a sequence of entries describes: a later entry for a key
/// replaces an earlier one.
pub open spec fn map_of<V>(s: Seq<(String, V)>) -> Map<Seq<char>, V>
    decreases s.len(),
{
    if s.len() == 0 {
        Map::empty()
    } else {
        map_of(s.drop_last()).insert(s.last().0@, s.last().1)
    }
}

/// No two entries have the same key.
pub open spec fn keys_distinct<V>(s: Seq<(String, V)>) -> bool {
    forall|i: int, j: int|
        0 <= i < s.len() && 0 <= j < s.len() && i != j ==> #[trigger] s[i].0@ != #[trigger] s[j].0@
}

/// The keys of a sequence of entries, in order.
pub open spec fn keys_of<V>(s: Seq<(String, V)>) -> Seq<Seq<char>> {
    s.map_values(|e: (String, V)| e.0@)
}

/// `r` lists each element of `s` exactly once.
pub open spec fn lists_exactly(r: Seq<Seq<char>>, s: Set<Seq<char>>) -> bool {
    &&& r.no_duplicates()
    &&& forall|k: Seq<char>| r.contains(k) <==> s.contains(k)
}

proof fn lemma_map_of_dom<V>(s: Seq<(String, V)>, k: Seq<char>)
    ensures
        map_of(s).contains_key(k) <==> exists|i: int| 0 <= i < s.len() && s[i].0@ == k,
    decreases s.len(),
{
    if s.len() > 0 {
        let p = s.drop_last();
        lemma_map_of_dom(p, k);
        if map_of(p).contains_key(k) {
            let i = choose|i: int| 0 <= i < p.len() && p[i].0@ == k;
            assert(s[i] == p[i]);
        }
        if exists|i: int| 0 <= i < s.len() && s[i].0@ == k {
            let i = choose|i: int| 0 <= i < s.len() && s[i].0@ == k;
            if i < s.len() - 1 {
                assert(p[i] == s[i]);
            }
        }
    }
}

proof fn lemma_map_of_at<V>(s: Seq<(String, V)>, i: int)
    requires
        keys_distinct(s),
        0 <= i < s.len(),
    ensures
        map_of(s).contains_key(s[i].0@),
        map_of(s)[s[i].0@] == s[i].1,
    decreases s.len(),
{
    let p = s.drop_last();
    if i < s.len() - 1 {
        assert(p[i] == s[i]);
        assert(keys_distinct(p)) by {
            assert forall|a: int, b: int|
                0 <= a < p.len() && 0 <= b < p.len() && a != b implies #[trigger] p[a].0@
                != #[trigger] p[b].0@ by {
                assert(p[a] == s[a] && p[b] == s[b]);
            }
        }
        lemma_map_of_at(p, i);
        assert(s[i].0@ != s[s.len() - 1].0@);
    }
}

proof fn lemma_map_of_eq<V>(s: Seq<(String, V)>, m: Map<Seq<char>, V>)
    requires
        keys_distinct(s),
        forall|k: Seq<char>|
            m.contains_key(k) <==> exists|j: int| 0 <= j < s.len() && #[trigger] s[j].0@ == k,
        forall|j: int| 0 <= j < s.len() ==> m[#[trigger] s[j].0@] == s[j].1,
    ensures
        map_of(s) == m,
{
    assert forall|k: Seq<char>| #[trigger] map_of(s).contains_key(k) <==> m.contains_key(k) by {
        lemma_map_of_dom(s, k);
    }
    assert forall|k: Seq<char>| #[trigger] map_of(s).contains_key(k) implies map_of(s)[k]
        == m[k] by {
        lemma_map_of_dom(s, k);
        let j = choose|j: int| 0 <= j < s.len() && s[j].0@ == k;
        lemma_map_of_at(s, j);
    }
    assert(map_of(s) =~= m);
}

proof fn lemma_replace_value<V>(s: Seq<(String, V)>, i: int, v: V)
    requires
        keys_distinct(s),
        0 <= i < s.len(),
    ensures
        keys_distinct(s.update(i, (s[i].0, v))),
        keys_of(s.update(i, (s[i].0, v))) == keys_of(s),
        map_of(s.update(i, (s[i].0, v))) == map_of(s).insert(s[i].0@, v),
{
    let t = s.update(i, (s[i].0, v));
    let m = map_of(s).insert(s[i].0@, v);
    assert forall|j: int| 0 <= j < s.len() implies #[trigger] t[j].0@ == s[j].0@ by {}
    assert(keys_of(t) =~= keys_of(s));
    assert forall|k: Seq<char>|
        m.contains_key(k) <==> exists|j: int| 0 <= j < t.len() && #[trigger] t[j].0@ == k by {
        lemma_map_of_dom(s, k);
        if exists|j: int| 0 <= j < s.len() && s[j].0@ == k {
            let j = choose|j: int| 0 <= j < s.len() && s[j].0@ == k;
            assert(t[j].0@ == k);
        }
        if k == s[i].0@ {
            assert(t[i].0@ == k);
        }
    }
    assert forall|j: int| 0 <= j < t.len() implies m[#[trigger] t[j].0@] == t[j].1 by {
        if j != i {
            lemma_map_of_at(s, j);
        }
    }
    lemma_map_of_eq(t, m);
}

proof fn lemma_push<V>(s: Seq<(String, V)>, e: (String, V))
    requires
        keys_distinct(s),
        !map_of(s).contains_key(e.0@),
    ensures
        keys_distinct(s.push(e)),
        keys_of(s.push(e)) == keys_of(s).push(e.0@),
        map_of(s.push(e)) == map_of(s).insert(e.0@, e.1),
{
    let t = s.push(e);
    lemma_map_of_dom(s, e.0@);
    assert(t.drop_last() =~= s);
    assert(keys_of(t) =~= keys_of(s).push(e.0@));
    assert forall|a: int, b: int|
        0 <= a < t.len() && 0 <= b < t.len() && a != b implies #[trigger] t[a].0@
        != #[trigger] t[b].0@ by {
        if a < s.len() && b < s.len() {
            assert(t[a] == s[a] && t[b] == s[b]);
        } else if a < s.len() {
            assert(t[a] == s[a]);
        } else {
            assert(t[b] == s[b]);
        }
    }
}

proof fn lemma_remove<V>(s: Seq<(String, V)>, i: int)
    requires
        keys_distinct(s),
        0 <= i < s.len(),
    ensures
        keys_distinct(s.remove(i)),
        keys_of(s.remove(i)) == keys_of(s).remove(i),
        map_of(s.remove(i)) == map_of(s).remove(s[i].0@),
{
    let t = s.remove(i);
    let m = map_of(s).remove(s[i].0@);
    assert forall|j: int| 0 <= j < t.len() implies #[trigger] t[j] == (if j < i {
        s[j]
    } else {
        s[j + 1]
    }) by {}
    assert(keys_of(t) =~= keys_of(s).remove(i));
    assert forall|a: int, b: int|
        0 <= a < t.len() && 0 <= b < t.len() && a != b implies #[trigger] t[a].0@
        != #[trigger] t[b].0@ by {
        let a2 = if a < i { a } else { a + 1 };
        let b2 = if b < i { b } else { b + 1 };
        assert(t[a] == s[a2] && t[b] == s[b2]);
    }
    assert forall|k: Seq<char>|
        m.contains_key(k) <==> exists|j: int| 0 <= j < t.len() && #[trigger] t[j].0@ == k by {
        lemma_map_of_dom(s, k);
        if m.contains_key(k) {
            let j = choose|j: int| 0 <= j < s.len() && s[j].0@ == k;
            assert(j != i);
            let j2 = if j < i { j } else { j - 1 };
            assert(t[j2] == s[j]);
        }
        if exists|j: int| 0 <= j < t.len() && t[j].0@ == k {
            let j = choose|j: int| 0 <= j < t.len() && t[j].0@ == k;
            let j2 = if j < i { j } else { j + 1 };
            assert(t[j] == s[j2]);
        }
    }
    assert forall|j: int| 0 <= j < t.len() implies m[#[trigger] t[j].0@] == t[j].1 by {
        let j2 = if j < i { j } else { j + 1 };
        assert(t[j] == s[j2]);
        lemma_map_of_at(s, j2);
    }
    lemma_map_of_eq(t, m);
}

/// Entries under distinct string keys.
pub struct KeyedVec<V> {
    entries: Vec<(String, V)>,
}

impl<V> View for KeyedVec<V> {
    type V = Map<Seq<char>, V>;

    closed spec fn view(&self) -> Map<Seq<char>, V> {
        map_of(self.entries@)
    }
}

impl<V> KeyedVec<V> {
    /// The keys are distinct.
    pub closed spec fn wf(&self) -> bool {
        keys_distinct(self.entries@)
    }

    /// The keys in the order in which the entries are held.
    pub closed spec fn key_list(&self) -> Seq<Seq<char>> {
        keys_of(self.entries@)
    }

    /// The key list holds each key of the map exactly once.
    pub proof fn lemma_key_list(&self)
        requires
            self.wf(),
        ensures
            lists_exactly(self.key_list(), self@.dom()),
    {
        let s = self.entries@;
        let r = self.key_list();
        assert forall|k: Seq<char>| r.contains(k) <==> self@.dom().contains(k) by {
            lemma_map_of_dom(s, k);
            if r.contains(k) {
                let i = choose|i: int| 0 <= i < r.len() && r[i] == k;
                assert(s[i].0@ == k);
            }
            if self@.dom().contains(k) {
                let i = choose|i: int| 0 <= i < s.len() && s[i].0@ == k;
                assert(r[i] == k);
            }
        }
        assert forall|i: int, j: int| 0 <= i < r.len() && 0 <= j < r.len() && i != j implies r[i]
            != r[j] by {
            assert(r[i] == s[i].0@ && r[j] == s[j].0@);
        }
    }

    pub fn new() -> (r: Self)
        ensures
            r.wf(),
            r@ == Map::<Seq<char>, V>::empty(),
            r.key_list() == Seq::<Seq<char>>::empty(),
    {
        let r = KeyedVec { entries: Vec::new() };
        assert(r.key_list() =~= Seq::<Seq<char>>::empty());
        r
    }

    /// The number of entries.
    pub fn len(&self) -> (r: usize)
        ensures
            r == self.key_list().len(),
    {
        self.entries.len()
    }

    /// Where the entry for `key` stands, if there is one.
    fn index_of(&self, key: &String) -> (r: Option<usize>)
        requires
            self.wf(),
        ensures
            match r {
                Some(i) => i < self.entries@.len() && self.entries@[i as int].0@ == key@,
                None => !self@.contains_key(key@),
            },
    {
        let mut i: usize = 0;
        while i < self.entries.len()
            invariant
                i <= self.entries@.len(),
                forall|j: int| 0 <= j < i ==> self.entries@[j].0@ != key@,
            decreases self.entries@.len() - i,
        {
            if self.entries[i].0 == *key {
                return Some(i);
            }
            i = i + 1;
        }
        proof {
            lemma_map_of_dom(self.entries@, key@);
        }
        None
    }

    /// Whether there is an entry for `key`.
    pub fn contains_key(&self, key: &String) -> (r: bool)
        requires
            self.wf(),
        ensures
            r == self@.contains_key(key@),
    {
        match self.index_of(key) {
            Some(i) => {
                proof {
                    lemma_map_of_at(self.entries@, i as int);
                }
                true
            },
            None => false,
        }
    }
    /// The value under `key`, if there is one.
    pub fn get(&self, key: &String) -> (r: Option<&V>)
        requires
            self.wf(),
        ensures
            match r {
                Some(v) => self@.contains_key(key@) && *v == self@[key@],
                None => !self@.contains_key(key@),
            },
    {
        match self.index_of(key) {
            Some(i) => {
                proof {
                    lemma_map_of_at(self.entries@, i as int);
                }
                Some(&self.entries[i].1)
            },
            None => None,
        }
    }

    /// Puts `value` under `key`, replacing the value held there before.
    pub fn insert(&mut self, key: String, value: V)
        requires
            old(self).wf(),
        ensures
            final(self).wf(),
            final(self)@ == old(self)@.insert(key@, value),
            old(self)@.contains_key(key@) ==> final(self).key_list() == old(self).key_list(),
            !old(self)@.contains_key(key@) ==> final(self).key_list() == old(self).key_list().push(
                key@,
            ),
    {
        match self.index_of(&key) {
            Some(i) => {
                proof {
                    lemma_map_of_at(self.entries@, i as int);
                    lemma_replace_value(self.entries@, i as int, value);
                }
                let k = self.entries[i].0.clone();
                self.entries.set(i, (k, value));
            },
            None => {
                proof {
                    lemma_push(self.entries@, (key, value));
                }
                self.entries.push((key, value));
            },
        }
    }

    /// Takes out the entry for `key`, if there is one.
    pub fn remove(&mut self, key: &String)
        requires
            old(self).wf(),
        ensures
            final(self).wf(),
            final(self)@ == old(self)@.remove(key@),
    {
        match self.index_of(key) {
            Some(i) => {
                proof {
                    lemma_remove(self.entries@, i as int);
                }
                self.entries.remove(i);
            },
            None => {
                assert(self@.remove(key@) =~= self@);
            },
        }
    }

    /// A handle on the value under `key`, through which it can be changed in place.
    pub fn get_mut(&mut self, key: &String) -> (r: Option<&mut V>)
        requires
            old(self).wf(),
        ensures
            match r {
                Some(v) => {
                    &&& old(self)@.contains_key(key@)
                    &&& *v == old(self)@[key@]
                    &&& final(self).wf()
                    &&& final(self).key_list() == old(self).key_list()
                    &&& final(self)@ == old(self)@.insert(key@, *final(v))
                },
                None => !old(self)@.contains_key(key@) && *final(self) == *old(self),
            },
    {
        match self.index_of(key) {
            Some(i) => {
                proof {
                    lemma_map_of_at(self.entries@, i as int);
                    assert forall|v: V|
                        #![trigger self.entries@.update(i as int, (self.entries@[i as int].0, v))]
                        keys_distinct(self.entries@.update(i as int, (self.entries@[i as int].0, v)))
                            && keys_of(self.entries@.update(i as int, (self.entries@[i as int].0, v))) == keys_of(self.entries@)
                            && map_of(self.entries@.update(i as int, (self.entries@[i as int].0, v)))
                            == map_of(self.entries@).insert(key@, v) by {
                        lemma_replace_value(self.entries@, i as int, v);
                    }
                }
                let e = &mut self.entries[i];
                Some(&mut e.1)
            },
            None => None,
        }
    }

    /// The key and the value of the entry at position `i`.
    pub fn entry(&self, i: usize) -> (r: (&String, &V))
        requires
            self.wf(),
            i < self.key_list().len(),
        ensures
            r.0@ == self.key_list()[i as int],
            self@.contains_key(r.0@),
            self@[r.0@] == *r.1,
    {
        proof {
            lemma_map_of_at(self.entries@, i as int);
        }
        let e = &self.entries[i];
        (&e.0, &e.1)
    }
}

} // verus!
