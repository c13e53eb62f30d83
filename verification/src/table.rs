//! A small map from string keys to values, kept as a vector of entries with
//! distinct keys; its view is the mathematical map it represents.
use vstd::prelude::*;

verus! {

/// No two entries share a key.
pub open spec fn keys_distinct<V>(e: Seq<(String, V)>) -> bool {
    forall|i: int, j: int|
        0 <= i < e.len() && 0 <= j < e.len() && i != j ==> e[i].0@ != e[j].0@
}

/// The map that a sequence of entries denotes; a later entry for a key
/// replaces an earlier one.
pub open spec fn map_of<V: View>(e: Seq<(String, V)>) -> Map<Seq<char>, V::V>
    decreases e.len(),
{
    if e.len() == 0 {
        Map::empty()
    } else {
        map_of(e.drop_last()).insert(e.last().0@, e.last().1@)
    }
}

/// With distinct keys, the map holds exactly the entries' keys, each with
/// its entry's value.
pub proof fn lemma_map_of<V: View>(e: Seq<(String, V)>)
    requires
        keys_distinct(e),
    ensures
        forall|k: Seq<char>|
            map_of(e).contains_key(k) <==> exists|i: int| 0 <= i < e.len() && #[trigger] e[i].0@ == k,
        forall|i: int| 0 <= i < e.len() ==> map_of(e)[#[trigger] e[i].0@] == e[i].1@,
    decreases e.len(),
{
    if e.len() > 0 {
        let d = e.drop_last();
        assert(keys_distinct(d));
        lemma_map_of(d);
        assert forall|k: Seq<char>|
            map_of(e).contains_key(k) <==> exists|i: int| 0 <= i < e.len() && #[trigger] e[i].0@ == k by {
            if map_of(e).contains_key(k) && k != e.last().0@ {
                assert(map_of(e) == map_of(d).insert(e.last().0@, e.last().1@));
                assert(map_of(d).contains_key(k));
                let i = choose|i: int| 0 <= i < d.len() && #[trigger] d[i].0@ == k;
                assert(e[i] == d[i]);
                assert(e[i].0@ == k);
            }
            if exists|i: int| 0 <= i < e.len() && #[trigger] e[i].0@ == k {
                let i = choose|i: int| 0 <= i < e.len() && #[trigger] e[i].0@ == k;
                if i < d.len() {
                    assert(d[i].0@ == k);
                }
            }
        }
        assert forall|i: int| 0 <= i < e.len() implies map_of(e)[#[trigger] e[i].0@] == e[i].1@ by {
            if i < d.len() {
                assert(d[i].0@ == e[i].0@);
                assert(e[i].0@ != e.last().0@);
            }
        }
    }
}

/// A map from strings to values.
pub struct Table<V> {
    pub entries: Vec<(String, V)>,
}

impl<V: View> View for Table<V> {
    type V = Map<Seq<char>, V::V>;

    open spec fn view(&self) -> Map<Seq<char>, V::V> {
        map_of(self.entries@)
    }
}

impl<V: View> Table<V> {
    /// The entries have distinct keys.
    pub open spec fn wf(&self) -> bool {
        keys_distinct(self.entries@)
    }

    /// The empty table.
    pub fn new() -> (t: Self)
        ensures
            t.wf(),
            t@ == Map::<Seq<char>, V::V>::empty(),
            t.entries@.len() == 0,
    {
        Table { entries: Vec::new() }
    }

    /// The position of the entry for `key`, if there is one.
    pub fn find(&self, key: &String) -> (r: Option<usize>)
        requires
            self.wf(),
        ensures
            match r {
                Some(i) => i < self.entries@.len() && self.entries@[i as int].0@ == key@,
                None => !self@.contains_key(key@),
            },
    {
        proof {
            lemma_map_of(self.entries@);
        }
        let mut i: usize = 0;
        while i < self.entries.len()
            invariant
                i <= self.entries@.len(),
                forall|j: int| 0 <= j < i ==> self.entries@[j].0@ != key@,
            decreases self.entries@.len() - i,
        {
            if self.entries[i].0 == *key {
                return Some(i);
            }
            i = i + 1;
        }
        None
    }

    /// Whether `key` has an entry.
    pub fn contains_key(&self, key: &String) -> (r: bool)
        requires
            self.wf(),
        ensures
            r == self@.contains_key(key@),
    {
        proof {
            lemma_map_of(self.entries@);
        }
        match self.find(key) {
            Some(i) => {
                assert(self.entries@[i as int].0@ == key@);
                true
            },
            None => false,
        }
    }

    /// The value stored for `key`, if any.
    pub fn get(&self, key: &String) -> (r: Option<&V>)
        requires
            self.wf(),
        ensures
            r is Some == self@.contains_key(key@),
            r matches Some(v) ==> v@ == self@[key@],
    {
        proof {
            lemma_map_of(self.entries@);
        }
        match self.find(key) {
            Some(i) => {
                assert(self.entries@[i as int].0@ == key@);
                Some(&self.entries[i].1)
            },
            None => None,
        }
    }

    /// Stores `value` under `key`, replacing any earlier value for it.
    pub fn insert(&mut self, key: String, value: V)
        requires
            old(self).wf(),
        ensures
            final(self).wf(),
            final(self)@ == old(self)@.insert(key@, value@),
            forall|i: int|
                0 <= i < final(self).entries@.len() ==> #[trigger] final(self).entries@[i] == (key, value)
                    || old(self).entries@.contains(final(self).entries@[i]),
    {
        let ghost k = key@;
        let ghost v = value@;
        let ghost before = self.entries@;
        match self.find(&key) {
            Some(i) => {
                proof {
                    lemma_map_of_remove(before, i as int);
                }
                self.entries.remove(i);
                assert(self.entries@ == before.remove(i as int));
            },
            None => {},
        }
        let ghost mid = self.entries@;
        assert(map_of(mid) == map_of(before).remove(k));
        assert(keys_distinct(mid));
        proof {
            lemma_map_of(mid);
        }
        assert(forall|j: int| 0 <= j < mid.len() ==> mid[j].0@ != k);
        let ghost kv = (key, value);
        self.entries.push((key, value));
        assert(self.entries@.drop_last() =~= mid);
        assert forall|j: int| 0 <= j < mid.len() implies before.contains(#[trigger] mid[j]) by {
            if mid.len() < before.len() {
                let i = choose|i: int| 0 <= i < before.len() && mid == before.remove(i);
                if j < i {
                    assert(mid[j] == before[j]);
                } else {
                    assert(mid[j] == before[j + 1]);
                }
            } else {
                assert(mid[j] == before[j]);
            }
        }
        assert(map_of(self.entries@) =~= map_of(before).insert(k, v));
    }
}

/// Removing an entry removes its key from the map.
pub proof fn lemma_map_of_remove<V: View>(e: Seq<(String, V)>, i: int)
    requires
        keys_distinct(e),
        0 <= i < e.len(),
    ensures
        keys_distinct(e.remove(i)),
        map_of(e.remove(i)) == map_of(e).remove(e[i].0@),
{
    let r = e.remove(i);
    assert forall|a: int| 0 <= a < r.len() implies #[trigger] r[a] == (if a < i { e[a] } else { e[a + 1] }) by {}
    assert(keys_distinct(r)) by {
        assert forall|a: int, b: int| 0 <= a < r.len() && 0 <= b < r.len() && a != b implies r[a].0@ != r[b].0@ by {
            let ea = if a < i { a } else { a + 1 };
            let eb = if b < i { b } else { b + 1 };
            assert(r[a] == e[ea]);
            assert(r[b] == e[eb]);
        }
    }
    lemma_map_of(e);
    lemma_map_of(r);
    let k = e[i].0@;
    assert forall|kk: Seq<char>| #[trigger] map_of(r).contains_key(kk) <==> map_of(e).remove(k).contains_key(kk) by {
        if map_of(r).contains_key(kk) {
            let a = choose|a: int| 0 <= a < r.len() && #[trigger] r[a].0@ == kk;
            let ea = if a < i { a } else { a + 1 };
            assert(r[a] == e[ea]);
            assert(e[ea].0@ == kk);
        }
        if map_of(e).remove(k).contains_key(kk) {
            let a = choose|a: int| 0 <= a < e.len() && #[trigger] e[a].0@ == kk;
            assert(a != i);
            let ra = if a < i { a } else { a - 1 };
            assert(r[ra] == e[a]);
            assert(r[ra].0@ == kk);
        }
    }
    assert forall|kk: Seq<char>| #[trigger] map_of(r).contains_key(kk) implies map_of(r)[kk] == map_of(e)[kk] by {
        let a = choose|a: int| 0 <= a < r.len() && #[trigger] r[a].0@ == kk;
        let ea = if a < i { a } else { a + 1 };
        assert(r[a] == e[ea]);
        assert(map_of(r)[r[a].0@] == r[a].1@);
        assert(map_of(e)[e[ea].0@] == e[ea].1@);
    }
    assert(map_of(r) =~= map_of(e).remove(k));
}

} // verus!
