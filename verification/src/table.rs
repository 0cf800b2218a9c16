//! A map kept as a list of entries with distinct keys.
use vstd::prelude::*;

verus! {

/// What can be the key of a table: a value that can be told apart by its view.
pub trait TableKey: View + Sized {
    /// Whether two keys are the same.
    fn same_key(&self, other: &Self) -> (res: bool)
        ensures
            res == (self@ == other@),
    ;
}

impl TableKey for String {
    fn same_key(&self, other: &Self) -> (res: bool) {
        *self == *other
    }
}

/// A map from keys to values; the entries stand in the order in which their keys were added.
pub struct Table<K: TableKey, V: View> {
    entries: Vec<(K, V)>,
}

/// `k` is the key of an entry.
spec fn has_key<K: TableKey, V: View>(entries: Seq<(K, V)>, k: K::V) -> bool {
    exists|i: int| 0 <= i < entries.len() && (#[trigger] entries[i]).0@ == k
}

/// No two entries have the same key.
spec fn distinct<K: TableKey, V: View>(entries: Seq<(K, V)>) -> bool {
    forall|i: int, j: int|
        0 <= i < j < entries.len() ==> (#[trigger] entries[i]).0@ != (#[trigger] entries[j]).0@
}

spec fn as_map<K: TableKey, V: View>(entries: Seq<(K, V)>) -> Map<K::V, V::V> {
    Map::new(
        |k: K::V| has_key(entries, k),
        |k: K::V|
            {
                let i = choose|i: int| 0 <= i < entries.len() && (#[trigger] entries[i]).0@ == k;
                entries[i].1@
            },
    )
}

impl<K: TableKey, V: View> View for Table<K, V> {
    type V = Map<K::V, V::V>;

    closed spec fn view(&self) -> Map<K::V, V::V> {
        as_map(self.entries@)
    }
}

proof fn lemma_as_map_at<K: TableKey, V: View>(entries: Seq<(K, V)>, i: int)
    requires
        distinct(entries),
        0 <= i < entries.len(),
    ensures
        as_map(entries).contains_key(entries[i].0@),
        as_map(entries)[entries[i].0@] == entries[i].1@,
{
    let k = entries[i].0@;
    assert(has_key(entries, k));
    let j = choose|j: int| 0 <= j < entries.len() && (#[trigger] entries[j]).0@ == k;
    assert(i == j);
}

proof fn lemma_as_map_eq<K: TableKey, V: View>(entries: Seq<(K, V)>, m: Map<K::V, V::V>)
    requires
        distinct(entries),
        forall|i: int|
            0 <= i < entries.len() ==> m.contains_key((#[trigger] entries[i]).0@) && m[entries[i].0@]
                == entries[i].1@,
        forall|k: K::V| #[trigger] m.contains_key(k) ==> has_key(entries, k),
    ensures
        as_map(entries) == m,
{
    assert forall|k: K::V| #[trigger] as_map(entries).contains_key(k) implies m.contains_key(k)
        && as_map(entries)[k] == m[k] by {
        let i = choose|i: int| 0 <= i < entries.len() && (#[trigger] entries[i]).0@ == k;
        lemma_as_map_at(entries, i);
    }
    assert(as_map(entries) =~= m);
}

impl<K: TableKey, V: View> Table<K, V> {
    #[verifier::type_invariant]
    spec fn keys_distinct(self) -> bool {
        distinct(self.entries@)
    }

    /// The number of entries.
    pub closed spec fn spec_len(&self) -> nat {
        self.entries@.len()
    }

    /// The key of the entry at `i`.
    pub closed spec fn key_view(&self, i: int) -> K::V {
        self.entries@[i].0@
    }

    /// A table without entries.
    pub fn new() -> (res: Self)
        ensures
            res@ == Map::<K::V, V::V>::empty(),
            res.spec_len() == 0,
    {
        let res = Table { entries: Vec::new() };
        proof {
            lemma_as_map_eq(res.entries@, Map::<K::V, V::V>::empty());
        }
        res
    }

    /// The number of entries. Every key of the table stands at one index below it.
    pub fn len(&self) -> (res: usize)
        ensures
            res == self.spec_len(),
            forall|k: K::V|
                #[trigger]
                self@.contains_key(k) ==> exists|i: int| 0 <= i < res && self.key_view(i) == k,
    {
        proof {
            assert forall|k: K::V| #[trigger] self@.contains_key(k) implies exists|i: int|
                0 <= i < self.spec_len() && self.key_view(i) == k by {
                let i = choose|i: int|
                    0 <= i < self.entries@.len() && (#[trigger] self.entries@[i]).0@ == k;
                assert(self.key_view(i) == k);
            }
        }
        self.entries.len()
    }

    /// The entry at `i`.
    pub fn entry(&self, i: usize) -> (res: (&K, &V))
        requires
            i < self.spec_len(),
        ensures
            res.0@ == self.key_view(i as int),
            self@.contains_key(res.0@),
            self@[res.0@] == res.1@,
            forall|j: int| 0 <= j < self.spec_len() && j != i ==> #[trigger] self.key_view(j) != res.0@,
    {
        proof {
            use_type_invariant(self);
            lemma_as_map_at(self.entries@, i as int);
        }
        let entry = &self.entries[i];
        (&entry.0, &entry.1)
    }

    fn find(&self, key: &K) -> (res: Option<usize>)
        ensures
            match res {
                Some(i) => i < self.entries@.len() && self.entries@[i as int].0@ == key@,
                None => !has_key(self.entries@, key@),
            },
    {
        let mut i: usize = 0;
        while i < self.entries.len()
            invariant
                i <= self.entries@.len(),
                forall|j: int| 0 <= j < i ==> (#[trigger] self.entries@[j]).0@ != key@,
            decreases self.entries.len() - i,
        {
            if self.entries[i].0.same_key(key) {
                return Some(i);
            }
            i += 1;
        }
        None
    }

    /// The value under `key`.
    pub fn get(&self, key: &K) -> (res: Option<&V>)
        ensures
            match res {
                Some(v) => self@.contains_key(key@) && self@[key@] == v@,
                None => !self@.contains_key(key@),
            },
    {
        match self.find(key) {
            Some(i) => {
                proof {
                    use_type_invariant(self);
                    lemma_as_map_at(self.entries@, i as int);
                }
                Some(&self.entries[i].1)
            },
            None => None,
        }
    }

    /// Puts `value` under `key`, in the place of what may stand there.
    pub fn insert(&mut self, key: K, value: V)
        ensures
            final(self)@ == old(self)@.insert(key@, value@),
    {
        proof {
            use_type_invariant(&*self);
        }
        let found = self.find(&key);
        let mut entries: Vec<(K, V)> = Vec::new();
        std::mem::swap(&mut entries, &mut self.entries);
        let ghost before = entries@;
        match found {
            Some(i) => {
                entries.set(i, (key, value));
                proof {
                    lemma_insert_set(before, i as int, key, value);
                }
            },
            None => {
                entries.push((key, value));
                proof {
                    lemma_insert_push(before, key, value);
                }
            },
        }
        self.entries = entries;
    }

    /// Takes the entry at `i` out.
    pub fn remove_at(&mut self, i: usize) -> (res: (K, V))
        requires
            i < old(self).spec_len(),
        ensures
            res.0@ == old(self).key_view(i as int),
            old(self)@.contains_key(res.0@),
            old(self)@[res.0@] == res.1@,
            final(self)@ == old(self)@.remove(res.0@),
            final(self).spec_len() == old(self).spec_len() - 1,
            forall|j: int| 0 <= j < i ==> #[trigger] final(self).key_view(j) == old(self).key_view(j),
    {
        proof {
            use_type_invariant(&*self);
            lemma_as_map_at(self.entries@, i as int);
        }
        let mut entries: Vec<(K, V)> = Vec::new();
        std::mem::swap(&mut entries, &mut self.entries);
        let ghost before = entries@;
        let res = entries.remove(i);
        proof {
            lemma_remove(before, i as int);
            assert(entries@ =~= before.remove(i as int));
        }
        self.entries = entries;
        res
    }

    /// Takes the entry under `key` out, if there is one.
    pub fn remove(&mut self, key: &K) -> (res: Option<V>)
        ensures
            final(self)@ == old(self)@.remove(key@),
            match res {
                Some(v) => old(self)@.contains_key(key@) && old(self)@[key@] == v@,
                None => !old(self)@.contains_key(key@),
            },
    {
        match self.find(key) {
            Some(i) => Some(self.remove_at(i).1),
            None => {
                proof {
                    assert(self@.remove(key@) =~= self@);
                }
                None
            },
        }
    }
}

proof fn lemma_insert_set<K: TableKey, V: View>(before: Seq<(K, V)>, i: int, key: K, value: V)
    requires
        distinct(before),
        0 <= i < before.len(),
        before[i].0@ == key@,
    ensures
        distinct(before.update(i, (key, value))),
        as_map(before.update(i, (key, value))) == as_map(before).insert(key@, value@),
{
    let after = before.update(i, (key, value));
    let m = as_map(before).insert(key@, value@);
    assert forall|j: int| 0 <= j < after.len() implies m.contains_key((#[trigger] after[j]).0@)
        && m[after[j].0@] == after[j].1@ by {
        if j != i {
            assert(after[j] == before[j]);
            lemma_as_map_at(before, j);
        }
    }
    assert forall|k: K::V| #[trigger] m.contains_key(k) implies has_key(after, k) by {
        if k == key@ {
            assert(after[i].0@ == k);
        } else {
            let j = choose|j: int| 0 <= j < before.len() && (#[trigger] before[j]).0@ == k;
            assert(after[j].0@ == k);
        }
    }
    lemma_as_map_eq(after, m);
}

proof fn lemma_insert_push<K: TableKey, V: View>(before: Seq<(K, V)>, key: K, value: V)
    requires
        distinct(before),
        !has_key(before, key@),
    ensures
        distinct(before.push((key, value))),
        as_map(before.push((key, value))) == as_map(before).insert(key@, value@),
{
    let after = before.push((key, value));
    let m = as_map(before).insert(key@, value@);
    let n = before.len() as int;
    assert forall|a: int, b: int| 0 <= a < b < after.len() implies (#[trigger] after[a]).0@ != (
    #[trigger] after[b]).0@ by {
        assert(after[a] == before[a]);
        if b < n {
            assert(after[b] == before[b]);
        }
    }
    assert forall|j: int| 0 <= j < after.len() implies m.contains_key((#[trigger] after[j]).0@)
        && m[after[j].0@] == after[j].1@ by {
        if j < n {
            assert(after[j] == before[j]);
            lemma_as_map_at(before, j);
        }
    }
    assert forall|k: K::V| #[trigger] m.contains_key(k) implies has_key(after, k) by {
        if k == key@ {
            assert(after[n].0@ == k);
        } else {
            let j = choose|j: int| 0 <= j < before.len() && (#[trigger] before[j]).0@ == k;
            assert(after[j].0@ == k);
        }
    }
    lemma_as_map_eq(after, m);
}

proof fn lemma_remove<K: TableKey, V: View>(before: Seq<(K, V)>, i: int)
    requires
        distinct(before),
        0 <= i < before.len(),
    ensures
        distinct(before.remove(i)),
        as_map(before.remove(i)) == as_map(before).remove(before[i].0@),
{
    let after = before.remove(i);
    let m = as_map(before).remove(before[i].0@);
    assert forall|a: int, b: int| 0 <= a < b < after.len() implies (#[trigger] after[a]).0@ != (
    #[trigger] after[b]).0@ by {
        let x = if a < i { a } else { a + 1 };
        let y = if b < i { b } else { b + 1 };
        assert(after[a] == before[x]);
        assert(after[b] == before[y]);
    }
    assert forall|j: int| 0 <= j < after.len() implies m.contains_key((#[trigger] after[j]).0@)
        && m[after[j].0@] == after[j].1@ by {
        let x = if j < i { j } else { j + 1 };
        assert(after[j] == before[x]);
        lemma_as_map_at(before, x);
    }
    assert forall|k: K::V| #[trigger] m.contains_key(k) implies has_key(after, k) by {
        let x = choose|x: int| 0 <= x < before.len() && (#[trigger] before[x]).0@ == k;
        if x < i {
            assert(after[x].0@ == k);
        } else {
            assert(after[x - 1].0@ == k);
        }
    }
    lemma_as_map_eq(after, m);
}

} // verus!
