//! A keyed table: the model of one storage map of the pallet.
//!
//! Entries are kept in the order in which their keys first arrived, each key
//! at most once. Reading an absent key is answered by the caller's default,
//! as a `ValueQuery` storage item answers it.
use vstd::prelude::*;

verus! {

/// A key of a table: a plain value whose equality can be decided.
pub trait TableKey: Sized {
    fn same(&self, other: &Self) -> (r: bool)
        ensures
            r == (*self == *other),
    ;
}

impl TableKey for u16 {
    fn same(&self, other: &Self) -> (r: bool) {
        *self == *other
    }
}

/// No key occurs twice in `s`.
pub open spec fn keys_distinct<K, V>(s: Seq<(K, V)>) -> bool {
    forall|i: int, j: int|
        0 <= i < s.len() && 0 <= j < s.len() && i != j ==> #[trigger] s[i].0 != #[trigger] s[j].0
}

pub open spec fn seq_has_key<K, V>(s: Seq<(K, V)>, k: K) -> bool {
    exists|i: int| 0 <= i < s.len() && #[trigger] s[i].0 == k
}

/// The map that a sequence of entries stands for.
pub open spec fn seq_to_map<K, V>(s: Seq<(K, V)>) -> Map<K, V> {
    Map::new(
        |k: K| seq_has_key(s, k),
        |k: K| s[choose|i: int| 0 <= i < s.len() && #[trigger] s[i].0 == k].1,
    )
}

/// In a sequence without repeated keys, the map gives each key the value of its entry.
pub proof fn lemma_seq_to_map_at<K, V>(s: Seq<(K, V)>, i: int)
    requires
        keys_distinct(s),
        0 <= i < s.len(),
    ensures
        seq_to_map(s).contains_key(s[i].0),
        seq_to_map(s)[s[i].0] == s[i].1,
{
    let k = s[i].0;
    assert(seq_has_key(s, k));
    let j = choose|j: int| 0 <= j < s.len() && #[trigger] s[j].0 == k;
    assert(s[j].0 == s[i].0);
}

pub struct Table<K, V> {
    entries: Vec<(K, V)>,
}

impl<K, V> Table<K, V> {
    #[verifier::type_invariant]
    spec fn inv(self) -> bool {
        keys_distinct(self.entries@)
    }

    /// The entries, in the order in which the table holds them.
    pub closed spec fn entries(self) -> Seq<(K, V)> {
        self.entries@
    }

    pub open spec fn spec_view(self) -> Map<K, V> {
        seq_to_map(self.entries())
    }

}

impl<K, V> View for Table<K, V> {
    type V = Map<K, V>;

    open spec fn view(&self) -> Map<K, V> {
        self.spec_view()
    }
}

impl<K: TableKey, V> Table<K, V> {
    pub fn new() -> (t: Self)
        ensures
            t.entries() == Seq::<(K, V)>::empty(),
            t@ == Map::<K, V>::empty(),
    {
        let t = Table { entries: Vec::new() };
        assert(t@ =~= Map::<K, V>::empty());
        t
    }

    pub fn len(&self) -> (n: usize)
        ensures
            n == self.entries().len(),
            keys_distinct(self.entries()),
    {
        proof {
            use_type_invariant(self);
        }
        self.entries.len()
    }

    /// The entry at position `i` of the table's order.
    pub fn entry(&self, i: usize) -> (e: &(K, V))
        requires
            i < self.entries().len(),
        ensures
            *e == self.entries()[i as int],
    {
        &self.entries[i]
    }

    /// The position of key `k`, if the table holds it.
    fn find(&self, k: &K) -> (r: Option<usize>)
        ensures
            match r {
                Some(i) => i < self.entries().len() && self.entries()[i as int].0 == *k,
                None => !seq_has_key(self.entries(), *k),
            },
    {
        let mut i: usize = 0;
        while i < self.entries.len()
            invariant
                i <= self.entries@.len(),
                forall|j: int| 0 <= j < i ==> self.entries@[j].0 != *k,
            decreases self.entries@.len() - i,
        {
            if self.entries[i].0.same(k) {
                return Some(i);
            }
            i = i + 1;
        }
        None
    }

    pub fn get(&self, k: &K) -> (r: Option<&V>)
        ensures
            match r {
                Some(v) => self@.contains_key(*k) && *v == self@[*k],
                None => !self@.contains_key(*k),
            },
    {
        proof {
            use_type_invariant(self);
        }
        match self.find(k) {
            Some(i) => {
                proof {
                    lemma_seq_to_map_at(self.entries@, i as int);
                }
                Some(&self.entries[i].1)
            },
            None => None,
        }
    }

    /// Sets the value of `k`: in place where the table holds `k`, else as a new last entry.
    pub fn insert(&mut self, k: K, v: V)
        ensures
            final(self)@ == old(self)@.insert(k, v),
            seq_has_key(old(self).entries(), k) ==> final(self).entries().len() == old(self).entries().len(),
            !seq_has_key(old(self).entries(), k) ==> final(self).entries() == old(self).entries().push((k, v)),
    {
        proof {
            use_type_invariant(&*self);
        }
        let ghost s0 = self.entries@;
        match self.find(&k) {
            Some(i) => {
                let mut es: Vec<(K, V)> = Vec::new();
                std::mem::swap(&mut es, &mut self.entries);
                es.set(i, (k, v));
                let ghost s1 = es@;
                assert(keys_distinct(s1));
                proof {
                    assert forall|key: K|
                        #![trigger seq_to_map(s1).contains_key(key)]
                        seq_to_map(s1).contains_key(key) == seq_to_map(s0).insert(k, v).contains_key(key)
                        && (seq_to_map(s1).contains_key(key) ==> seq_to_map(s1)[key] == seq_to_map(s0).insert(k, v)[key]) by {
                        if key == k {
                            lemma_seq_to_map_at(s1, i as int);
                        } else if seq_has_key(s0, key) {
                            let j = choose|j: int| 0 <= j < s0.len() && #[trigger] s0[j].0 == key;
                            lemma_seq_to_map_at(s0, j);
                            lemma_seq_to_map_at(s1, j);
                        } else {
                            if seq_has_key(s1, key) {
                                let j = choose|j: int| 0 <= j < s1.len() && #[trigger] s1[j].0 == key;
                                assert(s0[j].0 == key);
                            }
                        }
                    }
                    assert(seq_to_map(s1) =~= seq_to_map(s0).insert(k, v));
                }
                self.entries = es;
            },
            None => {
                let mut es: Vec<(K, V)> = Vec::new();
                std::mem::swap(&mut es, &mut self.entries);
                es.push((k, v));
                let ghost s1 = es@;
                assert(keys_distinct(s1));
                proof {
                    assert forall|key: K|
                        #![trigger seq_to_map(s1).contains_key(key)]
                        seq_to_map(s1).contains_key(key) == seq_to_map(s0).insert(k, v).contains_key(key)
                        && (seq_to_map(s1).contains_key(key) ==> seq_to_map(s1)[key] == seq_to_map(s0).insert(k, v)[key]) by {
                        if key == k {
                            lemma_seq_to_map_at(s1, s0.len() as int);
                        } else if seq_has_key(s0, key) {
                            let j = choose|j: int| 0 <= j < s0.len() && #[trigger] s0[j].0 == key;
                            lemma_seq_to_map_at(s0, j);
                            lemma_seq_to_map_at(s1, j);
                        } else {
                            if seq_has_key(s1, key) {
                                let j = choose|j: int| 0 <= j < s1.len() && #[trigger] s1[j].0 == key;
                                assert(s0[j].0 == key);
                            }
                        }
                    }
                    assert(seq_to_map(s1) =~= seq_to_map(s0).insert(k, v));
                }
                self.entries = es;
            },
        }
    }
}

} // verus!
