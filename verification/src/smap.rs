//! A map from strings to values, backed by a vector of pairs with distinct
//! keys. The relay state and the client agent key everything by object,
//! client and room ids, and their contracts all speak of the `Map` view
//! given here.

use vstd::prelude::*;

verus! {

/// A map keyed by strings; its view is a `Map<Seq<char>, V>`.
pub struct StrMap<V> {
    entries: Vec<(String, V)>,
}

/// The map described by a prefix of the entry list.
pub open spec fn map_of<V>(entries: Seq<(String, V)>) -> Map<Seq<char>, V>
    decreases entries.len(),
{
    if entries.len() == 0 {
        Map::empty()
    } else {
        map_of(entries.drop_last()).insert(entries.last().0@, entries.last().1)
    }
}

impl<V> StrMap<V> {
    /// The map this vector of pairs stands for.
    pub closed spec fn view(&self) -> Map<Seq<char>, V> {
        map_of(self.entries@)
    }

    /// Keys are pairwise distinct, so each key's value is unambiguous.
    pub closed spec fn wf(&self) -> bool {
        forall|i: int, j: int| 0 <= i < j < self.entries@.len()
            ==> self.entries@[i].0@ != self.entries@[j].0@
    }

    /// The entries as a sequence of key/value views, for contracts that
    /// need an order or a count.
    pub closed spec fn kv_seq(&self) -> Seq<(Seq<char>, V)> {
        self.entries@.map_values(|e: (String, V)| (e.0@, e.1))
    }

    pub fn new() -> (r: Self)
        ensures
            r@ == Map::<Seq<char>, V>::empty(),
            r.wf(),
            r.kv_seq() == Seq::<(Seq<char>, V)>::empty(),
    {
        let r = StrMap { entries: Vec::new() };
        proof {
            assert(r.kv_seq() =~= Seq::<(Seq<char>, V)>::empty());
        }
        r
    }

    pub fn len(&self) -> (n: usize)
        ensures
            n == self.kv_seq().len(),
    {
        self.entries.len()
    }

    fn index_of(&self, k: &String) -> (r: Option<usize>)
        ensures
            match r {
                Some(i) => i < self.entries@.len() && self.entries@[i as int].0@ == k@,
                None => forall|i: int| 0 <= i < self.entries@.len()
                    ==> self.entries@[i].0@ != k@,
            },
    {
        let n = self.entries.len();
        let mut i: usize = 0;
        while i < n
            invariant
                i <= n,
                n == self.entries@.len(),
                forall|j: int| 0 <= j < i ==> self.entries@[j].0@ != k@,
            decreases n - i,
        {
            if self.entries[i].0 == *k {
                return Some(i);
            }
            i = i + 1;
        }
        None
    }

    pub fn contains_key(&self, k: &String) -> (b: bool)
        requires
            self.wf(),
        ensures
            b == self@.contains_key(k@),
    {
        proof {
            lemma_map_of_contains(self.entries@, k@);
        }
        match self.index_of(k) {
            Some(_) => true,
            None => false,
        }
    }

    pub fn get(&self, k: &String) -> (r: Option<&V>)
        requires
            self.wf(),
        ensures
            match r {
                Some(v) => self@.contains_key(k@) && *v == self@[k@],
                None => !self@.contains_key(k@),
            },
    {
        proof {
            lemma_map_of_contains(self.entries@, k@);
        }
        match self.index_of(k) {
            Some(i) => {
                proof {
                    lemma_map_of_get(self.entries@, i as int);
                }
                Some(&self.entries[i].1)
            },
            None => None,
        }
    }

    pub fn insert(&mut self, k: String, v: V)
        requires
            old(self).wf(),
        ensures
            final(self)@ == old(self)@.insert(k@, v),
            final(self).wf(),
            final(self).kv_seq().len() <= old(self).kv_seq().len() + 1,
    {
        self.remove(&k);
        proof {
            lemma_map_of_contains(self.entries@, k@);
        }
        let ghost mid = self.entries@;
        self.entries.push((k, v));
        proof {
            assert(self.entries@.drop_last() =~= mid);
            assert(map_of(self.entries@) == map_of(mid).insert(k@, v));
            assert(old(self)@.remove(k@).insert(k@, v) =~= old(self)@.insert(k@, v));
        }
    }

    pub fn remove(&mut self, k: &String)
        requires
            old(self).wf(),
        ensures
            final(self)@ == old(self)@.remove(k@),
            final(self).wf(),
            final(self).kv_seq().len() <= old(self).kv_seq().len(),
            !old(self)@.contains_key(k@) ==> final(self).kv_seq() == old(self).kv_seq(),
    {
        proof {
            lemma_map_of_contains(self.entries@, k@);
        }
        match self.index_of(k) {
            Some(i) => {
                proof {
                    lemma_map_of_remove(self.entries@, i as int);
                }
                self.entries.remove(i);
                proof {
                    assert forall|p: int, q: int| 0 <= p < q < self.entries@.len()
                        implies self.entries@[p].0@ != self.entries@[q].0@ by {
                        assert(self.entries@[p] == if p < i { old(self).entries@[p] } else {
                            old(self).entries@[p + 1]
                        });
                        assert(self.entries@[q] == if q < i { old(self).entries@[q] } else {
                            old(self).entries@[q + 1]
                        });
                    }
                }
            },
            None => {
                proof {
                    assert(old(self)@.remove(k@) =~= old(self)@);
                }
            },
        }
    }

    /// Remove and return the value under `k`, if any.
    pub fn take(&mut self, k: &String) -> (r: Option<V>)
        requires
            old(self).wf(),
        ensures
            final(self)@ == old(self)@.remove(k@),
            final(self).wf(),
            match r {
                Some(v) => old(self)@.contains_key(k@) && v == old(self)@[k@],
                None => !old(self)@.contains_key(k@),
            },
    {
        proof {
            lemma_map_of_contains(self.entries@, k@);
        }
        match self.index_of(k) {
            Some(i) => {
                proof {
                    lemma_map_of_get(self.entries@, i as int);
                    lemma_map_of_remove(self.entries@, i as int);
                }
                let e = self.entries.remove(i);
                proof {
                    assert forall|p: int, q: int| 0 <= p < q < self.entries@.len()
                        implies self.entries@[p].0@ != self.entries@[q].0@ by {
                        assert(self.entries@[p] == if p < i { old(self).entries@[p] } else {
                            old(self).entries@[p + 1]
                        });
                        assert(self.entries@[q] == if q < i { old(self).entries@[q] } else {
                            old(self).entries@[q + 1]
                        });
                    }
                }
                Some(e.1)
            },
            None => {
                proof {
                    assert(old(self)@.remove(k@) =~= old(self)@);
                }
                None
            },
        }
    }

    /// The key of the entry at position `i`.
    pub fn key_at(&self, i: usize) -> (k: &String)
        requires
            i < self.kv_seq().len(),
        ensures
            k@ == self.kv_seq()[i as int].0,
    {
        &self.entries[i].0
    }

    /// The value of the entry at position `i`.
    pub fn value_at(&self, i: usize) -> (v: &V)
        requires
            i < self.kv_seq().len(),
        ensures
            *v == self.kv_seq()[i as int].1,
    {
        &self.entries[i].1
    }

    /// How the entry list and the map agree: each entry is in the map, each
    /// key of the map is some entry's, and no key repeats.
    pub proof fn lemma_kv_view(&self)
        requires
            self.wf(),
        ensures
            forall|i: int| 0 <= i < self.kv_seq().len()
                ==> self@.contains_key(#[trigger] self.kv_seq()[i].0)
                    && self@[self.kv_seq()[i].0] == self.kv_seq()[i].1,
            forall|k: Seq<char>| #[trigger] self@.contains_key(k)
                ==> exists|i: int| 0 <= i < self.kv_seq().len() && self.kv_seq()[i].0 == k,
            forall|i: int, j: int| 0 <= i < j < self.kv_seq().len()
                ==> self.kv_seq()[i].0 != self.kv_seq()[j].0,
    {
        assert forall|i: int| 0 <= i < self.kv_seq().len()
            implies self@.contains_key(#[trigger] self.kv_seq()[i].0)
                && self@[self.kv_seq()[i].0] == self.kv_seq()[i].1 by {
            lemma_map_of_get(self.entries@, i);
        }
        assert forall|k: Seq<char>| #[trigger] self@.contains_key(k)
            implies exists|i: int| 0 <= i < self.kv_seq().len() && self.kv_seq()[i].0 == k by {
            lemma_map_of_contains(self.entries@, k);
            let i = choose|i: int| 0 <= i < self.entries@.len() && self.entries@[i].0@ == k;
            assert(self.kv_seq()[i].0 == k);
        }
    }
}

/// A key is in the map exactly when some entry holds it.
proof fn lemma_map_of_contains<V>(entries: Seq<(String, V)>, k: Seq<char>)
    ensures
        map_of(entries).contains_key(k)
            <==> exists|i: int| 0 <= i < entries.len() && entries[i].0@ == k,
    decreases entries.len(),
{
    if entries.len() > 0 {
        lemma_map_of_contains(entries.drop_last(), k);
        if entries.last().0@ == k {
            assert(entries[entries.len() - 1].0@ == k);
        } else {
            if map_of(entries).contains_key(k) {
                let i = choose|i: int| 0 <= i < entries.drop_last().len()
                    && entries.drop_last()[i].0@ == k;
                assert(entries[i].0@ == k);
            }
            if exists|i: int| 0 <= i < entries.len() && entries[i].0@ == k {
                let i = choose|i: int| 0 <= i < entries.len() && entries[i].0@ == k;
                assert(entries.drop_last()[i].0@ == k);
            }
        }
    }
}

/// With distinct keys, the entry at `i` gives that key's value.
proof fn lemma_map_of_get<V>(entries: Seq<(String, V)>, i: int)
    requires
        0 <= i < entries.len(),
        forall|p: int, q: int| 0 <= p < q < entries.len() ==> entries[p].0@ != entries[q].0@,
    ensures
        map_of(entries).contains_key(entries[i].0@),
        map_of(entries)[entries[i].0@] == entries[i].1,
    decreases entries.len(),
{
    if i == entries.len() - 1 {
    } else {
        lemma_map_of_get(entries.drop_last(), i);
        assert(entries.drop_last()[i] == entries[i]);
        assert(entries.last().0@ != entries[i].0@);
    }
}

/// Removing the entry at `i` removes just that key.
proof fn lemma_map_of_remove<V>(entries: Seq<(String, V)>, i: int)
    requires
        0 <= i < entries.len(),
        forall|p: int, q: int| 0 <= p < q < entries.len() ==> entries[p].0@ != entries[q].0@,
    ensures
        map_of(entries.remove(i)) == map_of(entries).remove(entries[i].0@),
    decreases entries.len(),
{
    let k = entries[i].0@;
    if i == entries.len() - 1 {
        assert(entries.remove(i) =~= entries.drop_last());
        lemma_map_of_contains(entries.drop_last(), k);
        assert(!map_of(entries.drop_last()).contains_key(k));
        assert(map_of(entries.drop_last()).insert(k, entries.last().1).remove(k)
            =~= map_of(entries.drop_last()));
    } else {
        assert(entries.remove(i).last() == entries.last());
        assert(entries.remove(i).drop_last() =~= entries.drop_last().remove(i));
        lemma_map_of_remove(entries.drop_last(), i);
        assert(entries.drop_last()[i] == entries[i]);
        assert(entries.last().0@ != k);
        assert(map_of(entries.remove(i))
            == map_of(entries.drop_last().remove(i)).insert(entries.last().0@, entries.last().1));
        assert(map_of(entries.drop_last()).remove(k).insert(entries.last().0@, entries.last().1)
            =~= map_of(entries.drop_last()).insert(entries.last().0@, entries.last().1).remove(k));
    }
}

} // verus!
