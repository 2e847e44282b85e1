//! An ordered map keyed by byte strings, held as a vector sorted by key.
use crate::bytes::{
    compare_bytes, is_prefix, lemma_lex_irreflexive, lemma_lex_transitive, lemma_sorted_distinct, lex_lt, outside_prefix,
    starts_with, strictly_sorted,
};
use vstd::prelude::*;

verus! {

/// A map from byte strings to values, its entries kept in strictly increasing
/// lexicographic order of their keys (the order in which a `BTreeMap` walks).
pub struct ByteMap<V> {
    entries: Vec<(Vec<u8>, V)>,
}

impl<V: DeepView> ByteMap<V> {
    /// The keys, in the order of the entries.
    pub closed spec fn keys(&self) -> Seq<Seq<u8>> {
        Seq::new(self.entries@.len(), |i: int| self.entries@[i].0@)
    }

    /// The values, in the order of the entries.
    pub closed spec fn vals(&self) -> Seq<V::V> {
        Seq::new(self.entries@.len(), |i: int| self.entries@[i].1.deep_view())
    }

    /// The map that the entries represent.
    pub closed spec fn map(&self) -> Map<Seq<u8>, V::V> {
        Map::new(|k: Seq<u8>| self.keys().contains(k), |k: Seq<u8>| self.vals()[self.keys().index_of(k)])
    }

    /// The entries are ordered by key, so that no key occurs twice.
    pub open spec fn wf(&self) -> bool {
        &&& strictly_sorted(self.keys())
        &&& self.keys().len() == self.vals().len()
    }

    /// How a well-formed map and its entries correspond.
    pub proof fn lemma_map_facts(&self)
        requires
            self.wf(),
        ensures
            forall|i: int|
                0 <= i < self.keys().len() ==> #[trigger] self.map().contains_key(self.keys()[i])
                    && self.map()[self.keys()[i]] == self.vals()[i],
            forall|k: Seq<u8>| #[trigger] self.map().contains_key(k) <==> self.keys().contains(k),
            self.map().dom().finite(),
            self.map().dom().len() == self.keys().len(),
    {
        assert forall|i: int| 0 <= i < self.keys().len() implies #[trigger] self.map().contains_key(
            self.keys()[i],
        ) && self.map()[self.keys()[i]] == self.vals()[i] by {
            let k = self.keys()[i];
            assert(self.keys().contains(k));
            let j = self.keys().index_of(k);
            if j != i {
                lemma_sorted_distinct(self.keys(), i, j);
            }
        }
        assert(self.map().dom() =~= self.keys().to_set());
        assert forall|i: int, j: int|
            0 <= i < self.keys().len() && 0 <= j < self.keys().len() && i != j implies self.keys()[i]
            != self.keys()[j] by {
            lemma_sorted_distinct(self.keys(), i, j);
        }
        assert(self.keys().no_duplicates());
        self.keys().unique_seq_to_set();
    }

    /// An empty map.
    pub fn new() -> (r: Self)
        ensures
            r.wf(),
            r.map() == Map::<Seq<u8>, V::V>::empty(),
            r.keys().len() == 0,
    {
        let r = ByteMap { entries: Vec::new() };
        assert(r.map() =~= Map::<Seq<u8>, V::V>::empty());
        r
    }

    /// The number of entries.
    pub fn len(&self) -> (r: usize)
        ensures
            r == self.keys().len(),
    {
        self.entries.len()
    }

    /// The key of the `i`-th entry.
    pub fn key_at(&self, i: usize) -> (r: &Vec<u8>)
        requires
            i < self.keys().len(),
        ensures
            r@ == self.keys()[i as int],
    {
        &self.entries[i].0
    }

    /// The value of the `i`-th entry.
    pub fn value_at(&self, i: usize) -> (r: &V)
        requires
            i < self.keys().len(),
        ensures
            r.deep_view() == self.vals()[i as int],
    {
        &self.entries[i].1
    }

    /// Where `key` stands or would stand: the number of keys before it, and
    /// whether the next key is `key` itself.
    pub fn position(&self, key: &[u8]) -> (r: (bool, usize))
        requires
            self.wf(),
        ensures
            r.1 <= self.keys().len(),
            forall|i: int| 0 <= i < r.1 ==> lex_lt(#[trigger] self.keys()[i], key@),
            r.0 ==> r.1 < self.keys().len() && self.keys()[r.1 as int] == key@,
            !r.0 ==> forall|i: int| r.1 <= i < self.keys().len() ==> lex_lt(key@, #[trigger] self.keys()[i]),
            r.0 <==> self.keys().contains(key@),
    {
        let mut i: usize = 0;
        while i < self.entries.len()
            invariant
                self.wf(),
                i <= self.keys().len(),
                forall|j: int| 0 <= j < i ==> lex_lt(#[trigger] self.keys()[j], key@),
            decreases self.keys().len() - i,
        {
            let c = compare_bytes(self.entries[i].0.as_slice(), key);
            if c == 0 {
                proof {
                    assert(self.keys()[i as int] == key@);
                }
                return (true, i);
            }
            if c > 0 {
                proof {
                    assert forall|j: int| i <= j < self.keys().len() implies lex_lt(
                        key@,
                        #[trigger] self.keys()[j],
                    ) by {
                        if j > i {
                            assert(lex_lt(self.keys()[i as int], self.keys()[j]));
                            lemma_lex_transitive(key@, self.keys()[i as int], self.keys()[j]);
                        }
                    }
                    if self.keys().contains(key@) {
                        let j = choose|j: int| 0 <= j < self.keys().len() && self.keys()[j] == key@;
                        if j < i {
                            assert(lex_lt(self.keys()[j], key@));
                        } else {
                            assert(lex_lt(key@, self.keys()[j]));
                        }
                        lemma_lex_irreflexive(key@);
                    }
                }
                return (false, i);
            }
            i += 1;
        }
        proof {
            if self.keys().contains(key@) {
                let j = choose|j: int| 0 <= j < self.keys().len() && self.keys()[j] == key@;
                assert(lex_lt(self.keys()[j], key@));
                lemma_lex_irreflexive(key@);
            }
        }
        (false, i)
    }

    /// The value stored under `key`, if any.
    pub fn get(&self, key: &[u8]) -> (r: Option<&V>)
        requires
            self.wf(),
        ensures
            match r {
                Some(v) => self.map().contains_key(key@) && self.map()[key@] == v.deep_view(),
                None => !self.map().contains_key(key@),
            },
    {
        proof {
            self.lemma_map_facts();
        }
        let (found, pos) = self.position(key);
        if found {
            proof {
                assert(self.map().contains_key(self.keys()[pos as int]));
            }
            Some(&self.entries[pos].1)
        } else {
            None
        }
    }

    /// Whether `key` has an entry.
    pub fn contains_key(&self, key: &[u8]) -> (r: bool)
        requires
            self.wf(),
        ensures
            r == self.map().contains_key(key@),
    {
        proof {
            self.lemma_map_facts();
        }
        let (found, _) = self.position(key);
        found
    }

    /// Sets the value under `key`, replacing any earlier one.
    pub fn insert(&mut self, key: Vec<u8>, value: V)
        requires
            old(self).wf(),
        ensures
            final(self).wf(),
            final(self).map() == old(self).map().insert(key@, value.deep_view()),
    {
        proof {
            self.lemma_map_facts();
        }
        let ghost k = key@;
        let ghost v = value.deep_view();
        let ghost old_keys = self.keys();
        let ghost old_vals = self.vals();
        let ghost old_map = self.map();
        let (found, pos) = self.position(key.as_slice());
        if found {
            self.entries.set(pos, (key, value));
            assert(self.keys() =~= old_keys);
            assert(self.vals() =~= old_vals.update(pos as int, v));
        } else {
            self.entries.insert(pos, (key, value));
            assert(self.keys() =~= old_keys.insert(pos as int, k));
            assert(self.vals() =~= old_vals.insert(pos as int, v));
            assert(strictly_sorted(self.keys())) by {
                assert forall|i: int, j: int| 0 <= i < j < self.keys().len() implies lex_lt(
                    #[trigger] self.keys()[i],
                    #[trigger] self.keys()[j],
                ) by {
                    if i < pos && j == pos {
                    } else if i == pos && j > pos {
                        assert(self.keys()[j] == old_keys[j - 1]);
                    } else if i < pos && j > pos {
                        assert(self.keys()[j] == old_keys[j - 1]);
                        assert(lex_lt(old_keys[i], old_keys[j - 1]));
                    } else if i > pos {
                        assert(lex_lt(old_keys[i - 1], old_keys[j - 1]));
                    } else {
                        assert(lex_lt(old_keys[i], old_keys[j]));
                    }
                }
            }
        }
        proof {
            self.lemma_map_facts();
            assert forall|kk: Seq<u8>| #[trigger] self.map().contains_key(kk) <==> old_map.insert(
                k,
                v,
            ).contains_key(kk) by {
                if self.map().contains_key(kk) {
                    let j = choose|j: int| 0 <= j < self.keys().len() && self.keys()[j] == kk;
                    if kk != k {
                        if found {
                            assert(old_keys[j] == kk);
                        } else if j < pos {
                            assert(old_keys[j] == kk);
                        } else {
                            assert(old_keys[j - 1] == kk);
                        }
                        assert(old_map.contains_key(kk));
                    }
                }
                if old_map.contains_key(kk) && kk != k {
                    let j = choose|j: int| 0 <= j < old_keys.len() && old_keys[j] == kk;
                    if found || j < pos {
                        assert(self.keys()[j] == kk);
                    } else {
                        assert(self.keys()[j + 1] == kk);
                    }
                }
                if kk == k {
                    assert(self.keys()[pos as int] == k);
                }
            }
            assert forall|kk: Seq<u8>| #[trigger] self.map().contains_key(kk) implies self.map()[kk]
                == old_map.insert(k, v)[kk] by {
                let j = choose|j: int| 0 <= j < self.keys().len() && self.keys()[j] == kk;
                assert(self.map()[self.keys()[j]] == self.vals()[j]);
                if kk != k {
                    if found || j < pos {
                        assert(old_keys[j] == kk);
                        assert(old_map[old_keys[j]] == old_vals[j]);
                    } else {
                        assert(old_keys[j - 1] == kk);
                        assert(old_map[old_keys[j - 1]] == old_vals[j - 1]);
                    }
                } else {
                    if j != pos {
                        lemma_sorted_distinct(self.keys(), j, pos as int);
                    }
                }
            }
            assert(self.map() =~= old_map.insert(k, v));
        }
    }

    /// Removes the entry of `key`, if any.
    pub fn remove(&mut self, key: &[u8])
        requires
            old(self).wf(),
        ensures
            final(self).wf(),
            final(self).map() == old(self).map().remove(key@),
    {
        proof {
            self.lemma_map_facts();
        }
        let ghost old_keys = self.keys();
        let ghost old_vals = self.vals();
        let ghost old_map = self.map();
        let (found, pos) = self.position(key);
        if found {
            let _ = self.entries.remove(pos);
            assert(self.keys() =~= old_keys.remove(pos as int));
            assert(self.vals() =~= old_vals.remove(pos as int));
            assert(strictly_sorted(self.keys())) by {
                assert forall|i: int, j: int| 0 <= i < j < self.keys().len() implies lex_lt(
                    #[trigger] self.keys()[i],
                    #[trigger] self.keys()[j],
                ) by {
                    if j < pos {
                        assert(lex_lt(old_keys[i], old_keys[j]));
                    } else if i < pos {
                        assert(lex_lt(old_keys[i], old_keys[j + 1]));
                    } else {
                        assert(lex_lt(old_keys[i + 1], old_keys[j + 1]));
                    }
                }
            }
            proof {
                self.lemma_map_facts();
                assert forall|kk: Seq<u8>| #[trigger] self.map().contains_key(kk) <==> old_map.remove(
                    key@,
                ).contains_key(kk) by {
                    if self.map().contains_key(kk) {
                        let j = choose|j: int| 0 <= j < self.keys().len() && self.keys()[j] == kk;
                        if j < pos {
                            assert(old_keys[j] == kk);
                            lemma_sorted_distinct(old_keys, j, pos as int);
                        } else {
                            assert(old_keys[j + 1] == kk);
                            lemma_sorted_distinct(old_keys, j + 1, pos as int);
                        }
                    }
                    if old_map.contains_key(kk) && kk != key@ {
                        let j = choose|j: int| 0 <= j < old_keys.len() && old_keys[j] == kk;
                        if j < pos {
                            assert(self.keys()[j] == kk);
                        } else {
                            assert(j != pos);
                            assert(self.keys()[j - 1] == kk);
                        }
                    }
                }
                assert forall|kk: Seq<u8>| #[trigger] self.map().contains_key(kk) implies self.map()[kk]
                    == old_map.remove(key@)[kk] by {
                    let j = choose|j: int| 0 <= j < self.keys().len() && self.keys()[j] == kk;
                    assert(self.map()[self.keys()[j]] == self.vals()[j]);
                    if j < pos {
                        assert(old_map[old_keys[j]] == old_vals[j]);
                    } else {
                        assert(old_map[old_keys[j + 1]] == old_vals[j + 1]);
                    }
                }
                assert(self.map() =~= old_map.remove(key@));
            }
        } else {
            assert(old_map.remove(key@) =~= old_map);
        }
    }

    /// Removes every entry.
    pub fn clear(&mut self)
        ensures
            final(self).wf(),
            final(self).map() == Map::<Seq<u8>, V::V>::empty(),
            final(self).keys().len() == 0,
    {
        self.entries.clear();
        assert(self.map() =~= Map::<Seq<u8>, V::V>::empty());
    }

    /// Removes every entry whose key starts with `prefix`.
    pub fn remove_prefix(&mut self, prefix: &[u8])
        requires
            old(self).wf(),
        ensures
            final(self).wf(),
            final(self).map() == old(self).map().restrict(outside_prefix(prefix@)),
    {
        let ghost old_map = self.map();
        let ghost keep = outside_prefix(prefix@);
        let mut i: usize = 0;
        proof {
            self.lemma_map_facts();
        }
        while i < self.entries.len()
            invariant
                self.wf(),
                i <= self.keys().len(),
                forall|j: int| 0 <= j < i ==> !is_prefix(prefix@, #[trigger] self.keys()[j]),
                forall|kk: Seq<u8>| #[trigger]
                    self.map().contains_key(kk) ==> old_map.contains_key(kk) && self.map()[kk]
                        == old_map[kk],
                forall|kk: Seq<u8>|
                    #[trigger] old_map.contains_key(kk) && !is_prefix(prefix@, kk)
                        ==> self.map().contains_key(kk),
            decreases self.keys().len() - i,
        {
            proof {
                self.lemma_map_facts();
            }
            let ghost cur_keys = self.keys();
            let ghost cur_vals = self.vals();
            let ghost cur_map = self.map();
            if starts_with(self.entries[i].0.as_slice(), prefix) {
                let _ = self.entries.remove(i);
                assert(self.keys() =~= cur_keys.remove(i as int));
                assert(self.vals() =~= cur_vals.remove(i as int));
                assert(strictly_sorted(self.keys())) by {
                    assert forall|a: int, b: int| 0 <= a < b < self.keys().len() implies lex_lt(
                        #[trigger] self.keys()[a],
                        #[trigger] self.keys()[b],
                    ) by {
                        if b < i {
                            assert(lex_lt(cur_keys[a], cur_keys[b]));
                        } else if a < i {
                            assert(lex_lt(cur_keys[a], cur_keys[b + 1]));
                        } else {
                            assert(lex_lt(cur_keys[a + 1], cur_keys[b + 1]));
                        }
                    }
                }
                proof {
                    self.lemma_map_facts();
                    assert forall|kk: Seq<u8>| #[trigger]
                        self.map().contains_key(kk) implies old_map.contains_key(kk) && self.map()[kk]
                        == old_map[kk] by {
                        let j = choose|j: int| 0 <= j < self.keys().len() && self.keys()[j] == kk;
                        assert(self.map()[self.keys()[j]] == self.vals()[j]);
                        if j < i {
                            assert(cur_map.contains_key(cur_keys[j]));
                            assert(cur_map[cur_keys[j]] == cur_vals[j]);
                        } else {
                            assert(cur_map.contains_key(cur_keys[j + 1]));
                            assert(cur_map[cur_keys[j + 1]] == cur_vals[j + 1]);
                        }
                    }
                    assert forall|kk: Seq<u8>|
                        #[trigger] old_map.contains_key(kk) && !is_prefix(
                            prefix@,
                            kk,
                        ) implies self.map().contains_key(kk) by {
                        assert(cur_map.contains_key(kk));
                        let j = choose|j: int| 0 <= j < cur_keys.len() && cur_keys[j] == kk;
                        if j < i {
                            assert(self.keys()[j] == kk);
                        } else if j > i {
                            assert(self.keys()[j - 1] == kk);
                        }
                    }
                }
            } else {
                i += 1;
            }
        }
        proof {
            self.lemma_map_facts();
            assert forall|kk: Seq<u8>| #[trigger] self.map().contains_key(kk) implies keep.contains(
                kk,
            ) by {
                let j = choose|j: int| 0 <= j < self.keys().len() && self.keys()[j] == kk;
            }
            assert(self.map() =~= old_map.restrict(keep));
        }
    }
}

} // verus!
