use vstd::prelude::*;

verus! {

/// A map from small integer keys to values, stored densely.
///
/// `indices[k]` holds the position in `data` of the value for key `k`, and
/// `data_index[d]` holds the key of the value at position `d`.
pub struct SparseSet<T> {
    indices: Vec<Option<usize>>,
    data: Vec<T>,
    data_index: Vec<usize>,
}

impl<T> SparseSet<T> {
    pub closed spec fn wf(&self) -> bool {
        &&& self.data@.len() == self.data_index@.len()
        &&& forall|d: int|
            0 <= d < self.data_index@.len() ==> {
                &&& #[trigger] self.data_index@[d] < self.indices@.len()
                &&& self.indices@[self.data_index@[d] as int] is Some && self.indices@[self.data_index@[d] as int]->0 == d
            }
        &&& forall|k: int|
            0 <= k < self.indices@.len() && (#[trigger] self.indices@[k]) is Some ==> {
                &&& self.indices@[k]->0 < self.data@.len()
                &&& self.data_index@[self.indices@[k]->0 as int] == k
            }
    }

    /// The keys of the stored values, in storage order.
    pub closed spec fn dense_keys(&self) -> Seq<usize> {
        self.data_index@
    }

    /// The stored values, in storage order.
    pub closed spec fn dense_values(&self) -> Seq<T> {
        self.data@
    }

    /// How many keys the sparse part can currently address.
    pub closed spec fn sparse_len(&self) -> nat {
        self.indices@.len()
    }

    /// The set seen as a map from keys to values.
    pub closed spec fn view(&self) -> Map<usize, T> {
        Map::new(
            |k: usize| k < self.indices@.len() && self.indices@[k as int] is Some,
            |k: usize| self.data@[self.indices@[k as int]->0 as int],
        )
    }

    /// The dense storage and the map agree: position `d` holds the value of key
    /// `dense_keys()[d]`, every key is stored at exactly one position, and
    /// there are as many keys as stored values.
    pub proof fn lemma_dense_matches_map(&self)
        requires
            self.wf(),
        ensures
            self.dense_keys().len() == self.dense_values().len(),
            self.dense_keys().no_duplicates(),
            forall|d: int|
                0 <= d < self.dense_keys().len() ==> #[trigger] self@.contains_key(
                    self.dense_keys()[d],
                ) && self@[self.dense_keys()[d]] == self.dense_values()[d],
            forall|k: usize|
                #[trigger] self@.contains_key(k) ==> exists|d: int|
                    0 <= d < self.dense_keys().len() && self.dense_keys()[d] == k,
            self@.dom() == self.dense_keys().to_set(),
            self@.dom().finite(),
            self@.dom().len() == self.dense_values().len(),
    {
        let keys = self.data_index@;
        assert forall|a: int, b: int| 0 <= a < keys.len() && 0 <= b < keys.len() && a != b implies keys[a] != keys[b] by {
            assert(self.indices@[keys[a] as int]->0 == a);
            assert(self.indices@[keys[b] as int]->0 == b);
        }
        assert forall|d: int| 0 <= d < keys.len() implies #[trigger] self@.contains_key(keys[d])
            && self@[keys[d]] == self.data@[d] by {
            assert(self.indices@[keys[d] as int]->0 == d);
        }
        assert forall|k: usize| #[trigger] self@.contains_key(k) implies exists|d: int|
            0 <= d < keys.len() && keys[d] == k by {
            let d = self.indices@[k as int]->0 as int;
            assert(keys[d] == k);
        }
        assert(self@.dom() =~= keys.to_set()) by {
            assert forall|k: usize| self@.dom().contains(k) implies keys.to_set().contains(k) by {
                let d = self.indices@[k as int]->0 as int;
                assert(keys[d] == k);
            }
            assert forall|k: usize| keys.to_set().contains(k) implies self@.dom().contains(k) by {
                let d = choose|d: int| 0 <= d < keys.len() && keys[d] == k;
                assert(self@.contains_key(keys[d]));
            }
        }
        keys.unique_seq_to_set();
    }

    pub fn new() -> (r: Self)
        ensures
            r.wf(),
            r@ == Map::<usize, T>::empty(),
            r.dense_keys() == Seq::<usize>::empty(),
            r.dense_values() == Seq::<T>::empty(),
            r.sparse_len() == 0,
    {
        let r = Self { indices: Vec::new(), data: Vec::new(), data_index: Vec::new() };
        assert(r@ =~= Map::<usize, T>::empty());
        r
    }

    /// Stores `data` under `entity_index`, replacing the value already stored under that key.
    pub fn insert(&mut self, entity_index: usize, data: T)
        requires
            old(self).wf(),
        ensures
            final(self).wf(),
            final(self)@ == old(self)@.insert(entity_index, data),
            final(self).sparse_len() == if entity_index < old(self).sparse_len() {
                old(self).sparse_len() as int
            } else {
                entity_index + 1
            },
            old(self)@.contains_key(entity_index) ==> {
                &&& final(self).dense_keys() == old(self).dense_keys()
                &&& exists|d: int|
                    0 <= d < old(self).dense_keys().len() && old(self).dense_keys()[d] == entity_index
                        && final(self).dense_values() == old(self).dense_values().update(d, data)
            },
            !old(self)@.contains_key(entity_index) ==> {
                &&& final(self).dense_keys() == old(self).dense_keys().push(entity_index)
                &&& final(self).dense_values() == old(self).dense_values().push(data)
            },
    {
        // This line highlights the weakness of sparse sets.
        // They use a bunch of memory!
        if self.indices.len() <= entity_index {
        while self.indices.len() <= entity_index
            invariant
                self.wf(),
                self@ == old(self)@,
                self.data@ == old(self).data@,
                self.data_index@ == old(self).data_index@,
                self.indices@.len() <= entity_index + 1,
            decreases entity_index + 1 - self.indices@.len(),
        {
            let ghost pre = *self;
            self.indices.push(None);
            proof {
                assert forall|k: int|
                    0 <= k < self.indices@.len() && (#[trigger] self.indices@[k]) is Some implies {
                    &&& self.indices@[k]->0 < self.data@.len()
                    &&& self.data_index@[self.indices@[k]->0 as int] == k
                } by {
                    assert(k < pre.indices@.len());
                    assert(pre.indices@[k] == self.indices@[k]);
                }
                assert forall|d: int| 0 <= d < self.data_index@.len() implies {
                    &&& #[trigger] self.data_index@[d] < self.indices@.len()
                    &&& self.indices@[self.data_index@[d] as int] is Some && self.indices@[self.data_index@[d] as int]->0 == d
                } by {
                    assert(pre.indices@[self.data_index@[d] as int]->0 == d);
                }
                assert(self@ =~= pre@);
            }
        }
        }
        match self.indices[entity_index] {
            Some(d) => {
                self.data.set(d, data);
                proof {
                    assert(self@ =~= old(self)@.insert(entity_index, data));
                    assert(old(self).dense_keys()[d as int] == entity_index);
                }
            },
            None => {
                let new_index = self.data.len();
                self.indices.set(entity_index, Some(new_index));
                self.data.push(data);
                self.data_index.push(entity_index);
                proof {
                    let ghost mid_len = old(self).data@.len();
                    assert forall|k: int|
                        0 <= k < self.indices@.len() && (#[trigger] self.indices@[k]) is Some implies {
                        &&& self.indices@[k]->0 < self.data@.len()
                        &&& self.data_index@[self.indices@[k]->0 as int] == k
                    } by {
                        if k != entity_index {
                            assert(self.indices@[k]->0 < mid_len);
                        }
                    }
                    assert forall|d: int| 0 <= d < self.data_index@.len() implies {
                        &&& #[trigger] self.data_index@[d] < self.indices@.len()
                        &&& self.indices@[self.data_index@[d] as int] is Some && self.indices@[self.data_index@[d] as int]->0 == d
                    } by {
                        if d < mid_len {
                            assert(self.data_index@[d] != entity_index) by {
                                if self.data_index@[d] == entity_index {
                                    assert(old(self).indices@[entity_index as int] is Some);
                                }
                            }
                        }
                    }
                    assert(self@ =~= old(self)@.insert(entity_index, data)) by {
                        assert forall|k: usize| #[trigger] self@.contains_key(k) && k != entity_index implies
                            self@[k] == old(self)@[k] by {
                            assert(self.indices@[k as int]->0 < mid_len);
                        }
                    }
                }
            },
        }
    }

    /// Removes the value stored under `entity_index`, if any.
    pub fn remove(&mut self, entity_index: usize) -> (r: Option<T>)
        requires
            old(self).wf(),
            entity_index < old(self).sparse_len(),
        ensures
            final(self).wf(),
            final(self)@ == old(self)@.remove(entity_index),
            final(self).sparse_len() == old(self).sparse_len(),
            r == if old(self)@.contains_key(entity_index) {
                Some(old(self)@[entity_index])
            } else {
                None::<T>
            },
    {
        let index_to_remove = match self.indices[entity_index] {
            Some(i) => i,
            None => {
                assert(self@ =~= old(self)@.remove(entity_index));
                return None;
            },
        };
        let removed_data = self.data.swap_remove(index_to_remove);
        self.data_index.swap_remove(index_to_remove);
        self.indices.set(entity_index, None);

        // Update index of data swapped from the back.
        if index_to_remove < self.data.len() {
            let moved_key = self.data_index[index_to_remove];
            proof {
                let last = old(self).data_index@.len() - 1;
                assert(moved_key == old(self).data_index@[last]);
                assert(old(self).indices@[moved_key as int]->0 == last);
                assert(moved_key != entity_index);
            }
            self.indices.set(moved_key, Some(index_to_remove));
        }
        proof {
            let o = *old(self);
            let last = o.data_index@.len() - 1;
            let i = index_to_remove as int;
            assert forall|d: int| 0 <= d < self.data_index@.len() implies {
                &&& #[trigger] self.data_index@[d] < self.indices@.len()
                &&& self.indices@[self.data_index@[d] as int] is Some && self.indices@[self.data_index@[d] as int]->0 == d
            } by {
                if d != i {
                    assert(self.data_index@[d] == o.data_index@[d]);
                    assert(o.indices@[o.data_index@[d] as int]->0 == d);
                    assert(o.data_index@[d] != entity_index);
                    assert(o.data_index@[d] != o.data_index@[last]);
                }
            }
            assert forall|k: int|
                0 <= k < self.indices@.len() && (#[trigger] self.indices@[k]) is Some implies {
                &&& self.indices@[k]->0 < self.data@.len()
                &&& self.data_index@[self.indices@[k]->0 as int] == k
            } by {
                if i < self.data@.len() && k == o.data_index@[last] {
                } else {
                    let d = o.indices@[k]->0 as int;
                    assert(o.data_index@[d] == k);
                    assert(d != i);
                    assert(d != last);
                }
            }
            assert forall|k: usize| #[trigger] self@.contains_key(k) implies o@.contains_key(k) && self@[k] == o@[k] by {
                if i < self.data@.len() && k == o.data_index@[last] {
                    assert(o.indices@[k as int]->0 == last);
                } else {
                    let d = o.indices@[k as int]->0 as int;
                    assert(o.data_index@[d] == k);
                    assert(d != last);
                }
            }
            assert forall|k: usize| o@.contains_key(k) && k != entity_index implies #[trigger] self@.contains_key(k) by {
                let d = o.indices@[k as int]->0 as int;
                assert(o.data_index@[d] == k);
                if d == last {
                    assert(o.data_index@[last] == k);
                } else {
                    assert(d != i);
                }
            }
            assert(self@ =~= o@.remove(entity_index));
        }
        Some(removed_data)
    }

    pub fn get(&self, entity_index: usize) -> (r: Option<&T>)
        requires
            self.wf(),
        ensures
            match r {
                Some(x) => self@.contains_key(entity_index) && *x == self@[entity_index],
                None => !self@.contains_key(entity_index),
            },
    {
        if entity_index >= self.indices.len() {
            return None;
        }
        match self.indices[entity_index] {
            Some(d) => Some(&self.data[d]),
            None => None,
        }
    }

    /// Looks up a key; the set is not changed.
    pub fn get_mut(&mut self, entity_index: usize) -> (r: Option<&T>)
        requires
            old(self).wf(),
            entity_index < old(self).sparse_len(),
        ensures
            *final(self) == *old(self),
            match r {
                Some(x) => old(self)@.contains_key(entity_index) && *x == old(self)@[entity_index],
                None => !old(self)@.contains_key(entity_index),
            },
    {
        match self.indices[entity_index] {
            Some(d) => Some(&self.data[d]),
            None => None,
        }
    }

    pub fn len(&self) -> (r: usize)
        ensures
            r == self.dense_values().len(),
    {
        self.data.len()
    }

    pub fn data(&self) -> (r: &Vec<T>)
        ensures
            r@ == self.dense_values(),
    {
        &self.data
    }
}

/// Law: a value stored under a key is what a lookup of that key finds, and storing
/// it leaves every other key as it was.
pub proof fn law_insert_then_get<T>(pre: SparseSet<T>, post: SparseSet<T>, k: usize, v: T, j: usize)
    requires
        post@ == pre@.insert(k, v),
    ensures
        post@.contains_key(k) && post@[k] == v,
        j != k ==> (post@.contains_key(j) == pre@.contains_key(j)),
        j != k && pre@.contains_key(j) ==> post@[j] == pre@[j],
{
}

} // verus!
