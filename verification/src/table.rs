//! A small keyed table: text keys, at most one value per key.

use vstd::prelude::*;

verus! {

/// A table from text keys to values.
#[derive(Debug, Clone, PartialEq, Eq)]
pub struct Table<V> {
    keys: Vec<String>,
    values: Vec<V>,
}

impl<V> Table<V> {
    /// No key occurs twice, and every key has its value.
    pub closed spec fn wf(&self) -> bool {
        &&& self.keys.len() == self.values.len()
        &&& forall|i: int, j: int|
            0 <= i < j < self.keys.len() ==> self.keys[i]@ != self.keys[j]@
    }

    spec fn holds_at(&self, k: Seq<char>, i: int) -> bool {
        0 <= i < self.keys.len() && self.keys[i]@ == k
    }

    /// The table as a map from key to value.
    pub closed spec fn map(&self) -> Map<Seq<char>, V> {
        Map::new(
            |k: Seq<char>| exists|i: int| self.holds_at(k, i),
            |k: Seq<char>| self.values[choose|i: int| self.holds_at(k, i)],
        )
    }

    proof fn lemma_slot(&self, i: int)
        requires
            self.wf(),
            0 <= i < self.keys.len(),
        ensures
            self.map().contains_key(self.keys[i]@),
            self.map()[self.keys[i]@] == self.values[i],
    {
        let k = self.keys[i]@;
        assert(self.holds_at(k, i));
        let c = choose|c: int| self.holds_at(k, c);
        assert(self.holds_at(k, c));
        assert(c == i);
    }

    /// The empty table.
    pub fn new() -> (res: Self)
        ensures
            res.wf(),
            res.map() == Map::<Seq<char>, V>::empty(),
    {
        let res = Table { keys: Vec::new(), values: Vec::new() };
        assert forall|k: Seq<char>| !res.map().contains_key(k) by {
            assert forall|i: int| !res.holds_at(k, i) by {}
        }
        assert(res.map() =~= Map::<Seq<char>, V>::empty());
        res
    }

    fn find(&self, key: &String) -> (res: Option<usize>)
        ensures
            match res {
                Some(i) => self.holds_at(key@, i as int),
                None => forall|i: int| !self.holds_at(key@, i),
            },
    {
        let mut i: usize = 0;
        while i < self.keys.len()
            invariant
                i <= self.keys.len(),
                forall|j: int| 0 <= j < i ==> !self.holds_at(key@, j),
            decreases self.keys.len() - i,
        {
            if self.keys[i] == *key {
                return Some(i);
            }
            i += 1;
        }
        None
    }

    /// Whether the table holds a value under `key`.
    pub fn contains(&self, key: &String) -> (res: bool)
        requires
            self.wf(),
        ensures
            res == self.map().contains_key(key@),
    {
        self.find(key).is_some()
    }

    /// The value under `key`, if there is one.
    pub fn get(&self, key: &String) -> (res: Option<&V>)
        requires
            self.wf(),
        ensures
            res is Some == self.map().contains_key(key@),
            res is Some ==> *res->Some_0 == self.map()[key@],
    {
        match self.find(key) {
            Some(i) => {
                proof {
                    self.lemma_slot(i as int);
                }
                Some(&self.values[i])
            },
            None => None,
        }
    }

    /// Puts `value` under `key`, replacing what was there.
    pub fn insert(&mut self, key: String, value: V)
        requires
            old(self).wf(),
        ensures
            final(self).wf(),
            final(self).map() == old(self).map().insert(key@, value),
    {
        let ghost slot: int;
        match self.find(&key) {
            Some(i) => {
                self.values.set(i, value);
                proof {
                    slot = i as int;
                }
            },
            None => {
                proof {
                    slot = self.keys.len() as int;
                    assert forall|i: int| 0 <= i < self.keys.len() implies self.keys[i]@
                        != key@ by {
                        assert(!self.holds_at(key@, i));
                    }
                }
                self.keys.push(key);
                self.values.push(value);
            },
        }
        proof {
            let before = *old(self);
            let after = *self;
            assert(after.wf());
            assert(after.holds_at(key@, slot));
            assert forall|k: Seq<char>|
                after.map().contains_key(k) == before.map().insert(key@, value).contains_key(
                    k,
                ) by {
                if before.map().contains_key(k) {
                    let i = choose|i: int| before.holds_at(k, i);
                    assert(after.holds_at(k, i));
                }
                if after.map().contains_key(k) && k != key@ {
                    let i = choose|i: int| after.holds_at(k, i);
                    assert(before.holds_at(k, i));
                }
            }
            assert forall|k: Seq<char>| after.map().contains_key(k) implies after.map()[k]
                == before.map().insert(key@, value)[k] by {
                let i = choose|i: int| after.holds_at(k, i);
                after.lemma_slot(i);
                if k != key@ {
                    assert(before.holds_at(k, i));
                    before.lemma_slot(i);
                }
            }
            assert(after.map() =~= before.map().insert(key@, value));
        }
    }

    /// Takes out the value under `key`, if there is one.
    pub fn remove(&mut self, key: &String) -> (res: Option<V>)
        requires
            old(self).wf(),
        ensures
            final(self).wf(),
            final(self).map() == old(self).map().remove(key@),
            res is Some == old(self).map().contains_key(key@),
            res is Some ==> res->Some_0 == old(self).map()[key@],
    {
        let ghost before = *self;
        match self.find(key) {
            Some(i) => {
                proof {
                    before.lemma_slot(i as int);
                }
                self.keys.remove(i);
                let value = self.values.remove(i);
                proof {
                    let after = *self;
                    assert(after.wf());
                    assert forall|k: Seq<char>|
                        after.map().contains_key(k) == before.map().remove(key@).contains_key(
                            k,
                        ) by {
                        if before.map().contains_key(k) && k != key@ {
                            let j = choose|j: int| before.holds_at(k, j);
                            assert(before.holds_at(k, j));
                            if j < i {
                                assert(after.holds_at(k, j));
                            } else {
                                assert(after.holds_at(k, j - 1));
                            }
                        }
                        if after.map().contains_key(k) {
                            let j = choose|j: int| after.holds_at(k, j);
                            if j < i {
                                assert(before.holds_at(k, j));
                            } else {
                                assert(before.holds_at(k, j + 1));
                            }
                        }
                    }
                    assert forall|k: Seq<char>| after.map().contains_key(k) implies after.map()[k]
                        == before.map().remove(key@)[k] by {
                        let j = choose|j: int| after.holds_at(k, j);
                        after.lemma_slot(j);
                        if j < i {
                            assert(before.holds_at(k, j));
                            before.lemma_slot(j);
                        } else {
                            assert(before.holds_at(k, j + 1));
                            before.lemma_slot(j + 1);
                        }
                    }
                    assert(after.map() =~= before.map().remove(key@));
                }
                Some(value)
            },
            None => {
                assert(self.map() =~= before.map().remove(key@));
                None
            },
        }
    }

    /// The keys of the table, each once.
    pub fn keys(&self) -> (res: Vec<String>)
        requires
            self.wf(),
        ensures
            res.deep_view().no_duplicates(),
            forall|k: Seq<char>| res.deep_view().contains(k) == self.map().contains_key(k),
    {
        let mut res: Vec<String> = Vec::new();
        let mut i: usize = 0;
        while i < self.keys.len()
            invariant
                i <= self.keys.len(),
                res.len() == i,
                forall|j: int| 0 <= j < i ==> res[j]@ == self.keys[j]@,
            decreases self.keys.len() - i,
        {
            res.push(self.keys[i].clone());
            i += 1;
        }
        proof {
            let out = res.deep_view();
            assert(out.len() == self.keys.len());
            assert forall|j: int| 0 <= j < out.len() implies out[j] == self.keys[j]@ by {}
            assert forall|k: Seq<char>| out.contains(k) == self.map().contains_key(k) by {
                if out.contains(k) {
                    let j = choose|j: int| 0 <= j < out.len() && out[j] == k;
                    assert(self.holds_at(k, j));
                }
                if self.map().contains_key(k) {
                    let j = choose|j: int| self.holds_at(k, j);
                    assert(out[j] == k);
                }
            }
        }
        res
    }
}

} // verus!
