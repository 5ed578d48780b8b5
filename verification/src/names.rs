//! Tables keyed by a name.
use crate::chars::same_chars;
use vstd::prelude::*;

verus! {

/// A finite map from names to values, in which each name occurs once.
#[derive(Debug)]
pub struct NameMap<V> {
    keys: Vec<Vec<char>>,
    values: Vec<V>,
}

impl<V> NameMap<V> {
    #[verifier::type_invariant]
    spec fn inv(self) -> bool {
        self.distinct()
    }

    /// No name occurs twice.
    pub closed spec fn distinct(self) -> bool {
        &&& self.keys.len() == self.values.len()
        &&& forall|i: int, j: int|
            0 <= i < j < self.keys.len() ==> (#[trigger] self.keys[i])@ != (#[trigger] self.keys[j])@
    }

    spec fn at(self, k: Seq<char>, i: int) -> bool {
        0 <= i < self.keys.len() && self.keys[i]@ == k
    }

    /// What the table holds.
    pub closed spec fn map(self) -> Map<Seq<char>, V> {
        Map::new(
            |k: Seq<char>| exists|i: int| self.at(k, i),
            |k: Seq<char>| self.values[choose|i: int| self.at(k, i)],
        )
    }

    /// The values in the order in which their names came.
    pub closed spec fn values(self) -> Seq<V> {
        self.values@
    }

    /// The names in the order in which they came.
    pub closed spec fn names(self) -> Seq<Seq<char>> {
        Seq::new(self.keys.len() as nat, |i: int| self.keys[i]@)
    }

    /// The table is its names and values paired, each name once.
    pub proof fn lemma_entries(self)
        requires
            self.distinct(),
        ensures
            self.names().len() == self.values().len(),
            forall|i: int|
                0 <= i < self.names().len() ==> self.map().contains_key(#[trigger] self.names()[i])
                    && self.map()[self.names()[i]] == self.values()[i],
            forall|k: Seq<char>| #[trigger]
                self.map().contains_key(k) ==> exists|i: int|
                    0 <= i < self.names().len() && self.names()[i] == k,
            forall|i: int, j: int|
                0 <= i < j < self.names().len() ==> self.names()[i] != self.names()[j],
    {
        assert forall|i: int| 0 <= i < self.names().len() implies self.map().contains_key(
            #[trigger] self.names()[i],
        ) && self.map()[self.names()[i]] == self.values()[i] by {
            let k = self.names()[i];
            assert(self.at(k, i));
            let c = choose|c: int| self.at(k, c);
            assert(c == i);
        }
        assert forall|k: Seq<char>| #[trigger] self.map().contains_key(k) implies exists|i: int|
            0 <= i < self.names().len() && self.names()[i] == k by {
            let c = choose|c: int| self.at(k, c);
            assert(self.names()[c] == k);
        }
    }

    pub fn new() -> (r: NameMap<V>)
        ensures
            r.map() == Map::<Seq<char>, V>::empty(),
            r.values().len() == 0,
    {
        let r = NameMap { keys: Vec::new(), values: Vec::new() };
        assert(r.map() =~= Map::<Seq<char>, V>::empty());
        r
    }

    fn position(&self, key: &Vec<char>) -> (r: Option<usize>)
        ensures
            self.distinct(),
            match r {
                Some(i) => self.at(key@, i as int),
                None => forall|i: int| !self.at(key@, i),
            },
    {
        proof {
            use_type_invariant(self);
        }
        let mut i: usize = 0;
        while i < self.keys.len()
            invariant
                self.distinct(),
                i <= self.keys.len(),
                forall|j: int| 0 <= j < i ==> self.keys[j]@ != key@,
            decreases self.keys.len() - i,
        {
            if same_chars(&self.keys[i], key) {
                return Some(i);
            }
            i = i + 1;
        }
        None
    }

    /// The value under `key`, if there is one.
    pub fn get(&self, key: &Vec<char>) -> (r: Option<&V>)
        ensures
            match r {
                Some(v) => self.map().contains_key(key@) && *v == self.map()[key@],
                None => !self.map().contains_key(key@),
            },
    {
        match self.position(key) {
            Some(i) => {
                proof {
                    let c = choose|c: int| self.at(key@, c);
                    assert(c == i);
                }
                Some(&self.values[i])
            },
            None => None,
        }
    }

    /// The table with `value` under `key`, in place of what was there.
    pub fn insert(self, key: Vec<char>, value: V) -> (r: NameMap<V>)
        ensures
            r.map() == self.map().insert(key@, value),
    {
        let ghost before = self;
        let found = self.position(&key);
        let NameMap { mut keys, mut values } = self;
        match found {
            Some(i) => {
                values[i] = value;
                let r = NameMap { keys, values };
                proof {
                    assert forall|k: Seq<char>| #[trigger]
                        r.map().contains_key(k) == before.map().insert(
                            key@,
                            value,
                        ).contains_key(k) by {
                        if before.map().insert(key@, value).contains_key(k) {
                            if k == key@ {
                                assert(r.at(k, i as int));
                            } else {
                                let c = choose|c: int| before.at(k, c);
                                assert(r.at(k, c));
                            }
                        }
                        if r.map().contains_key(k) {
                            let c = choose|c: int| r.at(k, c);
                            assert(before.at(k, c));
                        }
                    }
                    assert forall|k: Seq<char>| #[trigger]
                        r.map().contains_key(k) implies r.map()[k] == before.map().insert(
                        key@,
                        value,
                    )[k] by {
                        let c = choose|c: int| r.at(k, c);
                        assert(before.at(k, c));
                        let d = choose|d: int| before.at(k, d);
                        assert(c == d);
                        if k == key@ {
                            assert(c == i);
                        }
                    }
                    assert(r.map() =~= before.map().insert(key@, value));
                }
                r
            },
            None => {
                keys.push(key);
                values.push(value);
                proof {
                    let n = before.keys.len() as int;
                    assert forall|i: int, j: int| 0 <= i < j < keys.len() implies (
                    #[trigger] keys[i])@ != (#[trigger] keys[j])@ by {
                        assert(keys[i] == before.keys[i]);
                        if j == n {
                            assert(!before.at(key@, i));
                        } else {
                            assert(keys[j] == before.keys[j]);
                        }
                    }
                }
                let r = NameMap { keys, values };
                proof {
                    let n = before.keys.len() as int;
                    assert forall|k: Seq<char>| #[trigger]
                        r.map().contains_key(k) == before.map().insert(
                            key@,
                            value,
                        ).contains_key(k) by {
                        if before.map().insert(key@, value).contains_key(k) {
                            if k == key@ {
                                assert(r.at(k, n));
                            } else {
                                let c = choose|c: int| before.at(k, c);
                                assert(r.at(k, c));
                            }
                        }
                        if r.map().contains_key(k) {
                            let c = choose|c: int| r.at(k, c);
                            if c < n {
                                assert(before.at(k, c));
                            }
                        }
                    }
                    assert forall|k: Seq<char>| #[trigger]
                        r.map().contains_key(k) implies r.map()[k] == before.map().insert(
                        key@,
                        value,
                    )[k] by {
                        let c = choose|c: int| r.at(k, c);
                        if c < n {
                            assert(before.at(k, c));
                            let d = choose|d: int| before.at(k, d);
                            assert(c == d);
                        }
                    }
                    assert(r.map() =~= before.map().insert(key@, value));
                }
                r
            },
        }
    }

    /// The table without `key`, and what was under it, if anything.
    pub fn take(self, key: &Vec<char>) -> (r: (NameMap<V>, Option<V>))
        ensures
            match r.1 {
                Some(v) => self.map().contains_key(key@) && v == self.map()[key@],
                None => !self.map().contains_key(key@),
            },
            r.0.map() == self.map().remove(key@),
    {
        let ghost before = self;
        let found = self.position(key);
        let NameMap { mut keys, mut values } = self;
        match found {
            Some(i) => {
                keys.remove(i);
                let v = values.remove(i);
                let r = NameMap { keys, values };
                proof {
                    let c = choose|c: int| before.at(key@, c);
                    assert(c == i);
                    assert forall|k: Seq<char>| #[trigger]
                        r.map().contains_key(k) == before.map().remove(key@).contains_key(
                            k,
                        ) by {
                        if before.map().remove(key@).contains_key(k) {
                            let c = choose|c: int| before.at(k, c);
                            if c < i {
                                assert(r.at(k, c));
                            } else {
                                assert(r.at(k, c - 1));
                            }
                        }
                        if r.map().contains_key(k) {
                            let c = choose|c: int| r.at(k, c);
                            if c < i {
                                assert(before.at(k, c));
                            } else {
                                assert(before.at(k, c + 1));
                            }
                        }
                    }
                    assert forall|k: Seq<char>| #[trigger]
                        r.map().contains_key(k) implies r.map()[k] == before.map().remove(
                        key@,
                    )[k] by {
                        let c = choose|c: int| r.at(k, c);
                        let d = choose|d: int| before.at(k, d);
                        if c < i {
                            assert(before.at(k, c));
                            assert(c == d);
                        } else {
                            assert(before.at(k, c + 1));
                            assert(c + 1 == d);
                        }
                    }
                    assert(r.map() =~= before.map().remove(key@));
                }
                (r, Some(v))
            },
            None => {
                let r = NameMap { keys, values };
                proof {
                    assert(r.map() =~= before.map().remove(key@));
                }
                (r, None)
            },
        }
    }

    /// How many names the table holds.
    pub fn len(&self) -> (r: usize)
        ensures
            r == self.values().len(),
            self.distinct(),
    {
        proof {
            use_type_invariant(self);
        }
        self.values.len()
    }

    /// The value that came `i`-th.
    pub fn value(&self, i: usize) -> (r: &V)
        requires
            i < self.values().len(),
        ensures
            *r == self.values()[i as int],
    {
        &self.values[i]
    }
}

} // verus!
