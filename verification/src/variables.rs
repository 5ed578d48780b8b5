//! The bindings that one application of a rule makes and uses.
use crate::chars::copy_chars;
use crate::error::RuntimeError;
use crate::names::NameMap;
use crate::value::{views, Val, Value};
use vstd::prelude::*;

verus! {

/// What [`Variables`] stands for.
pub struct Env {
    /// What each identifier is bound to.
    pub idents: Map<Seq<char>, Val>,
    /// What each poly-identifier has captured and not yet given back, oldest
    /// first.
    pub polyidents: Map<Seq<char>, Seq<Val>>,
}

impl Env {
    /// No bindings.
    pub open spec fn empty() -> Env {
        Env { idents: Map::empty(), polyidents: Map::empty() }
    }

    /// The bindings after `insert(key, value)`, where it succeeds.
    pub open spec fn bind(self, key: Seq<char>, value: Val) -> Env {
        Env { idents: self.idents.insert(key, value), polyidents: self.polyidents }
    }

    /// Whether `insert(key, value)` succeeds: `key` is free, or bound to
    /// `value` already.
    pub open spec fn accepts(self, key: Seq<char>, value: Val) -> bool {
        self.idents.contains_key(key) ==> self.idents[key] == value
    }

    /// What the poly-identifier `key` holds: nothing where it never captured.
    pub open spec fn queue(self, key: Seq<char>) -> Seq<Val> {
        if self.polyidents.contains_key(key) {
            self.polyidents[key]
        } else {
            Seq::empty()
        }
    }

    /// The bindings after `insert_polyident(key, value)`.
    pub open spec fn capture(self, key: Seq<char>, value: Val) -> Env {
        Env {
            idents: self.idents,
            polyidents: self.polyidents.insert(key, self.queue(key).push(value)),
        }
    }

    /// The bindings after a `take_polyident(key)` that gave a value.
    pub open spec fn release(self, key: Seq<char>) -> Env {
        Env {
            idents: self.idents,
            polyidents: self.polyidents.insert(key, self.queue(key).drop_first()),
        }
    }

    /// Every poly-identifier has given back all that it captured.
    pub open spec fn drained(self) -> bool {
        forall|key: Seq<char>| #[trigger]
            self.polyidents.contains_key(key) ==> self.polyidents[key].len() == 0
    }

    /// Every value bound or captured is well formed.
    pub open spec fn wf(self) -> bool {
        &&& forall|key: Seq<char>| #[trigger]
            self.idents.contains_key(key) ==> self.idents[key].wf()
        &&& forall|key: Seq<char>, i: int|
            self.polyidents.contains_key(key) && 0 <= i < self.polyidents[key].len() ==> (
            #[trigger] self.polyidents[key][i]).wf()
    }
}

/// The bindings of one application of a rule.
#[derive(Debug)]
pub struct Variables {
    idents: NameMap<Value>,
    polyidents: NameMap<Vec<Value>>,
}

impl View for Variables {
    type V = Env;

    closed spec fn view(&self) -> Env {
        Env {
            idents: self.idents.map().map_values(|v: Value| v@),
            polyidents: self.polyidents.map().map_values(|q: Vec<Value>| views(q@)),
        }
    }
}

impl Variables {
    /// No bindings.
    pub fn new() -> (r: Variables)
        ensures
            r@ == Env::empty(),
    {
        let r = Variables { idents: NameMap::new(), polyidents: NameMap::new() };
        assert(r@.idents =~= Map::<Seq<char>, Val>::empty());
        assert(r@.polyidents =~= Map::<Seq<char>, Seq<Val>>::empty());
        r
    }

    /// Binds `key` to `value`. Where `key` is bound to another value already
    /// this is a value error and nothing changes; where it is bound to the
    /// same value nothing changes either.
    pub fn insert(&mut self, key: Vec<char>, value: Value) -> (r: Result<(), RuntimeError>)
        ensures
            old(self)@.accepts(key@, value@) ==> r is Ok && final(self)@ == old(self)@.bind(
                key@,
                value@,
            ),
            !old(self)@.accepts(key@, value@) ==> r == Err::<(), RuntimeError>(
                RuntimeError::ValueErrorT,
            ) && final(self)@ == old(self)@,
    {
        match self.idents.get(&key) {
            Some(bound) => {
                if !bound.same(&value) {
                    Err(RuntimeError::ValueErrorT)
                } else {
                    assert(self@.idents =~= self@.idents.insert(key@, value@));
                    Ok(())
                }
            },
            None => {
                let mut table = NameMap::new();
                core::mem::swap(&mut table, &mut self.idents);
                self.idents = table.insert(key, value);
                assert(self@.idents =~= old(self)@.idents.insert(key@, value@));
                Ok(())
            },
        }
    }

    /// What `i` is bound to, if it is bound.
    pub fn get(&self, i: &Vec<char>) -> (r: Option<&Value>)
        ensures
            match r {
                Some(v) => self@.idents.contains_key(i@) && v@ == self@.idents[i@],
                None => !self@.idents.contains_key(i@),
            },
    {
        self.idents.get(i)
    }

    /// Adds `value` behind what the poly-identifier `key` holds.
    pub fn insert_polyident(&mut self, key: Vec<char>, value: Value) -> (r: Result<
        (),
        RuntimeError,
    >)
        ensures
            r is Ok,
            final(self)@ == old(self)@.capture(key@, value@),
    {
        let mut table = NameMap::new();
        core::mem::swap(&mut table, &mut self.polyidents);
        let (rest, held) = table.take(&key);
        let mut queue = match held {
            Some(q) => q,
            None => Vec::new(),
        };
        let ghost before = queue@;
        assert(views(before) =~= old(self)@.queue(key@));
        queue.push(value);
        assert(views(queue@) =~= views(before).push(value@));
        self.polyidents = rest.insert(key, queue);
        assert(self@.polyidents =~= old(self)@.polyidents.insert(
            key@,
            old(self)@.queue(key@).push(value@),
        ));
        Ok(())
    }

    /// Takes the oldest value that the poly-identifier `i` holds. Where `i`
    /// never captured anything there is none; where it holds nothing any more
    /// this is a value error.
    pub fn take_polyident(&mut self, i: &Vec<char>) -> (r: Result<Option<Value>, RuntimeError>)
        ensures
            match r {
                Ok(None) => !old(self)@.polyidents.contains_key(i@) && final(self)@ == old(self)@,
                Ok(Some(v)) => old(self)@.polyidents.contains_key(i@) && old(
                    self,
                )@.polyidents[i@].len() > 0 && v@ == old(self)@.polyidents[i@][0] && final(self)@
                    == old(self)@.release(i@),
                Err(e) => old(self)@.polyidents.contains_key(i@) && old(
                    self,
                )@.polyidents[i@].len() == 0 && e == RuntimeError::ValueErrorT && final(self)@
                    == old(self)@,
            },
    {
        let found = match self.polyidents.get(i) {
            Some(q) => Some(q.len()),
            None => None,
        };
        match found {
            None => Ok(None),
            Some(0) => Err(RuntimeError::ValueErrorT),
            Some(_) => {
                let mut table = NameMap::new();
                core::mem::swap(&mut table, &mut self.polyidents);
                let (rest, held) = table.take(i);
                let mut queue = match held {
                    Some(q) => q,
                    None => Vec::new(),
                };
                let ghost before = queue@;
                assert(views(before) =~= old(self)@.queue(i@));
                let v = queue.remove(0);
                assert(views(queue@) =~= views(before).drop_first());
                self.polyidents = rest.insert(copy_chars(i), queue);
                assert(self@.polyidents =~= old(self)@.polyidents.insert(
                    i@,
                    old(self)@.queue(i@).drop_first(),
                ));
                Ok(Some(v))
            },
        }
    }

    /// Whether every poly-identifier has given back all that it captured.
    pub fn drained(&self) -> (r: bool)
        ensures
            r == self@.drained(),
    {
        let n = self.polyidents.len();
        proof {
            self.polyidents.lemma_entries();
        }
        let mut i: usize = 0;
        while i < n
            invariant
                i <= n,
                self.polyidents.distinct(),
                n == self.polyidents.values().len(),
                forall|j: int| 0 <= j < i ==> self.polyidents.values()[j].len() == 0,
            decreases n - i,
        {
            if self.polyidents.value(i).len() != 0 {
                proof {
                    self.polyidents.lemma_entries();
                    let key = self.polyidents.names()[i as int];
                    assert(self@.polyidents.contains_key(key));
                    assert(self@.polyidents[key].len() != 0);
                }
                return false;
            }
            i = i + 1;
        }
        proof {
            self.polyidents.lemma_entries();
            assert forall|key: Seq<char>| #[trigger]
                self@.polyidents.contains_key(key) implies self@.polyidents[key].len() == 0 by {
                let j = choose|j: int|
                    0 <= j < self.polyidents.names().len() && self.polyidents.names()[j] == key;
                assert(self.polyidents.map()[key] == self.polyidents.values()[j]);
            }
        }
        true
    }
}

impl Default for Variables {
    fn default() -> (r: Variables)
        ensures
            r@ == Env::empty(),
    {
        Variables::new()
    }
}

} // verus!
