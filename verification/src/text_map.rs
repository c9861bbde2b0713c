//! A table from texts to values, kept in ascending order of its keys.
use vstd::prelude::*;
use crate::text::{
    lemma_lex_lt_irreflexive, lemma_lex_lt_total, lemma_lex_lt_transitive, lex_lt, text_lt,
};

verus! {

/// Every key stands before all the keys behind it.
pub open spec fn ascending(keys: Seq<Seq<char>>) -> bool {
    forall|i: int, j: int| 0 <= i < j < keys.len() ==> lex_lt(#[trigger] keys[i], #[trigger] keys[j])
}

/// In an ascending sequence no key stands twice.
pub proof fn lemma_ascending_distinct(keys: Seq<Seq<char>>, i: int, j: int)
    requires
        ascending(keys),
        0 <= i < keys.len(),
        0 <= j < keys.len(),
        keys[i] == keys[j],
    ensures
        i == j,
{
    lemma_lex_lt_irreflexive(keys[i]);
}

/// A table from texts to values. Its entries are kept in ascending order of
/// their keys, and no key stands twice.
pub struct TextMap<V> {
    keys: Vec<String>,
    values: Vec<V>,
}

impl<V> TextMap<V> {
    /// The keys, in the order in which they are kept.
    pub closed spec fn keys(&self) -> Seq<Seq<char>> {
        Seq::new(self.keys@.len(), |i: int| self.keys@[i]@)
    }

    /// The values, each at the place of its key.
    pub closed spec fn values(&self) -> Seq<V> {
        self.values@
    }

    /// The invariant of the table: one value for each key, keys ascending.
    pub open spec fn wf(&self) -> bool {
        &&& self.keys().len() == self.values().len()
        &&& ascending(self.keys())
    }

    pub open spec fn contains_key(&self, key: Seq<char>) -> bool {
        self.keys().contains(key)
    }

    /// The place of a key that the table holds.
    pub open spec fn rank(&self, key: Seq<char>) -> int {
        choose|i: int| 0 <= i < self.keys().len() && self.keys()[i] == key
    }

    /// The table as a map.
    pub open spec fn view(&self) -> Map<Seq<char>, V> {
        Map::new(|key: Seq<char>| self.contains_key(key), |key: Seq<char>| self.values()[self.rank(key)])
    }

    /// The key at place `i` has rank `i`, and the map holds its value.
    pub proof fn lemma_rank(&self, i: int)
        requires
            self.wf(),
            0 <= i < self.keys().len(),
        ensures
            self.contains_key(self.keys()[i]),
            self.rank(self.keys()[i]) == i,
            self@.contains_key(self.keys()[i]),
            self@[self.keys()[i]] == self.values()[i],
    {
        let r = self.rank(self.keys()[i]);
        lemma_ascending_distinct(self.keys(), r, i);
    }

    /// A key that the table holds stands at its rank.
    pub proof fn lemma_rank_of_key(&self, key: Seq<char>)
        requires
            self.contains_key(key),
        ensures
            0 <= self.rank(key) < self.keys().len(),
            self.keys()[self.rank(key)] == key,
    {
    }

    pub fn new() -> (r: Self)
        ensures
            r.wf(),
            r.keys() == Seq::<Seq<char>>::empty(),
            r@ == Map::<Seq<char>, V>::empty(),
    {
        let r = TextMap { keys: Vec::new(), values: Vec::new() };
        assert(r.keys() =~= Seq::<Seq<char>>::empty());
        assert(r@ =~= Map::<Seq<char>, V>::empty());
        r
    }

    pub fn len(&self) -> (n: usize)
        requires
            self.wf(),
        ensures
            n == self.keys().len(),
    {
        self.keys.len()
    }

    /// The key at place `i`.
    pub fn key_at(&self, i: usize) -> (key: &String)
        requires
            self.wf(),
            i < self.keys().len(),
        ensures
            key@ == self.keys()[i as int],
    {
        &self.keys[i]
    }

    /// The value at place `i`.
    pub fn value_at(&self, i: usize) -> (value: &V)
        requires
            self.wf(),
            i < self.keys().len(),
        ensures
            *value == self.values()[i as int],
    {
        &self.values[i]
    }

    /// Where `key` stands (`Ok`), or where it would have to be put (`Err`).
    pub fn search(&self, key: &str) -> (r: Result<usize, usize>)
        requires
            self.wf(),
        ensures
            match r {
                Ok(i) => i < self.keys().len() && self.keys()[i as int] == key@,
                Err(i) => {
                    &&& i <= self.keys().len()
                    &&& !self.contains_key(key@)
                    &&& forall|j: int| 0 <= j < i ==> lex_lt(#[trigger] self.keys()[j], key@)
                    &&& forall|j: int|
                        i <= j < self.keys().len() ==> lex_lt(key@, #[trigger] self.keys()[j])
                },
            },
    {
        let mut lo: usize = 0;
        let mut hi: usize = self.keys.len();
        while lo < hi
            invariant
                self.wf(),
                lo <= hi <= self.keys().len(),
                self.keys().len() == self.keys@.len(),
                forall|j: int| 0 <= j < lo ==> lex_lt(#[trigger] self.keys()[j], key@),
                forall|j: int| hi <= j < self.keys().len() ==> lex_lt(key@, #[trigger] self.keys()[j]),
            decreases hi - lo,
        {
            let mid: usize = lo + (hi - lo) / 2;
            let probe = self.keys[mid].as_str();
            assert(probe@ == self.keys()[mid as int]);
            if text_lt(probe, key) {
                assert forall|j: int| 0 <= j < mid + 1 implies lex_lt(
                    #[trigger] self.keys()[j],
                    key@,
                ) by {
                    if j < mid {
                        lemma_lex_lt_transitive(self.keys()[j], self.keys()[mid as int], key@);
                    }
                }
                lo = mid + 1;
            } else if text_lt(key, probe) {
                assert forall|j: int| mid <= j < self.keys().len() implies lex_lt(
                    key@,
                    #[trigger] self.keys()[j],
                ) by {
                    if mid < j {
                        lemma_lex_lt_transitive(key@, self.keys()[mid as int], self.keys()[j]);
                    }
                }
                hi = mid;
            } else {
                proof {
                    lemma_lex_lt_total(probe@, key@);
                }
                return Ok(mid);
            }
        }
        proof {
            if self.contains_key(key@) {
                let j = self.rank(key@);
                lemma_lex_lt_irreflexive(key@);
                assert(lex_lt(self.keys()[j], key@) || lex_lt(key@, self.keys()[j]));
            }
        }
        Err(lo)
    }

    /// The value under `key`, if the table holds one.
    pub fn get(&self, key: &str) -> (r: Option<&V>)
        requires
            self.wf(),
        ensures
            match r {
                Some(value) => self@.contains_key(key@) && *value == self@[key@],
                None => !self@.contains_key(key@),
            },
    {
        match self.search(key) {
            Ok(i) => {
                proof {
                    self.lemma_rank(i as int);
                }
                Some(&self.values[i])
            },
            Err(_) => None,
        }
    }

    /// Puts `value` under `key`; a value that stood there before is replaced.
    pub fn insert(&mut self, key: String, value: V)
        requires
            old(self).wf(),
        ensures
            final(self).wf(),
            final(self)@ == old(self)@.insert(key@, value),
            final(self).keys().to_set() == old(self).keys().to_set().insert(key@),
    {
        let ghost before = *self;
        match self.search(key.as_str()) {
            Ok(i) => {
                self.values.set(i, value);
                proof {
                    assert(self.keys() == before.keys());
                    assert forall|k: Seq<char>| #[trigger] self@.contains_key(k) implies self@[k]
                        == before@.insert(key@, value)[k] by {
                        before.lemma_rank(i as int);
                        self.lemma_rank(i as int);
                    }
                    assert(self@ =~= before@.insert(key@, value));
                    assert(self.keys().to_set() =~= before.keys().to_set().insert(key@));
                }
            },
            Err(i) => {
                self.keys.insert(i, key);
                self.values.insert(i, value);
                proof {
                    assert(self.keys() =~= before.keys().insert(i as int, key@));
                    assert(self.values() == before.values().insert(i as int, value));
                    assert forall|a: int, b: int| 0 <= a < b < self.keys().len() implies lex_lt(
                        #[trigger] self.keys()[a],
                        #[trigger] self.keys()[b],
                    ) by {
                        let pa = if a < i { a } else { a - 1 };
                        let pb = if b < i { b } else { b - 1 };
                        if a != i && b != i {
                            assert(lex_lt(before.keys()[pa], before.keys()[pb]));
                        } else if a == i {
                            assert(lex_lt(key@, before.keys()[pb]));
                        } else {
                            assert(lex_lt(before.keys()[pa], key@));
                        }
                    }
                    assert forall|k: Seq<char>| self@.contains_key(k) <==> before@.insert(
                        key@,
                        value,
                    ).contains_key(k) by {
                        if self.keys().contains(k) {
                            let a = self.rank(k);
                            if a != i {
                                let pa = if a < i { a } else { a - 1 };
                                assert(before.keys()[pa] == k);
                            }
                        }
                        if before.keys().contains(k) {
                            let p = before.rank(k);
                            let a = if p < i { p } else { p + 1 };
                            assert(self.keys()[a] == k);
                        }
                        if k == key@ {
                            assert(self.keys()[i as int] == k);
                        }
                    }
                    assert forall|k: Seq<char>| #[trigger] self@.contains_key(k) implies self@[k]
                        == before@.insert(key@, value)[k] by {
                        let a = self.rank(k);
                        self.lemma_rank(a);
                        if a != i {
                            let pa = if a < i { a } else { a - 1 };
                            assert(before.keys()[pa] == k);
                            before.lemma_rank(pa);
                        }
                    }
                    assert(self@ =~= before@.insert(key@, value));
                    assert(self.keys().to_set() =~= before.keys().to_set().insert(key@)) by {
                        assert forall|k: Seq<char>| self.keys().contains(k) <==> (k == key@
                            || before.keys().contains(k)) by {
                            assert(self@.contains_key(k) <==> before@.insert(key@, value).contains_key(k));
                        }
                    }
                }
            },
        }
    }
}

} // verus!
