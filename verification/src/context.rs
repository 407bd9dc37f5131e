//! Deciding whether two expressions are equivalent, with the truth tables
//! that were computed on the way kept for the next question.

use vstd::prelude::*;

verus! {

use crate::formula::Formula;
use crate::rewrite::equivalent;
use crate::truth::{enumerable, truth_table, TableModel};
use crate::{Instruction, Table};

/// The truth tables of the expressions that were asked about so far.
#[derive(Debug)]
pub struct Context {
    cache: Vec<(Instruction, Table)>,
}

/// The formulas of the entries of a cache.
pub open spec fn cache_keys(cache: Seq<(Instruction, Table)>) -> Seq<Formula> {
    cache.map_values(|e: (Instruction, Table)| e.0@)
}

impl View for Context {
    type V = Map<Formula, TableModel>;

    /// The cache as a map from each formula in it to the table kept for it.
    closed spec fn view(&self) -> Map<Formula, TableModel> {
        let keys = cache_keys(self.cache@);
        Map::new(|f: Formula| keys.contains(f), |f: Formula| self.cache@[keys.index_of(f)].1@)
    }
}

impl Default for Context {
    /// A cache that holds nothing.
    fn default() -> (out: Self)
        ensures
            out.wf(),
            out@ == Map::<Formula, TableModel>::empty(),
    {
        let out = Self { cache: Vec::new() };
        proof {
            assert(out@ =~= Map::<Formula, TableModel>::empty());
        }
        out
    }
}

impl Context {
    /// Every table in the cache is the truth table of its formula.
    pub closed spec fn wf(&self) -> bool {
        forall|i: int|
            0 <= i < self.cache@.len() ==> (#[trigger] self.cache@[i]).1@ == truth_table(self.cache@[i].0@)
    }

    /// What a cache in good order holds for a formula is its truth table.
    pub proof fn lemma_cached(&self)
        requires
            self.wf(),
        ensures
            forall|f: Formula| self@.dom().contains(f) ==> #[trigger] self@[f] == truth_table(f),
    {
        self.lemma_view();
    }

    proof fn lemma_view(&self)
        requires
            self.wf(),
        ensures
            forall|f: Formula| self@.dom().contains(f) ==> #[trigger] self@[f] == truth_table(f),
            self@.dom() == cache_keys(self.cache@).to_set(),
    {
        let keys = cache_keys(self.cache@);
        assert forall|f: Formula| self@.dom().contains(f) implies #[trigger] self@[f] == truth_table(f) by {
            let i = keys.index_of(f);
            assert(keys[i] == f);
            assert(self.cache@[i].1@ == truth_table(self.cache@[i].0@));
        }
        assert(self@.dom() =~= keys.to_set());
    }

    /// Where the table of `key` is kept, if it is.
    fn position(&self, key: &Instruction) -> (out: Option<usize>)
        ensures
            match out {
                Some(i) => i < self.cache@.len() && self.cache@[i as int].0@ == key@,
                None => !self@.dom().contains(key@),
            },
    {
        let mut i: usize = 0;
        while i < self.cache.len()
            invariant
                i <= self.cache@.len(),
                forall|j: int| 0 <= j < i ==> (#[trigger] self.cache@[j]).0@ != key@,
            decreases self.cache@.len() - i,
        {
            if self.cache[i].0 == *key {
                return Some(i);
            }
            i += 1;
        }
        proof {
            let keys = cache_keys(self.cache@);
            if keys.contains(key@) {
                let j = keys.index_of(key@);
                assert(self.cache@[j].0@ == key@);
            }
        }
        None
    }

    /// Where the table of `key` is kept, after computing it if it was not.
    fn ensure(&mut self, key: &Instruction) -> (out: usize)
        requires
            old(self).wf(),
            enumerable(key@),
        ensures
            final(self).wf(),
            final(self)@ == old(self)@.insert(key@, truth_table(key@)),
            out < final(self).cache@.len(),
            final(self).cache@[out as int].0@ == key@,
            forall|j: int| 0 <= j < old(self).cache@.len() ==> final(self).cache@[j] == old(self).cache@[j],
            old(self).cache@.len() <= final(self).cache@.len(),
    {
        proof {
            old(self).lemma_view();
        }
        match self.position(key) {
            Some(i) => {
                proof {
                    let keys = cache_keys(self.cache@);
                    assert(keys[i as int] == key@);
                    assert(self@ =~= old(self)@.insert(key@, truth_table(key@)));
                }
                i
            },
            None => {
                let table = key.evaluate().unwrap();
                self.cache.push((key.clone(), table));
                proof {
                    let had = cache_keys(old(self).cache@);
                    let keys = cache_keys(self.cache@);
                    assert(keys =~= had.push(key@));
                    assert(self.wf());
                    self.lemma_view();
                    assert(self@ =~= old(self)@.insert(key@, truth_table(key@))) by {
                        assert forall|f: Formula| keys.contains(f) == (had.contains(f) || f == key@) by {
                            if had.contains(f) {
                                let j = had.index_of(f);
                                assert(keys[j] == f);
                            }
                            if f == key@ {
                                assert(keys[had.len() as int] == f);
                            }
                        }
                    }
                }
                self.cache.len() - 1
            },
        }
    }

    /// Whether `a` and `b` are equivalent: whether they have one truth
    /// table. The tables of both are in the cache afterwards.
    pub fn check_equivalence(&mut self, a: &Instruction, b: &Instruction) -> (r: bool)
        requires
            old(self).wf(),
            enumerable(a@),
            enumerable(b@),
        ensures
            final(self).wf(),
            r == equivalent(a@, b@),
            final(self)@ == old(self)@.insert(a@, truth_table(a@)).insert(b@, truth_table(b@)),
    {
        let i = self.ensure(a);
        let j = self.ensure(b);
        let a = &self.cache[i].1;
        let b = &self.cache[j].1;
        *a == *b
    }
}

} // verus!
