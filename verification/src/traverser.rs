//! Walking an expression: the names in it, the assignments to them, and the
//! value of the expression under each.

use permutator::Combination;
use vstd::prelude::*;

verus! {

use crate::formula::Formula;
use crate::order::{
    dedup, key_order, keys, lemma_strictly_ascending_unique, sort, strictly_ascending, Sortable,
};
use crate::truth::{
    count_true, enumerable, evaluation_of, evaluations, factorial, is_selection, lemma_pick_members,
    lemma_pick_nothing, lemma_selections, lemma_selections_are, lemma_variables, lemma_variables_are, pick,
    selections, variables,
};
use crate::{entry_models, evaluation_models, Evaluation, Instruction};

/// The names at the leaves of the formulas of `stack`, those of the last
/// formula first.
pub open spec fn pending_names(stack: Seq<Formula>) -> Seq<Seq<char>>
    decreases stack.len(),
{
    if stack.len() == 0 {
        Seq::empty()
    } else {
        stack.last().occurrences() + pending_names(stack.drop_last())
    }
}

/// The number of nodes of the formulas of `stack`.
pub open spec fn pending_size(stack: Seq<Formula>) -> nat
    decreases stack.len(),
{
    if stack.len() == 0 {
        0
    } else {
        stack.last().size() + pending_size(stack.drop_last())
    }
}

/// The formulas of a stack of expressions.
pub open spec fn formulas(stack: Seq<&Instruction>) -> Seq<Formula> {
    stack.map_values(|i: &Instruction| i@)
}

proof fn lemma_pending_push(stack: Seq<Formula>, top: Formula)
    ensures
        pending_names(stack.push(top)) == top.occurrences() + pending_names(stack),
        pending_size(stack.push(top)) == top.size() + pending_size(stack),
{
    assert(stack.push(top).drop_last() =~= stack);
}

const STACK_SIZE: usize = 20;

/// Whether `part` holds `k` of `items`, in their order in `items`.
pub open spec fn is_selection_of(part: Seq<Seq<char>>, items: Seq<Seq<char>>, k: nat) -> bool {
    exists|mask: Seq<bool>|
        mask.len() == items.len() && count_true(mask) == k && part == #[trigger] pick(items, mask)
}

/// The selections of `k` of `names`.
///
/// This is `permutator`'s `Combination::combination` on a vector, collected.
/// Not proved, but taken from that crate: every vector that comes back holds
/// `k` of the names, in the order that they have in `names`, and every such
/// selection comes back. Nothing is claimed of the order in which they come,
/// nor whether one comes twice. The outside function panics on a `k` of 0 or
/// above the number of names, and it computes the number of selections with
/// factorials in `usize`: so `k` is to be within those bounds, and the
/// factorial of the number of names is to fit.
#[verifier::external_body]
fn combinations_of<'a>(names: &Vec<&'a str>, k: usize) -> (out: Vec<Vec<&'a str>>)
    requires
        1 <= k <= names@.len(),
        factorial(names@.len()) <= usize::MAX,
    ensures
        forall|p: int| 0 <= p < out@.len() ==> is_selection_of(#[trigger] keys(out@)[p], keys(names@), k as nat),
        forall|mask: Seq<bool>|
            mask.len() == names@.len() && count_true(mask) == k ==> keys(out@).contains(
                #[trigger] pick(keys(names@), mask),
            ),
{
    names.combination(k).map(|c| c.into_iter().map(|name| *name).collect()).collect()
}

/// Yields the names at the leaves of an expression, one per leaf.
///
/// The work still to do is kept on a stack of subtrees, so that a deep tree
/// costs no call depth.
pub struct Arguments<'a> {
    stack: Vec<&'a Instruction>,
}

impl<'a> Arguments<'a> {
    /// The names that `next` has yet to yield, in the order in which it
    /// yields them.
    pub closed spec fn pending(&self) -> Seq<Seq<char>> {
        pending_names(formulas(self.stack@))
    }

    /// Starts at the root of `current`.
    pub fn from(current: &'a Instruction) -> (out: Self)
        ensures
            out.pending() == current@.occurrences(),
    {
        let mut stack = Vec::with_capacity(STACK_SIZE);
        stack.push(current);
        proof {
            assert(formulas(stack@) =~= Seq::<Formula>::empty().push(current@));
            lemma_pending_push(Seq::empty(), current@);
            assert(pending_names(formulas(stack@)) =~= current@.occurrences());
        }
        Self { stack }
    }

    /// The names that are yet to come, in the order in which they come.
    fn collect(self) -> (out: Vec<&'a str>)
        ensures
            keys(out@) == self.pending(),
    {
        let ghost all = self.pending();
        let mut args = self;
        let mut out: Vec<&'a str> = Vec::new();
        loop
            invariant
                keys(out@) + args.pending() == all,
            ensures
                keys(out@) == all,
            decreases args.pending().len(),
        {
            let ghost got = keys(out@);
            match args.next() {
                Some(name) => {
                    out.push(name);
                    proof {
                        assert(keys(out@) =~= got.push(name@));
                        assert(keys(out@) + args.pending() =~= all);
                    }
                },
                None => {
                    proof {
                        assert(keys(out@) =~= all);
                    }
                    break;
                },
            }
        }
        out
    }

    /// The names of `instruction`, each once, in order.
    pub fn names(instruction: &'a Instruction) -> (out: Vec<&'a str>)
        ensures
            keys(out@) == variables(instruction@),
    {
        let found = Self::from(instruction).collect();
        let sorted = sort(found);
        proof {
            crate::order::lemma_key_order_total::<&'a str>();
            keys(found@).lemma_sort_by_ensures(key_order::<&'a str>());
        }
        let out = dedup(sorted);
        proof {
            broadcast use vstd::seq_lib::group_to_multiset_ensures;
            crate::formula::lemma_free_vars(instruction@);
            assert(keys(out@).to_set() =~= instruction@.free_vars()) by {
                assert forall|n: Seq<char>| keys(sorted@).contains(n) == keys(found@).contains(n) by {
                    assert(keys(sorted@).to_multiset().count(n) == keys(found@).to_multiset().count(n));
                }
                assert(keys(sorted@).to_set() =~= keys(found@).to_set());
            }
            lemma_variables_are(instruction@, keys(out@));
        }
        out
    }

    /// Every selection of the names of `instruction`, in order: each
    /// selection holds some of the names, in their order, and stands for the
    /// assignment that makes exactly those true.
    pub fn combinations(instruction: &'a Instruction) -> (out: Vec<Vec<&'a str>>)
        requires
            enumerable(instruction@),
        ensures
            keys(out@) == selections(variables(instruction@)),
    {
        let names = Self::names(instruction);
        let ghost vars = keys(names@);
        let mut all: Vec<Vec<&'a str>> = Vec::new();
        all.push(Vec::new());
        proof {
            lemma_variables(instruction@);
            let none = Seq::new(vars.len(), |j: int| false);
            lemma_pick_nothing(vars);
            assert(keys(all@)[0] =~= pick(vars, none));
            assert forall|mask: Seq<bool>| mask.len() == vars.len() && count_true(mask) == 0 implies keys(
                all@,
            ).contains(#[trigger] pick(vars, mask)) by {
                lemma_pick_members(vars, mask);
                assert(keys(all@)[0] =~= pick(vars, mask));
            }
        }
        let mut size: usize = 0;
        while size < names.len()
            invariant
                size <= names.len(),
                vars == keys(names@),
                factorial(vars.len()) <= usize::MAX,
                forall|p: int| 0 <= p < all@.len() ==> is_selection(#[trigger] keys(all@)[p], vars),
                forall|mask: Seq<bool>|
                    mask.len() == vars.len() && count_true(mask) <= size ==> keys(all@).contains(
                        #[trigger] pick(vars, mask),
                    ),
            decreases names.len() - size,
        {
            size += 1;
            let ghost had = keys(all@);
            let mut more = combinations_of(&names, size);
            let ghost new = keys(more@);
            all.append(&mut more);
            proof {
                assert(keys(all@) =~= had + new);
                assert forall|p: int| 0 <= p < all@.len() implies is_selection(#[trigger] keys(all@)[p], vars) by {
                    if p >= had.len() {
                        assert(is_selection_of(new[p - had.len()], vars, size as nat));
                    } else {
                        assert(is_selection(had[p], vars));
                    }
                }
                assert forall|mask: Seq<bool>| mask.len() == vars.len() && count_true(mask) <= size implies keys(
                    all@,
                ).contains(#[trigger] pick(vars, mask)) by {
                    let part = pick(vars, mask);
                    if count_true(mask) == size {
                        assert(new.contains(part));
                        let p = choose|p: int| 0 <= p < new.len() && new[p] == part;
                        assert(keys(all@)[had.len() + p] == part);
                    } else {
                        assert(had.contains(part));
                        let p = choose|p: int| 0 <= p < had.len() && had[p] == part;
                        assert(keys(all@)[p] == part);
                    }
                }
            }
        }
        let sorted = sort(all);
        proof {
            crate::order::lemma_key_order_total::<Vec<&'a str>>();
            keys(all@).lemma_sort_by_ensures(key_order::<Vec<&'a str>>());
        }
        let out = dedup(sorted);
        proof {
            broadcast use vstd::seq_lib::group_to_multiset_ensures;
            assert forall|part: Seq<Seq<char>>| keys(out@).contains(part) <==> is_selection(part, vars) by {
                assert(keys(out@).to_set().contains(part) == keys(sorted@).to_set().contains(part));
                assert(keys(sorted@).to_multiset().count(part) == keys(all@).to_multiset().count(part));
                if keys(all@).contains(part) {
                    let p = choose|p: int| 0 <= p < all@.len() && keys(all@)[p] == part;
                    assert(is_selection(keys(all@)[p], vars));
                }
                if is_selection(part, vars) {
                    let mask = choose|mask: Seq<bool>| mask.len() == vars.len() && part == #[trigger] pick(vars, mask);
                    lemma_pick_members(vars, mask);
                }
            }
            lemma_selections_are(vars, keys(out@));
        }
        out
    }

    /// The next name, or `None` when every leaf has been visited.
    pub fn next(&mut self) -> (out: Option<&'a str>)
        ensures
            match out {
                Some(name) => old(self).pending() == seq![name@] + final(self).pending(),
                None => old(self).pending().len() == 0 && final(self).pending().len() == 0,
            },
    {
        loop
            invariant
                self.pending() == old(self).pending(),
            decreases pending_size(formulas(self.stack@)),
        {
            let ghost before = formulas(self.stack@);
            let current = match self.stack.pop() {
                Some(c) => c,
                None => {
                    return None;
                },
            };
            let ghost rest = formulas(self.stack@);
            proof {
                assert(rest =~= before.drop_last());
                assert(before.last() == current@);
            }
            match current {
                Instruction::Argument(a) => {
                    return Some(a.as_str());
                },
                Instruction::True | Instruction::False => {},
                Instruction::Not(x) => {
                    self.stack.push(&**x);
                    proof {
                        assert(formulas(self.stack@) =~= rest.push(x@));
                        lemma_pending_push(rest, x@);
                    }
                },
                Instruction::And(l, r)
                | Instruction::Or(l, r)
                | Instruction::Xor(l, r)
                | Instruction::Conditional(l, r)
                | Instruction::Biconditional(l, r)
                | Instruction::Equals(l, r) => {
                    self.stack.push(&**l);
                    self.stack.push(&**r);
                    proof {
                        assert(formulas(self.stack@) =~= rest.push(l@).push(r@));
                        lemma_pending_push(rest, l@);
                        lemma_pending_push(rest.push(l@), r@);
                        assert(pending_names(formulas(self.stack@)) =~= current@.occurrences()
                            + pending_names(rest));
                    }
                },
            }
        }
    }
}

/// The names of a sequence of entries.
pub open spec fn entry_names(entries: Seq<(&str, bool)>) -> Seq<Seq<char>> {
    entries.map_values(|e: (&str, bool)| e.0@)
}

/// The truth values of a sequence of entries.
pub open spec fn entry_flags(entries: Seq<(&str, bool)>) -> Seq<bool> {
    entries.map_values(|e: (&str, bool)| e.1)
}

/// An assignment: a truth value for each of a set of names.
///
/// The entries are kept in the order of their names, no name twice.
pub struct Context<'a> {
    values: Vec<(&'a str, bool)>,
}

impl<'a> View for Context<'a> {
    type V = Map<Seq<char>, bool>;

    /// The assignment as a map from each name to its truth value.
    closed spec fn view(&self) -> Map<Seq<char>, bool> {
        let names = entry_names(self.values@);
        let flags = entry_flags(self.values@);
        Map::new(|n: Seq<char>| names.contains(n), |n: Seq<char>| flags[names.index_of(n)])
    }
}

/// The names that an assignment makes true.
pub open spec fn truths(assignment: Map<Seq<char>, bool>) -> Set<Seq<char>> {
    Set::new(|n: Seq<char>| assignment.dom().contains(n) && assignment[n])
}

impl<'a> Context<'a> {
    /// The entries are in the order of their names, and no name occurs twice.
    pub closed spec fn wf(&self) -> bool {
        strictly_ascending::<&'static str>(entry_names(self.values@))
    }

    proof fn lemma_view(&self)
        requires
            self.wf(),
        ensures
            self@.dom() == entry_names(self.values@).to_set(),
            self@.dom().finite(),
            forall|i: int| 0 <= i < self.values@.len() ==> self@[#[trigger] self.values@[i].0@] == self.values@[i].1,
    {
        broadcast use vstd::seq_lib::seq_to_set_is_finite;
        let names = entry_names(self.values@);
        assert(self@.dom() =~= names.to_set());
        assert forall|i: int| 0 <= i < self.values@.len() implies self@[#[trigger] self.values@[i].0@]
            == self.values@[i].1 by {
            let n = names[i];
            assert(names.contains(n));
            let j = names.index_of(n);
            assert(0 <= j < names.len() && names[j] == n);
        }
    }

    /// Where `name` is among the entries, or where it would have to go.
    fn find(&self, name: &str) -> (out: (usize, bool))
        requires
            self.wf(),
        ensures
            out.0 <= self.values@.len(),
            out.1 ==> out.0 < self.values@.len() && self.values@[out.0 as int].0@ == name@,
            out.1 == self@.dom().contains(name@),
            forall|j: int|
                0 <= j < out.0 ==> !<&str as Sortable>::key_le(name@, #[trigger] self.values@[j].0@),
            forall|j: int|
                out.0 <= j < self.values@.len() ==> <&str as Sortable>::key_le(
                    name@,
                    #[trigger] self.values@[j].0@,
                ),
    {
        let ghost names = entry_names(self.values@);
        let mut i: usize = 0;
        while i < self.values.len()
            invariant
                i <= self.values@.len(),
                names == entry_names(self.values@),
                self.wf(),
                forall|j: int| 0 <= j < i ==> !<&str as Sortable>::key_le(name@, #[trigger] self.values@[j].0@),
            decreases self.values@.len() - i,
        {
            if name.not_after(&self.values[i].0) {
                let found = self.values[i].0.not_after(&name);
                proof {
                    <&str as Sortable>::lemma_key_le_total();
                    self.lemma_view();
                    let le = key_order::<&'static str>();
                    assert forall|j: int| i <= j < self.values@.len() implies <&str as Sortable>::key_le(
                        name@,
                        #[trigger] self.values@[j].0@,
                    ) by {
                        if i < j {
                            assert(le(names[i as int], names[j]));
                        }
                    }
                    if found {
                        assert(names[i as int] == name@);
                        assert(names.contains(name@));
                    } else if names.contains(name@) {
                        let j = names.index_of(name@);
                        assert(names[j] == name@);
                        assert(self.values@[j].0@ == name@);
                        assert(<&str as Sortable>::key_le(name@, name@));
                        if i < j {
                            assert(le(names[i as int], names[j]));
                        }
                    }
                }
                return (i, found);
            }
            i += 1;
        }
        proof {
            <&str as Sortable>::lemma_key_le_total();
            if names.contains(name@) {
                let j = names.index_of(name@);
                assert(self.values@[j].0@ == name@);
            }
        }
        (i, false)
    }

    /// The assignment that makes each of the names still to come from `args`
    /// false.
    pub fn from_iter(args: Arguments<'a>) -> (out: Self)
        ensures
            out.wf(),
            out@ == Map::new(|n: Seq<char>| args.pending().contains(n), |n: Seq<char>| false),
    {
        let found = args.collect();
        let sorted = sort(found);
        proof {
            crate::order::lemma_key_order_total::<&'a str>();
            keys(found@).lemma_sort_by_ensures(key_order::<&'a str>());
        }
        let names = dedup(sorted);
        let mut values: Vec<(&'a str, bool)> = Vec::new();
        let mut i: usize = 0;
        while i < names.len()
            invariant
                i <= names.len(),
                values@.len() == i,
                forall|j: int| 0 <= j < i ==> (#[trigger] values@[j]).0@ == names@[j]@ && !values@[j].1,
            decreases names.len() - i,
        {
            values.push((names[i], false));
            i += 1;
        }
        let out = Self { values };
        proof {
            broadcast use vstd::seq_lib::group_to_multiset_ensures;
            assert(entry_names(out.values@) =~= keys(names@));
            out.lemma_view();
            assert forall|n: Seq<char>| keys(names@).contains(n) == args.pending().contains(n) by {
                assert(keys(names@).to_set().contains(n) == keys(sorted@).to_set().contains(n));
                assert(keys(sorted@).to_multiset().count(n) == keys(found@).to_multiset().count(n));
            }
            assert(out@ =~= Map::new(|n: Seq<char>| args.pending().contains(n), |n: Seq<char>| false)) by {
                assert forall|n: Seq<char>| out@.dom().contains(n) implies !out@[n] by {
                    let j = entry_names(out.values@).index_of(n);
                    assert(out.values@[j].0@ == n);
                }
            }
        }
        out
    }

    /// Makes every name false.
    pub fn reset_to_false(&mut self)
        requires
            old(self).wf(),
        ensures
            final(self).wf(),
            final(self)@ == Map::new(|n: Seq<char>| old(self)@.dom().contains(n), |n: Seq<char>| false),
    {
        let ghost names = entry_names(self.values@);
        let mut i: usize = 0;
        while i < self.values.len()
            invariant
                i <= self.values@.len(),
                entry_names(self.values@) == names,
                forall|j: int| 0 <= j < i ==> !(#[trigger] self.values@[j]).1,
            decreases self.values@.len() - i,
        {
            let name = self.values[i].0;
            self.values.set(i, (name, false));
            proof {
                assert(entry_names(self.values@) =~= names);
            }
            i += 1;
        }
        proof {
            old(self).lemma_view();
            self.lemma_view();
            assert(self@ =~= Map::new(|n: Seq<char>| old(self)@.dom().contains(n), |n: Seq<char>| false)) by {
                assert forall|n: Seq<char>| self@.dom().contains(n) implies !self@[n] by {
                    let j = names.index_of(n);
                    assert(self.values@[j].0@ == n);
                }
            }
        }
    }

    /// Gives `name` the truth value `value`, and returns the one it had.
    pub fn insert(&mut self, name: &'a str, value: bool) -> (out: Option<bool>)
        requires
            old(self).wf(),
        ensures
            final(self).wf(),
            final(self)@ == old(self)@.insert(name@, value),
            out == if old(self)@.dom().contains(name@) {
                Some(old(self)@[name@])
            } else {
                None::<bool>
            },
    {
        let ghost names = entry_names(self.values@);
        let (i, found) = self.find(name);
        proof {
            old(self).lemma_view();
        }
        if found {
            let had = self.values[i].1;
            let kept = self.values[i].0;
            self.values.set(i, (kept, value));
            proof {
                assert(entry_names(self.values@) =~= names);
                self.lemma_view();
                assert(self@ =~= old(self)@.insert(name@, value)) by {
                    assert forall|n: Seq<char>| self@.dom().contains(n) implies self@[n] == old(self)@.insert(
                        name@,
                        value,
                    )[n] by {
                        let j = names.index_of(n);
                        assert(names[j] == n && names[i as int] == name@);
                        assert(self.values@[j].0@ == n);
                        assert(old(self).values@[j].0@ == n);
                    }
                }
            }
            Some(had)
        } else {
            self.values.insert(i, (name, value));
            proof {
                <&str as Sortable>::lemma_key_le_total();
                let le = key_order::<&'static str>();
                let now = entry_names(self.values@);
                assert(now =~= names.insert(i as int, name@));
                assert forall|a: int, b: int| 0 <= a < b < now.len() implies #[trigger] le(now[a], now[b]) by {
                    if b < i {
                        assert(le(names[a], names[b]));
                    } else if b == i {
                        assert(!<&str as Sortable>::key_le(name@, old(self).values@[a].0@));
                    } else if a < i {
                        assert(le(names[a], names[b - 1]));
                    } else if a == i {
                        assert(<&str as Sortable>::key_le(name@, old(self).values@[b - 1].0@));
                    } else {
                        assert(le(names[a - 1], names[b - 1]));
                    }
                }
                assert forall|a: int, b: int| 0 <= a < now.len() && 0 <= b < now.len() && a != b implies now[a]
                    != now[b] by {
                    let pa = if a < i { a } else { a - 1 };
                    let pb = if b < i { b } else { b - 1 };
                    if a == i {
                        assert(names[pb] == now[b]);
                        assert(names.contains(now[b]));
                    } else if b == i {
                        assert(names[pa] == now[a]);
                        assert(names.contains(now[a]));
                    } else {
                        assert(names[pa] == now[a] && names[pb] == now[b]);
                    }
                }
                self.lemma_view();
                assert(self@ =~= old(self)@.insert(name@, value)) by {
                    assert forall|n: Seq<char>| now.contains(n) == (names.contains(n) || n == name@) by {
                        if now.contains(n) {
                            let j = now.index_of(n);
                            if j < i {
                                assert(names[j] == n);
                            } else if j > i {
                                assert(names[j - 1] == n);
                            }
                        }
                        if names.contains(n) {
                            let j = names.index_of(n);
                            if j < i {
                                assert(now[j] == n);
                            } else {
                                assert(now[j + 1] == n);
                            }
                        }
                        if n == name@ {
                            assert(now[i as int] == n);
                        }
                    }
                    assert forall|n: Seq<char>| self@.dom().contains(n) implies self@[n] == old(self)@.insert(
                        name@,
                        value,
                    )[n] by {
                        let j = now.index_of(n);
                        assert(self.values@[j].0@ == n);
                        assert(!names.contains(name@));
                        if j < i {
                            assert(old(self).values@[j].0@ == n);
                            assert(names[j] == n);
                        } else if j > i {
                            assert(old(self).values@[j - 1].0@ == n);
                            assert(names[j - 1] == n);
                        }
                    }
                }
            }
            None
        }
    }

    /// The entries, in the order of their names.
    pub fn entries(&self) -> (out: Vec<(&'a str, bool)>)
        requires
            self.wf(),
        ensures
            strictly_ascending::<&'static str>(entry_names(out@)),
            entry_names(out@).to_set() == self@.dom(),
            forall|i: int| 0 <= i < out@.len() ==> self@[#[trigger] out@[i].0@] == out@[i].1,
    {
        let mut out: Vec<(&'a str, bool)> = Vec::new();
        let mut i: usize = 0;
        while i < self.values.len()
            invariant
                i <= self.values@.len(),
                out@ == self.values@.subrange(0, i as int),
            decreases self.values@.len() - i,
        {
            let entry = self.values[i];
            out.push(entry);
            proof {
                assert(out@ =~= self.values@.subrange(0, i + 1));
            }
            i += 1;
        }
        proof {
            assert(out@ =~= self.values@);
            self.lemma_view();
        }
        out
    }

    /// The truth value of `name`, where it has one.
    pub fn get(&self, name: &str) -> (out: Option<bool>)
        requires
            self.wf(),
        ensures
            out == if self@.dom().contains(name@) {
                Some(self@[name@])
            } else {
                None::<bool>
            },
    {
        let (i, found) = self.find(name);
        if found {
            proof {
                self.lemma_view();
            }
            Some(self.values[i].1)
        } else {
            None
        }
    }
}

/// Whether `out` reports `value`: the truth value, or the fault of a name
/// without one.
pub open spec fn reports(out: Result<bool, String>, value: Option<bool>) -> bool {
    match value {
        Some(b) => out == Ok::<bool, String>(b),
        None => out is Err && out->Err_0@ == "invalid evaluator context"@,
    }
}

/// Computes truth values of an expression.
pub struct Evaluator;

impl Evaluator {
    /// The evaluations of `instruction`, one per assignment to its names, in
    /// the order of the selections of names that are true.
    pub fn run<'a>(instruction: &'a Instruction) -> (out: Result<Vec<Evaluation<'a>>, String>)
        requires
            enumerable(instruction@),
        ensures
            out is Ok,
            evaluation_models(out->Ok_0@) == evaluations(instruction@),
    {
        let ghost f = instruction@;
        let ghost vars = variables(f);
        let ghost parts = selections(vars);
        let combinations = Arguments::combinations(instruction);
        let args = Arguments::from(instruction);
        let mut context = Context::from_iter(args);
        let mut found: Vec<Evaluation<'a>> = Vec::with_capacity(combinations.len());
        proof {
            crate::formula::lemma_free_vars(f);
            lemma_variables(f);
            lemma_selections(vars);
            context.lemma_view();
            assert(context@.dom() =~= f.free_vars());
            assert(evaluation_models(found@) =~= evaluations(f).subrange(0, 0));
        }
        let mut c: usize = 0;
        while c < combinations.len()
            invariant
                c <= combinations@.len(),
                f == instruction@,
                vars == variables(f),
                parts == selections(vars),
                keys(combinations@) == parts,
                vars.to_set() == f.free_vars(),
                strictly_ascending::<&'static str>(vars),
                forall|part: Seq<Seq<char>>| parts.contains(part) <==> is_selection(part, vars),
                context.wf(),
                context@.dom() == f.free_vars(),
                evaluation_models(found@) == evaluations(f).subrange(0, c as int),
            decreases combinations@.len() - c,
        {
            context.reset_to_false();
            let case = &combinations[c];
            let ghost part = keys(case@);
            proof {
                assert(part == parts[c as int]);
                assert(parts.contains(part));
                assert(is_selection(part, vars));
                let mask = choose|mask: Seq<bool>| mask.len() == vars.len() && part == #[trigger] pick(vars, mask);
                lemma_pick_members(vars, mask);
                assert forall|n: Seq<char>| part.contains(n) implies f.free_vars().contains(n) by {
                    let j = choose|j: int| 0 <= j < vars.len() && mask[j] && #[trigger] vars[j] == n;
                    assert(vars.to_set().contains(n));
                }
                assert(context@ =~= Map::new(
                    |n: Seq<char>| f.free_vars().contains(n),
                    |n: Seq<char>| part.subrange(0, 0).contains(n),
                ));
            }
            let mut v: usize = 0;
            while v < case.len()
                invariant
                    v <= case@.len(),
                    part == keys(case@),
                    forall|n: Seq<char>| part.contains(n) ==> f.free_vars().contains(n),
                    context.wf(),
                    context@ == Map::new(
                        |n: Seq<char>| f.free_vars().contains(n),
                        |n: Seq<char>| part.subrange(0, v as int).contains(n),
                    ),
                decreases case@.len() - v,
            {
                proof {
                    assert(part[v as int] == case@[v as int]@);
                    assert(part.contains(case@[v as int]@));
                }
                match context.insert(case[v], true) {
                    Some(_) => {},
                    None => {
                        return Err("the combination provided an invalid argument!".to_owned());
                    },
                }
                proof {
                    let name = case@[v as int]@;
                    assert(context@ =~= Map::new(
                        |n: Seq<char>| f.free_vars().contains(n),
                        |n: Seq<char>| part.subrange(0, v + 1).contains(n),
                    )) by {
                        assert(part.subrange(0, v + 1) =~= part.subrange(0, v as int).push(name));
                        assert forall|n: Seq<char>| part.subrange(0, v + 1).contains(n) == (part.subrange(
                            0,
                            v as int,
                        ).contains(n) || n == name) by {
                            if part.subrange(0, v as int).contains(n) {
                                let j = choose|j: int| 0 <= j < v && part.subrange(0, v as int)[j] == n;
                                assert(part.subrange(0, v + 1)[j] == n);
                            }
                            if n == name {
                                assert(part.subrange(0, v + 1)[v as int] == n);
                            }
                        }
                    }
                }
                v += 1;
            }
            proof {
                assert(part.subrange(0, v as int) =~= part);
                assert(context@.dom() =~= f.free_vars());
                crate::formula::lemma_value_in_known(f, context@.dom(), truths(context@));
                assert(truths(context@) =~= part.to_set());
            }
            let result = match Self::run_with_context(instruction, &context) {
                Ok(result) => result,
                Err(fault) => {
                    return Err(fault);
                },
            };
            let values = context.entries();
            let ghost done = evaluation_models(found@);
            let evaluation = Evaluation::new(values, result);
            proof {
                lemma_strictly_ascending_unique::<&'static str>(entry_names(values@), vars);
                assert(entry_models(values@) =~= evaluation_of(f, vars, part).values) by {
                    assert forall|i: int| 0 <= i < values@.len() implies entry_models(values@)[i] == (
                        vars[i],
                        part.contains(vars[i]),
                    ) by {
                        assert(entry_names(values@)[i] == values@[i].0@);
                        assert(context@[values@[i].0@] == values@[i].1);
                        assert(vars.to_set().contains(vars[i]));
                    }
                }
                assert(evaluation@ == evaluation_of(f, vars, part));
            }
            found.push(evaluation);
            proof {
                assert(evaluation_models(found@) =~= done.push(evaluation@));
                assert(evaluations(f).subrange(0, c + 1) =~= evaluations(f).subrange(0, c as int).push(
                    evaluations(f)[c as int],
                ));
            }
            c += 1;
        }
        proof {
            assert(evaluations(f).subrange(0, c as int) =~= evaluations(f));
        }
        Ok(found)
    }

    /// The truth value of `instruction` under `context`.
    ///
    /// Fails when a name that the evaluation reaches has no value in
    /// `context`.
    pub fn run_with_context<'a>(instruction: &'a Instruction, context: &'a Context<'a>) -> (out: Result<
        bool,
        String,
    >)
        requires
            context.wf(),
        ensures
            reports(out, instruction@.value_in(context@.dom(), truths(context@))),
        decreases instruction,
    {
        match instruction {
            Instruction::True => Ok(true),
            Instruction::False => Ok(false),
            Instruction::Argument(arg) => match context.get(arg.as_str()) {
                Some(value) => Ok(value),
                None => Err("invalid evaluator context".to_owned()),
            },
            Instruction::Not(x) => match Self::run_with_context(x, context) {
                Ok(value) => Ok(!value),
                Err(fault) => Err(fault),
            },
            Instruction::And(l, r) => match Self::run_with_context(l, context) {
                Ok(true) => Self::run_with_context(r, context),
                other => other,
            },
            Instruction::Or(l, r) => match Self::run_with_context(l, context) {
                Ok(false) => Self::run_with_context(r, context),
                other => other,
            },
            Instruction::Xor(l, r) => {
                let l = match Self::run_with_context(l, context) {
                    Ok(value) => value,
                    Err(fault) => {
                        return Err(fault);
                    },
                };
                match Self::run_with_context(r, context) {
                    Ok(r) => Ok(l ^ r),
                    Err(fault) => Err(fault),
                }
            },
            Instruction::Conditional(l, r) => match Self::run_with_context(l, context) {
                Ok(true) => Self::run_with_context(r, context),
                Ok(false) => Ok(true),
                Err(fault) => Err(fault),
            },
            Instruction::Biconditional(l, r) | Instruction::Equals(l, r) => {
                let l = match Self::run_with_context(l, context) {
                    Ok(value) => value,
                    Err(fault) => {
                        return Err(fault);
                    },
                };
                match Self::run_with_context(r, context) {
                    Ok(r) => Ok(l == r),
                    Err(fault) => Err(fault),
                }
            },
        }
    }
}

} // verus!
