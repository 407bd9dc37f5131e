//! Propositional formulas as mathematical values, and what they mean.

use vstd::prelude::*;

verus! {

/// A propositional formula. Names are sequences of characters.
pub enum Formula {
    True,
    False,
    Var(Seq<char>),
    Not(Box<Formula>),
    And(Box<Formula>, Box<Formula>),
    Or(Box<Formula>, Box<Formula>),
    Xor(Box<Formula>, Box<Formula>),
    Implies(Box<Formula>, Box<Formula>),
    Iff(Box<Formula>, Box<Formula>),
    Equals(Box<Formula>, Box<Formula>),
}

/// The negation of `x`.
pub open spec fn not(x: Formula) -> Formula {
    Formula::Not(Box::new(x))
}

/// The conjunction of `l` and `r`.
pub open spec fn and(l: Formula, r: Formula) -> Formula {
    Formula::And(Box::new(l), Box::new(r))
}

/// The disjunction of `l` and `r`.
pub open spec fn or(l: Formula, r: Formula) -> Formula {
    Formula::Or(Box::new(l), Box::new(r))
}

/// The exclusive or of `l` and `r`.
pub open spec fn xor(l: Formula, r: Formula) -> Formula {
    Formula::Xor(Box::new(l), Box::new(r))
}

/// The implication from `l` to `r`.
pub open spec fn implies(l: Formula, r: Formula) -> Formula {
    Formula::Implies(Box::new(l), Box::new(r))
}

/// The equivalence of `l` and `r`, written as a biconditional.
pub open spec fn iff(l: Formula, r: Formula) -> Formula {
    Formula::Iff(Box::new(l), Box::new(r))
}

/// The equivalence of `l` and `r`, written as an equality.
pub open spec fn equals(l: Formula, r: Formula) -> Formula {
    Formula::Equals(Box::new(l), Box::new(r))
}

impl Formula {
    /// The names that occur in the formula.
    pub open spec fn free_vars(self) -> Set<Seq<char>>
        decreases self,
    {
        match self {
            Formula::True | Formula::False => Set::empty(),
            Formula::Var(name) => set![name],
            Formula::Not(x) => x.free_vars(),
            Formula::And(l, r)
            | Formula::Or(l, r)
            | Formula::Xor(l, r)
            | Formula::Implies(l, r)
            | Formula::Iff(l, r)
            | Formula::Equals(l, r) => l.free_vars().union(r.free_vars()),
        }
    }

    /// The truth value of the formula where exactly the names in `truths`
    /// are true.
    pub open spec fn holds(self, truths: Set<Seq<char>>) -> bool
        decreases self,
    {
        match self {
            Formula::True => true,
            Formula::False => false,
            Formula::Var(name) => truths.contains(name),
            Formula::Not(x) => !x.holds(truths),
            Formula::And(l, r) => l.holds(truths) && r.holds(truths),
            Formula::Or(l, r) => l.holds(truths) || r.holds(truths),
            Formula::Xor(l, r) => l.holds(truths) != r.holds(truths),
            Formula::Implies(l, r) => l.holds(truths) ==> r.holds(truths),
            Formula::Iff(l, r) | Formula::Equals(l, r) => l.holds(truths) == r.holds(truths),
        }
    }

    /// The truth value of the formula where only the names in `known` have a
    /// value, and of those exactly the names in `truths` are true.
    ///
    /// Operands are taken from left to right, and the right operand of a
    /// conjunction, disjunction or implication is not looked at when the left
    /// one decides. `None` when a name that is looked at has no value.
    pub open spec fn value_in(self, known: Set<Seq<char>>, truths: Set<Seq<char>>) -> Option<bool>
        decreases self,
    {
        match self {
            Formula::True => Some(true),
            Formula::False => Some(false),
            Formula::Var(name) => if known.contains(name) {
                Some(truths.contains(name))
            } else {
                None
            },
            Formula::Not(x) => match x.value_in(known, truths) {
                Some(b) => Some(!b),
                None => None,
            },
            Formula::And(l, r) => match l.value_in(known, truths) {
                Some(true) => r.value_in(known, truths),
                other => other,
            },
            Formula::Or(l, r) => match l.value_in(known, truths) {
                Some(false) => r.value_in(known, truths),
                other => other,
            },
            Formula::Xor(l, r) => match (l.value_in(known, truths), r.value_in(known, truths)) {
                (Some(a), Some(b)) => Some(a != b),
                _ => None,
            },
            Formula::Implies(l, r) => match l.value_in(known, truths) {
                Some(true) => r.value_in(known, truths),
                Some(false) => Some(true),
                None => None,
            },
            Formula::Iff(l, r) | Formula::Equals(l, r) => match (
                l.value_in(known, truths),
                r.value_in(known, truths),
            ) {
                (Some(a), Some(b)) => Some(a == b),
                _ => None,
            },
        }
    }

    /// The names at the leaves of the formula, one per leaf, the leaves of a
    /// right operand before those of the left.
    pub open spec fn occurrences(self) -> Seq<Seq<char>>
        decreases self,
    {
        match self {
            Formula::True | Formula::False => Seq::empty(),
            Formula::Var(name) => seq![name],
            Formula::Not(x) => x.occurrences(),
            Formula::And(l, r)
            | Formula::Or(l, r)
            | Formula::Xor(l, r)
            | Formula::Implies(l, r)
            | Formula::Iff(l, r)
            | Formula::Equals(l, r) => r.occurrences() + l.occurrences(),
        }
    }

    /// The number of nodes of the formula.
    pub open spec fn size(self) -> nat
        decreases self,
    {
        match self {
            Formula::True | Formula::False | Formula::Var(_) => 1,
            Formula::Not(x) => 1 + x.size(),
            Formula::And(l, r)
            | Formula::Or(l, r)
            | Formula::Xor(l, r)
            | Formula::Implies(l, r)
            | Formula::Iff(l, r)
            | Formula::Equals(l, r) => 1 + l.size() + r.size(),
        }
    }
}

/// The names that occur in a formula are finitely many, and they are the names
/// at its leaves.
pub proof fn lemma_free_vars(f: Formula)
    ensures
        f.free_vars().finite(),
        f.occurrences().to_set() == f.free_vars(),
    decreases f,
{
    broadcast use vstd::seq_lib::seq_to_set_is_finite;
    match f {
        Formula::True | Formula::False => {
            assert(f.occurrences().to_set() =~= f.free_vars());
        },
        Formula::Var(name) => {
            assert(f.occurrences()[0] == name);
            assert(f.occurrences().to_set() =~= f.free_vars());
        },
        Formula::Not(x) => {
            lemma_free_vars(*x);
        },
        Formula::And(l, r)
        | Formula::Or(l, r)
        | Formula::Xor(l, r)
        | Formula::Implies(l, r)
        | Formula::Iff(l, r)
        | Formula::Equals(l, r) => {
            lemma_free_vars(*l);
            lemma_free_vars(*r);
            vstd::seq_lib::seq_to_set_distributes_over_add(r.occurrences(), l.occurrences());
            assert(f.occurrences().to_set() =~= f.free_vars());
        },
    }
}

/// The truth value of a formula depends only on the names that occur in it.
pub proof fn lemma_holds_on_free_vars(f: Formula, t1: Set<Seq<char>>, t2: Set<Seq<char>>)
    requires
        forall|n: Seq<char>| f.free_vars().contains(n) ==> t1.contains(n) == t2.contains(n),
    ensures
        f.holds(t1) == f.holds(t2),
    decreases f,
{
    match f {
        Formula::True | Formula::False => {},
        Formula::Var(name) => {
            assert(f.free_vars().contains(name));
        },
        Formula::Not(x) => {
            lemma_holds_on_free_vars(*x, t1, t2);
        },
        Formula::And(l, r)
        | Formula::Or(l, r)
        | Formula::Xor(l, r)
        | Formula::Implies(l, r)
        | Formula::Iff(l, r)
        | Formula::Equals(l, r) => {
            lemma_holds_on_free_vars(*l, t1, t2);
            lemma_holds_on_free_vars(*r, t1, t2);
        },
    }
}

/// Where every name of a formula has a value, the formula has one.
pub proof fn lemma_value_in_known(f: Formula, known: Set<Seq<char>>, truths: Set<Seq<char>>)
    requires
        f.free_vars().subset_of(known),
    ensures
        f.value_in(known, truths) == Some(f.holds(truths)),
    decreases f,
{
    match f {
        Formula::True | Formula::False => {},
        Formula::Var(name) => {
            assert(f.free_vars().contains(name));
        },
        Formula::Not(x) => {
            lemma_value_in_known(*x, known, truths);
        },
        Formula::And(l, r)
        | Formula::Or(l, r)
        | Formula::Xor(l, r)
        | Formula::Implies(l, r)
        | Formula::Iff(l, r)
        | Formula::Equals(l, r) => {
            lemma_value_in_known(*l, known, truths);
            lemma_value_in_known(*r, known, truths);
        },
    }
}

} // verus!
