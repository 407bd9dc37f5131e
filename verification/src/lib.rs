//! Propositional logic: expression trees, their truth tables, and a
//! simplifier that rewrites a tree into an equivalent smaller one.

use vstd::prelude::*;
use vstd::std_specs::cmp::PartialEqSpecImpl;

pub mod context;
pub mod formula;
pub mod grammar;
pub mod laws;
pub mod order;
pub mod rewrite;
pub mod traverser;
pub mod truth;

verus! {

use crate::context::Context;
use crate::formula::Formula;
use crate::rewrite::{
    and_rule, lemma_form_meanings, lemma_form_weights, lemma_optimized_sound, lemma_optimized_weight, not_rule,
    optimized, or_rule, weight,
};
use crate::order::{keys, sort};
use crate::traverser::{Arguments, Evaluator};
use crate::truth::{
    enumerable, factorial, lemma_enumerable_within, lemma_factorial_grows, lemma_table_of_evaluations,
    lemma_variables, row_of, rows_of, table_of, truth_table, EvaluationModel, TableModel,
};

/// A propositional expression, as a tree that owns its operands.
#[derive(Debug, PartialOrd, Ord, Hash)]
pub enum Instruction {
    True,
    False,
    Argument(String),
    Not(Box<Self>),
    And(Box<Self>, Box<Self>),
    Or(Box<Self>, Box<Self>),
    Xor(Box<Self>, Box<Self>),
    Conditional(Box<Self>, Box<Self>),
    Biconditional(Box<Self>, Box<Self>),
    Equals(Box<Self>, Box<Self>),
}

impl Instruction {
    /// The formula that this tree stands for.
    pub open spec fn formula(&self) -> Formula
        decreases self,
    {
        match self {
            Instruction::True => Formula::True,
            Instruction::False => Formula::False,
            Instruction::Argument(name) => Formula::Var(name@),
            Instruction::Not(x) => Formula::Not(Box::new(x.formula())),
            Instruction::And(l, r) => Formula::And(Box::new(l.formula()), Box::new(r.formula())),
            Instruction::Or(l, r) => Formula::Or(Box::new(l.formula()), Box::new(r.formula())),
            Instruction::Xor(l, r) => Formula::Xor(Box::new(l.formula()), Box::new(r.formula())),
            Instruction::Conditional(l, r) => Formula::Implies(
                Box::new(l.formula()),
                Box::new(r.formula()),
            ),
            Instruction::Biconditional(l, r) => Formula::Iff(
                Box::new(l.formula()),
                Box::new(r.formula()),
            ),
            Instruction::Equals(l, r) => Formula::Equals(
                Box::new(l.formula()),
                Box::new(r.formula()),
            ),
        }
    }

    /// Whether the assignments to the names of the expression can be
    /// enumerated on this machine, as `evaluate` and `optimize` ask.
    pub fn is_enumerable(&self) -> (out: bool)
        ensures
            out == enumerable(self@),
    {
        let names = Arguments::names(self);
        let n = names.len();
        proof {
            lemma_variables(self@);
            assert(keys(names@).len() == names@.len());
        }
        let mut product: usize = 1;
        let mut k: usize = 0;
        while k < n
            invariant
                k <= n,
                n == self@.free_vars().len(),
                product == factorial(k as nat),
            decreases n - k,
        {
            k += 1;
            proof {
                assert(factorial(k as nat) == k * factorial((k - 1) as nat));
                assert(k * factorial((k - 1) as nat) == factorial((k - 1) as nat) * k) by (nonlinear_arith);
            }
            match product.checked_mul(k) {
                Some(next) => {
                    product = next;
                },
                None => {
                    proof {
                        lemma_factorial_grows(k as nat, n as nat);
                    }
                    return false;
                },
            }
        }
        true
    }

    /// The truth table of the expression.
    pub fn evaluate(&self) -> (out: Result<Table, String>)
        requires
            enumerable(self@),
        ensures
            out is Ok,
            out->Ok_0@ == truth_table(self@),
    {
        proof {
            lemma_table_of_evaluations(self@);
        }
        match Evaluator::run(self) {
            Ok(evaluations) => Ok(Evaluation::into_table(evaluations)),
            Err(fault) => Err(fault),
        }
    }

    /// The negation of `x`, simplified, where `x` is.
    fn negation(x: Self) -> (out: Self)
        ensures
            out@ == not_rule(x@),
    {
        match x {
            Instruction::True => Instruction::False,
            Instruction::False => Instruction::True,
            Instruction::Not(y) => *y,
            other => Instruction::Not(Box::new(other)),
        }
    }

    /// The conjunction of `l` and `r`, simplified, where they are.
    fn conjunction(l: Self, r: Self, context: &mut Context) -> (out: Self)
        requires
            old(context).wf(),
            enumerable(l@),
            enumerable(r@),
        ensures
            final(context).wf(),
            out@ == and_rule(l@, r@),
    {
        if l.eq_true() && r.eq_true() {
            return Instruction::True;
        } else if l.eq_true() {
            return r;
        } else if r.eq_true() {
            return l;
        } else if l.eq_false() || r.eq_false() {
            return Instruction::False;
        } else if l == r {
            return l;
        }
        if context.check_equivalence(&l, &r) {
            return l;
        } else if context.check_equivalence(&l, &Instruction::Not(Box::new(r.clone()))) {
            return Instruction::False;
        } else if context.check_equivalence(&r, &Instruction::Not(Box::new(l.clone()))) {
            return Instruction::False;
        }
        Instruction::And(Box::new(l), Box::new(r))
    }

    /// The disjunction of `l` and `r`, simplified, where they are.
    fn disjunction(l: Self, r: Self, context: &mut Context) -> (out: Self)
        requires
            old(context).wf(),
            enumerable(l@),
            enumerable(r@),
        ensures
            final(context).wf(),
            out@ == or_rule(l@, r@),
    {
        if l.eq_true() || r.eq_true() {
            return Instruction::True;
        } else if l.eq_false() {
            return r;
        } else if r.eq_false() {
            return l;
        } else if l == r {
            return l;
        }
        if context.check_equivalence(&l, &r) {
            return l;
        } else if context.check_equivalence(&l, &Instruction::Not(Box::new(r.clone()))) {
            return Instruction::True;
        } else if context.check_equivalence(&r, &Instruction::Not(Box::new(l.clone()))) {
            return Instruction::True;
        }
        if let Instruction::And(a, b) = &l {
            proof {
                lemma_enumerable_within(a@, l@);
                lemma_enumerable_within(b@, l@);
            }
            if context.check_equivalence(&r, a) || context.check_equivalence(&r, b) {
                return r;
            }
        }
        if let Instruction::And(a, b) = &r {
            proof {
                lemma_enumerable_within(a@, r@);
                lemma_enumerable_within(b@, r@);
            }
            if context.check_equivalence(&l, a) || context.check_equivalence(&l, b) {
                return l;
            }
        }
        Instruction::Or(Box::new(l), Box::new(r))
    }

    /// The simplified form of the expression, with the truth tables that
    /// the simplification needs kept in `context`.
    fn _optimize(self, context: &mut Context) -> (out: Self)
        requires
            old(context).wf(),
            enumerable(self@),
        ensures
            final(context).wf(),
            out@ == optimized(self@),
        decreases weight(self@),
    {
        let ghost whole = self@;
        match self {
            Instruction::True => Instruction::True,
            Instruction::False => Instruction::False,
            Instruction::Argument(a) => Instruction::Argument(a),
            Instruction::Not(x) => {
                let x = (*x)._optimize(context);
                Self::negation(x)
            },
            Instruction::And(l, r) => {
                proof {
                    lemma_enumerable_within(l@, whole);
                    lemma_enumerable_within(r@, whole);
                    lemma_optimized_sound(l@);
                    lemma_optimized_sound(r@);
                    lemma_enumerable_within(optimized(l@), whole);
                    lemma_enumerable_within(optimized(r@), whole);
                }
                let l = (*l)._optimize(context);
                let r = (*r)._optimize(context);
                Self::conjunction(l, r, context)
            },
            Instruction::Or(l, r) => {
                proof {
                    lemma_enumerable_within(l@, whole);
                    lemma_enumerable_within(r@, whole);
                    lemma_optimized_sound(l@);
                    lemma_optimized_sound(r@);
                    lemma_enumerable_within(optimized(l@), whole);
                    lemma_enumerable_within(optimized(r@), whole);
                }
                let l = (*l)._optimize(context);
                let r = (*r)._optimize(context);
                Self::disjunction(l, r, context)
            },
            Instruction::Xor(l, r) => {
                proof {
                    lemma_enumerable_within(l@, whole);
                    lemma_enumerable_within(r@, whole);
                    lemma_optimized_sound(l@);
                    lemma_optimized_sound(r@);
                    lemma_optimized_weight(l@);
                    lemma_optimized_weight(r@);
                    lemma_form_weights(optimized(l@), optimized(r@));
                    lemma_form_meanings(optimized(l@), optimized(r@), Set::empty());
                    lemma_enumerable_within(crate::rewrite::xor_form(optimized(l@), optimized(r@)), whole);
                }
                let l = (*l)._optimize(context);
                let r = (*r)._optimize(context);
                if l == r {
                    return Instruction::False;
                } else if l.eq_false() {
                    return r;
                } else if r.eq_false() {
                    return l;
                } else if l.eq_true() {
                    return Instruction::Not(Box::new(r));
                } else if r.eq_true() {
                    return Instruction::Not(Box::new(l));
                }
                let a = Instruction::Or(Box::new(l.clone()), Box::new(r.clone()));
                let b = Instruction::And(Box::new(l), Box::new(r));
                let b = Instruction::Not(Box::new(b));
                let rewritten = Instruction::And(Box::new(a), Box::new(b));
                proof {
                    reveal_with_fuel(Instruction::formula, 4);
                    assert(rewritten@ == crate::rewrite::xor_form(l@, r@));
                }
                rewritten._optimize(context)
            },
            Instruction::Conditional(l, r) => {
                proof {
                    lemma_form_weights(l@, r@);
                    lemma_form_meanings(l@, r@, Set::empty());
                    lemma_enumerable_within(crate::rewrite::implies_form(l@, r@), whole);
                }
                let rewritten = Instruction::Or(Box::new(Instruction::Not(l)), r);
                proof {
                    reveal_with_fuel(Instruction::formula, 3);
                    assert(rewritten@ == crate::rewrite::implies_form(l@, r@));
                }
                rewritten._optimize(context)
            },
            Instruction::Biconditional(l, r) | Instruction::Equals(l, r) => {
                proof {
                    lemma_form_weights(l@, r@);
                    lemma_form_meanings(l@, r@, Set::empty());
                    lemma_enumerable_within(crate::rewrite::iff_form(l@, r@), whole);
                }
                let l = *l;
                let r = *r;
                let a = Instruction::And(Box::new(l.clone()), Box::new(r.clone()));
                let b = Instruction::And(
                    Box::new(Instruction::Not(Box::new(l))),
                    Box::new(Instruction::Not(Box::new(r))),
                );
                let rewritten = Instruction::Or(Box::new(a), Box::new(b));
                proof {
                    reveal_with_fuel(Instruction::formula, 4);
                    assert(rewritten@ == crate::rewrite::iff_form(l@, r@));
                }
                rewritten._optimize(context)
            },
        }
    }

    /// The simplified form of the expression: an expression with the same
    /// truth value under every assignment, and with no name that this one
    /// does not have.
    pub fn optimize(self) -> (out: Self)
        requires
            enumerable(self@),
        ensures
            out@ == optimized(self@),
            out@.free_vars().subset_of(self@.free_vars()),
            forall|truths: Set<Seq<char>>| #[trigger] out@.holds(truths) == self@.holds(truths),
    {
        proof {
            lemma_optimized_sound(self@);
        }
        let mut context = Context::default();
        self._optimize(&mut context)
    }

    /// The truth table of the expression, or nothing where the assignments
    /// to its names cannot be enumerated on this machine.
    pub fn try_evaluate(&self) -> (out: Option<Table>)
        ensures
            match out {
                Some(table) => enumerable(self@) && table@ == truth_table(self@),
                None => !enumerable(self@),
            },
    {
        if !self.is_enumerable() {
            return None;
        }
        match self.evaluate() {
            Ok(table) => Some(table),
            Err(_) => None,
        }
    }

    /// The simplified form of the expression, or the expression as it is
    /// where the assignments to its names cannot be enumerated on this
    /// machine.
    pub fn try_optimize(self) -> (out: Result<Self, Self>)
        ensures
            match out {
                Ok(simplified) => enumerable(self@) && simplified@ == optimized(self@),
                Err(same) => !enumerable(self@) && same@ == self@,
            },
    {
        if self.is_enumerable() {
            Ok(self.optimize())
        } else {
            Err(self)
        }
    }

    /// Whether this is the constant true.
    pub fn eq_true(&self) -> (r: bool)
        ensures
            r == (self@ is True),
    {
        matches!(self, Self::True)
    }

    /// Whether this is the constant false.
    pub fn eq_false(&self) -> (r: bool)
        ensures
            r == (self@ is False),
    {
        matches!(self, Self::False)
    }

    /// Whether this is a negation.
    pub fn is_not(&self) -> (r: bool)
        ensures
            r == (self@ is Not),
    {
        matches!(self, Self::Not(_))
    }

    /// Whether this is a conjunction.
    pub fn is_and(&self) -> (r: bool)
        ensures
            r == (self@ is And),
    {
        matches!(self, Self::And(_, _))
    }

    /// Whether this is a disjunction.
    pub fn is_or(&self) -> (r: bool)
        ensures
            r == (self@ is Or),
    {
        matches!(self, Self::Or(_, _))
    }
}

impl View for Instruction {
    type V = Formula;

    open spec fn view(&self) -> Formula {
        self.formula()
    }
}

impl Clone for Instruction {
    fn clone(&self) -> (out: Self)
        ensures
            out@ == self@,
        decreases self,
    {
        match self {
            Instruction::True => Instruction::True,
            Instruction::False => Instruction::False,
            Instruction::Argument(name) => Instruction::Argument(name.clone()),
            Instruction::Not(x) => Instruction::Not(Box::new((**x).clone())),
            Instruction::And(l, r) => Instruction::And(Box::new((**l).clone()), Box::new((**r).clone())),
            Instruction::Or(l, r) => Instruction::Or(Box::new((**l).clone()), Box::new((**r).clone())),
            Instruction::Xor(l, r) => Instruction::Xor(Box::new((**l).clone()), Box::new((**r).clone())),
            Instruction::Conditional(l, r) => Instruction::Conditional(
                Box::new((**l).clone()),
                Box::new((**r).clone()),
            ),
            Instruction::Biconditional(l, r) => Instruction::Biconditional(
                Box::new((**l).clone()),
                Box::new((**r).clone()),
            ),
            Instruction::Equals(l, r) => Instruction::Equals(
                Box::new((**l).clone()),
                Box::new((**r).clone()),
            ),
        }
    }
}

impl PartialEq for Instruction {
    /// Two trees are equal when they have the same shape and the same names.
    fn eq(&self, other: &Self) -> (out: bool)
        decreases self,
    {
        match (self, other) {
            (Instruction::True, Instruction::True) => true,
            (Instruction::False, Instruction::False) => true,
            (Instruction::Argument(a), Instruction::Argument(b)) => *a == *b,
            (Instruction::Not(x), Instruction::Not(y)) => (**x).eq(&**y),
            (Instruction::And(l, r), Instruction::And(m, s)) => (**l).eq(&**m) && (**r).eq(&**s),
            (Instruction::Or(l, r), Instruction::Or(m, s)) => (**l).eq(&**m) && (**r).eq(&**s),
            (Instruction::Xor(l, r), Instruction::Xor(m, s)) => (**l).eq(&**m) && (**r).eq(&**s),
            (Instruction::Conditional(l, r), Instruction::Conditional(m, s)) => {
                (**l).eq(&**m) && (**r).eq(&**s)
            },
            (Instruction::Biconditional(l, r), Instruction::Biconditional(m, s)) => {
                (**l).eq(&**m) && (**r).eq(&**s)
            },
            (Instruction::Equals(l, r), Instruction::Equals(m, s)) => (**l).eq(&**m) && (**r).eq(&**s),
            _ => false,
        }
    }
}

impl PartialEqSpecImpl for Instruction {
    open spec fn obeys_eq_spec() -> bool {
        true
    }

    open spec fn eq_spec(&self, other: &Self) -> bool {
        self@ == other@
    }
}

impl Eq for Instruction {

}

/// One line of an evaluation: each name with its truth value, and the truth
/// value of the expression.
#[derive(Debug, Clone, PartialEq, Eq, PartialOrd, Ord, Hash)]
pub struct Evaluation<'a> {
    values: Vec<(&'a str, bool)>,
    result: bool,
}

/// The names and truth values of a sequence of entries.
pub open spec fn entry_models(entries: Seq<(&str, bool)>) -> Seq<(Seq<char>, bool)> {
    entries.map_values(|v: (&str, bool)| (v.0@, v.1))
}

impl<'a> View for Evaluation<'a> {
    type V = EvaluationModel;

    closed spec fn view(&self) -> EvaluationModel {
        EvaluationModel { values: entry_models(self.values@), result: self.result }
    }
}

/// The models of a sequence of evaluations.
pub open spec fn evaluation_models(evaluations: Seq<Evaluation>) -> Seq<EvaluationModel> {
    evaluations.map_values(|e: Evaluation| e@)
}

/// A truth table: the names and a label, and one row per assignment.
#[derive(Debug, Clone, PartialOrd, Ord, Hash)]
pub struct Table {
    pub header: Vec<String>,
    pub rows: Vec<Vec<bool>>,
}

/// The labels of a header, as sequences of characters.
pub open spec fn label_models(header: Seq<String>) -> Seq<Seq<char>> {
    header.map_values(|h: String| h@)
}

/// The rows of a table, as sequences of truth values.
pub open spec fn row_models(rows: Seq<Vec<bool>>) -> Seq<Seq<bool>> {
    rows.map_values(|r: Vec<bool>| r@)
}

impl View for Table {
    type V = TableModel;

    open spec fn view(&self) -> TableModel {
        TableModel { header: label_models(self.header@), rows: row_models(self.rows@) }
    }
}

impl PartialEq for Table {
    /// Two tables are equal when they have the same header and the same rows.
    fn eq(&self, other: &Self) -> (out: bool) {
        if self.header.len() != other.header.len() || self.rows.len() != other.rows.len() {
            proof {
                assert(self@.header.len() == self.header@.len());
                assert(self@.rows.len() == self.rows@.len());
            }
            return false;
        }
        let mut i: usize = 0;
        while i < self.header.len()
            invariant
                i <= self.header@.len(),
                self.header@.len() == other.header@.len(),
                forall|j: int| 0 <= j < i ==> self.header@[j]@ == other.header@[j]@,
            decreases self.header@.len() - i,
        {
            if self.header[i] != other.header[i] {
                proof {
                    assert(self@.header[i as int] != other@.header[i as int]);
                }
                return false;
            }
            i += 1;
        }
        let mut i: usize = 0;
        while i < self.rows.len()
            invariant
                i <= self.rows@.len(),
                self.rows@.len() == other.rows@.len(),
                self@.header =~= other@.header,
                forall|j: int| 0 <= j < i ==> self.rows@[j]@ == other.rows@[j]@,
            decreases self.rows@.len() - i,
        {
            let a = &self.rows[i];
            let b = &other.rows[i];
            if a.len() != b.len() {
                proof {
                    assert(self@.rows[i as int] != other@.rows[i as int]);
                }
                return false;
            }
            let mut k: usize = 0;
            while k < a.len()
                invariant
                    k <= a@.len(),
                    a@.len() == b@.len(),
                    a@ == self@.rows[i as int],
                    b@ == other@.rows[i as int],
                    forall|j: int| 0 <= j < k ==> a@[j] == b@[j],
                decreases a@.len() - k,
            {
                if a[k] != b[k] {
                    return false;
                }
                k += 1;
            }
            proof {
                assert(a@ =~= b@);
            }
            i += 1;
        }
        proof {
            assert(self@.rows =~= other@.rows);
        }
        true
    }
}

impl PartialEqSpecImpl for Table {
    open spec fn obeys_eq_spec() -> bool {
        true
    }

    open spec fn eq_spec(&self, other: &Self) -> bool {
        self@ == other@
    }
}

impl Eq for Table {

}

/// Rows are compared by the truth values that they hold.
pub proof fn lemma_row_keys(rows: Seq<Vec<bool>>)
    ensures
        keys(rows) == row_models(rows),
{
    assert forall|i: int| 0 <= i < rows.len() implies keys(rows)[i] == row_models(rows)[i] by {
        assert(keys(rows[i]@) =~= rows[i]@);
    }
    assert(keys(rows) =~= row_models(rows));
}

impl<'a> Evaluation<'a> {
    /// An evaluation of the given entries and result.
    pub fn new(values: Vec<(&'a str, bool)>, result: bool) -> (out: Self)
        ensures
            out@ == (EvaluationModel { values: entry_models(values@), result }),
    {
        Self { values, result }
    }

    /// The truth value of the expression.
    pub fn result(&self) -> (r: bool)
        ensures
            r == self@.result,
    {
        self.result
    }

    /// The table of a sequence of evaluations: the names of the first one and
    /// the label `eval`, and the rows of all of them, in order. The table of
    /// no evaluation at all is empty.
    pub fn into_table(result: Vec<Self>) -> (out: Table)
        ensures
            out@ == table_of(evaluation_models(result@)),
    {
        let ghost models = evaluation_models(result@);
        let mut header: Vec<String> = Vec::new();
        if result.len() > 0 {
            let first = &result[0];
            let ghost names = first@.values.map_values(|v: (Seq<char>, bool)| v.0);
            let mut i: usize = 0;
            while i < first.values.len()
                invariant
                    i <= first.values@.len(),
                    names == first@.values.map_values(|v: (Seq<char>, bool)| v.0),
                    label_models(header@) == names.subrange(0, i as int),
                decreases first.values@.len() - i,
            {
                let ghost had = label_models(header@);
                header.push(first.values[i].0.to_owned());
                proof {
                    assert(label_models(header@) =~= had.push(names[i as int]));
                    assert(names.subrange(0, i + 1) =~= names.subrange(0, i as int).push(names[i as int]));
                }
                i += 1;
            }
            let ghost had = label_models(header@);
            header.push("eval".to_owned());
            proof {
                assert(names.subrange(0, i as int) =~= names);
                assert(label_models(header@) =~= had.push("eval"@));
                assert(models[0] == first@);
            }
        } else {
            proof {
                assert(label_models(header@) =~= Seq::<Seq<char>>::empty());
            }
        }
        let mut rows: Vec<Vec<bool>> = Vec::new();
        let mut e: usize = 0;
        while e < result.len()
            invariant
                e <= result@.len(),
                models == evaluation_models(result@),
                row_models(rows@) == rows_of(models).subrange(0, e as int),
            decreases result@.len() - e,
        {
            let evaluation = &result[e];
            let ghost flags = evaluation@.values.map_values(|v: (Seq<char>, bool)| v.1);
            let mut row: Vec<bool> = Vec::new();
            let mut i: usize = 0;
            while i < evaluation.values.len()
                invariant
                    i <= evaluation.values@.len(),
                    flags == evaluation@.values.map_values(|v: (Seq<char>, bool)| v.1),
                    row@ == flags.subrange(0, i as int),
                decreases evaluation.values@.len() - i,
            {
                row.push(evaluation.values[i].1);
                proof {
                    assert(row@ =~= flags.subrange(0, i + 1));
                }
                i += 1;
            }
            row.push(evaluation.result);
            let ghost had = row_models(rows@);
            proof {
                assert(flags.subrange(0, i as int) =~= flags);
                assert(row@ == row_of(evaluation@));
                assert(models[e as int] == evaluation@);
            }
            rows.push(row);
            proof {
                assert(row_models(rows@) =~= had.push(row@));
                assert(rows_of(models).subrange(0, e + 1) =~= rows_of(models).subrange(0, e as int).push(
                    rows_of(models)[e as int],
                ));
            }
            e += 1;
        }
        let ghost unsorted = rows@;
        let rows = sort(rows);
        proof {
            assert(rows_of(models).subrange(0, e as int) =~= rows_of(models));
            lemma_row_keys(unsorted);
            lemma_row_keys(rows@);
        }
        Table { header, rows }
    }

    /// The names with their truth values.
    pub fn values(&self) -> (out: &Vec<(&'a str, bool)>)
        ensures
            entry_models(out@) == self@.values,
    {
        &self.values
    }
}

} // verus!
