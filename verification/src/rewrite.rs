//! What the simplifier computes: the rewriting rules, as functions on
//! formulas.

use vstd::prelude::*;

verus! {

use crate::formula::{and, lemma_holds_on_free_vars, not, or, Formula};
use crate::truth::{assignments, chosen, lemma_assignments, lemma_variables, table_row, truth_table, variables};

/// Two formulas are equivalent when they have one truth table: the same
/// variables, and the same truth value under every assignment to them.
pub open spec fn equivalent(a: Formula, b: Formula) -> bool {
    truth_table(a) == truth_table(b)
}

/// A measure of a formula that every rewriting step brings down: a
/// connective that is rewritten into others weighs more than what it is
/// rewritten into.
pub open spec fn weight(f: Formula) -> nat
    decreases f,
{
    match f {
        Formula::True | Formula::False | Formula::Var(_) => 1,
        Formula::Not(x) => 1 + weight(*x),
        Formula::And(l, r) | Formula::Or(l, r) => 1 + weight(*l) + weight(*r),
        Formula::Implies(l, r) => 3 + weight(*l) + weight(*r),
        Formula::Xor(l, r) => 5 + 2 * weight(*l) + 2 * weight(*r),
        Formula::Iff(l, r) | Formula::Equals(l, r) => 6 + 2 * weight(*l) + 2 * weight(*r),
    }
}

/// The negation of a simplified formula, simplified: constants are negated,
/// and a double negation is dropped.
pub open spec fn not_rule(x: Formula) -> Formula {
    match x {
        Formula::True => Formula::False,
        Formula::False => Formula::True,
        Formula::Not(y) => *y,
        _ => not(x),
    }
}

/// The conjunction of two simplified formulas, simplified.
pub open spec fn and_rule(l: Formula, r: Formula) -> Formula {
    if l is True && r is True {
        Formula::True
    } else if l is True {
        r
    } else if r is True {
        l
    } else if l is False || r is False {
        Formula::False
    } else if l == r {
        l
    } else if equivalent(l, r) {
        l
    } else if equivalent(l, not(r)) || equivalent(r, not(l)) {
        Formula::False
    } else {
        and(l, r)
    }
}

/// Whether `f` is a conjunction with an operand equivalent to `other`.
pub open spec fn absorbs(f: Formula, other: Formula) -> bool {
    match f {
        Formula::And(a, b) => equivalent(other, *a) || equivalent(other, *b),
        _ => false,
    }
}

/// The disjunction of two simplified formulas, simplified.
pub open spec fn or_rule(l: Formula, r: Formula) -> Formula {
    if l is True || r is True {
        Formula::True
    } else if l is False {
        r
    } else if r is False {
        l
    } else if l == r {
        l
    } else if equivalent(l, r) {
        l
    } else if equivalent(l, not(r)) || equivalent(r, not(l)) {
        Formula::True
    } else if absorbs(l, r) {
        r
    } else if absorbs(r, l) {
        l
    } else {
        or(l, r)
    }
}

/// The rewriting of `l xor r` into conjunction, disjunction and negation.
pub open spec fn xor_form(l: Formula, r: Formula) -> Formula {
    and(or(l, r), not(and(l, r)))
}

/// The rewriting of `l -> r` into disjunction and negation.
pub open spec fn implies_form(l: Formula, r: Formula) -> Formula {
    or(not(l), r)
}

/// The rewriting of `l <-> r` into conjunction, disjunction and negation.
pub open spec fn iff_form(l: Formula, r: Formula) -> Formula {
    or(and(l, r), and(not(l), not(r)))
}

/// What a connective is rewritten into weighs what its operands weigh, and a
/// constant that depends on the connective.
pub proof fn lemma_form_weights(l: Formula, r: Formula)
    ensures
        weight(xor_form(l, r)) == 4 + 2 * weight(l) + 2 * weight(r),
        weight(implies_form(l, r)) == 2 + weight(l) + weight(r),
        weight(iff_form(l, r)) == 5 + 2 * weight(l) + 2 * weight(r),
{
    reveal_with_fuel(weight, 4);
}

#[via_fn]
proof fn optimized_terminates(f: Formula) {
    match f {
        Formula::Implies(l, r) | Formula::Iff(l, r) | Formula::Equals(l, r) => {
            lemma_form_weights(*l, *r);
        },
        _ => {},
    }
}

/// The simplified form of a formula.
///
/// Operands are simplified first, then the rule of the connective is applied
/// to them. Exclusive or, implication and equivalence are rewritten into the
/// other connectives, and what they are rewritten into is simplified in turn.
/// (The test on the weights below always succeeds, as `lemma_optimized_xor`
/// shows: it is there for this definition to be well-founded.)
pub open spec fn optimized(f: Formula) -> Formula
    decreases weight(f),
    via optimized_terminates
{
    match f {
        Formula::True | Formula::False | Formula::Var(_) => f,
        Formula::Not(x) => not_rule(optimized(*x)),
        Formula::And(l, r) => and_rule(optimized(*l), optimized(*r)),
        Formula::Or(l, r) => or_rule(optimized(*l), optimized(*r)),
        Formula::Xor(l, r) => {
            let l = optimized(*l);
            let r = optimized(*r);
            if l == r {
                Formula::False
            } else if l is False {
                r
            } else if r is False {
                l
            } else if l is True {
                not(r)
            } else if r is True {
                not(l)
            } else if weight(xor_form(l, r)) < weight(f) {
                optimized(xor_form(l, r))
            } else {
                xor_form(l, r)
            }
        },
        Formula::Implies(l, r) => optimized(implies_form(*l, *r)),
        Formula::Iff(l, r) | Formula::Equals(l, r) => optimized(iff_form(*l, *r)),
    }
}

/// Simplifying a formula does not make it weigh more.
pub proof fn lemma_optimized_weight(f: Formula)
    ensures
        weight(optimized(f)) <= weight(f),
    decreases weight(f),
{
    match f {
        Formula::True | Formula::False | Formula::Var(_) => {},
        Formula::Not(x) => {
            lemma_optimized_weight(*x);
        },
        Formula::And(l, r) | Formula::Or(l, r) => {
            lemma_optimized_weight(*l);
            lemma_optimized_weight(*r);
        },
        Formula::Xor(l, r) => {
            lemma_optimized_weight(*l);
            lemma_optimized_weight(*r);
            lemma_form_weights(optimized(*l), optimized(*r));
            lemma_optimized_weight(xor_form(optimized(*l), optimized(*r)));
        },
        Formula::Implies(l, r) => {
            lemma_form_weights(*l, *r);
            lemma_optimized_weight(implies_form(*l, *r));
        },
        Formula::Iff(l, r) | Formula::Equals(l, r) => {
            lemma_form_weights(*l, *r);
            lemma_optimized_weight(iff_form(*l, *r));
        },
    }
}

/// The exclusive or of two simplified formulas, simplified.
pub open spec fn xor_rule(l: Formula, r: Formula) -> Formula {
    if l == r {
        Formula::False
    } else if l is False {
        r
    } else if r is False {
        l
    } else if l is True {
        not(r)
    } else if r is True {
        not(l)
    } else {
        optimized(xor_form(l, r))
    }
}

/// The simplified form of an exclusive or is what the rule for exclusive or
/// gives on its simplified operands.
pub proof fn lemma_optimized_xor(l: Formula, r: Formula)
    ensures
        optimized(crate::formula::xor(l, r)) == xor_rule(optimized(l), optimized(r)),
{
    lemma_optimized_weight(l);
    lemma_optimized_weight(r);
    lemma_form_weights(optimized(l), optimized(r));
}

/// Two formulas are equivalent exactly when the same names occur in them and
/// they have the same truth value whichever names are true.
pub proof fn lemma_equivalent(a: Formula, b: Formula)
    ensures
        equivalent(a, b) <==> (a.free_vars() == b.free_vars() && forall|truths: Set<Seq<char>>|
            #[trigger] a.holds(truths) == b.holds(truths)),
{
    let names = variables(a);
    let all = assignments(names.len());
    lemma_variables(a);
    lemma_variables(b);
    lemma_assignments(names.len());
    if equivalent(a, b) {
        assert(names == variables(b)) by {
            assert(names =~= truth_table(a).header.drop_last());
            assert(variables(b) =~= truth_table(b).header.drop_last());
        }
        assert forall|truths: Set<Seq<char>>| #[trigger] a.holds(truths) == b.holds(truths) by {
            let bits = names.map_values(|n: Seq<char>| truths.contains(n));
            let part = chosen(names, bits);
            assert forall|n: Seq<char>| a.free_vars().contains(n) implies part.contains(n) == truths.contains(n) by {
                assert(names.to_set().contains(n));
                let j = choose|j: int| 0 <= j < names.len() && names[j] == n;
                assert(bits[j] == truths.contains(n));
            }
            lemma_holds_on_free_vars(a, part, truths);
            lemma_holds_on_free_vars(b, part, truths);
            assert(all.contains(bits));
            let k = choose|k: int| 0 <= k < all.len() && all[k] == bits;
            assert(truth_table(a).rows[k] == table_row(a, bits));
            assert(truth_table(b).rows[k] == table_row(b, bits));
            assert(table_row(a, bits).last() == table_row(b, bits).last());
        }
    }
    if a.free_vars() == b.free_vars() && forall|truths: Set<Seq<char>>|
        #[trigger] a.holds(truths) == b.holds(truths) {
        assert(truth_table(a).rows =~= truth_table(b).rows) by {
            assert forall|k: int| 0 <= k < all.len() implies table_row(a, all[k]) == table_row(b, all[k]) by {
                assert(a.holds(chosen(names, all[k])) == b.holds(chosen(names, all[k])));
            }
        }
    }
}

/// What the rule for negation gives is the negation, and holds no name that
/// its operand does not hold.
pub proof fn lemma_not_rule(x: Formula)
    ensures
        not_rule(x).free_vars().subset_of(x.free_vars()),
        forall|truths: Set<Seq<char>>| #[trigger] not_rule(x).holds(truths) == !x.holds(truths),
{
}

/// What the rule for conjunction gives is the conjunction, and holds no name
/// that its operands do not hold.
pub proof fn lemma_and_rule(l: Formula, r: Formula)
    ensures
        and_rule(l, r).free_vars().subset_of(l.free_vars().union(r.free_vars())),
        forall|truths: Set<Seq<char>>|
            #[trigger] and_rule(l, r).holds(truths) == (l.holds(truths) && r.holds(truths)),
{
    lemma_equivalent(l, r);
    lemma_equivalent(l, not(r));
    lemma_equivalent(r, not(l));
    assert forall|truths: Set<Seq<char>>|
        #[trigger] and_rule(l, r).holds(truths) == (l.holds(truths) && r.holds(truths)) by {
        if equivalent(l, r) {
            assert(l.holds(truths) == r.holds(truths));
        }
        if equivalent(l, not(r)) {
            assert(l.holds(truths) == not(r).holds(truths));
        }
        if equivalent(r, not(l)) {
            assert(r.holds(truths) == not(l).holds(truths));
        }
    }
}

/// What the rule for disjunction gives is the disjunction, and holds no name
/// that its operands do not hold.
pub proof fn lemma_or_rule(l: Formula, r: Formula)
    ensures
        or_rule(l, r).free_vars().subset_of(l.free_vars().union(r.free_vars())),
        forall|truths: Set<Seq<char>>|
            #[trigger] or_rule(l, r).holds(truths) == (l.holds(truths) || r.holds(truths)),
{
    lemma_equivalent(l, r);
    lemma_equivalent(l, not(r));
    lemma_equivalent(r, not(l));
    match l {
        Formula::And(a, b) => {
            lemma_equivalent(r, *a);
            lemma_equivalent(r, *b);
        },
        _ => {},
    }
    match r {
        Formula::And(a, b) => {
            lemma_equivalent(l, *a);
            lemma_equivalent(l, *b);
        },
        _ => {},
    }
    assert forall|truths: Set<Seq<char>>|
        #[trigger] or_rule(l, r).holds(truths) == (l.holds(truths) || r.holds(truths)) by {
        if equivalent(l, r) {
            assert(l.holds(truths) == r.holds(truths));
        }
        if equivalent(l, not(r)) {
            assert(l.holds(truths) == not(r).holds(truths));
        }
        if equivalent(r, not(l)) {
            assert(r.holds(truths) == not(l).holds(truths));
        }
        match l {
            Formula::And(a, b) => {
                if equivalent(r, *a) {
                    assert(r.holds(truths) == a.holds(truths));
                }
                if equivalent(r, *b) {
                    assert(r.holds(truths) == b.holds(truths));
                }
            },
            _ => {},
        }
        match r {
            Formula::And(a, b) => {
                if equivalent(l, *a) {
                    assert(l.holds(truths) == a.holds(truths));
                }
                if equivalent(l, *b) {
                    assert(l.holds(truths) == b.holds(truths));
                }
            },
            _ => {},
        }
    }
}

/// What a connective is rewritten into holds the names of its operands, and
/// has the truth value of the connective.
pub proof fn lemma_form_meanings(l: Formula, r: Formula, truths: Set<Seq<char>>)
    ensures
        xor_form(l, r).free_vars() == l.free_vars().union(r.free_vars()),
        implies_form(l, r).free_vars() == l.free_vars().union(r.free_vars()),
        iff_form(l, r).free_vars() == l.free_vars().union(r.free_vars()),
        xor_form(l, r).holds(truths) == (l.holds(truths) != r.holds(truths)),
        implies_form(l, r).holds(truths) == (l.holds(truths) ==> r.holds(truths)),
        iff_form(l, r).holds(truths) == (l.holds(truths) == r.holds(truths)),
{
    reveal_with_fuel(Formula::free_vars, 4);
    reveal_with_fuel(Formula::holds, 4);
    assert(xor_form(l, r).free_vars() =~= l.free_vars().union(r.free_vars()));
    assert(implies_form(l, r).free_vars() =~= l.free_vars().union(r.free_vars()));
    assert(iff_form(l, r).free_vars() =~= l.free_vars().union(r.free_vars()));
}

/// Simplifying a formula does not change its truth value, whichever names
/// are true, and does not bring in a name.
pub proof fn lemma_optimized_sound(f: Formula)
    ensures
        optimized(f).free_vars().subset_of(f.free_vars()),
        forall|truths: Set<Seq<char>>| #[trigger] optimized(f).holds(truths) == f.holds(truths),
    decreases weight(f),
{
    match f {
        Formula::True | Formula::False | Formula::Var(_) => {},
        Formula::Not(x) => {
            lemma_optimized_sound(*x);
            lemma_not_rule(optimized(*x));
        },
        Formula::And(l, r) => {
            lemma_optimized_sound(*l);
            lemma_optimized_sound(*r);
            lemma_and_rule(optimized(*l), optimized(*r));
        },
        Formula::Or(l, r) => {
            lemma_optimized_sound(*l);
            lemma_optimized_sound(*r);
            lemma_or_rule(optimized(*l), optimized(*r));
        },
        Formula::Xor(l, r) => {
            let a = optimized(*l);
            let b = optimized(*r);
            lemma_optimized_sound(*l);
            lemma_optimized_sound(*r);
            lemma_optimized_weight(*l);
            lemma_optimized_weight(*r);
            lemma_form_weights(a, b);
            lemma_optimized_sound(xor_form(a, b));
            lemma_form_meanings(a, b, Set::empty());
            assert forall|truths: Set<Seq<char>>| #[trigger] optimized(f).holds(truths) == f.holds(truths) by {
                assert(a.holds(truths) == l.holds(truths));
                assert(b.holds(truths) == r.holds(truths));
                assert(optimized(xor_form(a, b)).holds(truths) == xor_form(a, b).holds(truths));
                lemma_form_meanings(a, b, truths);
            }
        },
        Formula::Implies(l, r) => {
            lemma_form_weights(*l, *r);
            lemma_optimized_sound(implies_form(*l, *r));
            lemma_form_meanings(*l, *r, Set::empty());
            assert forall|truths: Set<Seq<char>>| #[trigger] optimized(f).holds(truths) == f.holds(truths) by {
                assert(optimized(implies_form(*l, *r)).holds(truths) == implies_form(*l, *r).holds(truths));
                lemma_form_meanings(*l, *r, truths);
            }
        },
        Formula::Iff(l, r) | Formula::Equals(l, r) => {
            lemma_form_weights(*l, *r);
            lemma_optimized_sound(iff_form(*l, *r));
            lemma_form_meanings(*l, *r, Set::empty());
            assert forall|truths: Set<Seq<char>>| #[trigger] optimized(f).holds(truths) == f.holds(truths) by {
                assert(optimized(iff_form(*l, *r)).holds(truths) == iff_form(*l, *r).holds(truths));
                lemma_form_meanings(*l, *r, truths);
            }
        },
    }
}

} // verus!
