//! What holds of simplification and of truth tables, for every formula.

use vstd::arithmetic::power2::pow2;
use vstd::prelude::*;

verus! {

use crate::formula::{lemma_holds_on_free_vars, Formula};
use crate::order::strictly_ascending;
use crate::rewrite::{
    and_rule, lemma_form_weights, lemma_optimized_sound, lemma_optimized_weight, not_rule, optimized, or_rule,
    weight, xor_form,
};
use crate::truth::{chosen, lemma_truth_table_rows, lemma_variables, truth_table, variables};

/// Simplification is sound: the simplified formula has the truth value of
/// the formula whichever names are true, and every name in it is a name of
/// the formula.
pub proof fn lemma_optimize_sound(f: Formula, truths: Set<Seq<char>>)
    ensures
        optimized(f).holds(truths) == f.holds(truths),
        optimized(f).free_vars().subset_of(f.free_vars()),
{
    lemma_optimized_sound(f);
}

/// Simplification keeps the rows of the truth table: a row of the table of
/// a formula and a row of the table of its simplified form that give the
/// same truth value to each name that both tables have end in the same
/// truth value.
pub proof fn lemma_optimize_keeps_rows(f: Formula, i: int, j: int)
    requires
        0 <= i < truth_table(f).rows.len(),
        0 <= j < truth_table(optimized(f)).rows.len(),
        forall|a: int, b: int|
            0 <= a < variables(f).len() && 0 <= b < variables(optimized(f)).len() && variables(f)[a]
                == variables(optimized(f))[b] ==> truth_table(f).rows[i][a] == truth_table(
                optimized(f),
            ).rows[j][b],
    ensures
        truth_table(f).rows[i].last() == truth_table(optimized(f)).rows[j].last(),
        variables(optimized(f)).to_set().subset_of(variables(f).to_set()),
{
    let g = optimized(f);
    let before = truth_table(f).rows[i];
    let after = truth_table(g).rows[j];
    let names = variables(f);
    let kept = variables(g);
    lemma_optimized_sound(f);
    lemma_variables(f);
    lemma_variables(g);
    lemma_truth_table_rows(f);
    lemma_truth_table_rows(g);
    let wide = chosen(names, before.drop_last());
    let narrow = chosen(kept, after.drop_last());
    assert(before.last() == f.holds(wide));
    assert(after.last() == g.holds(narrow));
    assert forall|n: Seq<char>| g.free_vars().contains(n) implies wide.contains(n) == narrow.contains(n) by {
        assert(kept.to_set().contains(n) && names.to_set().contains(n));
        let a = choose|a: int| 0 <= a < names.len() && names[a] == n;
        let b = choose|b: int| 0 <= b < kept.len() && kept[b] == n;
        assert(before[a] == after[b]);
        assert(before.drop_last()[a] == before[a] && after.drop_last()[b] == after[b]);
        if wide.contains(n) {
            let k = choose|k: int|
                0 <= k < names.len() && k < before.drop_last().len() && before.drop_last()[k] && #[trigger] names[k]
                    == n;
            assert(k == a);
        }
        if narrow.contains(n) {
            let k = choose|k: int|
                0 <= k < kept.len() && k < after.drop_last().len() && after.drop_last()[k] && #[trigger] kept[k]
                    == n;
            assert(k == b);
        }
    }
    lemma_holds_on_free_vars(g, wide, narrow);
}

/// Whether a negation of a negation occurs in the formula.
pub open spec fn has_double_negation(f: Formula) -> bool
    decreases f,
{
    match f {
        Formula::True | Formula::False | Formula::Var(_) => false,
        Formula::Not(x) => *x is Not || has_double_negation(*x),
        Formula::And(l, r)
        | Formula::Or(l, r)
        | Formula::Xor(l, r)
        | Formula::Implies(l, r)
        | Formula::Iff(l, r)
        | Formula::Equals(l, r) => has_double_negation(*l) || has_double_negation(*r),
    }
}

/// Whether the formula is built from names and constants with negation,
/// conjunction and disjunction alone.
pub open spec fn is_plain(f: Formula) -> bool
    decreases f,
{
    match f {
        Formula::True | Formula::False | Formula::Var(_) => true,
        Formula::Not(x) => is_plain(*x),
        Formula::And(l, r) | Formula::Or(l, r) => is_plain(*l) && is_plain(*r),
        _ => false,
    }
}

/// Whether simplifying leaves each part of the formula as it is that holds
/// no negation of a negation.
pub open spec fn settled(f: Formula) -> bool
    decreases f,
{
    &&& !has_double_negation(f) ==> optimized(f) == f
    &&& match f {
        Formula::True | Formula::False | Formula::Var(_) => true,
        Formula::Not(x) => settled(*x),
        Formula::And(l, r)
        | Formula::Or(l, r)
        | Formula::Xor(l, r)
        | Formula::Implies(l, r)
        | Formula::Iff(l, r)
        | Formula::Equals(l, r) => settled(*l) && settled(*r),
    }
}

/// A simplified formula is plain, and settled.
pub proof fn lemma_optimized_settled(f: Formula)
    ensures
        is_plain(optimized(f)),
        settled(optimized(f)),
    decreases weight(f),
{
    match f {
        Formula::True | Formula::False | Formula::Var(_) => {},
        Formula::Not(x) => {
            lemma_optimized_settled(*x);
        },
        Formula::And(l, r) | Formula::Or(l, r) => {
            lemma_optimized_settled(*l);
            lemma_optimized_settled(*r);
        },
        Formula::Xor(l, r) => {
            lemma_optimized_settled(*l);
            lemma_optimized_settled(*r);
            lemma_optimized_weight(*l);
            lemma_optimized_weight(*r);
            lemma_form_weights(optimized(*l), optimized(*r));
            lemma_optimized_settled(xor_form(optimized(*l), optimized(*r)));
        },
        Formula::Implies(l, r) => {
            lemma_form_weights(*l, *r);
            lemma_optimized_settled(crate::rewrite::implies_form(*l, *r));
        },
        Formula::Iff(l, r) | Formula::Equals(l, r) => {
            lemma_form_weights(*l, *r);
            lemma_optimized_settled(crate::rewrite::iff_form(*l, *r));
        },
    }
}

/// A plain formula that simplifying leaves as it is holds no negation of a
/// negation.
pub proof fn lemma_fixed_point(f: Formula)
    requires
        is_plain(f),
        optimized(f) == f,
    ensures
        !has_double_negation(f),
    decreases f,
{
    match f {
        Formula::Not(x) => {
            let y = optimized(*x);
            lemma_optimized_weight(*x);
            assert(not_rule(y) == f);
            match y {
                Formula::Not(w) => {
                    assert(*w == f);
                    assert(weight(y) == 1 + weight(f));
                    assert(false);
                },
                _ => {},
            }
            assert(y == *x);
            lemma_fixed_point(*x);
        },
        Formula::And(l, r) => {
            let a = optimized(*l);
            let b = optimized(*r);
            lemma_optimized_weight(*l);
            lemma_optimized_weight(*r);
            assert(and_rule(a, b) == f);
            assert(a != f && b != f);
            assert(a == *l && b == *r);
            lemma_fixed_point(*l);
            lemma_fixed_point(*r);
        },
        Formula::Or(l, r) => {
            let a = optimized(*l);
            let b = optimized(*r);
            lemma_optimized_weight(*l);
            lemma_optimized_weight(*r);
            assert(or_rule(a, b) == f);
            assert(a != f && b != f);
            assert(a == *l && b == *r);
            lemma_fixed_point(*l);
            lemma_fixed_point(*r);
        },
        _ => {},
    }
}

/// Simplification is idempotent: simplifying a simplified formula leaves it
/// as it is, where it holds no negation of a negation.
pub proof fn lemma_optimize_idempotent(f: Formula)
    requires
        !has_double_negation(optimized(f)),
    ensures
        optimized(optimized(f)) == optimized(f),
{
    lemma_optimized_settled(f);
}

/// Where a simplified formula holds a negation of a negation, simplifying
/// it again changes it: the formulas that `lemma_optimize_idempotent` leaves
/// out are those of which it does not hold.
pub proof fn lemma_optimize_not_idempotent(f: Formula)
    requires
        has_double_negation(optimized(f)),
    ensures
        optimized(optimized(f)) != optimized(f),
{
    lemma_optimized_settled(f);
    if optimized(optimized(f)) == optimized(f) {
        lemma_fixed_point(optimized(f));
    }
}

/// Whether an exclusive or occurs in the formula.
pub open spec fn has_xor(f: Formula) -> bool
    decreases f,
{
    match f {
        Formula::True | Formula::False | Formula::Var(_) => false,
        Formula::Not(x) => has_xor(*x),
        Formula::Xor(_, _) => true,
        Formula::And(l, r)
        | Formula::Or(l, r)
        | Formula::Implies(l, r)
        | Formula::Iff(l, r)
        | Formula::Equals(l, r) => has_xor(*l) || has_xor(*r),
    }
}

/// The simplified form of a formula without exclusive or holds no negation
/// of a negation: on such formulas simplification is idempotent.
pub proof fn lemma_optimize_idempotent_without_xor(f: Formula)
    requires
        !has_xor(f),
    ensures
        !has_double_negation(optimized(f)),
        optimized(optimized(f)) == optimized(f),
    decreases weight(f),
{
    match f {
        Formula::True | Formula::False | Formula::Var(_) => {},
        Formula::Not(x) => {
            lemma_optimize_idempotent_without_xor(*x);
        },
        Formula::And(l, r) | Formula::Or(l, r) => {
            lemma_optimize_idempotent_without_xor(*l);
            lemma_optimize_idempotent_without_xor(*r);
        },
        Formula::Xor(_, _) => {},
        Formula::Implies(l, r) => {
            lemma_form_weights(*l, *r);
            reveal_with_fuel(has_xor, 3);
            lemma_optimize_idempotent_without_xor(crate::rewrite::implies_form(*l, *r));
        },
        Formula::Iff(l, r) | Formula::Equals(l, r) => {
            lemma_form_weights(*l, *r);
            reveal_with_fuel(has_xor, 4);
            lemma_optimize_idempotent_without_xor(crate::rewrite::iff_form(*l, *r));
        },
    }
    lemma_optimize_idempotent(f);
}

/// A truth table is in canonical form: its header holds the names in
/// order, none twice, and then the label `eval`; its rows are in order,
/// false before true, none twice.
pub proof fn lemma_table_canonical(f: Formula)
    ensures
        strictly_ascending::<&'static str>(truth_table(f).header.drop_last()),
        truth_table(f).header.drop_last().to_set() == f.free_vars(),
        truth_table(f).header.last() == "eval"@,
        strictly_ascending::<Vec<bool>>(truth_table(f).rows),
{
    lemma_variables(f);
    lemma_truth_table_rows(f);
    assert(truth_table(f).header.drop_last() =~= crate::truth::variables(f));
}

/// A truth table is complete: for a formula with `n` names it has `2^n`
/// rows, each of `n` truth values and the result, and no two rows hold the
/// same assignment.
pub proof fn lemma_table_complete(f: Formula)
    ensures
        truth_table(f).header.len() == f.free_vars().len() + 1,
        truth_table(f).rows.len() == pow2(f.free_vars().len()),
        forall|i: int|
            0 <= i < truth_table(f).rows.len() ==> (#[trigger] truth_table(f).rows[i]).len()
                == f.free_vars().len() + 1,
        forall|i: int, j: int|
            0 <= i < truth_table(f).rows.len() && 0 <= j < truth_table(f).rows.len() && i != j ==> (
            #[trigger] truth_table(f).rows[i]).drop_last() != (#[trigger] truth_table(f).rows[j]).drop_last(),
{
    lemma_variables(f);
    lemma_truth_table_rows(f);
}

} // verus!
