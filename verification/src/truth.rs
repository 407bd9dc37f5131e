//! What a truth table is: the names of a formula in order, the assignments to
//! them in order, and the value of the formula under each.

use vstd::arithmetic::power2::{lemma_pow2_unfold, pow2};
use vstd::prelude::*;

verus! {

use crate::formula::{lemma_free_vars, Formula};
use crate::order::{
    ascending, key_order, lemma_key_order_total, lemma_lex_push, lemma_same_items, lemma_sorted_form,
    lemma_strictly_ascending_unique, lex_le, strictly_ascending, Sortable,
};

/// The order of names: lexicographic by code point.
pub open spec fn name_order() -> spec_fn(Seq<char>, Seq<char>) -> bool {
    key_order::<&'static str>()
}

/// The order of rows of truth values: lexicographic, false before true.
pub open spec fn row_order() -> spec_fn(Seq<bool>, Seq<bool>) -> bool {
    key_order::<Vec<bool>>()
}

/// The names that occur in a formula, each once, in order.
pub open spec fn variables(f: Formula) -> Seq<Seq<char>> {
    f.free_vars().to_sorted_seq(name_order())
}

proof fn lemma_to_seq_distinct<A>(s: Set<A>)
    requires
        s.finite(),
    ensures
        s.to_seq().no_duplicates(),
        s.to_seq().to_set() == s,
    decreases s.len(),
{
    s.lemma_to_seq_to_set_id();
    if s.len() != 0 {
        let x = s.choose();
        let rest = s.remove(x).to_seq();
        lemma_to_seq_distinct(s.remove(x));
        assert(!rest.contains(x)) by {
            if rest.contains(x) {
                assert(rest.to_set().contains(x));
            }
        }
        assert(s.to_seq() =~= seq![x] + rest);
    }
}

/// A finite set, put in order, is a sequence in order without a key twice
/// that holds what the set holds.
pub proof fn lemma_sorted_set<T: Sortable>(s: Set<T::Key>)
    requires
        s.finite(),
    ensures
        strictly_ascending::<T>(s.to_sorted_seq(key_order::<T>())),
        s.to_sorted_seq(key_order::<T>()).to_set() == s,
        s.to_sorted_seq(key_order::<T>()).len() == s.len(),
{
    broadcast use vstd::seq_lib::group_to_multiset_ensures;
    let unsorted = s.to_seq();
    let sorted = s.to_sorted_seq(key_order::<T>());
    lemma_to_seq_distinct(s);
    lemma_key_order_total::<T>();
    unsorted.lemma_sort_by_ensures(key_order::<T>());
    unsorted.lemma_multiset_has_no_duplicates();
    sorted.lemma_multiset_has_no_duplicates_conv();
    assert(sorted.to_set() =~= s) by {
        assert forall|k: T::Key| sorted.contains(k) == unsorted.contains(k) by {
            assert(sorted.to_multiset().count(k) == unsorted.to_multiset().count(k));
        }
    }
    sorted.unique_seq_to_set();
}

/// The variables of a formula are in order, none twice, and they are the
/// names that occur in it.
pub proof fn lemma_variables(f: Formula)
    ensures
        strictly_ascending::<&'static str>(variables(f)),
        variables(f).to_set() == f.free_vars(),
        variables(f).len() == f.free_vars().len(),
{
    lemma_free_vars(f);
    lemma_sorted_set::<&'static str>(f.free_vars());
}

/// A sequence of names in order, none twice, that holds the names of a
/// formula is the sequence of its variables.
pub proof fn lemma_variables_are(f: Formula, names: Seq<Seq<char>>)
    requires
        strictly_ascending::<&'static str>(names),
        names.to_set() == f.free_vars(),
    ensures
        variables(f) == names,
{
    lemma_variables(f);
    lemma_strictly_ascending_unique::<&'static str>(variables(f), names);
}

/// Every sequence of `n` truth values, in order: false before true, the
/// first position deciding first.
pub open spec fn assignments(n: nat) -> Seq<Seq<bool>>
    decreases n,
{
    if n == 0 {
        seq![Seq::empty()]
    } else {
        let shorter = assignments((n - 1) as nat);
        shorter.map_values(|a: Seq<bool>| seq![false] + a) + shorter.map_values(
            |a: Seq<bool>| seq![true] + a,
        )
    }
}

/// There are `2^n` assignments to `n` names, each of length `n`; every
/// sequence of `n` truth values is among them; and they are in order, none
/// twice.
pub proof fn lemma_assignments(n: nat)
    ensures
        assignments(n).len() == pow2(n),
        forall|i: int| 0 <= i < assignments(n).len() ==> (#[trigger] assignments(n)[i]).len() == n,
        forall|bits: Seq<bool>| bits.len() == n ==> #[trigger] assignments(n).contains(bits),
        strictly_ascending::<Vec<bool>>(assignments(n)),
    decreases n,
{
    let all = assignments(n);
    let le = row_order();
    if n == 0 {
        vstd::arithmetic::power2::lemma2_to64();
        assert forall|bits: Seq<bool>| bits.len() == n implies #[trigger] all.contains(bits) by {
            assert(bits =~= all[0]);
        }
    } else {
        let shorter = assignments((n - 1) as nat);
        let half = shorter.len() as int;
        lemma_assignments((n - 1) as nat);
        lemma_pow2_unfold(n);
        let at = |i: int| if i < half { i } else { i - half };
        assert(half > 0) by {
            vstd::arithmetic::power2::lemma_pow2_pos((n - 1) as nat);
        }
        assert forall|i: int| 0 <= i < all.len() implies #[trigger] all[i] == seq![i >= half] + shorter[at(i)]
            && all[i].drop_first() == shorter[at(i)] by {
            assert((seq![i >= half] + shorter[at(i)]).drop_first() =~= shorter[at(i)]);
        }
        assert forall|bits: Seq<bool>| bits.len() == n implies #[trigger] all.contains(bits) by {
            let tail = bits.drop_first();
            assert(shorter.contains(tail));
            let j = choose|j: int| 0 <= j < shorter.len() && shorter[j] == tail;
            let i = if bits[0] { j + half } else { j };
            assert(at(i) == j);
            assert(all[i] =~= bits);
        }
        assert forall|i: int, j: int| 0 <= i < j < all.len() implies #[trigger] le(all[i], all[j]) by {
            let a = all[i];
            let b = all[j];
            assert(a == seq![i >= half] + shorter[at(i)] && b == seq![j >= half] + shorter[at(j)]);
            if (i >= half) == (j >= half) {
                assert(at(i) < at(j));
                assert(row_order()(shorter[at(i)], shorter[at(j)]));
                assert(a[0] == b[0]);
                assert(lex_le(a, b, key_order::<bool>()) == lex_le(
                    a.drop_first(),
                    b.drop_first(),
                    key_order::<bool>(),
                ));
            } else {
                assert(!a[0] && b[0]);
                assert(lex_le(a, b, key_order::<bool>()));
            }
        }
        assert forall|i: int, j: int| 0 <= i < all.len() && 0 <= j < all.len() && i != j implies all[i]
            != all[j] by {
            assert(all[i] == seq![i >= half] + shorter[at(i)] && all[j] == seq![j >= half] + shorter[at(j)]);
            if all[i] == all[j] {
                assert(all[i][0] == all[j][0]);
                assert(all[i].drop_first() == all[j].drop_first());
                assert(at(i) != at(j));
            }
        }
    }
}

/// The product of the numbers from 1 to `n`.
pub open spec fn factorial(n: nat) -> nat
    decreases n,
{
    if n == 0 {
        1
    } else {
        n * factorial((n - 1) as nat)
    }
}

/// Whether the assignments to the variables of `f` can be enumerated on this
/// machine: the factorial of their number fits in a `usize`.
pub open spec fn enumerable(f: Formula) -> bool {
    factorial(f.free_vars().len()) <= usize::MAX
}

/// A factorial is at least 1, and no smaller than the factorial of a
/// smaller number.
pub proof fn lemma_factorial_grows(m: nat, n: nat)
    requires
        m <= n,
    ensures
        1 <= factorial(m) <= factorial(n),
    decreases n,
{
    if n > 0 {
        lemma_factorial_grows(0, (n - 1) as nat);
        assert(factorial(n) >= factorial((n - 1) as nat)) by (nonlinear_arith)
            requires
                factorial(n) == n * factorial((n - 1) as nat),
                n >= 1,
                factorial((n - 1) as nat) >= 1,
        ;
        if m < n {
            lemma_factorial_grows(m, (n - 1) as nat);
        }
    }
}

/// A formula with no more than twelve names is enumerable on every machine.
pub proof fn lemma_enumerable_small(f: Formula)
    requires
        f.free_vars().len() <= 12,
    ensures
        enumerable(f),
{
    assert(factorial(12) == 479001600) by {
        reveal_with_fuel(factorial, 13);
    }
    lemma_factorial_grows(f.free_vars().len(), 12);
}

/// A formula that holds no name that an enumerable formula does not hold is
/// enumerable.
pub proof fn lemma_enumerable_within(part: Formula, whole: Formula)
    requires
        part.free_vars().subset_of(whole.free_vars()),
        enumerable(whole),
    ensures
        enumerable(part),
{
    lemma_free_vars(part);
    lemma_free_vars(whole);
    vstd::set_lib::lemma_len_subset(part.free_vars(), whole.free_vars());
    lemma_factorial_grows(part.free_vars().len(), whole.free_vars().len());
}

/// The items of `items` at the positions that `mask` marks, in their order.
pub open spec fn pick<A>(items: Seq<A>, mask: Seq<bool>) -> Seq<A>
    decreases items.len(),
{
    if items.len() == 0 || mask.len() == 0 {
        Seq::empty()
    } else if mask[0] {
        seq![items[0]] + pick(items.drop_first(), mask.drop_first())
    } else {
        pick(items.drop_first(), mask.drop_first())
    }
}

/// How many positions `mask` marks.
pub open spec fn count_true(mask: Seq<bool>) -> nat
    decreases mask.len(),
{
    if mask.len() == 0 {
        0
    } else if mask[0] {
        1 + count_true(mask.drop_first())
    } else {
        count_true(mask.drop_first())
    }
}

/// The names among `names` whose position `flags` marks.
pub open spec fn chosen(names: Seq<Seq<char>>, flags: Seq<bool>) -> Set<Seq<char>> {
    Set::new(
        |n: Seq<char>| exists|j: int| 0 <= j < names.len() && j < flags.len() && flags[j] && #[trigger] names[j] == n,
    )
}

/// For each of `names`, whether `part` holds it.
pub open spec fn membership(names: Seq<Seq<char>>, part: Seq<Seq<char>>) -> Seq<bool> {
    names.map_values(|n: Seq<char>| part.contains(n))
}

/// Whether `part` holds some of `items`, in their order in `items`.
pub open spec fn is_selection(part: Seq<Seq<char>>, items: Seq<Seq<char>>) -> bool {
    exists|mask: Seq<bool>| mask.len() == items.len() && part == #[trigger] pick(items, mask)
}

/// The order of lists of names: lexicographic by the order of names.
pub open spec fn list_order() -> spec_fn(Seq<Seq<char>>, Seq<Seq<char>>) -> bool {
    key_order::<Vec<&'static str>>()
}

/// Every selection of `items`, in order.
pub open spec fn selections(items: Seq<Seq<char>>) -> Seq<Seq<Seq<char>>> {
    Set::new(|part: Seq<Seq<char>>| is_selection(part, items)).to_sorted_seq(list_order())
}

/// One line of an evaluation: each name with its truth value, and the truth
/// value of the formula.
pub struct EvaluationModel {
    pub values: Seq<(Seq<char>, bool)>,
    pub result: bool,
}

/// A truth table: the names and a label, and one row per assignment.
pub struct TableModel {
    pub header: Seq<Seq<char>>,
    pub rows: Seq<Seq<bool>>,
}

/// The evaluation of `f` where, of `names`, exactly those in `part` are
/// true.
pub open spec fn evaluation_of(f: Formula, names: Seq<Seq<char>>, part: Seq<Seq<char>>) -> EvaluationModel {
    EvaluationModel {
        values: names.map_values(|n: Seq<char>| (n, part.contains(n))),
        result: f.holds(part.to_set()),
    }
}

/// The evaluations of `f`, one per selection of its variables, in the order
/// of the selections.
pub open spec fn evaluations(f: Formula) -> Seq<EvaluationModel> {
    selections(variables(f)).map_values(|part: Seq<Seq<char>>| evaluation_of(f, variables(f), part))
}

/// The row of an evaluation: the truth values of the names, then the result.
pub open spec fn row_of(e: EvaluationModel) -> Seq<bool> {
    e.values.map_values(|v: (Seq<char>, bool)| v.1).push(e.result)
}

/// The rows of a sequence of evaluations, in the order of the evaluations.
pub open spec fn rows_of(evaluations: Seq<EvaluationModel>) -> Seq<Seq<bool>> {
    evaluations.map_values(|e: EvaluationModel| row_of(e))
}

/// The table of a sequence of evaluations: the names of the first one and
/// the label `eval`, and the rows in order. Empty where there is no
/// evaluation.
pub open spec fn table_of(evaluations: Seq<EvaluationModel>) -> TableModel {
    TableModel {
        header: if evaluations.len() == 0 {
            Seq::empty()
        } else {
            evaluations[0].values.map_values(|v: (Seq<char>, bool)| v.0).push("eval"@)
        },
        rows: rows_of(evaluations).sort_by(row_order()),
    }
}

/// The row of a truth table for one assignment: the truth values of the
/// variables, then the truth value of the formula where exactly the
/// variables that `bits` marks are true.
pub open spec fn table_row(f: Formula, bits: Seq<bool>) -> Seq<bool> {
    bits.push(f.holds(chosen(variables(f), bits)))
}

/// The truth table of a formula: its variables in order and the label
/// `eval`, and one row for each assignment to the variables, in the order
/// of the assignments.
pub open spec fn truth_table(f: Formula) -> TableModel {
    TableModel {
        header: variables(f).push("eval"@),
        rows: assignments(variables(f).len()).map_values(|bits: Seq<bool>| table_row(f, bits)),
    }
}

/// What `pick` holds: the items at the marked positions.
pub proof fn lemma_pick_members<A>(items: Seq<A>, mask: Seq<bool>)
    requires
        mask.len() == items.len(),
    ensures
        forall|x: A|
            pick(items, mask).contains(x) <==> (exists|j: int|
                0 <= j < items.len() && mask[j] && #[trigger] items[j] == x),
        pick(items, mask).len() == count_true(mask),
        count_true(mask) <= mask.len(),
    decreases items.len(),
{
    let part = pick(items, mask);
    if items.len() == 0 {
    } else {
        let rest = pick(items.drop_first(), mask.drop_first());
        lemma_pick_members(items.drop_first(), mask.drop_first());
        assert forall|x: A| part.contains(x) implies (exists|j: int|
            0 <= j < items.len() && mask[j] && #[trigger] items[j] == x) by {
            let i = choose|i: int| 0 <= i < part.len() && part[i] == x;
            if mask[0] && i == 0 {
                assert(items[0] == x);
            } else {
                assert(rest[if mask[0] { i - 1 } else { i }] == x);
                assert(rest.contains(x));
                let j = choose|j: int|
                    0 <= j < items.drop_first().len() && mask.drop_first()[j] && #[trigger] items.drop_first()[j]
                        == x;
                assert(items[j + 1] == x);
            }
        }
        assert forall|x: A|
            (exists|j: int| 0 <= j < items.len() && mask[j] && #[trigger] items[j] == x) implies part.contains(
            x,
        ) by {
            let j = choose|j: int| 0 <= j < items.len() && mask[j] && #[trigger] items[j] == x;
            if j == 0 {
                assert(part[0] == x);
            } else {
                assert(items.drop_first()[j - 1] == x && mask.drop_first()[j - 1]);
                assert(rest.contains(x));
                let i = choose|i: int| 0 <= i < rest.len() && rest[i] == x;
                assert(part[if mask[0] { i + 1 } else { i }] == x);
            }
        }
    }
}

/// A mask that marks no position picks nothing.
pub proof fn lemma_pick_nothing<A>(items: Seq<A>)
    ensures
        pick(items, Seq::new(items.len(), |j: int| false)) == Seq::<A>::empty(),
    decreases items.len(),
{
    if items.len() > 0 {
        let none = Seq::new(items.len(), |j: int| false);
        lemma_pick_nothing(items.drop_first());
        assert(none.drop_first() =~= Seq::new(items.drop_first().len(), |j: int| false));
    }
}

/// Among names of which none occurs twice, a mask can be read off what it
/// picks.
pub proof fn lemma_pick_names(names: Seq<Seq<char>>, mask: Seq<bool>)
    requires
        names.no_duplicates(),
        mask.len() == names.len(),
    ensures
        membership(names, pick(names, mask)) == mask,
        pick(names, mask).to_set() == chosen(names, mask),
{
    lemma_pick_members(names, mask);
    let part = pick(names, mask);
    assert(membership(names, part) =~= mask) by {
        assert forall|j: int| 0 <= j < names.len() implies part.contains(names[j]) == mask[j] by {
            if part.contains(names[j]) {
                let k = choose|k: int| 0 <= k < names.len() && mask[k] && #[trigger] names[k] == names[j];
                assert(k == j);
            }
        }
    }
    assert(part.to_set() =~= chosen(names, mask));
}

/// The selections of `items` are in order, none twice, and they are the
/// sequences that hold some of `items` in their order.
pub proof fn lemma_selections(items: Seq<Seq<char>>)
    ensures
        strictly_ascending::<Vec<&'static str>>(selections(items)),
        forall|part: Seq<Seq<char>>| selections(items).contains(part) <==> is_selection(part, items),
{
    broadcast use vstd::seq_lib::seq_to_set_is_finite;
    let all = Set::new(|part: Seq<Seq<char>>| is_selection(part, items));
    let listed = assignments(items.len()).map_values(|mask: Seq<bool>| pick(items, mask));
    lemma_assignments(items.len());
    assert(all =~= listed.to_set()) by {
        assert forall|part: Seq<Seq<char>>| all.contains(part) implies listed.contains(part) by {
            let mask = choose|mask: Seq<bool>| mask.len() == items.len() && part == #[trigger] pick(items, mask);
            assert(assignments(items.len()).contains(mask));
            let i = choose|i: int| 0 <= i < assignments(items.len()).len() && assignments(items.len())[i] == mask;
            assert(listed[i] == part);
        }
        assert forall|part: Seq<Seq<char>>| listed.contains(part) implies all.contains(part) by {
            let i = choose|i: int| 0 <= i < listed.len() && listed[i] == part;
            assert(part == pick(items, assignments(items.len())[i]));
        }
    }
    lemma_sorted_set::<Vec<&'static str>>(all);
    assert forall|part: Seq<Seq<char>>| selections(items).contains(part) <==> is_selection(part, items) by {
        assert(selections(items).to_set().contains(part) == all.contains(part));
    }
}

/// The rows of a truth table are as many as the assignments to the
/// variables, each an assignment and one truth value more, and they are in
/// order with no assignment twice.
pub proof fn lemma_truth_table_rows(f: Formula)
    ensures
        truth_table(f).rows.len() == pow2(variables(f).len()),
        forall|i: int|
            0 <= i < truth_table(f).rows.len() ==> (#[trigger] truth_table(f).rows[i]).drop_last()
                == assignments(variables(f).len())[i] && truth_table(f).rows[i].len() == variables(f).len() + 1,
        forall|i: int, j: int|
            0 <= i < truth_table(f).rows.len() && 0 <= j < truth_table(f).rows.len() && i != j ==> (
            #[trigger] truth_table(f).rows[i]).drop_last() != (#[trigger] truth_table(f).rows[j]).drop_last(),
        strictly_ascending::<Vec<bool>>(truth_table(f).rows),
{
    let names = variables(f);
    let all = assignments(names.len());
    let table = truth_table(f).rows;
    lemma_assignments(names.len());
    assert forall|i: int| 0 <= i < table.len() implies (#[trigger] table[i]).drop_last() == all[i] && table[i].len()
        == names.len() + 1 by {
        assert(table[i].drop_last() =~= all[i]);
    }
    let le = row_order();
    assert forall|i: int, j: int| 0 <= i < j < table.len() implies #[trigger] le(table[i], table[j]) by {
        assert(le(all[i], all[j]));
        lemma_lex_push(
            all[i],
            all[j],
            f.holds(chosen(names, all[i])),
            f.holds(chosen(names, all[j])),
            key_order::<bool>(),
        );
    }
    assert(ascending::<Vec<bool>>(table));
}

/// A sequence of lists of names in order, none twice, that holds the
/// selections of `items` and nothing else is the sequence of the selections
/// of `items`.
pub proof fn lemma_selections_are(items: Seq<Seq<char>>, lists: Seq<Seq<Seq<char>>>)
    requires
        strictly_ascending::<Vec<&'static str>>(lists),
        forall|part: Seq<Seq<char>>| lists.contains(part) <==> is_selection(part, items),
    ensures
        selections(items) == lists,
{
    lemma_selections(items);
    assert(selections(items).to_set() =~= lists.to_set()) by {
        assert forall|part: Seq<Seq<char>>| selections(items).contains(part) == lists.contains(part) by {}
    }
    lemma_strictly_ascending_unique::<Vec<&'static str>>(selections(items), lists);
}

/// The table of the evaluations of a formula is its truth table.
pub proof fn lemma_table_of_evaluations(f: Formula)
    ensures
        table_of(evaluations(f)) == truth_table(f),
{
    let names = variables(f);
    let n = names.len();
    let parts = selections(names);
    let evals = evaluations(f);
    let rows = rows_of(evals);
    let all = assignments(n);
    let table = truth_table(f).rows;
    lemma_variables(f);
    lemma_selections(names);
    lemma_assignments(n);
    // Each row is the table's row for the assignment that its selection stands for.
    assert forall|i: int| 0 <= i < rows.len() implies {
        let bits = membership(names, parts[i]);
        &&& bits.len() == n
        &&& parts[i] == pick(names, bits)
        &&& #[trigger] rows[i] == table_row(f, bits)
    } by {
        assert(parts.contains(parts[i]));
        assert(is_selection(parts[i], names));
        let mask = choose|mask: Seq<bool>| mask.len() == names.len() && parts[i] == #[trigger] pick(names, mask);
        lemma_pick_names(names, mask);
        assert(evals[i] == evaluation_of(f, names, parts[i]));
        assert(evals[i].values.map_values(|v: (Seq<char>, bool)| v.1) =~= mask);
        assert(rows[i] =~= table_row(f, mask));
    }
    assert(parts.len() > 0 && evals[0].values.map_values(|v: (Seq<char>, bool)| v.0) == names) by {
        let none = Seq::new(n, |j: int| false);
        assert(is_selection(pick(names, none), names));
        assert(parts.contains(pick(names, none)));
        assert(evals[0].values.map_values(|v: (Seq<char>, bool)| v.0) =~= names);
    }
    lemma_truth_table_rows(f);
    assert(rows.no_duplicates()) by {
        assert forall|i: int, j: int| 0 <= i < rows.len() && 0 <= j < rows.len() && i != j implies rows[i]
            != rows[j] by {
            assert(rows[i].drop_last() =~= membership(names, parts[i]));
            assert(rows[j].drop_last() =~= membership(names, parts[j]));
        }
    }
    assert(rows.to_set() =~= table.to_set()) by {
        assert forall|row: Seq<bool>| rows.contains(row) implies table.contains(row) by {
            let i = choose|i: int| 0 <= i < rows.len() && rows[i] == row;
            let bits = membership(names, parts[i]);
            assert(all.contains(bits));
            let k = choose|k: int| 0 <= k < all.len() && all[k] == bits;
            assert(table[k] == row);
        }
        assert forall|row: Seq<bool>| table.contains(row) implies rows.contains(row) by {
            let k = choose|k: int| 0 <= k < table.len() && table[k] == row;
            let part = pick(names, all[k]);
            lemma_pick_names(names, all[k]);
            assert(is_selection(part, names));
            assert(parts.contains(part));
            let i = choose|i: int| 0 <= i < parts.len() && parts[i] == part;
            assert(rows[i] == row);
        }
    }
    lemma_same_items(table, rows);
    lemma_sorted_form::<Vec<bool>>(table, rows);
}

} // verus!
