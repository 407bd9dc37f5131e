//! Total orders on the values the library sorts: truth values, names, and
//! sequences of either, compared lexicographically.

use vstd::prelude::*;
use vstd::relations::*;
use vstd::std_specs::iter::IteratorSpec;

verus! {

/// Lexicographic comparison of two sequences: `a` comes no later than `b`.
///
/// The first position at which the sequences differ decides; a sequence that
/// is a prefix of another comes first.
pub open spec fn lex_le<K>(a: Seq<K>, b: Seq<K>, le: spec_fn(K, K) -> bool) -> bool
    decreases a.len(),
{
    if a.len() == 0 {
        true
    } else if b.len() == 0 {
        false
    } else if a[0] == b[0] {
        lex_le(a.drop_first(), b.drop_first(), le)
    } else {
        le(a[0], b[0])
    }
}

/// A sequence comes no later than itself.
pub proof fn lemma_lex_reflexive<K>(a: Seq<K>, le: spec_fn(K, K) -> bool)
    ensures
        lex_le(a, a, le),
    decreases a.len(),
{
    if a.len() > 0 {
        lemma_lex_reflexive(a.drop_first(), le);
    }
}

/// Two sequences of which each comes no later than the other are one.
pub proof fn lemma_lex_antisymmetric<K>(a: Seq<K>, b: Seq<K>, le: spec_fn(K, K) -> bool)
    requires
        antisymmetric(le),
        lex_le(a, b, le),
        lex_le(b, a, le),
    ensures
        a == b,
    decreases a.len(),
{
    if a.len() == 0 || b.len() == 0 {
        assert(a =~= b);
    } else {
        assert(a[0] == b[0]);
        lemma_lex_antisymmetric(a.drop_first(), b.drop_first(), le);
        assert(a =~= seq![a[0]] + a.drop_first());
        assert(b =~= seq![b[0]] + b.drop_first());
    }
}

/// What comes no later than a sequence comes no later than what that
/// sequence comes no later than.
pub proof fn lemma_lex_transitive<K>(a: Seq<K>, b: Seq<K>, c: Seq<K>, le: spec_fn(K, K) -> bool)
    requires
        antisymmetric(le),
        transitive(le),
        lex_le(a, b, le),
        lex_le(b, c, le),
    ensures
        lex_le(a, c, le),
    decreases a.len(),
{
    if a.len() > 0 {
        assert(b.len() > 0 && c.len() > 0);
        if a[0] == b[0] && b[0] == c[0] {
            lemma_lex_transitive(a.drop_first(), b.drop_first(), c.drop_first(), le);
        } else if a[0] == c[0] {
            assert(le(a[0], b[0]) && le(b[0], a[0]));
        } else if a[0] != b[0] && b[0] != c[0] {
            assert(le(a[0], b[0]) && le(b[0], c[0]));
        }
    }
}

/// Of two sequences one comes no later than the other.
pub proof fn lemma_lex_connected<K>(a: Seq<K>, b: Seq<K>, le: spec_fn(K, K) -> bool)
    requires
        strongly_connected(le),
    ensures
        lex_le(a, b, le) || lex_le(b, a, le),
    decreases a.len(),
{
    if a.len() > 0 && b.len() > 0 {
        if a[0] == b[0] {
            lemma_lex_connected(a.drop_first(), b.drop_first(), le);
        } else {
            assert(le(a[0], b[0]) || le(b[0], a[0]));
        }
    }
}

/// The lexicographic order built on a total order is a total order.
pub proof fn lemma_lex_total<K>(le: spec_fn(K, K) -> bool)
    requires
        total_ordering(le),
    ensures
        forall|a: Seq<K>| #[trigger] lex_le(a, a, le),
        forall|a: Seq<K>, b: Seq<K>| #[trigger] lex_le(a, b, le) && #[trigger] lex_le(b, a, le) ==> a == b,
        forall|a: Seq<K>, b: Seq<K>, c: Seq<K>|
            #[trigger] lex_le(a, b, le) && #[trigger] lex_le(b, c, le) ==> lex_le(a, c, le),
        forall|a: Seq<K>, b: Seq<K>| #[trigger] lex_le(a, b, le) || #[trigger] lex_le(b, a, le),
{
    assert forall|a: Seq<K>| #[trigger] lex_le(a, a, le) by {
        lemma_lex_reflexive(a, le);
    }
    assert forall|a: Seq<K>, b: Seq<K>| #[trigger] lex_le(a, b, le) && #[trigger] lex_le(b, a, le) implies a
        == b by {
        lemma_lex_antisymmetric(a, b, le);
    }
    assert forall|a: Seq<K>, b: Seq<K>, c: Seq<K>| #[trigger] lex_le(a, b, le) && #[trigger] lex_le(
        b,
        c,
        le,
    ) implies lex_le(a, c, le) by {
        lemma_lex_transitive(a, b, c, le);
    }
    assert forall|a: Seq<K>, b: Seq<K>| #[trigger] lex_le(a, b, le) || #[trigger] lex_le(b, a, le) by {
        lemma_lex_connected(a, b, le);
    }
}

/// Two sequences that agree on their first `i` items compare as their
/// remainders do.
pub proof fn lemma_lex_skip_common<K>(a: Seq<K>, b: Seq<K>, le: spec_fn(K, K) -> bool, i: int)
    requires
        0 <= i <= a.len(),
        i <= b.len(),
        a.subrange(0, i) == b.subrange(0, i),
    ensures
        lex_le(a, b, le) == lex_le(a.subrange(i, a.len() as int), b.subrange(i, b.len() as int), le),
    decreases i,
{
    if i == 0 {
        assert(a.subrange(0, a.len() as int) =~= a);
        assert(b.subrange(0, b.len() as int) =~= b);
    } else {
        assert(a[0] == a.subrange(0, i)[0]);
        assert(b[0] == b.subrange(0, i)[0]);
        let a1 = a.drop_first();
        let b1 = b.drop_first();
        assert(a1.subrange(0, i - 1) =~= a.subrange(0, i).drop_first());
        assert(b1.subrange(0, i - 1) =~= b.subrange(0, i).drop_first());
        lemma_lex_skip_common(a1, b1, le, i - 1);
        assert(a1.subrange(i - 1, a1.len() as int) =~= a.subrange(i, a.len() as int));
        assert(b1.subrange(i - 1, b1.len() as int) =~= b.subrange(i, b.len() as int));
    }
}

/// A type whose values the library can put in order.
///
/// Every value has a key, a mathematical value, and keys are totally ordered
/// by `key_le`.
pub trait Sortable: Sized {
    type Key;

    /// The mathematical value by which this item is compared.
    spec fn key(&self) -> Self::Key;

    /// `a` comes no later than `b`.
    spec fn key_le(a: Self::Key, b: Self::Key) -> bool;

    /// `key_le` is reflexive, antisymmetric, transitive and total.
    proof fn lemma_key_le_total()
        ensures
            forall|a: Self::Key| #[trigger] Self::key_le(a, a),
            forall|a: Self::Key, b: Self::Key|
                #[trigger] Self::key_le(a, b) && #[trigger] Self::key_le(b, a) ==> a == b,
            forall|a: Self::Key, b: Self::Key, c: Self::Key|
                #[trigger] Self::key_le(a, b) && #[trigger] Self::key_le(b, c) ==> Self::key_le(a, c),
            forall|a: Self::Key, b: Self::Key|
                #[trigger] Self::key_le(a, b) || #[trigger] Self::key_le(b, a),
    ;

    /// Whether this item comes no later than `other`.
    fn not_after(&self, other: &Self) -> (r: bool)
        ensures
            r == Self::key_le(self.key(), other.key()),
    ;
}

/// The order of `T`'s keys, as a relation.
pub open spec fn key_order<T: Sortable>() -> spec_fn(T::Key, T::Key) -> bool {
    |a: T::Key, b: T::Key| T::key_le(a, b)
}

/// The keys of a sequence of items, in the same positions.
pub open spec fn keys<T: Sortable>(items: Seq<T>) -> Seq<T::Key> {
    items.map_values(|x: T| x.key())
}

/// The order of `T`'s keys is a total order.
pub proof fn lemma_key_order_total<T: Sortable>()
    ensures
        total_ordering(key_order::<T>()),
{
    T::lemma_key_le_total();
    let le = key_order::<T>();
    assert forall|a: T::Key, b: T::Key, c: T::Key| #[trigger] le(a, b) && #[trigger] le(b, c) implies le(a, c) by {
        assert(T::key_le(a, b) && T::key_le(b, c));
    }
}

/// Truth values: false before true.
impl Sortable for bool {
    type Key = bool;

    open spec fn key(&self) -> bool {
        *self
    }

    open spec fn key_le(a: bool, b: bool) -> bool {
        !a || b
    }

    proof fn lemma_key_le_total() {
    }

    fn not_after(&self, other: &Self) -> (r: bool) {
        !*self || *other
    }
}

/// `c` comes no later than `d` by code point.
pub open spec fn char_le(c: char, d: char) -> bool {
    c <= d
}

/// The order of characters, as a relation.
pub open spec fn char_order() -> spec_fn(char, char) -> bool {
    |c: char, d: char| char_le(c, d)
}

/// The order of characters is a total order.
pub proof fn lemma_char_order_total()
    ensures
        total_ordering(char_order()),
{
    let le = char_order();
    assert(reflexive(le));
    assert(antisymmetric(le));
    assert(transitive(le)) by {
        assert forall|a: char, b: char, c: char| #[trigger] le(a, b) && #[trigger] le(b, c) implies le(a, c) by {
            assert(char_le(a, b) && char_le(b, c));
        }
    }
    assert(strongly_connected(le));
}

/// Names: lexicographic by code point.
impl<'a> Sortable for &'a str {
    type Key = Seq<char>;

    open spec fn key(&self) -> Seq<char> {
        self@
    }

    open spec fn key_le(a: Seq<char>, b: Seq<char>) -> bool {
        lex_le(a, b, char_order())
    }

    proof fn lemma_key_le_total() {
        lemma_char_order_total();
        lemma_lex_total(char_order());
    }

    fn not_after(&self, other: &Self) -> (r: bool) {
        let mut xs = self.chars();
        let mut ys = other.chars();
        let ghost mut i: int = 0;
        loop
            invariant
                0 <= i <= self@.len(),
                i <= other@.len(),
                xs.remaining() == self@.subrange(i, self@.len() as int),
                ys.remaining() == other@.subrange(i, other@.len() as int),
                self@.subrange(0, i) == other@.subrange(0, i),
            decreases self@.len() - i,
        {
            proof {
                lemma_lex_skip_common(self@, other@, char_order(), i);
            }
            let x = xs.next();
            let y = ys.next();
            match (x, y) {
                (None, _) => {
                    return true;
                },
                (Some(_), None) => {
                    return false;
                },
                (Some(c), Some(d)) => {
                    if c != d {
                        proof {
                            let a = self@.subrange(i, self@.len() as int);
                            let b = other@.subrange(i, other@.len() as int);
                            assert(a[0] == c && b[0] == d);
                            assert(lex_le(a, b, char_order()) == char_le(c, d));
                        }
                        return c < d;
                    }
                },
            }
            proof {
                assert(self@.subrange(0, i + 1) =~= self@.subrange(0, i).push(self@[i]));
                assert(other@.subrange(0, i + 1) =~= other@.subrange(0, i).push(other@[i]));
                assert(xs.remaining() =~= self@.subrange(i + 1, self@.len() as int));
                assert(ys.remaining() =~= other@.subrange(i + 1, other@.len() as int));
                i = i + 1;
            }
        }
    }
}

/// Sequences of sortable items: lexicographic by the items' order.
impl<T: Sortable> Sortable for Vec<T> {
    type Key = Seq<T::Key>;

    open spec fn key(&self) -> Seq<T::Key> {
        keys(self@)
    }

    open spec fn key_le(a: Seq<T::Key>, b: Seq<T::Key>) -> bool {
        lex_le(a, b, key_order::<T>())
    }

    proof fn lemma_key_le_total() {
        lemma_key_order_total::<T>();
        lemma_lex_total(key_order::<T>());
    }

    fn not_after(&self, other: &Self) -> (r: bool) {
        let ghost a = keys(self@);
        let ghost b = keys(other@);
        let mut i: usize = 0;
        while i < self.len() && i < other.len()
            invariant
                i <= self.len(),
                i <= other.len(),
                a == keys(self@),
                b == keys(other@),
                a.subrange(0, i as int) == b.subrange(0, i as int),
            decreases self.len() - i,
        {
            let forth = self[i].not_after(&other[i]);
            let back = forth && other[i].not_after(&self[i]);
            proof {
                T::lemma_key_le_total();
                lemma_lex_skip_common(a, b, key_order::<T>(), i as int);
                let ra = a.subrange(i as int, a.len() as int);
                let rb = b.subrange(i as int, b.len() as int);
                assert(ra[0] == self[i as int].key() && rb[0] == other[i as int].key());
                if !back {
                    assert(ra[0] != rb[0]);
                    assert(lex_le(ra, rb, key_order::<T>()) == forth);
                } else {
                    assert(a.subrange(0, i + 1) =~= a.subrange(0, i as int).push(a[i as int]));
                    assert(b.subrange(0, i + 1) =~= b.subrange(0, i as int).push(b[i as int]));
                }
            }
            if !back {
                return forth;
            }
            i += 1;
        }
        proof {
            lemma_lex_skip_common(a, b, key_order::<T>(), i as int);
        }
        i == self.len()
    }
}

/// Whether each item of `lo` comes no later than each item of `hi`.
pub open spec fn all_le<T: Sortable>(lo: Seq<T::Key>, hi: Seq<T::Key>) -> bool {
    forall|i: int, j: int| 0 <= i < lo.len() && 0 <= j < hi.len() ==> T::key_le(#[trigger] lo[i], #[trigger] hi[j])
}

/// Whether the keys run from last to first in order.
pub open spec fn descending<T: Sortable>(s: Seq<T::Key>) -> bool {
    forall|i: int, j: int| 0 <= i < j < s.len() ==> T::key_le(#[trigger] s[j], #[trigger] s[i])
}

/// Whether the keys run from first to last in order.
pub open spec fn ascending<T: Sortable>(s: Seq<T::Key>) -> bool {
    sorted_by(s, key_order::<T>())
}

/// A sequence in order that holds the same items as `s`, each as often, is
/// the sorted form of `s`.
pub proof fn lemma_sorted_form<T: Sortable>(out: Seq<T::Key>, s: Seq<T::Key>)
    requires
        ascending::<T>(out),
        out.to_multiset() == s.to_multiset(),
    ensures
        out == s.sort_by(key_order::<T>()),
{
    lemma_key_order_total::<T>();
    s.lemma_sort_by_ensures(key_order::<T>());
    vstd::seq_lib::lemma_sorted_unique(out, s.sort_by(key_order::<T>()), key_order::<T>());
}

proof fn lemma_move_last<K>(from: Seq<K>, to: Seq<K>)
    requires
        from.len() > 0,
    ensures
        from.drop_last().to_multiset().add(to.push(from.last()).to_multiset())
            == from.to_multiset().add(to.to_multiset()),
{
    broadcast use vstd::seq_lib::group_to_multiset_ensures;
    assert(from =~= from.drop_last().push(from.last()));
    assert(from.drop_last().to_multiset().add(to.push(from.last()).to_multiset())
        =~= from.to_multiset().add(to.to_multiset()));
}

proof fn lemma_nothing_to_add<K>(none: Seq<K>, some: vstd::multiset::Multiset<K>)
    requires
        none.len() == 0,
    ensures
        none.to_multiset().add(some) == some,
        some.add(none.to_multiset()) == some,
{
    broadcast use vstd::seq_lib::group_to_multiset_ensures;
    assert forall|k: K| none.to_multiset().count(k) == 0 by {
        assert(!none.contains(k));
    }
    assert(none.to_multiset().add(some) =~= some);
    assert(some.add(none.to_multiset()) =~= some);
}

proof fn lemma_regroup<K>(
    a: vstd::multiset::Multiset<K>,
    b: vstd::multiset::Multiset<K>,
    c: vstd::multiset::Multiset<K>,
    a2: vstd::multiset::Multiset<K>,
    c2: vstd::multiset::Multiset<K>,
)
    requires
        a2.add(c2) == a.add(c),
    ensures
        a2.add(b.add(c2)) == a.add(b.add(c)),
        b.add(a2.add(c2)) == b.add(a.add(c)),
{
    broadcast use vstd::multiset::group_multiset_axioms;
    assert forall|k: K| a2.add(b.add(c2)).count(k) == a.add(b.add(c)).count(k) by {
        assert(a2.add(c2).count(k) == a2.count(k) + c2.count(k));
        assert(a.add(c).count(k) == a.count(k) + c.count(k));
        assert(b.add(c2).count(k) == b.count(k) + c2.count(k));
        assert(b.add(c).count(k) == b.count(k) + c.count(k));
    }
    assert(a2.add(b.add(c2)) =~= a.add(b.add(c)));
    assert(b.add(a2.add(c2)) =~= b.add(a.add(c)));
}

/// Moves the items of `stack` to a new vector, last item first.
fn unstack<T: Sortable>(stack: Vec<T>) -> (out: Vec<T>)
    requires
        descending::<T>(keys(stack@)),
    ensures
        ascending::<T>(keys(out@)),
        keys(out@).to_multiset() == keys(stack@).to_multiset(),
        keys(out@).to_set() == keys(stack@).to_set(),
        keys(stack@).no_duplicates() ==> keys(out@).no_duplicates(),
{
    let ghost orig = keys(stack@);
    let mut stack = stack;
    let mut out: Vec<T> = Vec::new();
    proof {
        lemma_nothing_to_add(keys(out@), orig.to_multiset());
        assert(orig.to_set().union(keys(out@).to_set()) =~= orig.to_set());
        assert(orig + keys(out@) =~= orig);
    }
    while stack.len() > 0
        invariant
            descending::<T>(keys(stack@)),
            ascending::<T>(keys(out@)),
            all_le::<T>(keys(out@), keys(stack@)),
            keys(stack@).to_multiset().add(keys(out@).to_multiset()) == orig.to_multiset(),
            keys(stack@).to_set().union(keys(out@).to_set()) == orig.to_set(),
            orig.no_duplicates() ==> (keys(stack@) + keys(out@)).no_duplicates(),
        decreases stack.len(),
    {
        let ghost before = keys(stack@);
        let ghost done = keys(out@);
        let x = stack.pop().unwrap();
        out.push(x);
        proof {
            assert(keys(stack@) =~= before.drop_last());
            assert(keys(out@) =~= done.push(before.last()));
            lemma_move_last(before, done);
            assert(keys(stack@).to_set().union(keys(out@).to_set()) =~= before.to_set().union(done.to_set())) by {
                assert forall|k: T::Key| before.contains(k) || done.contains(k)
                    implies keys(stack@).contains(k) || keys(out@).contains(k) by {
                    if before.contains(k) {
                        let i = choose|i: int| 0 <= i < before.len() && before[i] == k;
                        if i < before.len() - 1 {
                            assert(keys(stack@)[i] == k);
                        } else {
                            assert(keys(out@)[done.len() as int] == k);
                        }
                    } else {
                        let i = choose|i: int| 0 <= i < done.len() && done[i] == k;
                        assert(keys(out@)[i] == k);
                    }
                }
            }
            if orig.no_duplicates() {
                let joined = keys(stack@) + keys(out@);
                let was = before + done;
                assert forall|i: int, j: int| 0 <= i < joined.len() && 0 <= j < joined.len() && i != j
                    implies joined[i] != joined[j] by {
                    let pos = |p: int|
                        if p < before.len() - 1 {
                            p
                        } else if p == joined.len() - 1 {
                            before.len() - 1
                        } else {
                            p + 1
                        };
                    assert(joined[i] == was[pos(i)]);
                    assert(joined[j] == was[pos(j)]);
                }
            }
        }
    }
    proof {
        lemma_nothing_to_add(keys(stack@), keys(out@).to_multiset());
        assert(keys(stack@).to_set().union(keys(out@).to_set()) =~= keys(out@).to_set());
        assert(keys(stack@) + keys(out@) =~= keys(out@));
    }
    out
}

/// Merges two vectors that are in order into one that is.
fn merge<T: Sortable>(left: Vec<T>, right: Vec<T>) -> (out: Vec<T>)
    requires
        ascending::<T>(keys(left@)),
        ascending::<T>(keys(right@)),
    ensures
        ascending::<T>(keys(out@)),
        keys(out@).to_multiset() == keys(left@).to_multiset().add(keys(right@).to_multiset()),
{
    let ghost total = keys(left@).to_multiset().add(keys(right@).to_multiset());
    let mut left = left;
    let mut right = right;
    let mut stack: Vec<T> = Vec::new();
    proof {
        T::lemma_key_le_total();
        lemma_nothing_to_add(keys(stack@), keys(right@).to_multiset());
    }
    while left.len() > 0 || right.len() > 0
        invariant
            ascending::<T>(keys(left@)),
            ascending::<T>(keys(right@)),
            descending::<T>(keys(stack@)),
            all_le::<T>(keys(left@), keys(stack@)),
            all_le::<T>(keys(right@), keys(stack@)),
            keys(left@).to_multiset().add(keys(right@).to_multiset().add(keys(stack@).to_multiset()))
                == total,
        decreases left.len() + right.len(),
    {
        let ghost l = keys(left@);
        let ghost r = keys(right@);
        let ghost d = keys(stack@);
        let from_left = if right.len() == 0 {
            true
        } else if left.len() == 0 {
            false
        } else {
            !left[left.len() - 1].not_after(&right[right.len() - 1])
        };
        proof {
            T::lemma_key_le_total();
            let le = key_order::<T>();
            if from_left {
                lemma_move_last(l, d);
                lemma_regroup(l.to_multiset(), r.to_multiset(), d.to_multiset(),
                    l.drop_last().to_multiset(), d.push(l.last()).to_multiset());
                assert forall|i: int| 0 <= i < l.len() implies T::key_le(#[trigger] l[i], l.last()) by {
                    if i < l.len() - 1 {
                        assert(le(l[i], l[l.len() - 1]));
                    }
                }
                assert forall|i: int| 0 <= i < r.len() implies T::key_le(#[trigger] r[i], l.last()) by {
                    assert(T::key_le(r.last(), l.last()));
                    if i < r.len() - 1 {
                        assert(le(r[i], r[r.len() - 1]));
                    }
                }
            } else {
                lemma_move_last(r, d);
                lemma_regroup(r.to_multiset(), l.to_multiset(), d.to_multiset(),
                    r.drop_last().to_multiset(), d.push(r.last()).to_multiset());
                assert forall|i: int| 0 <= i < r.len() implies T::key_le(#[trigger] r[i], r.last()) by {
                    if i < r.len() - 1 {
                        assert(le(r[i], r[r.len() - 1]));
                    }
                }
                assert forall|i: int| 0 <= i < l.len() implies T::key_le(#[trigger] l[i], r.last()) by {
                    assert(T::key_le(l.last(), r.last()));
                    if i < l.len() - 1 {
                        assert(le(l[i], l[l.len() - 1]));
                    }
                }
            }
        }
        let x = if from_left {
            left.pop().unwrap()
        } else {
            right.pop().unwrap()
        };
        stack.push(x);
        proof {
            let le = key_order::<T>();
            if from_left {
                assert(keys(left@) =~= l.drop_last());
                assert(keys(stack@) =~= d.push(l.last()));
            } else {
                assert(keys(right@) =~= r.drop_last());
                assert(keys(stack@) =~= d.push(r.last()));
            }
            assert forall|i: int, j: int| 0 <= i < j < keys(left@).len()
                implies #[trigger] le(keys(left@)[i], keys(left@)[j]) by {
                assert(le(l[i], l[j]));
            }
            assert forall|i: int, j: int| 0 <= i < j < keys(right@).len()
                implies #[trigger] le(keys(right@)[i], keys(right@)[j]) by {
                assert(le(r[i], r[j]));
            }
        }
    }
    proof {
        lemma_nothing_to_add(keys(left@), keys(right@).to_multiset().add(keys(stack@).to_multiset()));
        lemma_nothing_to_add(keys(right@), keys(stack@).to_multiset());
    }
    unstack(stack)
}

/// Sorts `items` by their keys.
pub fn sort<T: Sortable>(items: Vec<T>) -> (out: Vec<T>)
    ensures
        keys(out@) == keys(items@).sort_by(key_order::<T>()),
    decreases items.len(),
{
    let ghost orig = keys(items@);
    let mut left = items;
    if left.len() <= 1 {
        proof {
            lemma_sorted_form::<T>(orig, orig);
        }
        return left;
    }
    let mid = left.len() / 2;
    let right = left.split_off(mid);
    proof {
        assert(orig =~= keys(left@) + keys(right@));
        vstd::seq_lib::lemma_multiset_commutative(keys(left@), keys(right@));
        lemma_key_order_total::<T>();
        keys(left@).lemma_sort_by_ensures(key_order::<T>());
        keys(right@).lemma_sort_by_ensures(key_order::<T>());
    }
    let left = sort(left);
    let right = sort(right);
    let out = merge(left, right);
    proof {
        lemma_sorted_form::<T>(keys(out@), orig);
    }
    out
}

/// Whether the keys are in order and no key occurs twice.
pub open spec fn strictly_ascending<T: Sortable>(s: Seq<T::Key>) -> bool {
    ascending::<T>(s) && s.no_duplicates()
}

/// Drops, from a vector in order, every item whose key an item before it has.
pub fn dedup<T: Sortable>(items: Vec<T>) -> (out: Vec<T>)
    requires
        ascending::<T>(keys(items@)),
    ensures
        strictly_ascending::<T>(keys(out@)),
        keys(out@).to_set() == keys(items@).to_set(),
{
    let ghost orig = keys(items@);
    let mut items = items;
    let mut stack: Vec<T> = Vec::new();
    proof {
        assert(orig.to_set().union(keys(stack@).to_set()) =~= orig.to_set());
    }
    while items.len() > 0
        invariant
            ascending::<T>(keys(items@)),
            descending::<T>(keys(stack@)),
            keys(stack@).no_duplicates(),
            all_le::<T>(keys(items@), keys(stack@)),
            keys(items@).to_set().union(keys(stack@).to_set()) == orig.to_set(),
        decreases items.len(),
    {
        let ghost a = keys(items@);
        let ghost d = keys(stack@);
        let x = items.pop().unwrap();
        let keep = stack.len() == 0 || !stack[stack.len() - 1].not_after(&x);
        proof {
            T::lemma_key_le_total();
            let le = key_order::<T>();
            assert(keys(items@) =~= a.drop_last());
            assert(x.key() == a.last());
            assert forall|i: int, j: int| 0 <= i < j < keys(items@).len()
                implies #[trigger] le(keys(items@)[i], keys(items@)[j]) by {
                assert(le(a[i], a[j]));
            }
            assert forall|i: int| 0 <= i < a.len() - 1 implies T::key_le(#[trigger] a[i], a.last()) by {
                assert(le(a[i], a[a.len() - 1]));
            }
            if keep {
                assert forall|j: int| 0 <= j < d.len() implies d[j] != a.last() by {
                    if d[j] == a.last() {
                        assert(T::key_le(d[d.len() - 1], d[j]));
                    }
                }
                assert(a.drop_last().to_set().union(d.push(a.last()).to_set()) =~= a.to_set().union(d.to_set())) by {
                    assert forall|k: T::Key| a.contains(k) || d.contains(k)
                        implies a.drop_last().contains(k) || d.push(a.last()).contains(k) by {
                        if a.contains(k) {
                            let i = choose|i: int| 0 <= i < a.len() && a[i] == k;
                            if i < a.len() - 1 {
                                assert(a.drop_last()[i] == k);
                            } else {
                                assert(d.push(a.last())[d.len() as int] == k);
                            }
                        } else {
                            let i = choose|i: int| 0 <= i < d.len() && d[i] == k;
                            assert(d.push(a.last())[i] == k);
                        }
                    }
                }
            } else {
                assert(d.last() == a.last());
                assert(a.drop_last().to_set().union(d.to_set()) =~= a.to_set().union(d.to_set())) by {
                    assert forall|k: T::Key| a.contains(k) || d.contains(k)
                        implies a.drop_last().contains(k) || d.contains(k) by {
                        if a.contains(k) {
                            let i = choose|i: int| 0 <= i < a.len() && a[i] == k;
                            if i < a.len() - 1 {
                                assert(a.drop_last()[i] == k);
                            } else {
                                assert(d[d.len() - 1] == k);
                            }
                        }
                    }
                }
            }
        }
        if keep {
            stack.push(x);
            proof {
                assert(keys(stack@) =~= d.push(a.last()));
            }
        }
    }
    proof {
        assert(keys(items@).to_set().union(keys(stack@).to_set()) =~= keys(stack@).to_set());
    }
    unstack(stack)
}

/// Two sequences that hold the same items, neither an item twice, hold each
/// item as often as the other.
pub proof fn lemma_same_items<K>(a: Seq<K>, b: Seq<K>)
    requires
        a.no_duplicates(),
        b.no_duplicates(),
        a.to_set() == b.to_set(),
    ensures
        a.to_multiset() == b.to_multiset(),
{
    broadcast use vstd::seq_lib::group_to_multiset_ensures;
    a.lemma_multiset_has_no_duplicates();
    b.lemma_multiset_has_no_duplicates();
    assert forall|k: K| a.to_multiset().count(k) == b.to_multiset().count(k) by {
        assert(a.contains(k) == a.to_set().contains(k));
        assert(b.contains(k) == b.to_set().contains(k));
    }
    assert(a.to_multiset() =~= b.to_multiset());
}

/// Two sequences in order, neither with a key twice, that hold the same keys
/// are one sequence.
pub proof fn lemma_strictly_ascending_unique<T: Sortable>(a: Seq<T::Key>, b: Seq<T::Key>)
    requires
        strictly_ascending::<T>(a),
        strictly_ascending::<T>(b),
        a.to_set() == b.to_set(),
    ensures
        a == b,
{
    lemma_same_items(a, b);
    lemma_key_order_total::<T>();
    vstd::seq_lib::lemma_sorted_unique(a, b, key_order::<T>());
}

/// Of two sequences of one length that differ, the one that comes first still
/// does when each is given one more item.
pub proof fn lemma_lex_push<K>(a: Seq<K>, b: Seq<K>, x: K, y: K, le: spec_fn(K, K) -> bool)
    requires
        a.len() == b.len(),
        a != b,
        lex_le(a, b, le),
    ensures
        lex_le(a.push(x), b.push(y), le),
    decreases a.len(),
{
    if a.len() == 0 {
        assert(a =~= b);
    } else {
        assert(a.push(x)[0] == a[0] && b.push(y)[0] == b[0]);
        if a[0] == b[0] {
            assert(a.drop_first() != b.drop_first()) by {
                if a.drop_first() == b.drop_first() {
                    assert(a =~= seq![a[0]] + a.drop_first());
                    assert(b =~= seq![b[0]] + b.drop_first());
                }
            }
            lemma_lex_push(a.drop_first(), b.drop_first(), x, y, le);
            assert(a.push(x).drop_first() =~= a.drop_first().push(x));
            assert(b.push(y).drop_first() =~= b.drop_first().push(y));
        }
    }
}

} // verus!
