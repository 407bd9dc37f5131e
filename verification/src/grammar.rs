//! The surface syntax of expressions: reading an expression from text, and
//! writing one out.
//!
//! ```text
//! statement  = expr, and nothing after it
//! expr       = term (infix term)*          infix operators group to the left
//! term       = not* (identifier | "(" expr ")")
//! infix      = and | or | xor | cond | bicond | equals
//! not        = "!"   | "not"               and        = "^"   | "and"
//! or         = "v"   | "or"                xor        = "+"   | "xor"
//! cond       = "->"  | "cond"              bicond     = "<->" | "bicond"
//! equals     = "="   | "equals"
//! identifier = letters, digits, "_" and "-", or any text between two `"` or two `'`
//! ```
//!
//! Words are taken in either case. Blanks may stand between the parts of a
//! statement, an expression and a term. Of two alternatives the first that
//! fits is taken, and a repetition takes as much as fits.

use vstd::prelude::*;

verus! {

use crate::formula::Formula;
use crate::Instruction;

/// The rules of the grammar.
#[allow(non_camel_case_types)]
#[derive(Debug, Clone, Copy, PartialEq, Eq, Hash, Structural)]
pub enum Rule {
    statement,
    expr,
    term,
    identifier,
    not,
    and,
    or,
    xor,
    cond,
    bicond,
    equals,
}

/// Whether `c` is a blank.
pub open spec fn is_space(c: char) -> bool {
    c == ' ' || c == '\t' || c == '\n' || c == '\r'
}

/// The first position from `i` on that holds no blank.
pub open spec fn skip_spaces(s: Seq<char>, i: int) -> int
    decreases s.len() - i,
{
    if 0 <= i < s.len() && is_space(s[i]) {
        skip_spaces(s, i + 1)
    } else {
        i
    }
}

/// Skipping blanks goes forward, and not beyond the end.
pub proof fn lemma_skip_spaces(s: Seq<char>, i: int)
    requires
        0 <= i <= s.len(),
    ensures
        i <= skip_spaces(s, i) <= s.len(),
    decreases s.len() - i,
{
    if i < s.len() && is_space(s[i]) {
        lemma_skip_spaces(s, i + 1);
    }
}

/// The capital of a lower-case letter; any other character is its own.
pub open spec fn capital(w: char) -> char {
    match w {
        'a' => 'A',
        'b' => 'B',
        'c' => 'C',
        'd' => 'D',
        'e' => 'E',
        'f' => 'F',
        'g' => 'G',
        'h' => 'H',
        'i' => 'I',
        'j' => 'J',
        'k' => 'K',
        'l' => 'L',
        'm' => 'M',
        'n' => 'N',
        'o' => 'O',
        'p' => 'P',
        'q' => 'Q',
        'r' => 'R',
        's' => 'S',
        't' => 'T',
        'u' => 'U',
        'v' => 'V',
        'w' => 'W',
        'x' => 'X',
        'y' => 'Y',
        'z' => 'Z',
        other => other,
    }
}

/// Whether `c` is the lower-case letter `w`, in either case.
pub open spec fn same_letter(c: char, w: char) -> bool {
    c == w || c == capital(w)
}

/// Whether the word `w` stands at `i`, in either case letter by letter.
pub open spec fn has_word(s: Seq<char>, i: int, w: Seq<char>) -> bool {
    &&& 0 <= i
    &&& i + w.len() <= s.len()
    &&& forall|k: int| 0 <= k < w.len() ==> same_letter(#[trigger] s[i + k], w[k])
}

/// Whether the text `w` stands at `i`.
pub open spec fn has_text(s: Seq<char>, i: int, w: Seq<char>) -> bool {
    &&& 0 <= i
    &&& i + w.len() <= s.len()
    &&& forall|k: int| 0 <= k < w.len() ==> #[trigger] s[i + k] == w[k]
}

/// The sign of an operator.
pub open spec fn sign(rule: Rule) -> Seq<char> {
    match rule {
        Rule::not => seq!['!'],
        Rule::and => seq!['^'],
        Rule::or => seq!['v'],
        Rule::xor => seq!['+'],
        Rule::cond => seq!['-', '>'],
        Rule::bicond => seq!['<', '-', '>'],
        Rule::equals => seq!['='],
        _ => Seq::empty(),
    }
}

/// The word of an operator.
pub open spec fn word(rule: Rule) -> Seq<char> {
    match rule {
        Rule::not => seq!['n', 'o', 't'],
        Rule::and => seq!['a', 'n', 'd'],
        Rule::or => seq!['o', 'r'],
        Rule::xor => seq!['x', 'o', 'r'],
        Rule::cond => seq!['c', 'o', 'n', 'd'],
        Rule::bicond => seq!['b', 'i', 'c', 'o', 'n', 'd'],
        Rule::equals => seq!['e', 'q', 'u', 'a', 'l', 's'],
        _ => Seq::empty(),
    }
}

/// Whether the rule is that of an operator.
pub open spec fn is_operator(rule: Rule) -> bool {
    sign(rule).len() > 0
}

/// Where the operator of `rule` that stands at `i` ends, if one stands
/// there: its sign, or else its word.
pub open spec fn operator_end(rule: Rule, s: Seq<char>, i: int) -> Option<int> {
    if is_operator(rule) && has_text(s, i, sign(rule)) {
        Some(i + sign(rule).len())
    } else if is_operator(rule) && has_word(s, i, word(rule)) {
        Some(i + word(rule).len())
    } else {
        None
    }
}

/// The infix operator that stands at `i`, and where it ends.
pub open spec fn infix_at(s: Seq<char>, i: int) -> Option<(Rule, int)> {
    if operator_end(Rule::and, s, i) is Some {
        Some((Rule::and, operator_end(Rule::and, s, i)->0))
    } else if operator_end(Rule::or, s, i) is Some {
        Some((Rule::or, operator_end(Rule::or, s, i)->0))
    } else if operator_end(Rule::xor, s, i) is Some {
        Some((Rule::xor, operator_end(Rule::xor, s, i)->0))
    } else if operator_end(Rule::cond, s, i) is Some {
        Some((Rule::cond, operator_end(Rule::cond, s, i)->0))
    } else if operator_end(Rule::bicond, s, i) is Some {
        Some((Rule::bicond, operator_end(Rule::bicond, s, i)->0))
    } else if operator_end(Rule::equals, s, i) is Some {
        Some((Rule::equals, operator_end(Rule::equals, s, i)->0))
    } else {
        None
    }
}

/// Whether `c` can stand in a name that is not quoted.
pub open spec fn is_name_char(c: char) -> bool {
    ('a' <= c <= 'z') || ('A' <= c <= 'Z') || ('0' <= c <= '9') || c == '_' || c == '-'
}

/// The first position from `i` on that holds no character of a name.
pub open spec fn bare_end(s: Seq<char>, i: int) -> int
    decreases s.len() - i,
{
    if 0 <= i < s.len() && is_name_char(s[i]) {
        bare_end(s, i + 1)
    } else {
        i
    }
}

/// The first position from `i` on that holds `quote`, or the end of `s`.
pub open spec fn quote_at(s: Seq<char>, i: int, quote: char) -> int
    decreases s.len() - i,
{
    if 0 <= i < s.len() && s[i] != quote {
        quote_at(s, i + 1, quote)
    } else {
        i
    }
}

/// Where the identifier that stands at `i` ends, if one stands there: a
/// name of letters, digits, `_` and `-`, or a text that is not empty between
/// two double quotes or two single quotes.
pub open spec fn identifier_end(s: Seq<char>, i: int) -> Option<int> {
    if !(0 <= i < s.len()) {
        None
    } else if is_name_char(s[i]) {
        Some(bare_end(s, i))
    } else if s[i] == '"' || s[i] == '\'' {
        let close = quote_at(s, i + 1, s[i]);
        if i + 1 < close < s.len() {
            Some(close + 1)
        } else {
            None
        }
    } else {
        None
    }
}

/// The name that the identifier from `i` to `end` gives: its text, without
/// the quotes if it has them.
pub open spec fn name_of(s: Seq<char>, i: int, end: int) -> Seq<char> {
    if s[i] == '"' || s[i] == '\'' {
        s.subrange(i + 1, end - 1)
    } else {
        s.subrange(i, end)
    }
}

/// How many negations stand from `i` on, one after the other, and where the
/// last one ends.
pub open spec fn nots_at(s: Seq<char>, i: int) -> (nat, int)
    decreases s.len() - i,
    via nots_at_terminates
{
    match operator_end(Rule::not, s, i) {
        Some(end) => {
            let (n, last) = nots_at(s, skip_spaces(s, end));
            (n + 1, last)
        },
        None => (0, i),
    }
}

#[via_fn]
proof fn nots_at_terminates(s: Seq<char>, i: int) {
    match operator_end(Rule::not, s, i) {
        Some(end) => {
            lemma_skip_spaces(s, end);
        },
        None => {},
    }
}

/// Negations end behind where they start, and not beyond the end.
pub proof fn lemma_nots_at(s: Seq<char>, i: int)
    requires
        0 <= i <= s.len(),
    ensures
        i <= nots_at(s, i).1 <= s.len(),
    decreases s.len() - i,
{
    match operator_end(Rule::not, s, i) {
        Some(end) => {
            lemma_skip_spaces(s, end);
            lemma_nots_at(s, skip_spaces(s, end));
        },
        None => {},
    }
}

/// The formula of an infix operator with its operands.
pub open spec fn infix_formula(rule: Rule, l: Formula, r: Formula) -> Formula {
    match rule {
        Rule::and => crate::formula::and(l, r),
        Rule::or => crate::formula::or(l, r),
        Rule::xor => crate::formula::xor(l, r),
        Rule::cond => crate::formula::implies(l, r),
        Rule::bicond => crate::formula::iff(l, r),
        _ => crate::formula::equals(l, r),
    }
}

/// The term that stands at `i`, and where it ends: negations, then an
/// identifier or an expression in parentheses. An even number of negations
/// leaves the operand as it is, an odd number negates it once.
pub open spec fn term_at(s: Seq<char>, i: int) -> Option<(Formula, int)>
    decreases s.len() - i, 1int,
    via term_at_terminates
{
    if !(0 <= i <= s.len()) {
        None
    } else {
        let (n, last) = nots_at(s, i);
        match atom_at(s, skip_spaces(s, last)) {
            Some((f, end)) => Some((if n % 2 == 1 { crate::formula::not(f) } else { f }, end)),
            None => None,
        }
    }
}

/// The identifier or the expression in parentheses that stands at `i`, and
/// where it ends.
pub open spec fn atom_at(s: Seq<char>, i: int) -> Option<(Formula, int)>
    decreases s.len() - i, 0int,
    via atom_at_terminates
{
    if !(0 <= i < s.len()) {
        None
    } else if identifier_end(s, i) is Some {
        Some((Formula::Var(name_of(s, i, identifier_end(s, i)->0)), identifier_end(s, i)->0))
    } else if s[i] == '(' {
        match expr_at(s, skip_spaces(s, i + 1)) {
            Some((f, end)) => {
                let close = skip_spaces(s, end);
                if 0 <= close < s.len() && s[close] == ')' {
                    Some((f, close + 1))
                } else {
                    None
                }
            },
            None => None,
        }
    } else {
        None
    }
}

/// The expression that stands at `i`, and where it ends: a term, and then
/// infix operators with a term each, as many as stand there.
///
/// (The tests on positions here and in `tail_at` always succeed, as
/// `lemma_expr_at` and `lemma_tail_at` show: they are there for these
/// definitions to be well-founded.)
pub open spec fn expr_at(s: Seq<char>, i: int) -> Option<(Formula, int)>
    decreases s.len() - i, 2int,
{
    match term_at(s, i) {
        Some((f, end)) => if i < end <= s.len() {
            Some(tail_at(s, f, end))
        } else {
            None
        },
        None => None,
    }
}

/// The expression that starts with the operand `f` and goes on at `i` with
/// infix operators and a term each, and where it ends.
pub open spec fn tail_at(s: Seq<char>, f: Formula, i: int) -> (Formula, int)
    decreases s.len() - i, 3int,
    via tail_at_terminates
{
    if !(0 <= i <= s.len()) {
        (f, i)
    } else {
        match infix_at(s, skip_spaces(s, i)) {
            Some((rule, end)) => match term_at(s, skip_spaces(s, end)) {
                Some((g, next)) => if i < next <= s.len() {
                    tail_at(s, infix_formula(rule, f, g), next)
                } else {
                    (f, i)
                },
                None => (f, i),
            },
            None => (f, i),
        }
    }
}

#[via_fn]
proof fn term_at_terminates(s: Seq<char>, i: int) {
    if 0 <= i <= s.len() {
        lemma_nots_at(s, i);
        lemma_skip_spaces(s, nots_at(s, i).1);
    }
}

#[via_fn]
proof fn atom_at_terminates(s: Seq<char>, i: int) {
    if 0 <= i < s.len() {
        lemma_skip_spaces(s, i + 1);
    }
}

#[via_fn]
proof fn tail_at_terminates(s: Seq<char>, f: Formula, i: int) {
    if 0 <= i <= s.len() {
        lemma_skip_spaces(s, i);
        match infix_at(s, skip_spaces(s, i)) {
            Some((rule, end)) => {
                lemma_skip_spaces(s, end);
            },
            None => {},
        }
    }
}

proof fn lemma_term_ends(s: Seq<char>, i: int)
    requires
        0 <= i <= s.len(),
    ensures
        term_at(s, i) matches Some((_, end)) ==> i < end <= s.len(),
    decreases s.len() - i, 1int,
{
    lemma_nots_at(s, i);
    lemma_skip_spaces(s, nots_at(s, i).1);
    lemma_atom_ends(s, skip_spaces(s, nots_at(s, i).1));
}

proof fn lemma_atom_ends(s: Seq<char>, i: int)
    requires
        0 <= i <= s.len(),
    ensures
        atom_at(s, i) matches Some((_, end)) ==> i < end <= s.len(),
    decreases s.len() - i, 0int,
{
    if i < s.len() {
        if identifier_end(s, i) is Some {
            lemma_bare_end(s, i);
            lemma_quote_within(s, i + 1, s[i]);
        } else if s[i] == '(' {
            lemma_skip_spaces(s, i + 1);
            lemma_expr_ends(s, skip_spaces(s, i + 1));
            match expr_at(s, skip_spaces(s, i + 1)) {
                Some((_, end)) => {
                    lemma_skip_spaces(s, end);
                },
                None => {},
            }
        }
    }
}

proof fn lemma_expr_ends(s: Seq<char>, i: int)
    requires
        0 <= i <= s.len(),
    ensures
        expr_at(s, i) matches Some((_, end)) ==> i < end <= s.len(),
    decreases s.len() - i, 2int,
{
    match term_at(s, i) {
        Some((f, end)) => {
            if i < end <= s.len() {
                lemma_tail_ends(s, f, end);
            }
        },
        None => {},
    }
}

proof fn lemma_tail_ends(s: Seq<char>, f: Formula, i: int)
    requires
        0 <= i <= s.len(),
    ensures
        i <= tail_at(s, f, i).1 <= s.len(),
    decreases s.len() - i, 3int,
{
    lemma_skip_spaces(s, i);
    match infix_at(s, skip_spaces(s, i)) {
        Some((rule, end)) => {
            lemma_skip_spaces(s, end);
            match term_at(s, skip_spaces(s, end)) {
                Some((g, next)) => {
                    if i < next <= s.len() {
                        lemma_tail_ends(s, infix_formula(rule, f, g), next);
                    }
                },
                None => {},
            }
        },
        None => {},
    }
}

proof fn lemma_bare_end(s: Seq<char>, i: int)
    requires
        0 <= i <= s.len(),
    ensures
        i <= bare_end(s, i) <= s.len(),
        i < s.len() && is_name_char(s[i]) ==> i < bare_end(s, i),
    decreases s.len() - i,
{
    if i < s.len() && is_name_char(s[i]) {
        lemma_bare_end(s, i + 1);
    }
}

proof fn lemma_quote_within(s: Seq<char>, i: int, quote: char)
    requires
        0 <= i <= s.len(),
    ensures
        i <= quote_at(s, i, quote) <= s.len(),
    decreases s.len() - i,
{
    if i < s.len() && s[i] != quote {
        lemma_quote_within(s, i + 1, quote);
    }
}

/// An expression is a term and what goes on behind it.
pub proof fn lemma_expr_at(s: Seq<char>, i: int)
    requires
        0 <= i <= s.len(),
    ensures
        expr_at(s, i) == match term_at(s, i) {
            Some((f, end)) => Some(tail_at(s, f, end)),
            None => None,
        },
{
    lemma_term_ends(s, i);
}

/// An expression goes on with an infix operator and a term, as long as
/// they stand there.
pub proof fn lemma_tail_at(s: Seq<char>, f: Formula, i: int)
    requires
        0 <= i <= s.len(),
    ensures
        tail_at(s, f, i) == match infix_at(s, skip_spaces(s, i)) {
            Some((rule, end)) => match term_at(s, skip_spaces(s, end)) {
                Some((g, next)) => tail_at(s, infix_formula(rule, f, g), next),
                None => (f, i),
            },
            None => (f, i),
        },
{
    lemma_skip_spaces(s, i);
    match infix_at(s, skip_spaces(s, i)) {
        Some((rule, end)) => {
            lemma_skip_spaces(s, end);
            lemma_term_ends(s, skip_spaces(s, end));
        },
        None => {},
    }
}

/// The formula that a text states, if it states one: an expression, with
/// nothing but blanks before and after it.
pub open spec fn parsed(s: Seq<char>) -> Option<Formula> {
    match expr_at(s, skip_spaces(s, 0)) {
        Some((f, end)) => if skip_spaces(s, end) == s.len() {
            Some(f)
        } else {
            None
        },
        None => None,
    }
}

/// The characters of a text.
fn chars_of(text: &str) -> (out: Vec<char>)
    ensures
        out@ == text@,
{
    let mut out: Vec<char> = Vec::new();
    for c in it: text.chars()
        invariant
            it.seq() == text@,
            out@ == text@.subrange(0, it.index() as int),
    {
        out.push(c);
        proof {
            assert(out@ =~= text@.subrange(0, it.index() + 1));
        }
    }
    proof {
        assert(out@ =~= text@);
    }
    out
}

/// The first position from `i` on that holds no blank.
fn pass_spaces(s: &Vec<char>, i: usize) -> (out: usize)
    requires
        i <= s@.len(),
    ensures
        out == skip_spaces(s@, i as int),
        i <= out <= s@.len(),
{
    let mut k = i;
    while k < s.len() && (s[k] == ' ' || s[k] == '\t' || s[k] == '\n' || s[k] == '\r')
        invariant
            i <= k <= s@.len(),
            skip_spaces(s@, k as int) == skip_spaces(s@, i as int),
        decreases s@.len() - k,
    {
        k += 1;
    }
    k
}

/// The sign of an operator.
fn sign_of(rule: Rule) -> (out: Vec<char>)
    ensures
        out@ == sign(rule),
{
    let out = match rule {
        Rule::not => vec!['!'],
        Rule::and => vec!['^'],
        Rule::or => vec!['v'],
        Rule::xor => vec!['+'],
        Rule::cond => vec!['-', '>'],
        Rule::bicond => vec!['<', '-', '>'],
        Rule::equals => vec!['='],
        _ => Vec::new(),
    };
    proof {
        assert(out@ =~= sign(rule));
    }
    out
}

/// The word of an operator.
fn word_of(rule: Rule) -> (out: Vec<char>)
    ensures
        out@ == word(rule),
{
    let out = match rule {
        Rule::not => vec!['n', 'o', 't'],
        Rule::and => vec!['a', 'n', 'd'],
        Rule::or => vec!['o', 'r'],
        Rule::xor => vec!['x', 'o', 'r'],
        Rule::cond => vec!['c', 'o', 'n', 'd'],
        Rule::bicond => vec!['b', 'i', 'c', 'o', 'n', 'd'],
        Rule::equals => vec!['e', 'q', 'u', 'a', 'l', 's'],
        _ => Vec::new(),
    };
    proof {
        assert(out@ =~= word(rule));
    }
    out
}

/// The capital of a lower-case letter; any other character is its own.
fn capital_of(w: char) -> (out: char)
    ensures
        out == capital(w),
{
    match w {
        'a' => 'A',
        'b' => 'B',
        'c' => 'C',
        'd' => 'D',
        'e' => 'E',
        'f' => 'F',
        'g' => 'G',
        'h' => 'H',
        'i' => 'I',
        'j' => 'J',
        'k' => 'K',
        'l' => 'L',
        'm' => 'M',
        'n' => 'N',
        'o' => 'O',
        'p' => 'P',
        'q' => 'Q',
        'r' => 'R',
        's' => 'S',
        't' => 'T',
        'u' => 'U',
        'v' => 'V',
        'w' => 'W',
        'x' => 'X',
        'y' => 'Y',
        'z' => 'Z',
        other => other,
    }
}

/// Whether `w` stands at `i`: letter by letter in either case where
/// `any_case` is set, as it is written where not.
fn stands_at(s: &Vec<char>, i: usize, w: &Vec<char>, any_case: bool) -> (out: bool)
    requires
        i <= s@.len(),
    ensures
        out == if any_case {
            has_word(s@, i as int, w@)
        } else {
            has_text(s@, i as int, w@)
        },
        out ==> i + w@.len() <= s@.len(),
{
    if w.len() > s.len() - i {
        return false;
    }
    let mut k: usize = 0;
    while k < w.len()
        invariant
            k <= w@.len(),
            i <= s@.len(),
            i + w@.len() <= s@.len() <= usize::MAX,
            forall|j: int| 0 <= j < k ==> if any_case {
                same_letter(#[trigger] s@[i + j], w@[j])
            } else {
                s@[i + j] == w@[j]
            },
        decreases w@.len() - k,
    {
        let c = s[i + k];
        let l = w[k];
        let fits = c == l || (any_case && c == capital_of(l));
        if !fits {
            proof {
                assert(s@[i + k] == c);
            }
            return false;
        }
        k += 1;
    }
    true
}

/// Where the operator of `rule` that stands at `i` ends, if one stands
/// there.
fn find_operator(rule: Rule, s: &Vec<char>, i: usize) -> (out: Option<usize>)
    requires
        i <= s@.len(),
    ensures
        match out {
            Some(end) => operator_end(rule, s@, i as int) == Some(end as int) && i < end <= s@.len(),
            None => operator_end(rule, s@, i as int) is None,
        },
{
    let sign = sign_of(rule);
    if sign.len() == 0 {
        return None;
    }
    assert(s@.len() == s.len());
    if stands_at(s, i, &sign, false) {
        return Some(i + sign.len());
    }
    let word = word_of(rule);
    if stands_at(s, i, &word, true) {
        return Some(i + word.len());
    }
    None
}

/// The infix operator that stands at `i`, and where it ends.
fn fetch_infix_rule(s: &Vec<char>, i: usize) -> (out: Option<(Rule, usize)>)
    requires
        i <= s@.len(),
    ensures
        match out {
            Some((rule, end)) => infix_at(s@, i as int) == Some((rule, end as int)) && i < end <= s@.len(),
            None => infix_at(s@, i as int) is None,
        },
{
    if let Some(end) = find_operator(Rule::and, s, i) {
        Some((Rule::and, end))
    } else if let Some(end) = find_operator(Rule::or, s, i) {
        Some((Rule::or, end))
    } else if let Some(end) = find_operator(Rule::xor, s, i) {
        Some((Rule::xor, end))
    } else if let Some(end) = find_operator(Rule::cond, s, i) {
        Some((Rule::cond, end))
    } else if let Some(end) = find_operator(Rule::bicond, s, i) {
        Some((Rule::bicond, end))
    } else if let Some(end) = find_operator(Rule::equals, s, i) {
        Some((Rule::equals, end))
    } else {
        None
    }
}

/// Whether `c` can stand in a name that is not quoted.
fn names(c: char) -> (out: bool)
    ensures
        out == is_name_char(c),
{
    ('a' <= c && c <= 'z') || ('A' <= c && c <= 'Z') || ('0' <= c && c <= '9') || c == '_' || c == '-'
}

/// Where the identifier that stands at `i` ends, if one stands there.
fn find_identifier(s: &Vec<char>, i: usize) -> (out: Option<usize>)
    requires
        i <= s@.len(),
    ensures
        match out {
            Some(end) => identifier_end(s@, i as int) == Some(end as int) && i < end <= s@.len(),
            None => identifier_end(s@, i as int) is None,
        },
{
    if i >= s.len() {
        return None;
    }
    let first = s[i];
    if names(first) {
        let mut k = i + 1;
        while k < s.len() && names(s[k])
            invariant
                i < k <= s@.len(),
                bare_end(s@, k as int) == bare_end(s@, i as int),
            decreases s@.len() - k,
        {
            k += 1;
        }
        Some(k)
    } else if first == '"' || first == '\'' {
        let mut k = i + 1;
        while k < s.len() && s[k] != first
            invariant
                i < k <= s@.len(),
                quote_at(s@, k as int, first) == quote_at(s@, i + 1, first),
            decreases s@.len() - k,
        {
            k += 1;
        }
        if i + 1 < k && k < s.len() {
            Some(k + 1)
        } else {
            None
        }
    } else {
        None
    }
}

/// Whether `out` is what the grammar gives: the same formula and the same
/// end, or nothing where the grammar gives nothing.
pub open spec fn reads(out: Option<(Instruction, usize)>, expected: Option<(Formula, int)>) -> bool {
    match (out, expected) {
        (Some((found, end)), Some((f, at))) => found@ == f && end == at,
        (None, None) => true,
        _ => false,
    }
}

/// The term that stands at `i`, and where it ends.
fn fetch_term(input: &str, s: &Vec<char>, i: usize) -> (out: Option<(Instruction, usize)>)
    requires
        s@ == input@,
        i <= s@.len(),
    ensures
        reads(out, term_at(s@, i as int)),
        out matches Some((_, end)) ==> i < end <= s@.len(),
    decreases s@.len() - i, 1int,
{
    let mut unary_not = false;
    let mut at = i;
    let ghost mut seen: nat = 0;
    loop
        invariant
            i <= at <= s@.len(),
            nots_at(s@, i as int) == (seen + nots_at(s@, at as int).0, nots_at(s@, at as int).1),
            unary_not == (seen % 2 == 1),
        ensures
            i <= at <= s@.len(),
            nots_at(s@, i as int) == (seen, at as int),
            unary_not == (seen % 2 == 1),
        decreases s@.len() - at,
    {
        match find_operator(Rule::not, s, at) {
            Some(end) => {
                unary_not = !unary_not;
                at = pass_spaces(s, end);
                proof {
                    seen = seen + 1;
                }
            },
            None => {
                break;
            },
        }
    }
    let start = pass_spaces(s, at);
    match fetch_atom(input, s, start) {
        Some((instruction, end)) => {
            if unary_not {
                Some((Instruction::Not(Box::new(instruction)), end))
            } else {
                Some((instruction, end))
            }
        },
        None => None,
    }
}

/// The identifier or the expression in parentheses that stands at `i`, and
/// where it ends.
fn fetch_atom(input: &str, s: &Vec<char>, i: usize) -> (out: Option<(Instruction, usize)>)
    requires
        s@ == input@,
        i <= s@.len(),
    ensures
        reads(out, atom_at(s@, i as int)),
        out matches Some((_, end)) ==> i < end <= s@.len(),
    decreases s@.len() - i, 0int,
{
    if i >= s.len() {
        return None;
    }
    if let Some(end) = find_identifier(s, i) {
        let quoted = s[i] == '"' || s[i] == '\'';
        let name = if quoted {
            input.substring_char(i + 1, end - 1)
        } else {
            input.substring_char(i, end)
        };
        return Some((Instruction::Argument(name.to_owned()), end));
    }
    if s[i] != '(' {
        return None;
    }
    let start = pass_spaces(s, i + 1);
    match fetch_expr(input, s, start) {
        Some((instruction, end)) => {
            let close = pass_spaces(s, end);
            if close < s.len() && s[close] == ')' {
                Some((instruction, close + 1))
            } else {
                None
            }
        },
        None => None,
    }
}

/// The expression that stands at `i`, and where it ends.
fn fetch_expr(input: &str, s: &Vec<char>, i: usize) -> (out: Option<(Instruction, usize)>)
    requires
        s@ == input@,
        i <= s@.len(),
    ensures
        reads(out, expr_at(s@, i as int)),
        out matches Some((_, end)) ==> i < end <= s@.len(),
    decreases s@.len() - i, 2int,
{
    let (mut term, mut at) = match fetch_term(input, s, i) {
        Some(found) => found,
        None => {
            return None;
        },
    };
    let ghost whole = tail_at(s@, term@, at as int);
    loop
        invariant
            s@ == input@,
            i < at <= s@.len(),
            tail_at(s@, term@, at as int) == whole,
        ensures
            i < at <= s@.len(),
            whole == (term@, at as int),
        decreases s@.len() - at,
    {
        let infix = match fetch_infix_rule(s, pass_spaces(s, at)) {
            Some(found) => found,
            None => {
                break;
            },
        };
        let (rhs, next) = match fetch_term(input, s, pass_spaces(s, infix.1)) {
            Some(found) => found,
            None => {
                break;
            },
        };
        let lhs = Box::new(term);
        let rhs = Box::new(rhs);
        term = match infix.0 {
            Rule::and => Instruction::And(lhs, rhs),
            Rule::or => Instruction::Or(lhs, rhs),
            Rule::xor => Instruction::Xor(lhs, rhs),
            Rule::cond => Instruction::Conditional(lhs, rhs),
            Rule::bicond => Instruction::Biconditional(lhs, rhs),
            _ => Instruction::Equals(lhs, rhs),
        };
        at = next;
    }
    Some((term, at))
}

/// Where the text that fits `rule` ends, from the start of `s`, if `s`
/// starts with such a text. A statement is all of `s`.
pub open spec fn rule_end(rule: Rule, s: Seq<char>) -> Option<int> {
    match rule {
        Rule::statement => if parsed(s) is Some {
            Some(s.len() as int)
        } else {
            None
        },
        Rule::expr => match expr_at(s, 0) {
            Some((_, end)) => Some(end),
            None => None,
        },
        Rule::term => match term_at(s, 0) {
            Some((_, end)) => Some(end),
            None => None,
        },
        Rule::identifier => identifier_end(s, 0),
        _ => operator_end(rule, s, 0),
    }
}

/// A piece of text and the rule that it fits.
#[derive(Debug, Clone, PartialEq, Eq)]
pub struct Pair {
    pub rule: Rule,
    pub span: String,
}

impl Pair {
    /// The rule that the text fits.
    pub fn as_rule(&self) -> (out: Rule)
        ensures
            out == self.rule,
    {
        self.rule
    }

    /// The text.
    pub fn as_str(&self) -> (out: &str)
        ensures
            out@ == self.span@,
    {
        self.span.as_str()
    }
}

/// Whether `out` is what `rule` gives on `s`: the text that fits it, or a
/// failure where `s` does not start with such a text.
pub open spec fn fits(out: Result<Pair, String>, rule: Rule, s: Seq<char>) -> bool {
    match rule_end(rule, s) {
        Some(end) => out is Ok && out->Ok_0.rule == rule && out->Ok_0.span@ == s.subrange(0, end),
        None => out is Err && out->Err_0@ == "the text does not fit the rule"@,
    }
}

/// Whether `out` is what `s` states: the expression, or a failure where `s`
/// states none.
pub open spec fn states(out: Result<Instruction, String>, s: Seq<char>) -> bool {
    match parsed(s) {
        Some(f) => out is Ok && out->Ok_0@ == f,
        None => out is Err && out->Err_0@ == "the text is not an expression"@,
    }
}

/// Reads texts by the rules of the grammar.
pub struct Parser;

impl Parser {
    /// The text at the start of `input` that fits `rule`.
    pub fn parse(rule: Rule, input: &str) -> (out: Result<Pair, String>)
        ensures
            fits(out, rule, input@),
    {
        let s = chars_of(input);
        let end = match rule {
            Rule::statement => match fetch_expr(input, &s, pass_spaces(&s, 0)) {
                Some((_, end)) => if pass_spaces(&s, end) == s.len() {
                    Some(s.len())
                } else {
                    None
                },
                None => None,
            },
            Rule::expr => match fetch_expr(input, &s, 0) {
                Some((_, end)) => Some(end),
                None => None,
            },
            Rule::term => match fetch_term(input, &s, 0) {
                Some((_, end)) => Some(end),
                None => None,
            },
            Rule::identifier => find_identifier(&s, 0),
            _ => find_operator(rule, &s, 0),
        };
        match end {
            Some(end) => Ok(Pair { rule, span: input.substring_char(0, end).to_owned() }),
            None => Err("the text does not fit the rule".to_owned()),
        }
    }
}

/// The text of an infix operator with its operands: the operands with the
/// sign between them, a blank on either side of it, in parentheses.
pub open spec fn infix_text(rule: Rule, l: Seq<char>, r: Seq<char>) -> Seq<char> {
    seq!['('] + l + seq![' '] + sign(rule) + seq![' '] + r + seq![')']
}

/// The text of a formula: `1` and `0` for the constants, a name between
/// double quotes, the sign of negation before what is negated, and an infix
/// operator with its operands as `infix_text` has them.
pub open spec fn rendered(f: Formula) -> Seq<char>
    decreases f,
{
    match f {
        Formula::True => seq!['1'],
        Formula::False => seq!['0'],
        Formula::Var(name) => seq!['"'] + name + seq!['"'],
        Formula::Not(x) => sign(Rule::not) + rendered(*x),
        Formula::And(l, r) => infix_text(Rule::and, rendered(*l), rendered(*r)),
        Formula::Or(l, r) => infix_text(Rule::or, rendered(*l), rendered(*r)),
        Formula::Xor(l, r) => infix_text(Rule::xor, rendered(*l), rendered(*r)),
        Formula::Implies(l, r) => infix_text(Rule::cond, rendered(*l), rendered(*r)),
        Formula::Iff(l, r) => infix_text(Rule::bicond, rendered(*l), rendered(*r)),
        Formula::Equals(l, r) => infix_text(Rule::equals, rendered(*l), rendered(*r)),
    }
}

/// The sign of an operator, as text.
fn sign_text(rule: Rule) -> (out: &'static str)
    ensures
        out@ == sign(rule),
{
    proof {
        reveal_strlit("!");
        reveal_strlit("^");
        reveal_strlit("v");
        reveal_strlit("+");
        reveal_strlit("->");
        reveal_strlit("<->");
        reveal_strlit("=");
        reveal_strlit("");
    }
    let out = match rule {
        Rule::not => "!",
        Rule::and => "^",
        Rule::or => "v",
        Rule::xor => "+",
        Rule::cond => "->",
        Rule::bicond => "<->",
        Rule::equals => "=",
        _ => "",
    };
    proof {
        assert(out@ =~= sign(rule));
    }
    out
}

impl Instruction {
    /// The expression that `program` states.
    pub fn try_from(program: &str) -> (out: Result<Self, String>)
        ensures
            states(out, program@),
    {
        let s = chars_of(program);
        match fetch_expr(program, &s, pass_spaces(&s, 0)) {
            Some((instruction, end)) => if pass_spaces(&s, end) == s.len() {
                Ok(instruction)
            } else {
                Err("the text is not an expression".to_owned())
            },
            None => Err("the text is not an expression".to_owned()),
        }
    }

    /// The text of an infix operator with its operands.
    fn infix_string(rule: Rule, l: &Self, r: &Self) -> (out: String)
        ensures
            out@ == infix_text(rule, rendered(l@), rendered(r@)),
        decreases 2 * (l@.size() + r@.size()) + 1,
    {
        proof {
            reveal_strlit("(");
            reveal_strlit(" ");
            reveal_strlit(")");
        }
        let mut out = "(".to_owned();
        out.append(l.to_string().as_str());
        out.append(" ");
        out.append(sign_text(rule));
        out.append(" ");
        out.append(r.to_string().as_str());
        out.append(")");
        proof {
            assert(out@ =~= infix_text(rule, rendered(l@), rendered(r@)));
        }
        out
    }

    /// The text of the expression.
    pub fn to_string(&self) -> (out: String)
        ensures
            out@ == rendered(self@),
        decreases 2 * self@.size(),
    {
        proof {
            reveal_strlit("1");
            reveal_strlit("0");
            reveal_strlit("\"");
        }
        match self {
            Instruction::True => {
                let out = "1".to_owned();
                proof {
                    assert(out@ =~= rendered(self@));
                }
                out
            },
            Instruction::False => {
                let out = "0".to_owned();
                proof {
                    assert(out@ =~= rendered(self@));
                }
                out
            },
            Instruction::Argument(a) => {
                let mut out = "\"".to_owned();
                out.append(a.as_str());
                out.append("\"");
                proof {
                    assert(out@ =~= rendered(self@));
                }
                out
            },
            Instruction::Not(x) => {
                let mut out = sign_text(Rule::not).to_owned();
                out.append(x.to_string().as_str());
                out
            },
            Instruction::And(l, r) => Self::infix_string(Rule::and, l, r),
            Instruction::Or(l, r) => Self::infix_string(Rule::or, l, r),
            Instruction::Xor(l, r) => Self::infix_string(Rule::xor, l, r),
            Instruction::Conditional(l, r) => Self::infix_string(Rule::cond, l, r),
            Instruction::Biconditional(l, r) => Self::infix_string(Rule::bicond, l, r),
            Instruction::Equals(l, r) => Self::infix_string(Rule::equals, l, r),
        }
    }
}

/// What a line of input asks for.
#[derive(Debug, Clone, Copy, PartialEq, Eq, Structural)]
pub enum Command {
    /// To leave.
    Quit,
    /// To be told what can be entered.
    Help,
    /// Nothing: the line is empty.
    Nothing,
    /// To have the line read as an expression.
    Evaluate,
}

/// Whether `line` is the word `w`, in either case letter by letter.
pub open spec fn is_word(line: Seq<char>, w: Seq<char>) -> bool {
    line.len() == w.len() && has_word(line, 0, w)
}

/// What `line` asks for: to leave with `q` or `quit`, help with `?`, `h` or
/// `help`, nothing when it is empty, and an evaluation with anything else.
pub open spec fn command_of(line: Seq<char>) -> Command {
    if is_word(line, seq!['q']) || is_word(line, seq!['q', 'u', 'i', 't']) {
        Command::Quit
    } else if is_word(line, seq!['?']) || is_word(line, seq!['h']) || is_word(line, seq!['h', 'e', 'l', 'p']) {
        Command::Help
    } else if line.len() == 0 {
        Command::Nothing
    } else {
        Command::Evaluate
    }
}

/// Whether `line` is the word `w`, in either case letter by letter.
fn spells(line: &Vec<char>, w: Vec<char>) -> (out: bool)
    ensures
        out == is_word(line@, w@),
{
    line.len() == w.len() && stands_at(line, 0, &w, true)
}

/// What `line` asks for.
pub fn command(line: &str) -> (out: Command)
    ensures
        out == command_of(line@),
{
    let s = chars_of(line);
    if spells(&s, vec!['q']) || spells(&s, vec!['q', 'u', 'i', 't']) {
        Command::Quit
    } else if spells(&s, vec!['?']) || spells(&s, vec!['h']) || spells(&s, vec!['h', 'e', 'l', 'p']) {
        Command::Help
    } else if s.len() == 0 {
        Command::Nothing
    } else {
        Command::Evaluate
    }
}

/// Whether a formula can be read back from its text: it holds no constant,
/// no negation stands right under a negation, and every name has at least
/// one character and no double quote.
pub open spec fn writable(f: Formula) -> bool
    decreases f,
{
    match f {
        Formula::True | Formula::False => false,
        Formula::Var(name) => name.len() > 0 && !name.contains('"'),
        Formula::Not(x) => !(*x is Not) && writable(*x),
        Formula::And(l, r)
        | Formula::Or(l, r)
        | Formula::Xor(l, r)
        | Formula::Implies(l, r)
        | Formula::Iff(l, r)
        | Formula::Equals(l, r) => writable(*l) && writable(*r),
    }
}

/// Whether `text` stands in `s` from `i` on.
pub open spec fn holds_at(s: Seq<char>, i: int, text: Seq<char>) -> bool {
    0 <= i && i + text.len() <= s.len() && s.subrange(i, i + text.len()) == text
}

proof fn lemma_holds_at(s: Seq<char>, i: int, text: Seq<char>, k: int)
    requires
        holds_at(s, i, text),
        0 <= k < text.len(),
    ensures
        s[i + k] == text[k],
{
    assert(s.subrange(i, i + text.len())[k] == s[i + k]);
}

proof fn lemma_holds_part(s: Seq<char>, i: int, text: Seq<char>, from: int, to: int)
    requires
        holds_at(s, i, text),
        0 <= from <= to <= text.len(),
    ensures
        holds_at(s, i + from, text.subrange(from, to)),
{
    let part = s.subrange(i + from, i + to);
    assert forall|k: int| 0 <= k < to - from implies #[trigger] part[k] == text.subrange(from, to)[k] by {
        lemma_holds_at(s, i, text, from + k);
    }
    assert(part =~= text.subrange(from, to));
}

proof fn lemma_quote_at(s: Seq<char>, from: int, to: int, quote: char)
    requires
        0 <= from <= to < s.len(),
        forall|k: int| from <= k < to ==> s[k] != quote,
        s[to] == quote,
    ensures
        quote_at(s, from, quote) == to,
    decreases to - from,
{
    if from < to {
        lemma_quote_at(s, from + 1, to, quote);
    }
}

/// Whether no operator can start with `c`.
pub open spec fn starts_no_operator(c: char) -> bool {
    c == '"' || c == '(' || c == ')'
}

proof fn lemma_first_of(s: Seq<char>, p: int, w: Seq<char>, any_case: bool)
    requires
        w.len() > 0,
        if any_case {
            has_word(s, p, w)
        } else {
            has_text(s, p, w)
        },
    ensures
        0 <= p < s.len(),
        if any_case {
            same_letter(s[p], w[0])
        } else {
            s[p] == w[0]
        },
{
    assert(s[p + 0] == s[p]);
}

proof fn lemma_no_operator(s: Seq<char>, p: int, rule: Rule)
    requires
        0 <= p <= s.len(),
        p < s.len() ==> starts_no_operator(s[p]),
    ensures
        operator_end(rule, s, p) is None,
{
    if is_operator(rule) {
        if has_text(s, p, sign(rule)) {
            lemma_first_of(s, p, sign(rule), false);
        }
        if has_word(s, p, word(rule)) {
            lemma_first_of(s, p, word(rule), true);
        }
    }
}

proof fn lemma_nothing_follows(s: Seq<char>, p: int)
    requires
        0 <= p <= s.len(),
        p < s.len() ==> starts_no_operator(s[p]),
    ensures
        infix_at(s, p) is None,
        nots_at(s, p) == (0nat, p),
        skip_spaces(s, p) == p,
{
    lemma_no_operator(s, p, Rule::not);
    lemma_no_operator(s, p, Rule::and);
    lemma_no_operator(s, p, Rule::or);
    lemma_no_operator(s, p, Rule::xor);
    lemma_no_operator(s, p, Rule::cond);
    lemma_no_operator(s, p, Rule::bicond);
    lemma_no_operator(s, p, Rule::equals);
}

/// Whether `rule` is that of an infix operator.
pub open spec fn is_infix(rule: Rule) -> bool {
    is_operator(rule) && rule != Rule::not
}

proof fn lemma_other_operator(s: Seq<char>, p: int, rule: Rule, other: Rule)
    requires
        is_infix(rule),
        is_infix(other),
        rule != other,
        holds_at(s, p, sign(rule)),
    ensures
        operator_end(other, s, p) is None,
{
    lemma_holds_at(s, p, sign(rule), 0);
    if has_text(s, p, sign(other)) {
        lemma_first_of(s, p, sign(other), false);
    }
    if has_word(s, p, word(other)) {
        lemma_first_of(s, p, word(other), true);
    }
}

proof fn lemma_infix_found(s: Seq<char>, p: int, rule: Rule)
    requires
        is_infix(rule),
        holds_at(s, p, sign(rule)),
    ensures
        infix_at(s, p) == Some((rule, p + sign(rule).len())),
{
    assert(has_text(s, p, sign(rule))) by {
        assert forall|k: int| 0 <= k < sign(rule).len() implies #[trigger] s[p + k] == sign(rule)[k] by {
            lemma_holds_at(s, p, sign(rule), k);
        }
    }
    if rule != Rule::and {
        lemma_other_operator(s, p, rule, Rule::and);
    }
    if rule != Rule::or {
        lemma_other_operator(s, p, rule, Rule::or);
    }
    if rule != Rule::xor {
        lemma_other_operator(s, p, rule, Rule::xor);
    }
    if rule != Rule::cond {
        lemma_other_operator(s, p, rule, Rule::cond);
    }
    if rule != Rule::bicond {
        lemma_other_operator(s, p, rule, Rule::bicond);
    }
    if rule != Rule::equals {
        lemma_other_operator(s, p, rule, Rule::equals);
    }
}

/// The text of a writable formula starts with a double quote, a parenthesis
/// or the sign of negation, and with the last only where the formula is a
/// negation.
pub proof fn lemma_rendered_start(f: Formula)
    requires
        writable(f),
    ensures
        rendered(f).len() > 0,
        rendered(f)[0] == '"' || rendered(f)[0] == '(' || (f is Not && rendered(f)[0] == '!'),
{
}

/// Whether `c` can start the text of a formula.
pub open spec fn starts_formula(c: char) -> bool {
    c == '"' || c == '(' || c == '!'
}

proof fn lemma_skips_one(s: Seq<char>, at: int)
    requires
        0 <= at,
        at + 1 < s.len(),
        s[at] == ' ',
        !is_space(s[at + 1]),
    ensures
        skip_spaces(s, at) == at + 1,
{
    assert(skip_spaces(s, at + 1) == at + 1);
}

proof fn lemma_tail_read(s: Seq<char>, rule: Rule, l: Formula, r: Formula, e1: int, e2: int)
    requires
        is_infix(rule),
        0 <= e1,
        e1 + sign(rule).len() + 2 < e2 < s.len(),
        s[e1] == ' ',
        holds_at(s, e1 + 1, sign(rule)),
        s[e1 + 1 + sign(rule).len()] == ' ',
        starts_formula(s[e1 + sign(rule).len() + 2]),
        term_at(s, e1 + sign(rule).len() + 2) == Some((r, e2)),
        s[e2] == ')',
    ensures
        tail_at(s, l, e1) == (infix_formula(rule, l, r), e2),
{
    let p = e1 + 1;
    let q = p + sign(rule).len() + 1;
    let whole = infix_formula(rule, l, r);
    lemma_holds_at(s, p, sign(rule), 0);
    lemma_skips_one(s, e1);
    lemma_skips_one(s, q - 1);
    lemma_infix_found(s, p, rule);
    lemma_nothing_follows(s, e2);
    assert(tail_at(s, whole, e2) == (whole, e2));
}

proof fn lemma_atom_read(s: Seq<char>, i: int, f: Formula, e1: int, e2: int, l: Formula)
    requires
        0 <= i,
        i + 1 < e1 <= e2 < s.len(),
        s[i] == '(',
        starts_formula(s[i + 1]),
        term_at(s, i + 1) == Some((l, e1)),
        tail_at(s, l, e1) == (f, e2),
        s[e2] == ')',
    ensures
        atom_at(s, i) == Some((f, e2 + 1)),
        term_at(s, i) == Some((f, e2 + 1)),
{
    lemma_nothing_follows(s, i);
    lemma_nothing_follows(s, e2);
    assert(skip_spaces(s, i + 1) == i + 1);
    assert(identifier_end(s, i) is None);
    assert(expr_at(s, i + 1) == Some((f, e2)));
}

proof fn lemma_infix_layout(rule: Rule, left: Seq<char>, right: Seq<char>)
    requires
        is_infix(rule),
        left.len() > 0,
        right.len() > 0,
    ensures
        ({
            let text = infix_text(rule, left, right);
            let e1: int = (1 + left.len()) as int;
            let q: int = e1 + sign(rule).len() + 2;
            let e2: int = q + right.len();
            &&& text.len() == e2 + 1
            &&& text[0] == '('
            &&& text[1] == left[0]
            &&& text[e1] == ' '
            &&& text[q - 1] == ' '
            &&& text[q] == right[0]
            &&& text[e2] == ')'
            &&& text.subrange(1, e1) == left
            &&& text.subrange(e1 + 1, q - 1) == sign(rule)
            &&& text.subrange(q, e2) == right
        }),
{
    let text = infix_text(rule, left, right);
    let e1: int = (1 + left.len()) as int;
    let q: int = e1 + sign(rule).len() + 2;
    let e2: int = q + right.len();
    assert(text.subrange(1, e1) =~= left);
    assert(text.subrange(e1 + 1, q - 1) =~= sign(rule));
    assert(text.subrange(q, e2) =~= right);
}

proof fn lemma_infix_parts(s: Seq<char>, i: int, rule: Rule, l: Formula, r: Formula)
    requires
        is_infix(rule),
        writable(l),
        writable(r),
        holds_at(s, i, infix_text(rule, rendered(l), rendered(r))),
    ensures
        holds_at(s, i + 1, rendered(l)),
        holds_at(s, i + rendered(l).len() + sign(rule).len() + 3, rendered(r)),
{
    let left = rendered(l);
    let right = rendered(r);
    let text = infix_text(rule, left, right);
    let e1: int = (1 + left.len()) as int;
    let q: int = e1 + sign(rule).len() + 2;
    let e2: int = q + right.len();
    lemma_rendered_start(l);
    lemma_rendered_start(r);
    lemma_infix_layout(rule, left, right);
    lemma_holds_part(s, i, text, 1, e1);
    lemma_holds_part(s, i, text, q, e2);
}

proof fn lemma_infix_read(s: Seq<char>, i: int, rule: Rule, l: Formula, r: Formula)
    requires
        is_infix(rule),
        writable(l),
        writable(r),
        holds_at(s, i, infix_text(rule, rendered(l), rendered(r))),
        term_at(s, i + 1) == Some((l, i + 1 + rendered(l).len())),
        term_at(s, i + rendered(l).len() + sign(rule).len() + 3) == Some(
            (r, i + rendered(l).len() + sign(rule).len() + 3 + rendered(r).len()),
        ),
    ensures
        atom_at(s, i) == Some(
            (infix_formula(rule, l, r), i + infix_text(rule, rendered(l), rendered(r)).len()),
        ),
        term_at(s, i) == Some(
            (infix_formula(rule, l, r), i + infix_text(rule, rendered(l), rendered(r)).len()),
        ),
{
    let left = rendered(l);
    let right = rendered(r);
    let text = infix_text(rule, left, right);
    let e1: int = (1 + left.len()) as int;
    let q: int = e1 + sign(rule).len() + 2;
    let e2: int = q + right.len();
    lemma_rendered_start(l);
    lemma_rendered_start(r);
    lemma_infix_layout(rule, left, right);
    lemma_holds_at(s, i, text, 0);
    lemma_holds_at(s, i, text, 1);
    lemma_holds_at(s, i, text, e1);
    lemma_holds_at(s, i, text, q - 1);
    lemma_holds_at(s, i, text, q);
    lemma_holds_at(s, i, text, e2);
    lemma_holds_part(s, i, text, e1 + 1, q - 1);
    lemma_tail_read(s, rule, l, r, i + e1, i + e2);
    lemma_atom_read(s, i, infix_formula(rule, l, r), i + e1, i + e2, l);
}

/// A writable formula stands where its text stands.
pub proof fn lemma_term_read(s: Seq<char>, i: int, f: Formula)
    requires
        writable(f),
        holds_at(s, i, rendered(f)),
    ensures
        term_at(s, i) == Some((f, i + rendered(f).len())),
        !(f is Not) ==> atom_at(s, i) == Some((f, i + rendered(f).len())),
    decreases f,
{
    let text = rendered(f);
    match f {
        Formula::True | Formula::False => {},
        Formula::Var(name) => {
            lemma_name_read(s, i, name);
        },
        Formula::Not(x) => {
            let inner = rendered(*x);
            lemma_rendered_start(*x);
            assert(text[0] == '!' && text[1] == inner[0]);
            lemma_holds_at(s, i, text, 0);
            lemma_holds_at(s, i, text, 1);
            assert(text.subrange(1, text.len() as int) =~= inner);
            lemma_holds_part(s, i, text, 1, text.len() as int);
            lemma_term_read(s, i + 1, *x);
            lemma_negation_read(s, i, *x, i + text.len());
            assert(crate::formula::not(*x) == f);
        },
        Formula::And(l, r)
        | Formula::Or(l, r)
        | Formula::Xor(l, r)
        | Formula::Implies(l, r)
        | Formula::Iff(l, r)
        | Formula::Equals(l, r) => {
            let rule = match f {
                Formula::And(_, _) => Rule::and,
                Formula::Or(_, _) => Rule::or,
                Formula::Xor(_, _) => Rule::xor,
                Formula::Implies(_, _) => Rule::cond,
                Formula::Iff(_, _) => Rule::bicond,
                _ => Rule::equals,
            };
            let from = rendered(*l).len() + sign(rule).len() + 3;
            lemma_infix_parts(s, i, rule, *l, *r);
            lemma_term_read(s, i + 1, *l);
            lemma_term_read(s, i + from, *r);
            lemma_infix_read(s, i, rule, *l, *r);
            assert(infix_formula(rule, *l, *r) == f);
        },
    }
}

proof fn lemma_name_read(s: Seq<char>, i: int, name: Seq<char>)
    requires
        writable(Formula::Var(name)),
        holds_at(s, i, rendered(Formula::Var(name))),
    ensures
        term_at(s, i) == Some((Formula::Var(name), i + name.len() + 2)),
        atom_at(s, i) == Some((Formula::Var(name), i + name.len() + 2)),
{
    let text = rendered(Formula::Var(name));
    let close = i + 1 + name.len();
    assert(text[0] == '"' && text[close - i] == '"');
    lemma_holds_at(s, i, text, 0);
    lemma_holds_at(s, i, text, close - i);
    lemma_nothing_follows(s, i);
    assert forall|k: int| i + 1 <= k < close implies s[k] != '"' by {
        lemma_holds_at(s, i, text, k - i);
        assert(text[k - i] == name[k - i - 1]);
        assert(name.contains(name[k - i - 1]));
    }
    lemma_quote_at(s, i + 1, close, '"');
    assert(text.subrange(1, close - i) =~= name);
    lemma_holds_part(s, i, text, 1, close - i);
    assert(name_of(s, i, close + 1) == name);
    assert(identifier_end(s, i) == Some(close + 1));
}

proof fn lemma_negation_read(s: Seq<char>, i: int, x: Formula, end: int)
    requires
        0 <= i,
        i + 1 < s.len(),
        s[i] == '!',
        s[i + 1] == '"' || s[i + 1] == '(',
        atom_at(s, i + 1) == Some((x, end)),
    ensures
        term_at(s, i) == Some((crate::formula::not(x), end)),
{
    assert(has_text(s, i, sign(Rule::not))) by {
        assert(s[i + 0] == '!');
    }
    lemma_nothing_follows(s, i + 1);
    assert(nots_at(s, i) == (1nat, i + 1));
}

/// What is written can be read back: the text of a writable formula states
/// that formula.
pub proof fn lemma_read_back(f: Formula)
    requires
        writable(f),
    ensures
        parsed(rendered(f)) == Some(f),
{
    let text = rendered(f);
    let end = text.len() as int;
    lemma_rendered_start(f);
    assert(text.subrange(0, end) =~= text);
    lemma_term_read(text, 0, f);
    lemma_nothing_follows(text, end);
    assert(skip_spaces(text, 0) == 0);
    assert(tail_at(text, f, end) == (f, end));
}

} // verus!
