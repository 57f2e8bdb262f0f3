//! The calculation grammar:
//!
//! ```text
//! calculation = SOI ~ expr ~ EOI
//! single_num  = SOI ~ num ~ EOI
//! expr        = term ~ (operation ~ term)*
//! term        = num | "(" ~ expr ~ ")"
//! operation   = "+" | "-" | "*" | "/"
//! num         = @{ int ~ ("." ~ ASCII_DIGIT*)? ~ (^"e" ~ int)? }
//! int         = ("+" | "-")? ~ ASCII_DIGIT+
//! WHITESPACE  = " " | "\t"
//! ```
//!
//! Whitespace may stand between any two elements of a sequence, but not
//! inside a number. Operators group as usual: `*` and `/` bind tighter than
//! `+` and `-`, and operators of one level associate to the left.
use vstd::prelude::*;
use crate::decimal::{digits_end, num_end, is_digit, after_sign, int_end, fraction_end, exponent_end, is_num_literal};

verus! {

/// A binary arithmetic operator.
#[derive(Clone, Copy, Debug, PartialEq, Eq, Structural)]
pub enum Op {
    Add,
    Sub,
    Mul,
    Div,
}

/// A parsed expression. A number is kept as the span `[start, end)` of its
/// literal in the expression text.
#[derive(Debug)]
pub enum Tree {
    Num(usize, usize),
    Bin(Op, Box<Tree>, Box<Tree>),
}

pub open spec fn is_ws(c: char) -> bool {
    c == ' ' || c == '\t'
}

pub open spec fn is_op(c: char) -> bool {
    c == '+' || c == '-' || c == '*' || c == '/'
}

pub open spec fn op_of(c: char) -> Op {
    if c == '+' {
        Op::Add
    } else if c == '-' {
        Op::Sub
    } else if c == '*' {
        Op::Mul
    } else {
        Op::Div
    }
}

pub open spec fn binds_tight(op: Op) -> bool {
    op == Op::Mul || op == Op::Div
}

/// The first position at or after `i` that holds no space or tab.
pub open spec fn skip_ws(s: Seq<char>, i: int) -> int
    decreases s.len() - i,
{
    if 0 <= i < s.len() && is_ws(s[i]) {
        skip_ws(s, i + 1)
    } else {
        i
    }
}

pub proof fn lemma_skip_ws(s: Seq<char>, i: int)
    ensures
        skip_ws(s, i) >= i,
        0 <= i <= s.len() ==> skip_ws(s, i) <= s.len(),
        forall|k: int| i <= k < skip_ws(s, i) ==> #[trigger] is_ws(s[k]),
        0 <= skip_ws(s, i) < s.len() ==> !is_ws(s[skip_ws(s, i)]),
    decreases s.len() - i,
{
    if 0 <= i < s.len() && is_ws(s[i]) {
        lemma_skip_ws(s, i + 1);
    }
}

/// Closes the pending sum: `sum op prod`, or `prod` when nothing is pending.
pub open spec fn close(sum: Option<(Tree, Op)>, prod: Tree) -> Tree {
    match sum {
        None => prod,
        Some((l, op)) => Tree::Bin(op, Box::new(l), Box::new(prod)),
    }
}

/// One step of operator-precedence grouping: `*` and `/` extend the pending
/// product; `+` and `-` close the pending sum and start a new product.
pub open spec fn push_op(sum: Option<(Tree, Op)>, prod: Tree, op: Op, t: Tree) -> (
    Option<(Tree, Op)>,
    Tree,
) {
    if binds_tight(op) {
        (sum, Tree::Bin(op, Box::new(prod), Box::new(t)))
    } else {
        (Some((close(sum, prod), op)), t)
    }
}

/// `expr` at `i`: the grouped tree and the position after it.
pub open spec fn spec_expr(s: Seq<char>, i: int) -> Option<(Tree, int)>
    decreases s.len() + 1 - i, 2int,
{
    if i < 0 || i > s.len() {
        None
    } else {
        match spec_term(s, i) {
            None => None,
            Some((t, k)) => if k <= i || k > s.len() {
                None
            } else {
                Some(spec_tail(s, k, None, t))
            },
        }
    }
}

/// `term` at `i` (after optional whitespace).
pub open spec fn spec_term(s: Seq<char>, i: int) -> Option<(Tree, int)>
    decreases s.len() + 1 - i, 1int,
{
    if i < 0 || i > s.len() {
        None
    } else {
        let j = skip_ws(s, i);
        proof {
            lemma_skip_ws(s, i);
        }
        match num_end(s, j) {
            Some(k) => Some((Tree::Num(j as usize, k as usize), k)),
            None => if j < s.len() && s[j] == '(' {
                match spec_expr(s, j + 1) {
                    Some((t, k)) => {
                        let m = skip_ws(s, k);
                        if 0 <= m < s.len() && s[m] == ')' {
                            Some((t, m + 1))
                        } else {
                            None
                        }
                    },
                    None => None,
                }
            } else {
                None
            },
        }
    }
}

/// `(operation ~ term)*` at `i`, grouping into the pending sum and product.
pub open spec fn spec_tail(s: Seq<char>, i: int, sum: Option<(Tree, Op)>, prod: Tree) -> (Tree, int)
    decreases s.len() + 1 - i, 0int,
{
    if i < 0 || i > s.len() {
        (close(sum, prod), i)
    } else {
        let j = skip_ws(s, i);
        proof {
            lemma_skip_ws(s, i);
        }
        if j < s.len() && is_op(s[j]) {
            match spec_term(s, j + 1) {
                Some((t, k)) => if k <= i || k > s.len() {
                    (close(sum, prod), i)
                } else {
                    let (sum2, prod2) = push_op(sum, prod, op_of(s[j]), t);
                    spec_tail(s, k, sum2, prod2)
                },
                None => (close(sum, prod), i),
            }
        } else {
            (close(sum, prod), i)
        }
    }
}

/// The tree of `s` when the whole of `s` is a calculation.
pub open spec fn spec_calculation(s: Seq<char>) -> Option<Tree> {
    match spec_expr(s, 0) {
        Some((t, k)) => if skip_ws(s, k) == s.len() {
            Some(t)
        } else {
            None
        },
        None => None,
    }
}

/// Whether the whole of `s` is one number (with optional surrounding whitespace).
pub open spec fn spec_single_num(s: Seq<char>) -> bool {
    match num_end(s, skip_ws(s, 0)) {
        Some(k) => skip_ws(s, k) == s.len(),
        None => false,
    }
}

/// Every number of the tree spans a decimal literal of `s`.
pub open spec fn tree_wf(s: Seq<char>, t: Tree) -> bool
    decreases t,
{
    match t {
        Tree::Num(a, b) => a <= b <= s.len() && is_num_literal(s.subrange(a as int, b as int)),
        Tree::Bin(_, l, r) => tree_wf(s, *l) && tree_wf(s, *r),
    }
}

// ---------------------------------------------------------------------------
// The grammar as a derivation relation
//
// `is_sum(s, i, j, t)` says that `s[i..j]` derives, as an expression, the
// tree `t`; `is_prod` and `is_atom` do the same for a product and for a
// number or parenthesized expression. Whitespace may precede every element.
// Sums and products associate to the left; products bind tighter.

/// Only spaces and tabs stand in `s[i..j]`.
pub open spec fn ws_run(s: Seq<char>, i: int, j: int) -> bool {
    forall|x: int| i <= x < j ==> is_ws(#[trigger] s[x])
}

/// `s[m..o]` is whitespace and then the operator `op`.
pub open spec fn op_span(s: Seq<char>, m: int, o: int, op: Op) -> bool {
    &&& 0 <= m < o <= s.len()
    &&& ws_run(s, m, o - 1)
    &&& is_op(s[o - 1])
    &&& op_of(s[o - 1]) == op
}

/// A pair of positions at which a derivation splits a text (a marker that
/// lets proofs name the split).
pub open spec fn split_pair(m: int, o: int) -> bool {
    true
}

/// `s[i..j]` is whitespace and then a number, or a `(`, an expression,
/// whitespace and a `)`.
pub open spec fn is_atom(s: Seq<char>, i: int, j: int, t: Tree) -> bool
    decreases j - i, 1int,
{
    exists|p: int, m: int| #[trigger] split_pair(p, m) && 0 <= i <= p && p < j && j <= s.len() && ws_run(s, i, p) && {
        ||| t == Tree::Num(p as usize, j as usize) && is_num_literal(s.subrange(p, j))
        ||| {
            &&& p + 1 <= m && m < j
            &&& s[p] == '('
            &&& is_sum(s, p + 1, m, t)
            &&& ws_run(s, m, j - 1)
            &&& s[j - 1] == ')'
        }
    }
}

/// `s[i..j]` derives the product `t`: an atom, or a product `l`, a `*` or
/// `/`, and an atom `r`, split at `m` (end of `l`) and `o` (after the operator).
pub open spec fn is_prod(s: Seq<char>, i: int, j: int, t: Tree) -> bool
    decreases j - i, 3int,
{
    ||| is_atom(s, i, j, t)
    ||| exists|m: int, o: int| #[trigger] split_pair(m, o) && i < m && m < o && o < j && {
        &&& t matches Tree::Bin(op, l, r)
        &&& binds_tight(op)
        &&& is_prod(s, i, m, *l)
        &&& op_span(s, m, o, op)
        &&& is_atom(s, o, j, *r)
    }
}

/// `s[i..j]` derives the expression `t`: a product, or an expression `l`, a
/// `+` or `-`, and a product `r`, split at `m` and `o`.
pub open spec fn is_sum(s: Seq<char>, i: int, j: int, t: Tree) -> bool
    decreases j - i, 5int,
{
    ||| is_prod(s, i, j, t)
    ||| exists|m: int, o: int| #[trigger] split_pair(m, o) && i < m && m < o && o < j && {
        &&& t matches Tree::Bin(op, l, r)
        &&& !binds_tight(op)
        &&& is_sum(s, i, m, *l)
        &&& op_span(s, m, o, op)
        &&& is_prod(s, o, j, *r)
    }
}

/// The whole of `s` derives the calculation `t` (trailing whitespace allowed).
pub open spec fn derives_calculation(s: Seq<char>, t: Tree) -> bool {
    exists|k: int| 0 <= k <= s.len() && #[trigger] is_sum(s, 0, k, t) && ws_run(s, k, s.len() as int)
}

proof fn lemma_digits_end_sub(s: Seq<char>, j: int, k: int, i: int)
    requires
        0 <= j <= i <= k <= s.len(),
    ensures
        digits_end(s, i) >= i,
        digits_end(s.subrange(j, k), i - j) == (if digits_end(s, i) <= k {
            digits_end(s, i)
        } else {
            k
        }) - j,
    decreases k - i,
{
    if i < k && is_digit(s[i]) {
        lemma_digits_end_sub(s, j, k, i + 1);
    } else if i < k {
    } else {
        lemma_digits_end_ge(s, i);
    }
}

proof fn lemma_digits_end_ge(s: Seq<char>, i: int)
    ensures
        digits_end(s, i) >= i,
        0 <= i <= s.len() ==> digits_end(s, i) <= s.len(),
    decreases s.len() - i,
{
    if 0 <= i < s.len() && is_digit(s[i]) {
        lemma_digits_end_ge(s, i + 1);
    }
}

proof fn lemma_int_end(s: Seq<char>, i: int)
    ensures
        int_end(s, i) matches Some(e) ==> i < e && (0 <= i <= s.len() ==> e <= s.len()),
{
    lemma_digits_end_ge(s, after_sign(s, i));
}

proof fn lemma_int_end_sub(s: Seq<char>, j: int, k: int, i: int)
    requires
        0 <= j <= i <= k <= s.len(),
        int_end(s, i) matches Some(e) && e <= k,
    ensures
        int_end(s.subrange(j, k), i - j) == Some(int_end(s, i)->0 - j),
{
    let a = after_sign(s, i);
    lemma_digits_end_ge(s, a);
    let sub = s.subrange(j, k);
    assert(i < k);
    assert(sub[i - j] == s[i]);
    assert(after_sign(sub, i - j) == a - j);
    lemma_digits_end_sub(s, j, k, a);
}

/// A number found at `j` spans a decimal literal.
pub proof fn lemma_num_literal(s: Seq<char>, j: int)
    requires
        0 <= j <= s.len(),
        num_end(s, j) is Some,
    ensures
        j < num_end(s, j)->0 <= s.len(),
        is_num_literal(s.subrange(j, num_end(s, j)->0)),
{
    let k = num_end(s, j)->0;
    let p = int_end(s, j)->0;
    lemma_int_end(s, j);
    let q = fraction_end(s, p);
    if 0 <= p < s.len() && s[p] == '.' {
        lemma_digits_end_ge(s, p + 1);
    }
    assert(q >= p);
    if 0 <= q < s.len() && (s[q] == 'e' || s[q] == 'E') {
        lemma_int_end(s, q + 1);
    }
    assert(k >= q);
    assert(k <= s.len());
    let sub = s.subrange(j, k);
    lemma_int_end_sub(s, j, k, j);
    assert(int_end(sub, 0) == Some(p - j));
    if p < k {
        assert(sub[p - j] == s[p]);
        if s[p] == '.' {
            lemma_digits_end_sub(s, j, k, p + 1);
        }
    }
    assert(fraction_end(sub, p - j) == q - j);
    if q < k {
        assert(sub[q - j] == s[q]);
        lemma_int_end_sub(s, j, k, q + 1);
    }
    assert(exponent_end(sub, q - j) == k - j);
}

proof fn lemma_close_wf(s: Seq<char>, sum: Option<(Tree, Op)>, prod: Tree)
    requires
        tree_wf(s, prod),
        sum matches Some((l, _)) ==> tree_wf(s, l),
    ensures
        tree_wf(s, close(sum, prod)),
{
}

proof fn lemma_expr_wf(s: Seq<char>, i: int)
    requires
        s.len() <= usize::MAX,
    ensures
        spec_expr(s, i) matches Some((t, k)) ==> tree_wf(s, t) && i < k <= s.len(),
    decreases s.len() + 1 - i, 2int,
{
    if 0 <= i <= s.len() {
        lemma_term_wf(s, i);
        if let Some((t, k)) = spec_term(s, i) {
            if i < k <= s.len() {
                lemma_tail_wf(s, k, None, t);
            }
        }
    }
}

proof fn lemma_term_wf(s: Seq<char>, i: int)
    requires
        s.len() <= usize::MAX,
    ensures
        spec_term(s, i) matches Some((t, k)) ==> tree_wf(s, t) && i < k <= s.len(),
    decreases s.len() + 1 - i, 1int,
{
    if 0 <= i <= s.len() {
        let j = skip_ws(s, i);
        lemma_skip_ws(s, i);
        if num_end(s, j) is Some {
            lemma_num_literal(s, j);
        } else if j < s.len() && s[j] == '(' {
            lemma_expr_wf(s, j + 1);
            if let Some((t, k)) = spec_expr(s, j + 1) {
                lemma_skip_ws(s, k);
            }
        }
    }
}

proof fn lemma_tail_wf(s: Seq<char>, i: int, sum: Option<(Tree, Op)>, prod: Tree)
    requires
        s.len() <= usize::MAX,
        tree_wf(s, prod),
        sum matches Some((l, _)) ==> tree_wf(s, l),
    ensures
        tree_wf(s, spec_tail(s, i, sum, prod).0),
        0 <= i <= s.len() ==> i <= spec_tail(s, i, sum, prod).1 <= s.len(),
    decreases s.len() + 1 - i, 0int,
{
    lemma_close_wf(s, sum, prod);
    if 0 <= i <= s.len() {
        let j = skip_ws(s, i);
        lemma_skip_ws(s, i);
        if j < s.len() && is_op(s[j]) {
            lemma_term_wf(s, j + 1);
            if let Some((t, k)) = spec_term(s, j + 1) {
                if i < k <= s.len() {
                    let (sum2, prod2) = push_op(sum, prod, op_of(s[j]), t);
                    lemma_close_wf(s, sum, prod);
                    lemma_tail_wf(s, k, sum2, prod2);
                }
            }
        }
    }
}

/// A parsed calculation's numbers all span decimal literals.
pub proof fn lemma_calculation_wf(s: Seq<char>)
    requires
        s.len() <= usize::MAX,
    ensures
        spec_calculation(s) matches Some(t) ==> tree_wf(s, t),
{
    lemma_expr_wf(s, 0);
}

/// A text that is a single number is a calculation, and its tree is that number.
pub proof fn law_single_number_is_calculation(s: Seq<char>)
    requires
        s.len() <= usize::MAX,
        spec_single_num(s),
    ensures
        spec_calculation(s) == Some(Tree::Num(
            skip_ws(s, 0) as usize,
            num_end(s, skip_ws(s, 0))->0 as usize,
        )),
{
    let j = skip_ws(s, 0);
    lemma_skip_ws(s, 0);
    lemma_num_literal(s, j);
    let k = num_end(s, j)->0;
    lemma_skip_ws(s, k);
    assert(spec_term(s, 0) == Some((Tree::Num(j as usize, k as usize), k)));
    assert(spec_tail(s, k, None, Tree::Num(j as usize, k as usize)) == (Tree::Num(j as usize, k as usize), k));
}

// ---------------------------------------------------------------------------
// The parser's trees are derivations of the grammar

proof fn lemma_close_sound(s: Seq<char>, a: int, m: int, i: int, sum: Option<(Tree, Op)>, prod: Tree, x: int)
    requires
        0 <= a <= m < i <= s.len(),
        is_prod(s, m, i, prod),
        sum is None ==> m == a,
        sum matches Some((l, op)) ==> a < x < m && is_sum(s, a, x, l) && op_span(s, x, m, op) && !binds_tight(op),
    ensures
        is_sum(s, a, i, close(sum, prod)),
{
    match sum {
        None => {
            assert(is_prod(s, a, i, prod));
        },
        Some((l, op)) => {
            let t = Tree::Bin(op, Box::new(l), Box::new(prod));
            assert(split_pair(x, m));
        },
    }
}

proof fn lemma_expr_sound(s: Seq<char>, i: int)
    requires
        s.len() <= usize::MAX,
    ensures
        spec_expr(s, i) matches Some((t, k)) ==> is_sum(s, i, k, t),
    decreases s.len() + 1 - i, 2int,
{
    if 0 <= i <= s.len() {
        if let Some((t, k)) = spec_term(s, i) {
            if i < k <= s.len() {
                lemma_term_sound(s, i);
                assert(is_prod(s, i, k, t));
                lemma_tail_sound(s, k, None, t, i, i, i);
            }
        }
    }
}

proof fn lemma_term_sound(s: Seq<char>, i: int)
    requires
        s.len() <= usize::MAX,
    ensures
        spec_term(s, i) matches Some((t, k)) ==> is_atom(s, i, k, t),
    decreases s.len() + 1 - i, 1int,
{
    if 0 <= i <= s.len() {
        let j = skip_ws(s, i);
        lemma_skip_ws(s, i);
        assert(ws_run(s, i, j));
        if let Some(k) = num_end(s, j) {
            lemma_num_literal(s, j);
            assert(split_pair(j, j));
        } else if j < s.len() && s[j] == '(' {
            lemma_expr_sound(s, j + 1);
            lemma_expr_wf(s, j + 1);
            if let Some((t, k0)) = spec_expr(s, j + 1) {
                let m = skip_ws(s, k0);
                lemma_skip_ws(s, k0);
                if 0 <= m < s.len() && s[m] == ')' {
                    assert(ws_run(s, k0, m));
                    assert(split_pair(j, k0));
                }
            }
        }
    }
}

proof fn lemma_tail_sound(s: Seq<char>, i: int, sum: Option<(Tree, Op)>, prod: Tree, a: int, m: int, x: int)
    requires
        s.len() <= usize::MAX,
        0 <= a <= m < i <= s.len(),
        is_prod(s, m, i, prod),
        sum is None ==> m == a,
        sum matches Some((l, op)) ==> a < x < m && is_sum(s, a, x, l) && op_span(s, x, m, op) && !binds_tight(op),
    ensures
        is_sum(s, a, spec_tail(s, i, sum, prod).1, spec_tail(s, i, sum, prod).0),
    decreases s.len() + 1 - i, 0int,
{
    lemma_close_sound(s, a, m, i, sum, prod, x);
    let j = skip_ws(s, i);
    lemma_skip_ws(s, i);
    if j < s.len() && is_op(s[j]) {
        lemma_term_wf(s, j + 1);
        if let Some((t, k)) = spec_term(s, j + 1) {
            if i < k <= s.len() {
                let op = op_of(s[j]);
                assert(ws_run(s, i, j));
                assert(op_span(s, i, j + 1, op));
                lemma_term_sound(s, j + 1);
                if binds_tight(op) {
                    let p2 = Tree::Bin(op, Box::new(prod), Box::new(t));
                    assert(split_pair(i, j + 1));
                    lemma_tail_sound(s, k, sum, p2, a, m, x);
                } else {
                    let c = close(sum, prod);
                    assert(is_prod(s, j + 1, k, t));
                    lemma_tail_sound(s, k, Some((c, op)), t, a, j + 1, i);
                }
            }
        }
    }
}

/// Every tree the parser gives for a calculation is a derivation of the
/// grammar: the whole text derives it as an expression, up to trailing
/// whitespace.
pub proof fn law_calculation_derives(s: Seq<char>)
    requires
        s.len() <= usize::MAX,
    ensures
        spec_calculation(s) matches Some(t) ==> derives_calculation(s, t),
{
    lemma_expr_sound(s, 0);
    lemma_expr_wf(s, 0);
    if let Some((t, k)) = spec_expr(s, 0) {
        lemma_skip_ws(s, k);
        if skip_ws(s, k) == s.len() {
            assert(ws_run(s, k, s.len() as int));
            assert(is_sum(s, 0, k, t));
        }
    }
}

// ---------------------------------------------------------------------------
// Every derivation of the grammar is what the parser finds

/// What may follow a number or a parenthesized expression in a derivation:
/// the end of the text, whitespace, an operator or a closing parenthesis.
pub open spec fn atom_follow(s: Seq<char>, j: int) -> bool {
    j == s.len() || (0 <= j < s.len() && (is_ws(s[j]) || is_op(s[j]) || s[j] == ')'))
}

/// After whitespace at `j` comes `*` or `/`.
pub open spec fn tight_next(s: Seq<char>, j: int) -> bool {
    let q = skip_ws(s, j);
    0 <= q < s.len() && (s[q] == '*' || s[q] == '/')
}

/// After whitespace at `j` comes no operator.
pub open spec fn ends_expression(s: Seq<char>, j: int) -> bool {
    let q = skip_ws(s, j);
    !(0 <= q < s.len() && is_op(s[q]))
}

proof fn lemma_skip_to(s: Seq<char>, i: int, p: int)
    requires
        0 <= i <= p <= s.len(),
        ws_run(s, i, p),
        p == s.len() || !is_ws(s[p]),
    ensures
        skip_ws(s, i) == p,
    decreases p - i,
{
    if i < p {
        lemma_skip_to(s, i + 1, p);
    }
}

proof fn lemma_digits_in_run(s: Seq<char>, x: int, y: int)
    requires
        0 <= x <= y < digits_end(s, x),
    ensures
        0 <= y < s.len(),
        is_digit(s[y]),
    decreases y - x,
{
    if x < y {
        lemma_digits_in_run(s, x + 1, y);
    }
}

proof fn lemma_digits_same(s: Seq<char>, p: int, j: int, x: int)
    requires
        0 <= p <= x <= j <= s.len(),
        j == s.len() || !is_digit(s[j]),
    ensures
        digits_end(s, x) == digits_end(s.subrange(p, j), x - p) + p,
        digits_end(s, x) <= j,
{
    lemma_digits_end_sub(s, p, j, x);
    if digits_end(s, x) > j {
        lemma_digits_in_run(s, x, j);
    }
}

proof fn lemma_num_complete(s: Seq<char>, p: int, j: int)
    requires
        0 <= p < j <= s.len(),
        is_num_literal(s.subrange(p, j)),
        j == s.len() || !(is_digit(s[j]) || s[j] == '.' || s[j] == 'e' || s[j] == 'E'),
    ensures
        num_end(s, p) == Some(j),
{
    let sub = s.subrange(p, j);
    let len = j - p;
    assert(sub[0] == s[p]);
    let a = after_sign(s, p);
    assert(after_sign(sub, 0) == a - p);
    lemma_digits_same(s, p, j, a);
    let q = digits_end(s, a);
    assert(int_end(sub, 0) == Some(q - p));
    assert(int_end(s, p) == Some(q));
    let r = fraction_end(s, q);
    if q < j {
        assert(sub[q - p] == s[q]);
        if s[q] == '.' {
            lemma_digits_same(s, p, j, q + 1);
        }
        assert(fraction_end(sub, q - p) == r - p);
    } else {
        assert(fraction_end(sub, q - p) == len);
        assert(r == j);
    }
    if r < j {
        assert(sub[r - p] == s[r]);
        assert(exponent_end(sub, r - p) == len);
        if r + 1 == j {
            assert(after_sign(sub, len) == len);
            assert(digits_end(sub, len) == len);
            assert(int_end(sub, len) is None);
            assert(false);
        }
        assert(sub[r + 1 - p] == s[r + 1]);
        let a2 = after_sign(s, r + 1);
        assert(after_sign(sub, r + 1 - p) == a2 - p);
        lemma_digits_same(s, p, j, a2);
        assert(int_end(s, r + 1) == Some(j));
    } else {
        assert(exponent_end(s, r) == j);
    }
}

proof fn lemma_state_eq(s: Seq<char>, j: int, l: Tree, op: Op, r: Tree)
    requires
        0 <= j <= s.len(),
        !tight_next(s, j),
    ensures
        spec_tail(s, j, Some((l, op)), r) == spec_tail(s, j, None, Tree::Bin(op, Box::new(l), Box::new(r))),
{
    let b = Tree::Bin(op, Box::new(l), Box::new(r));
    assert(close(Some((l, op)), r) == b);
    assert(close(None, b) == b);
    let jj = skip_ws(s, j);
    lemma_skip_ws(s, j);
    if jj < s.len() && is_op(s[jj]) {
        let op2 = op_of(s[jj]);
        assert(!binds_tight(op2));
        match spec_term(s, jj + 1) {
            Some((t, k)) => {
                assert(push_op(Some((l, op)), r, op2, t) == push_op(None, b, op2, t));
            },
            None => {},
        }
    }
}

proof fn lemma_atom_complete(s: Seq<char>, i: int, j: int, t: Tree)
    requires
        s.len() <= usize::MAX,
        is_atom(s, i, j, t),
        atom_follow(s, j),
    ensures
        spec_term(s, i) == Some((t, j)),
    decreases j - i, 1int,
{
    let (p, m) = choose|p: int, m: int| #[trigger] split_pair(p, m) && 0 <= i <= p && p < j && j <= s.len() && ws_run(s, i, p) && {
        ||| t == Tree::Num(p as usize, j as usize) && is_num_literal(s.subrange(p, j))
        ||| {
            &&& p + 1 <= m && m < j
            &&& s[p] == '('
            &&& is_sum(s, p + 1, m, t)
            &&& ws_run(s, m, j - 1)
            &&& s[j - 1] == ')'
        }
    };
    if t == Tree::Num(p as usize, j as usize) && is_num_literal(s.subrange(p, j)) {
        let sub = s.subrange(p, j);
        assert(sub[0] == s[p]);
        assert(int_end(sub, 0) is Some);
        if !(s[p] == '+' || s[p] == '-') {
            assert(digits_end(sub, 0) > 0);
            assert(is_digit(sub[0]));
        }
        lemma_skip_to(s, i, p);
        lemma_num_complete(s, p, j);
    } else {
        lemma_skip_to(s, i, p);
        assert(after_sign(s, p) == p);
        assert(digits_end(s, p) == p);
        assert(num_end(s, p) is None);
        assert(skip_ws(s, j - 1) == j - 1);
        lemma_skip_to(s, m, j - 1);
        lemma_expr_complete(s, p + 1, m, t);
    }
}

proof fn lemma_prod_complete(s: Seq<char>, m: int, j: int, pr: Tree, sum: Option<(Tree, Op)>)
    requires
        s.len() <= usize::MAX,
        is_prod(s, m, j, pr),
        atom_follow(s, j),
    ensures
        spec_term(s, m) is Some,
        spec_tail(s, (spec_term(s, m)->0).1, sum, (spec_term(s, m)->0).0) == spec_tail(s, j, sum, pr),
    decreases j - m, 2int,
{
    if is_atom(s, m, j, pr) {
        lemma_atom_complete(s, m, j, pr);
    } else {
        let (x, o) = choose|x: int, o: int| #[trigger] split_pair(x, o) && m < x && x < o && o < j && {
            &&& pr matches Tree::Bin(op, l, r)
            &&& binds_tight(op)
            &&& is_prod(s, m, x, *l)
            &&& op_span(s, x, o, op)
            &&& is_atom(s, o, j, *r)
        };
        match pr {
            Tree::Bin(op, l, r) => {
                assert(atom_follow(s, x));
                lemma_prod_complete(s, m, x, *l, sum);
                lemma_skip_to(s, x, o - 1);
                lemma_atom_complete(s, o, j, *r);
                assert(push_op(sum, *l, op, *r) == (sum, pr));
            },
            _ => {},
        }
    }
}

proof fn lemma_sum_complete(s: Seq<char>, a: int, j: int, t: Tree)
    requires
        s.len() <= usize::MAX,
        is_sum(s, a, j, t),
        atom_follow(s, j),
        !tight_next(s, j),
    ensures
        spec_term(s, a) is Some,
        spec_tail(s, (spec_term(s, a)->0).1, None, (spec_term(s, a)->0).0) == spec_tail(s, j, None, t),
    decreases j - a, 3int,
{
    if is_prod(s, a, j, t) {
        lemma_prod_complete(s, a, j, t, None);
    } else {
        let (x, o) = choose|x: int, o: int| #[trigger] split_pair(x, o) && a < x && x < o && o < j && {
            &&& t matches Tree::Bin(op, l, r)
            &&& !binds_tight(op)
            &&& is_sum(s, a, x, *l)
            &&& op_span(s, x, o, op)
            &&& is_prod(s, o, j, *r)
        };
        match t {
            Tree::Bin(op, l, r) => {
                assert(atom_follow(s, x));
                lemma_skip_to(s, x, o - 1);
                assert(!tight_next(s, x));
                lemma_sum_complete(s, a, x, *l);
                lemma_prod_complete(s, o, j, *r, Some((*l, op)));
                lemma_term_wf(s, o);
                lemma_state_eq(s, j, *l, op, *r);
                assert(Tree::Bin(op, Box::new(*l), Box::new(*r)) == t);
            },
            _ => {},
        }
    }
}

proof fn lemma_expr_complete(s: Seq<char>, i: int, j: int, t: Tree)
    requires
        s.len() <= usize::MAX,
        is_sum(s, i, j, t),
        atom_follow(s, j),
        ends_expression(s, j),
    ensures
        spec_expr(s, i) == Some((t, j)),
    decreases j - i, 4int,
{
    lemma_sum_complete(s, i, j, t);
    lemma_term_wf(s, i);
    let (a1, e1) = spec_term(s, i)->0;
    assert(spec_expr(s, i) == Some(spec_tail(s, e1, None, a1)));
    lemma_skip_ws(s, j);
    assert(0 <= j <= s.len());
    assert(spec_tail(s, j, None, t) == (close(None, t), j));
}

/// Every derivation of a calculation in the grammar is the tree the parser
/// gives: the parser accepts exactly the texts that derive a calculation,
/// and each such text derives only that tree.
pub proof fn law_derivation_is_parsed(s: Seq<char>, t: Tree)
    requires
        s.len() <= usize::MAX,
        derives_calculation(s, t),
    ensures
        spec_calculation(s) == Some(t),
{
    let k = choose|k: int| 0 <= k <= s.len() && #[trigger] is_sum(s, 0, k, t) && ws_run(s, k, s.len() as int);
    lemma_skip_to(s, k, s.len() as int);
    lemma_expr_complete(s, 0, k, t);
}

// ---------------------------------------------------------------------------
// Executable parser

fn skip_ws_at(s: &Vec<char>, i: usize) -> (r: usize)
    requires
        i <= s@.len(),
    ensures
        r == skip_ws(s@, i as int),
        i <= r <= s@.len(),
    decreases s@.len() - i,
{
    if i < s.len() && (s[i] == ' ' || s[i] == '\t') {
        skip_ws_at(s, i + 1)
    } else {
        i
    }
}

fn digits_end_at(s: &Vec<char>, i: usize) -> (r: usize)
    requires
        i <= s@.len(),
    ensures
        r == digits_end(s@, i as int),
        i <= r <= s@.len(),
    decreases s@.len() - i,
{
    if i < s.len() && '0' <= s[i] && s[i] <= '9' {
        digits_end_at(s, i + 1)
    } else {
        i
    }
}

fn int_end_at(s: &Vec<char>, i: usize) -> (r: Option<usize>)
    requires
        i <= s@.len(),
    ensures
        r matches Some(k) ==> int_end(s@, i as int) == Some(k as int) && i < k <= s@.len(),
        r is None ==> int_end(s@, i as int) is None,
{
    let j = if i < s.len() && (s[i] == '+' || s[i] == '-') {
        i + 1
    } else {
        i
    };
    assert(j == after_sign(s@, i as int));
    let k = digits_end_at(s, j);
    if k > j {
        Some(k)
    } else {
        None
    }
}

/// The end of the number that starts at `i`, if one does.
pub fn num_end_at(s: &Vec<char>, i: usize) -> (r: Option<usize>)
    requires
        i <= s@.len(),
    ensures
        r matches Some(k) ==> num_end(s@, i as int) == Some(k as int) && i < k <= s@.len(),
        r is None ==> num_end(s@, i as int) is None,
{
    match int_end_at(s, i) {
        None => None,
        Some(j) => {
            let k = if j < s.len() && s[j] == '.' {
                digits_end_at(s, j + 1)
            } else {
                j
            };
            assert(k == fraction_end(s@, j as int));
            let m = if k < s.len() && (s[k] == 'e' || s[k] == 'E') {
                match int_end_at(s, k + 1) {
                    Some(e) => e,
                    None => k,
                }
            } else {
                k
            };
            assert(m == exponent_end(s@, k as int));
            Some(m)
        },
    }
}

fn op_at(c: char) -> (r: Op)
    requires
        is_op(c),
    ensures
        r == op_of(c),
{
    if c == '+' {
        Op::Add
    } else if c == '-' {
        Op::Sub
    } else if c == '*' {
        Op::Mul
    } else {
        Op::Div
    }
}

fn close_exec(sum: Option<(Tree, Op)>, prod: Tree) -> (r: Tree)
    ensures
        r == close(sum, prod),
{
    match sum {
        None => prod,
        Some((l, op)) => Tree::Bin(op, Box::new(l), Box::new(prod)),
    }
}

fn parse_expr(s: &Vec<char>, i: usize) -> (r: Option<(Tree, usize)>)
    requires
        i <= s@.len(),
    ensures
        r matches Some((t, k)) ==> spec_expr(s@, i as int) == Some((t, k as int)),
        r is None ==> spec_expr(s@, i as int) is None,
    decreases s@.len() + 1 - i, 2int,
{
    match parse_term(s, i) {
        None => None,
        Some((t, k)) => {
            if k <= i || k > s.len() {
                None
            } else {
                Some(parse_tail(s, k, None, t))
            }
        },
    }
}

fn parse_term(s: &Vec<char>, i: usize) -> (r: Option<(Tree, usize)>)
    requires
        i <= s@.len(),
    ensures
        r matches Some((t, k)) ==> spec_term(s@, i as int) == Some((t, k as int)),
        r is None ==> spec_term(s@, i as int) is None,
    decreases s@.len() + 1 - i, 1int,
{
    let j = skip_ws_at(s, i);
    match num_end_at(s, j) {
        Some(k) => Some((Tree::Num(j, k), k)),
        None => {
            if j < s.len() && s[j] == '(' {
                match parse_expr(s, j + 1) {
                    Some((t, k)) => {
                        if k > s.len() {
                            return None;
                        }
                        let m = skip_ws_at(s, k);
                        if m < s.len() && s[m] == ')' {
                            Some((t, m + 1))
                        } else {
                            None
                        }
                    },
                    None => None,
                }
            } else {
                None
            }
        },
    }
}

fn parse_tail(s: &Vec<char>, i: usize, sum: Option<(Tree, Op)>, prod: Tree) -> (r: (Tree, usize))
    requires
        i <= s@.len(),
    ensures
        spec_tail(s@, i as int, sum, prod) == (r.0, r.1 as int),
    decreases s@.len() + 1 - i, 0int,
{
    let j = skip_ws_at(s, i);
    if j < s.len() && (s[j] == '+' || s[j] == '-' || s[j] == '*' || s[j] == '/') {
        let op = op_at(s[j]);
        match parse_term(s, j + 1) {
            Some((t, k)) => {
                if k <= i || k > s.len() {
                    (close_exec(sum, prod), i)
                } else {
                    if op == Op::Mul || op == Op::Div {
                        parse_tail(s, k, sum, Tree::Bin(op, Box::new(prod), Box::new(t)))
                    } else {
                        let l = close_exec(sum, prod);
                        parse_tail(s, k, Some((l, op)), t)
                    }
                }
            },
            None => (close_exec(sum, prod), i),
        }
    } else {
        (close_exec(sum, prod), i)
    }
}

/// Parses a whole calculation.
pub fn parse_calculation(s: &Vec<char>) -> (r: Option<Tree>)
    ensures
        r == spec_calculation(s@),
{
    match parse_expr(s, 0) {
        Some((t, k)) => {
            if k > s.len() {
                return None;
            }
            if skip_ws_at(s, k) == s.len() {
                Some(t)
            } else {
                None
            }
        },
        None => None,
    }
}

/// Whether the whole text is a single number.
pub fn is_single_num(s: &Vec<char>) -> (r: bool)
    ensures
        r == spec_single_num(s@),
{
    let j = skip_ws_at(s, 0);
    match num_end_at(s, j) {
        Some(k) => skip_ws_at(s, k) == s.len(),
        None => false,
    }
}

} // verus!
