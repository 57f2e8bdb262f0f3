//! Evaluation of a parsed calculation with `BigDecimal` arithmetic.
use vstd::prelude::*;
use crate::decimal::{Decimal, decimal_sum, decimal_difference, decimal_product, quotient_result, sum_overflows, product_overflows, literal_value, literal_readable, is_num_literal, option_view, big_from_str, at_scale, max_scale, law_sum_is_exact, law_difference_is_exact, law_product_is_exact};
use crate::text::string_of_range;
use super::grammar::{Op, Tree, tree_wf};

verus! {

broadcast use vstd::string::group_string_axioms;

/// The one error a calculation can end in.
#[derive(Clone, Copy, Debug, PartialEq, Eq, Structural)]
pub enum CalcError {
    DivisionByZero,
}

impl CalcError {
    /// The message shown for the error.
    pub fn message(&self) -> (r: String)
        ensures
            r@ == calc_error_message(*self),
    {
        match self {
            CalcError::DivisionByZero => "Division by zero".to_string(),
        }
    }
}

pub open spec fn calc_error_message(e: CalcError) -> Seq<char> {
    match e {
        CalcError::DivisionByZero => "Division by zero"@,
    }
}

/// One arithmetic step on two decimals, or `None` where `BigDecimal`'s
/// scale arithmetic overflows.
pub open spec fn apply_op(op: Op, x: (int, int), y: (int, int)) -> Option<Result<(int, int), CalcError>> {
    match op {
        Op::Add => if sum_overflows(x, y) {
            None
        } else {
            Some(Ok(decimal_sum(x, y)))
        },
        Op::Sub => if sum_overflows(x, y) {
            None
        } else {
            Some(Ok(decimal_difference(x, y)))
        },
        Op::Mul => if product_overflows(x, y) {
            None
        } else {
            Some(Ok(decimal_product(x, y)))
        },
        Op::Div => if y.0 == 0 {
            Some(Err(CalcError::DivisionByZero))
        } else {
            match quotient_result(x, y) {
                Some(q) => Some(Ok(q)),
                None => None,
            }
        },
    }
}

/// Whether every number literal of the tree is read by `BigDecimal::from_str`.
pub open spec fn tree_readable(s: Seq<char>, t: Tree) -> bool
    decreases t,
{
    match t {
        Tree::Num(a, b) => literal_readable(s.subrange(a as int, b as int)),
        Tree::Bin(_, l, r) => tree_readable(s, *l) && tree_readable(s, *r),
    }
}

/// The value of a tree over the expression text `s`. Both operands of an
/// operator are evaluated; an error in either makes the whole an error, and
/// a division whose divisor is zero is one. `None` stands for an operation
/// whose scale arithmetic overflows.
pub open spec fn spec_eval(s: Seq<char>, t: Tree) -> Option<Result<(int, int), CalcError>>
    decreases t,
{
    match t {
        Tree::Num(a, b) => Some(Ok(literal_value(s.subrange(a as int, b as int)))),
        Tree::Bin(op, l, r) => match (spec_eval(s, *l), spec_eval(s, *r)) {
            (Some(Ok(x)), Some(Ok(y))) => apply_op(op, x, y),
            (Some(_), Some(_)) => Some(Err(CalcError::DivisionByZero)),
            _ => None,
        },
    }
}

/// The view of an evaluation result.
pub open spec fn eval_view(r: Option<Result<Decimal, CalcError>>) -> Option<Result<(int, int), CalcError>> {
    match r {
        Some(Ok(d)) => Some(Ok(d@)),
        Some(Err(e)) => Some(Err(e)),
        None => None,
    }
}

/// Reads the number literal `s[a..b]`.
fn eval_num(s: &Vec<char>, a: usize, b: usize) -> (r: Decimal)
    requires
        a <= b <= s@.len(),
        is_num_literal(s@.subrange(a as int, b as int)),
        literal_readable(s@.subrange(a as int, b as int)),
    ensures
        r@ == literal_value(s@.subrange(a as int, b as int)),
{
    let lit = string_of_range(s, a, b);
    match big_from_str(lit.as_str()) {
        Some(v) => v,
        None => {
            assert(false);
            Decimal::power_of_ten(0)
        },
    }
}

fn apply_exec(op: Op, x: &Decimal, y: &Decimal) -> (r: Option<Result<Decimal, CalcError>>)
    ensures
        eval_view(r) == apply_op(op, x@, y@),
{
    match op {
        Op::Add => match x.checked_add(y) {
            Some(d) => Some(Ok(d)),
            None => None,
        },
        Op::Sub => match x.checked_sub(y) {
            Some(d) => Some(Ok(d)),
            None => None,
        },
        Op::Mul => match x.checked_mul(y) {
            Some(d) => Some(Ok(d)),
            None => None,
        },
        Op::Div => {
            if y.is_zero() {
                Some(Err(CalcError::DivisionByZero))
            } else {
                match x.checked_div(y) {
                    Some(d) => Some(Ok(d)),
                    None => None,
                }
            }
        },
    }
}

/// Evaluates a tree parsed from the expression text `s`.
pub fn eval(s: &Vec<char>, t: &Tree) -> (r: Option<Result<Decimal, CalcError>>)
    requires
        tree_wf(s@, *t),
        tree_readable(s@, *t),
    ensures
        eval_view(r) == spec_eval(s@, *t),
    decreases t,
{
    match t {
        Tree::Num(a, b) => Some(Ok(eval_num(s, *a, *b))),
        Tree::Bin(op, l, r) => {
            let lv = eval(s, l);
            let rv = eval(s, r);
            match (lv, rv) {
                (Some(Ok(x)), Some(Ok(y))) => apply_exec(*op, &x, &y),
                (Some(_), Some(_)) => Some(Err(CalcError::DivisionByZero)),
                _ => None,
            }
        },
    }
}

/// Whether every number literal of the tree is read by `BigDecimal::from_str`.
pub fn numbers_readable(s: &Vec<char>, t: &Tree) -> (r: bool)
    requires
        tree_wf(s@, *t),
    ensures
        r == tree_readable(s@, *t),
    decreases t,
{
    match t {
        Tree::Num(a, b) => {
            let lit = string_of_range(s, *a, *b);
            crate::decimal::is_readable_literal(lit.as_str())
        },
        Tree::Bin(_, l, r) => numbers_readable(s, l) && numbers_readable(s, r),
    }
}

/// Whether the tree holds a division.
pub open spec fn has_division(t: Tree) -> bool
    decreases t,
{
    match t {
        Tree::Num(_, _) => false,
        Tree::Bin(op, l, r) => op == Op::Div || has_division(*l) || has_division(*r),
    }
}

/// The only error of a calculation is a division by zero: a calculation
/// without a division never ends in an error.
pub proof fn law_errors_need_division(s: Seq<char>, t: Tree)
    ensures
        spec_eval(s, t) matches Some(Err(_)) ==> has_division(t),
    decreases t,
{
    if let Tree::Bin(op, l, r) = t {
        law_errors_need_division(s, *l);
        law_errors_need_division(s, *r);
    }
}

/// An operator node computes exactly its own operator on the values of its
/// two operands, whatever their shape: a sum or difference is exact at any
/// common scale `c` of the operands, a product's mantissa is the product of
/// the mantissas at the sum of the scales, a division by zero is the error,
/// and only an overflow of the scale arithmetic gives no value.
pub proof fn law_operator_applies(s: Seq<char>, op: Op, l: Tree, r: Tree, x: (int, int), y: (int, int), c: int)
    requires
        spec_eval(s, l) == Some(Ok::<(int, int), CalcError>(x)),
        spec_eval(s, r) == Some(Ok::<(int, int), CalcError>(y)),
        c >= max_scale(x, y),
    ensures
        ({
            let z = spec_eval(s, Tree::Bin(op, Box::new(l), Box::new(r)));
            &&& op == Op::Add ==> (z is None <==> sum_overflows(x, y))
            &&& op == Op::Add && !sum_overflows(x, y) ==> (z matches Some(Ok(v))
                && v.1 <= c && at_scale(v, c) == at_scale(x, c) + at_scale(y, c))
            &&& op == Op::Sub ==> (z is None <==> sum_overflows(x, y))
            &&& op == Op::Sub && !sum_overflows(x, y) ==> (z matches Some(Ok(v))
                && v.1 <= c && at_scale(v, c) == at_scale(x, c) - at_scale(y, c))
            &&& op == Op::Mul ==> (z is None <==> product_overflows(x, y))
            &&& op == Op::Mul && !product_overflows(x, y) ==> (z matches Some(Ok(v))
                && v.1 <= x.1 + y.1 && at_scale(v, x.1 + y.1) == x.0 * y.0)
            &&& op == Op::Div && y.0 == 0 ==> z == Some(Err::<(int, int), CalcError>(CalcError::DivisionByZero))
            &&& op == Op::Div && y.0 != 0 ==> match quotient_result(x, y) {
                Some(q) => z == Some(Ok::<(int, int), CalcError>(q)),
                None => z is None,
            }
        }),
{
    law_sum_is_exact(x, y, c);
    law_difference_is_exact(x, y, c);
    law_product_is_exact(x, y, x.1, y.1);
    assert(at_scale(x, x.1) == x.0 * crate::decimal::ten_pow(0));
    assert(at_scale(y, y.1) == y.0 * crate::decimal::ten_pow(0));
    assert(crate::decimal::ten_pow(0) == 1);
}

} // verus!
