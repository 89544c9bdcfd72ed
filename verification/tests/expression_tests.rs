//! The expression algebra over the library's exact integer scalar.

use rustplex::expression::LinearExpr;
use rustplex::keys::StandardVariableKey;
use rustplex::numeric::IntCoeff;

fn key(i: u64) -> StandardVariableKey {
    StandardVariableKey::new(i)
}

fn c(v: i64) -> IntCoeff {
    IntCoeff::new(v)
}

/// Term aggregation: x + 2x becomes 3x.
#[test]
fn test_add_same_variable() {
    let x = key(0);
    let mut expr: LinearExpr<StandardVariableKey, IntCoeff> = LinearExpr::with_term(x, c(1));
    expr.add_term(x, c(2));

    assert_eq!(expr.coefficient(&x), c(3));
    assert_eq!(expr.num_terms(), 1);
}

/// Subtraction and cancellation: 3x - 3x leaves a zero coefficient and
/// an empty expression.
#[test]
fn test_term_cancellation() {
    let x = key(0);
    let mut expr: LinearExpr<StandardVariableKey, IntCoeff> = LinearExpr::with_term(x, c(3));
    let other = LinearExpr::with_term(x, c(3));
    expr.sub_expr(&other);

    assert_eq!(expr.coefficient(&x), c(0));
    assert_eq!(expr.get_constant(), c(0));
    assert_eq!(expr.num_terms(), 0);
}

/// Constant algebra: (x + 5) + (y - 2) is x + y + 3.
#[test]
fn test_constant_math() {
    let x = key(0);
    let y = key(1);
    let mut expr1: LinearExpr<StandardVariableKey, IntCoeff> = LinearExpr::with_term(x, c(1));
    expr1.add_constant(c(5));
    let mut expr2: LinearExpr<StandardVariableKey, IntCoeff> = LinearExpr::with_term(y, c(1));
    expr2.add_constant(c(-2));

    expr1.add_expr(&expr2);

    assert_eq!(expr1.coefficient(&x), c(1));
    assert_eq!(expr1.coefficient(&y), c(1));
    assert_eq!(expr1.get_constant(), c(3));
}

/// Scalar multiplication distributes: 2 * (3x + 4) is 6x + 8.
#[test]
fn test_distributive_property() {
    let x = key(0);
    let mut expr: LinearExpr<StandardVariableKey, IntCoeff> = LinearExpr::with_term(x, c(3));
    expr.add_constant(c(4));
    expr.scale(c(2));

    assert_eq!(expr.coefficient(&x), c(6));
    assert_eq!(expr.get_constant(), c(8));
}

/// Complex linear combination: 2x - (y + x) is x - y.
#[test]
fn test_complex_combination() {
    let x = key(0);
    let y = key(1);
    let mut expr: LinearExpr<StandardVariableKey, IntCoeff> = LinearExpr::with_term(x, c(2));
    let mut other: LinearExpr<StandardVariableKey, IntCoeff> = LinearExpr::with_term(y, c(1));
    other.add_term(x, c(1));
    expr.sub_expr(&other);

    assert_eq!(expr.coefficient(&x), c(1));
    assert_eq!(expr.coefficient(&y), c(-1));
}

/// Constructors sort and merge arbitrary pairs and drop what cancels.
#[test]
fn test_with_terms_merges_and_sorts() {
    let pairs = vec![
        (key(2), c(7)),
        (key(0), c(1)),
        (key(1), c(4)),
        (key(0), c(2)),
        (key(1), c(-4)),
    ];
    let expr = LinearExpr::with_terms(pairs);

    assert_eq!(expr.num_terms(), 2);
    assert_eq!(expr.term_at(0), (key(0), c(3)));
    assert_eq!(expr.term_at(1), (key(2), c(7)));
    assert_eq!(expr.coefficient(&key(1)), c(0));
}

/// Scaling by zero collapses the expression entirely.
#[test]
fn test_scale_by_zero_collapses() {
    let mut expr = LinearExpr::with_terms_and_constant(vec![(key(0), c(5)), (key(1), c(2))], c(9));
    expr.scale(c(0));

    assert_eq!(expr.num_terms(), 0);
    assert_eq!(expr.get_constant(), c(0));
}

/// Substitution: replacing y by (z + 1) in x + 3y gives x + 3z + 3.
#[test]
fn test_replace_var_with_expr() {
    let x = key(0);
    let y = key(1);
    let z = key(2);
    let mut expr = LinearExpr::with_terms(vec![(x, c(1)), (y, c(3))]);
    let mut replacement: LinearExpr<StandardVariableKey, IntCoeff> = LinearExpr::with_term(z, c(1));
    replacement.add_constant(c(1));

    let removed = expr.replace_var_with_expr(y, &replacement);

    assert_eq!(removed, Some(c(3)));
    assert_eq!(expr.coefficient(&x), c(1));
    assert_eq!(expr.coefficient(&y), c(0));
    assert_eq!(expr.coefficient(&z), c(3));
    assert_eq!(expr.get_constant(), c(3));
}

/// A missing variable substitutes to nothing.
#[test]
fn test_replace_missing_var_is_noop() {
    let x = key(0);
    let mut expr: LinearExpr<StandardVariableKey, IntCoeff> = LinearExpr::with_term(x, c(2));
    let replacement = LinearExpr::with_term(key(2), c(1));

    let removed = expr.replace_var_with_expr(key(1), &replacement);

    assert_eq!(removed, None);
    assert_eq!(expr.num_terms(), 1);
    assert_eq!(expr.coefficient(&x), c(2));
}

/// A merge of two sorted expressions combines term by term: the
/// substitution engine behind every pivot.
#[test]
fn test_add_scaled_expr() {
    let mut a = LinearExpr::with_terms_and_constant(vec![(key(0), c(2)), (key(2), c(5))], c(1));
    let b = LinearExpr::with_terms_and_constant(vec![(key(0), c(1)), (key(1), c(3))], c(2));

    a.add_scaled_expr(&b, c(2));

    assert_eq!(a.coefficient(&key(0)), c(4));
    assert_eq!(a.coefficient(&key(1)), c(6));
    assert_eq!(a.coefficient(&key(2)), c(5));
    assert_eq!(a.get_constant(), c(5));
}

/// An exact copy preserves terms and constant.
#[test]
fn test_duplicate() {
    let expr = LinearExpr::with_terms_and_constant(vec![(key(0), c(2)), (key(1), c(-7))], c(4));
    let copy = expr.duplicate();

    assert_eq!(copy.num_terms(), 2);
    assert_eq!(copy.term_at(0), (key(0), c(2)));
    assert_eq!(copy.term_at(1), (key(1), c(-7)));
    assert_eq!(copy.get_constant(), c(4));
}
