use pulp_rs::constraint::{
    LpConstraint, LpConstraintVar, LP_CONSTRAINT_EQ, LP_CONSTRAINT_GE, LP_CONSTRAINT_LE,
};
use pulp_rs::error::LpError;
use pulp_rs::expression::LpAffineExpression;
use pulp_rs::fixnum::{NUM_LIMIT, SCALE};
use pulp_rs::fraction::LpFractionConstraint;
use pulp_rs::variable::{LpCategory, LpVariable};

fn var(name: &str) -> LpVariable {
    LpVariable::new(Some(name.to_string()), None, None, LpCategory::Continuous)
}

fn solved(name: &str, value: i64) -> LpVariable {
    let mut v = var(name);
    v.var_value = Some(value);
    v
}

fn coeff_of(e: &LpAffineExpression, name: &str) -> i64 {
    let mut total: i64 = 0;
    for (v, c) in e.terms.iter() {
        if v.name.as_deref() == Some(name) {
            total += *c;
        }
    }
    total
}

#[test]
fn add_term_accumulates_and_never_duplicates() {
    let x = var("x");
    let mut e = LpAffineExpression::new(None, 0, None);
    e.add_term(&x, 2 * SCALE);
    e.add_term(&x, 3 * SCALE);
    assert_eq!(e.terms.len(), 1);
    assert_eq!(coeff_of(&e, "x"), 5 * SCALE);
}

#[test]
fn add_term_order_does_not_change_totals() {
    let x = var("x");
    let y = var("y");
    let mut a = LpAffineExpression::new(None, 0, None);
    a.add_term(&x, 2 * SCALE);
    a.add_term(&y, 7 * SCALE);
    a.add_term(&x, -5 * SCALE);
    let mut b = LpAffineExpression::new(None, 0, None);
    b.add_term(&x, -5 * SCALE);
    b.add_term(&x, 2 * SCALE);
    b.add_term(&y, 7 * SCALE);
    assert_eq!(coeff_of(&a, "x"), coeff_of(&b, "x"));
    assert_eq!(coeff_of(&a, "y"), coeff_of(&b, "y"));
}

#[test]
fn plus_then_minus_round_trips() {
    let x = var("x");
    let y = var("y");
    let z = var("z");
    let mut a = LpAffineExpression::new(None, 4 * SCALE, None);
    a.add_term(&x, 2 * SCALE);
    a.add_term(&y, -3 * SCALE);
    let mut b = LpAffineExpression::new(None, -SCALE, None);
    b.add_term(&y, 5 * SCALE);
    b.add_term(&z, 8 * SCALE);
    let ab = a.plus(&b);
    let back = ab.minus(&b);
    assert_eq!(back.constant, a.constant);
    assert_eq!(coeff_of(&back, "x"), coeff_of(&a, "x"));
    assert_eq!(coeff_of(&back, "y"), coeff_of(&a, "y"));
    assert_eq!(coeff_of(&back, "z"), 0);
}

#[test]
fn shape_predicates_and_atom() {
    let x = var("x");
    let e = LpAffineExpression::from_variable(&x);
    assert!(e.is_atomic());
    assert!(!e.is_numerical_constant());
    assert_eq!(e.atom().unwrap().name.as_deref(), Some("x"));
    let c = LpAffineExpression::new(None, 2 * SCALE, None);
    assert!(c.is_numerical_constant());
    assert!(!c.is_atomic());
    assert!(c.atom().is_none());
}

#[test]
fn evaluation_needs_all_values() {
    let x = solved("x", 4 * SCALE);
    let mut e = LpAffineExpression::new(None, 3 * SCALE, None);
    e.add_term(&x, 2 * SCALE);
    assert_eq!(e.value(), Some(11 * SCALE));

    let y = var("y");
    e.add_term(&y, SCALE);
    assert_eq!(e.value(), None);
}

#[test]
fn evaluation_with_defaults_is_total() {
    let y = LpVariable::new(
        Some("y".to_string()),
        Some(2 * SCALE),
        None,
        LpCategory::Continuous,
    );
    let mut e = LpAffineExpression::new(None, SCALE, None);
    e.add_term(&y, 3 * SCALE);
    assert_eq!(e.value_or_default(), 7 * SCALE);
}

#[test]
fn scaling_and_division_are_exact() {
    let x = var("x");
    let mut e = LpAffineExpression::new(None, 3 * SCALE, None);
    e.add_term(&x, 2 * SCALE + 500_000);
    let doubled = e.times(2 * SCALE);
    assert_eq!(doubled.constant, 6 * SCALE);
    assert_eq!(coeff_of(&doubled, "x"), 5 * SCALE);
    let halved = e.divided_by(2 * SCALE);
    assert_eq!(halved.constant, SCALE + 500_000);
    assert_eq!(coeff_of(&halved, "x"), SCALE + 250_000);
}

#[test]
fn products_of_two_variable_expressions_are_refused() {
    let x = var("x");
    let y = var("y");
    let a = LpAffineExpression::from_variable(&x);
    let b = LpAffineExpression::from_variable(&y);
    assert!(a.times_expr(&b).is_err());
    let k = LpAffineExpression::new(None, 2 * SCALE, None);
    let scaled = a.times_expr(&k).unwrap();
    assert_eq!(coeff_of(&scaled, "x"), 2 * SCALE);
    let zero = LpAffineExpression::new(None, 0, None);
    assert_eq!(a.divided_by_expr(&zero).unwrap_err(), LpError::DivisionByZero);
    assert_eq!(a.divided_by_expr(&b).unwrap_err(), LpError::NonConstant);
}

#[test]
fn negation_flips_everything() {
    let x = var("x");
    let mut e = LpAffineExpression::new(None, 4 * SCALE, None);
    e.add_term(&x, -2 * SCALE);
    let n = e.negated();
    assert_eq!(n.constant, -4 * SCALE);
    assert_eq!(coeff_of(&n, "x"), 2 * SCALE);
}

#[test]
fn expression_text_sorts_terms_and_shows_constant() {
    let b = var("beta");
    let a = var("alpha");
    let mut e = LpAffineExpression::new(None, -4 * SCALE, None);
    e.add_term(&b, 3 * SCALE);
    e.add_term(&a, SCALE);
    assert_eq!(e.as_text(), "alpha + 3*beta - 4");

    let mut f = LpAffineExpression::new(None, 0, None);
    f.add_term(&a, -SCALE);
    assert_eq!(f.as_text(), "-alpha");

    let mut h = LpAffineExpression::new(None, 0, None);
    h.add_term(&a, -2 * SCALE);
    h.add_term(&b, SCALE);
    assert_eq!(h.as_text(), "-2*alpha + beta");

    let g = LpAffineExpression::new(None, 2 * SCALE + 500_000, None);
    assert_eq!(g.as_text(), "2.5");
}

#[test]
fn lp_format_line_for_short_expression() {
    let x = var("x");
    let y = var("y");
    let mut e = LpAffineExpression::new(None, -4 * SCALE, None);
    e.add_term(&x, 3 * SCALE);
    e.add_term(&y, SCALE);
    let text = e.as_cplex_lp_affine_expression("obj", true);
    assert_eq!(text, "obj: 3.000000000000 x + y - 4\n");
}

#[test]
fn lp_format_wraps_long_term_runs() {
    let mut e = LpAffineExpression::new(None, 0, None);
    for i in 0..8 {
        let v = var(&format!("quite_a_long_decision_variable_name_{}", i));
        e.add_term(&v, 2 * SCALE);
    }
    let (lines, last) = e.as_cplex_variables_only("row");
    assert!(lines.len() >= 1);
    assert!(!last.is_empty());
    for l in lines.iter() {
        assert!(l.chars().count() <= 78);
    }
    let mut whole = String::new();
    for l in lines.iter() {
        whole.push_str(l);
    }
    for c in last.iter() {
        whole.push_str(c);
    }
    assert!(whole.starts_with("row:"));
    for i in 0..8 {
        let name = format!("quite_a_long_decision_variable_name_{}", i);
        assert_eq!(whole.matches(&name).count(), 1);
    }
}

#[test]
fn lp_format_of_a_bare_number_and_without_constant() {
    let k = LpAffineExpression::new(None, -2 * SCALE - 500_000, None);
    assert_eq!(k.as_cplex_lp_affine_expression("c", true), "c: -2.5\n");

    let x = var("x");
    let mut e = LpAffineExpression::new(None, 9 * SCALE, None);
    e.add_term(&x, SCALE);
    assert_eq!(e.as_cplex_lp_affine_expression("r", false), "r: x\n");
}

#[test]
fn splitting_a_term_addition_changes_nothing() {
    let x = var("x");
    let mut once = LpAffineExpression::new(None, 0, None);
    once.add_term(&x, 5 * SCALE);
    let mut twice = LpAffineExpression::new(None, 0, None);
    twice.add_term(&x, 2 * SCALE);
    twice.add_term(&x, 3 * SCALE);
    assert_eq!(coeff_of(&once, "x"), coeff_of(&twice, "x"));
    assert_eq!(once.terms.len(), twice.terms.len());
}

#[test]
fn constraint_folds_rhs_and_derives_bounds() {
    let x = var("x");
    let e = LpAffineExpression::from_variable(&x);
    let c = LpConstraint::new(Some(e), LP_CONSTRAINT_EQ, Some("cap".to_string()), Some(5 * SCALE));
    assert_eq!(c.expression.constant, -5 * SCALE);
    assert_eq!(c.get_lb(), Some(5 * SCALE));
    assert_eq!(c.get_ub(), Some(5 * SCALE));

    let y = var("y");
    let ge = LpConstraint::new(
        Some(LpAffineExpression::from_variable(&y)),
        LP_CONSTRAINT_GE,
        None,
        Some(2 * SCALE),
    );
    assert_eq!(ge.get_lb(), Some(2 * SCALE));
    assert_eq!(ge.get_ub(), None);

    let mut le = LpConstraint::new(
        Some(LpAffineExpression::from_variable(&var("z"))),
        LP_CONSTRAINT_LE,
        None,
        Some(SCALE),
    );
    assert_eq!(le.get_lb(), None);
    assert_eq!(le.get_ub(), Some(SCALE));
    le.change_rhs(7 * SCALE);
    assert_eq!(le.get_ub(), Some(7 * SCALE));
}

#[test]
fn equality_constraint_validity_within_tolerance() {
    let eps = 10_000;
    for (value, expected) in [
        (5 * SCALE, true),
        (5 * SCALE + 9_000, true),
        (5 * SCALE - 10_000, true),
        (5 * SCALE + 11_000, false),
        (4 * SCALE, false),
    ] {
        let x = solved("x", value);
        let e = LpAffineExpression::from_variable(&x);
        let c = LpConstraint::new(Some(e), LP_CONSTRAINT_EQ, None, Some(5 * SCALE));
        assert_eq!(c.valid(eps), Some(expected));
    }
    let unsolved = LpAffineExpression::from_variable(&var("x"));
    let c = LpConstraint::new(Some(unsolved), LP_CONSTRAINT_EQ, None, Some(5 * SCALE));
    assert_eq!(c.valid(eps), None);
}

#[test]
fn inequality_validity_uses_the_sense_sign() {
    let x = solved("x", 3 * SCALE);
    let e = LpAffineExpression::from_variable(&x);
    let ge = LpConstraint::new(Some(e.clone()), LP_CONSTRAINT_GE, None, Some(2 * SCALE));
    assert_eq!(ge.valid(0), Some(true));
    let le = LpConstraint::new(Some(e), LP_CONSTRAINT_LE, None, Some(2 * SCALE));
    assert_eq!(le.valid(0), Some(false));
}

#[test]
fn combining_constraints_merges_senses() {
    let x = solved("x", 0);
    let y = solved("y", 0);
    let a = LpConstraint::new(
        Some(LpAffineExpression::from_variable(&x)),
        LP_CONSTRAINT_LE,
        None,
        Some(SCALE),
    );
    let b = LpConstraint::new(
        Some(LpAffineExpression::from_variable(&y)),
        LP_CONSTRAINT_EQ,
        None,
        Some(2 * SCALE),
    );
    let sum = a.plus(&b);
    assert_eq!(sum.sense, LP_CONSTRAINT_LE);
    assert_eq!(coeff_of(&sum.expression, "x"), SCALE);
    assert_eq!(coeff_of(&sum.expression, "y"), SCALE);
    assert_eq!(sum.expression.constant, -3 * SCALE);

    let g = LpConstraint::new(
        Some(LpAffineExpression::from_variable(&y)),
        LP_CONSTRAINT_GE,
        None,
        Some(0),
    );
    let tightened = a.plus(&g);
    assert_eq!(tightened.sense, LP_CONSTRAINT_LE);
    assert_eq!(coeff_of(&tightened.expression, "y"), -SCALE);

    let diff = a.minus(&b);
    assert_eq!(diff.sense, LP_CONSTRAINT_GE);
    let neg = a.negated();
    assert_eq!(neg.sense, LP_CONSTRAINT_GE);
    assert_eq!(neg.expression.constant, SCALE);
}

#[test]
fn constraint_text_shows_relation_and_rhs() {
    let x = var("x");
    let e = LpAffineExpression::from_variable(&x);
    let c = LpConstraint::new(Some(e), LP_CONSTRAINT_EQ, None, Some(5 * SCALE));
    assert_eq!(c.as_text(), "x - 5 == 5");
}

#[test]
fn constraint_record_round_trip_preserves_validity() {
    let x = solved("x", 5 * SCALE);
    let e = LpAffineExpression::from_variable(&x);
    let c = LpConstraint::new(Some(e), LP_CONSTRAINT_EQ, Some("cap".to_string()), Some(5 * SCALE));
    let d = c.to_dict();
    assert_eq!(d.constant, 5 * SCALE);
    assert_eq!(d.coefficients.len(), 1);
    assert_eq!(d.coefficients[0].name, "x");
    assert_eq!(d.coefficients[0].value, SCALE);

    let mut r = LpConstraint::from_dict(&d);
    assert_eq!(r.sense, c.sense);
    assert_eq!(r.expression.constant, c.expression.constant);
    for scenario in [5 * SCALE, 5 * SCALE + 20_000, 4 * SCALE, 6 * SCALE] {
        r.expression.terms[0].0.var_value = Some(scenario);
        let x2 = solved("x", scenario);
        let e2 = LpAffineExpression::from_variable(&x2);
        let c2 = LpConstraint::new(Some(e2), LP_CONSTRAINT_EQ, None, Some(5 * SCALE));
        assert_eq!(r.valid(10_000), c2.valid(10_000));
    }
}

#[test]
fn constraint_var_builds_a_column() {
    let x = solved("x", 2 * SCALE);
    let mut col = LpConstraintVar::new(Some("col".to_string()), None, Some(SCALE), None);
    col.add_variable(&x, 3 * SCALE);
    assert_eq!(col.value(), Some(5 * SCALE));
}

#[test]
fn fraction_constraint_resolves_the_missing_side() {
    let x = solved("x", 2 * SCALE);
    let y = solved("y", 4 * SCALE);
    let num = LpAffineExpression::from_variable(&x);
    let comp = LpAffineExpression::from_variable(&y);
    let f = LpFractionConstraint::new(num, None, LP_CONSTRAINT_LE, SCALE / 2, None, Some(comp));
    assert_eq!(coeff_of(&f.denominator, "x"), SCALE);
    assert_eq!(coeff_of(&f.denominator, "y"), SCALE);
    assert_eq!(f.find_lhs_value(), Ok(SCALE / 3));

    let reduced = f.to_lp_constraint();
    assert_eq!(reduced.sense, LP_CONSTRAINT_LE);
    assert_eq!(coeff_of(&reduced.expression, "x"), SCALE / 2);
    assert_eq!(coeff_of(&reduced.expression, "y"), -SCALE / 2);
}

#[test]
fn fraction_value_conventions() {
    let zero_num = LpAffineExpression::new(None, 0, None);
    let zero_den = LpAffineExpression::new(None, 0, None);
    let f = LpFractionConstraint::new(
        zero_num,
        Some(zero_den),
        LP_CONSTRAINT_EQ,
        0,
        None,
        None,
    );
    assert_eq!(f.find_lhs_value(), Ok(SCALE));

    let one = LpAffineExpression::new(None, SCALE, None);
    let zero = LpAffineExpression::new(None, 0, None);
    let g = LpFractionConstraint::new(one, Some(zero), LP_CONSTRAINT_EQ, 0, None, None);
    assert_eq!(g.find_lhs_value(), Err(LpError::DivisionByZero));

    let huge = LpAffineExpression::new(None, NUM_LIMIT, None);
    let tiny = LpAffineExpression::new(None, 1, None);
    let h = LpFractionConstraint::new(huge, Some(tiny), LP_CONSTRAINT_EQ, 0, None, None);
    assert_eq!(h.find_lhs_value(), Err(LpError::OutOfRange));
}
