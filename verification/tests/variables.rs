use pulp_rs::element::{sanitize_name, LpElement};
use pulp_rs::error::LpError;
use pulp_rs::fixnum::SCALE;
use pulp_rs::variable::{LpCategory, LpVariable};

fn var(
    name: &str,
    low: Option<i64>,
    up: Option<i64>,
    cat: LpCategory,
) -> LpVariable {
    LpVariable::new(Some(name.to_string()), low, up, cat)
}

#[test]
fn sanitize_replaces_illegal_characters() {
    assert_eq!(sanitize_name("a-b+c[d]e f>g/h"), "a_b_c_d_e_f_g_h");
    assert_eq!(sanitize_name("clean_name"), "clean_name");
}

#[test]
fn sanitize_is_idempotent_on_examples() {
    let once = sanitize_name("x-y z/w");
    let twice = sanitize_name(once.as_str());
    assert_eq!(once, twice);
}

#[test]
fn element_equality_is_by_name() {
    let a = LpElement::new(Some("same-name".to_string()));
    let b = LpElement::new(Some("same_name".to_string()));
    assert!(a == b);
    let c = LpElement::new(Some("other".to_string()));
    assert!(!(a == c));
    assert_eq!(a.as_text(), "same_name");
}

#[test]
fn binary_category_normalizes_to_integer_with_unit_bounds() {
    let v = var("b", None, None, LpCategory::Binary);
    assert_eq!(v.low_bound, Some(0));
    assert_eq!(v.up_bound, Some(SCALE));
    assert!(v.category == LpCategory::Integer);
    assert!(v.is_binary());
    assert!(v.is_integer());
}

#[test]
fn value_or_default_boundary_table() {
    assert_eq!(var("a", None, None, LpCategory::Continuous).value_or_default(), 0);
    assert_eq!(
        var("b", Some(2 * SCALE), None, LpCategory::Continuous).value_or_default(),
        2 * SCALE
    );
    assert_eq!(
        var("c", None, Some(-3 * SCALE), LpCategory::Continuous).value_or_default(),
        -3 * SCALE
    );
    assert_eq!(
        var("d", Some(-5 * SCALE), Some(5 * SCALE), LpCategory::Continuous).value_or_default(),
        0
    );
    assert_eq!(
        var("e", Some(SCALE), Some(5 * SCALE), LpCategory::Continuous).value_or_default(),
        SCALE
    );
}

#[test]
fn solved_value_wins_over_defaults() {
    let mut v = var("x", Some(SCALE), Some(5 * SCALE), LpCategory::Continuous);
    v.var_value = Some(3 * SCALE);
    assert_eq!(v.value_or_default(), 3 * SCALE);
    assert_eq!(v.value(), Some(3 * SCALE));
}

#[test]
fn round_snaps_onto_violated_near_bound() {
    let mut v = var("x", Some(0), Some(2 * SCALE), LpCategory::Continuous);
    v.var_value = Some(2 * SCALE + 5_000);
    v.round(0, 10_000);
    assert_eq!(v.var_value, Some(2 * SCALE));

    let mut w = var("y", Some(0), Some(2 * SCALE), LpCategory::Continuous);
    w.var_value = Some(2 * SCALE + 50_000);
    w.round(0, 10_000);
    assert_eq!(w.var_value, Some(2 * SCALE + 50_000));
}

#[test]
fn round_snaps_integer_values() {
    let mut v = var("n", Some(0), Some(10 * SCALE), LpCategory::Integer);
    v.var_value = Some(3 * SCALE + 2_000);
    v.round(5_000, 0);
    assert_eq!(v.var_value, Some(3 * SCALE));
}

#[test]
fn rounded_value_reports_without_mutating() {
    let mut v = var("n", Some(0), Some(10 * SCALE), LpCategory::Integer);
    v.var_value = Some(4 * SCALE - 1_000);
    assert_eq!(v.rounded_value(2_000), 4 * SCALE);
    assert_eq!(v.var_value, Some(4 * SCALE - 1_000));
    assert_eq!(var("u", None, None, LpCategory::Continuous).rounded_value(0), 0);
}

#[test]
fn is_valid_checks_bounds_and_integrality() {
    let mut v = var("x", Some(0), Some(2 * SCALE), LpCategory::Continuous);
    assert!(!v.is_valid(0));
    v.var_value = Some(2 * SCALE + 5_000);
    assert!(v.is_valid(10_000));
    assert!(!v.is_valid(1_000));

    let mut n = var("n", Some(0), Some(9 * SCALE), LpCategory::Integer);
    n.var_value = Some(3 * SCALE + 400_000);
    assert!(!n.is_valid(10_000));
    n.var_value = Some(3 * SCALE + 4_000);
    assert!(n.is_valid(10_000));
}

#[test]
fn dummy_variable_is_valid_unsolved() {
    let v = var("__dummy", None, None, LpCategory::Continuous);
    assert!(v.is_valid(0));
    let w = var("not_dummy", None, None, LpCategory::Continuous);
    assert!(!w.is_valid(0));
}

#[test]
fn infeasibility_gap_reports_signed_distance() {
    let mut v = var("x", Some(0), Some(2 * SCALE), LpCategory::Continuous);
    assert_eq!(v.infeasibility_gap(false), Err(LpError::NoValue));
    v.var_value = Some(3 * SCALE);
    assert_eq!(v.infeasibility_gap(false), Ok(SCALE));
    v.var_value = Some(-SCALE);
    assert_eq!(v.infeasibility_gap(false), Ok(-SCALE));
    v.var_value = Some(SCALE);
    assert_eq!(v.infeasibility_gap(false), Ok(0));

    let mut n = var("n", None, None, LpCategory::Integer);
    n.var_value = Some(SCALE + 300_000);
    assert_eq!(n.infeasibility_gap(true), Ok(-300_000));
    assert_eq!(n.infeasibility_gap(false), Ok(0));
}

#[test]
fn set_initial_value_respects_bounds_and_strictness() {
    let mut v = var("x", Some(0), Some(2 * SCALE), LpCategory::Continuous);
    assert_eq!(v.set_initial_value(SCALE, true), Ok(true));
    assert_eq!(v.var_value, Some(SCALE));
    assert_eq!(v.set_initial_value(3 * SCALE, false), Ok(false));
    assert_eq!(v.var_value, Some(SCALE));
    assert_eq!(v.set_initial_value(3 * SCALE, true), Err(LpError::BoundViolation));
    assert_eq!(v.set_initial_value(-SCALE, true), Err(LpError::BoundViolation));
}

#[test]
fn fix_and_unfix_restore_construction_bounds() {
    let mut v = var("x", Some(0), Some(10 * SCALE), LpCategory::Continuous);
    v.bounds(Some(SCALE), Some(9 * SCALE));
    v.var_value = Some(4 * SCALE);
    v.fix_value();
    assert_eq!(v.low_bound, Some(4 * SCALE));
    assert_eq!(v.up_bound, Some(4 * SCALE));
    assert!(v.is_fixed());
    v.unfix_value();
    assert_eq!(v.low_bound, Some(0));
    assert_eq!(v.up_bound, Some(10 * SCALE));
}

#[test]
fn unfix_on_a_binary_variable_restores_unit_bounds() {
    let mut v = var("b", None, None, LpCategory::Binary);
    v.var_value = Some(0);
    v.fix_value();
    assert_eq!(v.low_bound, Some(0));
    assert_eq!(v.up_bound, Some(0));
    v.unfix_value();
    assert_eq!(v.low_bound, Some(0));
    assert_eq!(v.up_bound, Some(SCALE));
}

#[test]
fn positivity_and_shape_predicates() {
    let mut v = var("x", None, None, LpCategory::Continuous);
    assert!(v.is_free());
    v.positive();
    assert!(v.is_positive());
    assert!(!v.is_free());
    let w = var("w", Some(SCALE), Some(SCALE), LpCategory::Continuous);
    assert!(w.is_constant());
}

#[test]
fn variable_record_round_trip() {
    let mut v = var("x", Some(-SCALE), Some(SCALE), LpCategory::Integer);
    v.var_value = Some(SCALE);
    v.dj = Some(2_500);
    let d = v.to_dict();
    let w = LpVariable::from_dict(d);
    assert_eq!(w.name, Some("x".to_string()));
    assert_eq!(w.low_bound, Some(-SCALE));
    assert_eq!(w.up_bound, Some(SCALE));
    assert!(w.category == LpCategory::Integer);
    assert_eq!(w.var_value, Some(SCALE));
    assert_eq!(w.dj, Some(2_500));
}

#[test]
fn category_names_parse_and_print() {
    assert_eq!(LpCategory::from_str("Continuous"), Ok(LpCategory::Continuous));
    assert_eq!(LpCategory::from_str("Integer"), Ok(LpCategory::Integer));
    assert_eq!(LpCategory::from_str("Binary"), Ok(LpCategory::Binary));
    assert_eq!(LpCategory::from_str("Bogus"), Err(LpError::InvalidCategory));
    assert_eq!(LpCategory::Integer.as_text(), "Integer");
}

#[test]
fn lp_bound_text_forms() {
    let free = var("x", None, None, LpCategory::Continuous);
    assert_eq!(free.as_cplex_lp_variable(), "x free");

    let fixed = var("x", Some(3 * SCALE), Some(3 * SCALE), LpCategory::Continuous);
    assert_eq!(fixed.as_cplex_lp_variable(), "x = 3.000000000000");

    let lower_only = var("x", None, Some(5 * SCALE), LpCategory::Continuous);
    assert_eq!(lower_only.as_cplex_lp_variable(), "-inf <= x <= 5.000000000000");

    let zero_low = var("x", Some(0), Some(5 * SCALE), LpCategory::Continuous);
    assert_eq!(zero_low.as_cplex_lp_variable(), "x <= 5.000000000000");

    let int_low = var("x", Some(0), Some(5 * SCALE), LpCategory::Integer);
    assert_eq!(
        int_low.as_cplex_lp_variable(),
        "0.000000000000 <= x <= 5.000000000000"
    );
}
