use pulp_rs::constraint::{LpConstraint, LP_CONSTRAINT_EQ, LP_CONSTRAINT_LE};
use pulp_rs::expression::LpAffineExpression;
use pulp_rs::fixnum::SCALE;
use pulp_rs::problem::{
    LpProblem, LpSolver, LpVariableTree, LP_MINIMIZE, LP_STATUS_NOT_SOLVED,
};
use pulp_rs::variable::{LpCategory, LpVariable};

fn var(name: &str) -> LpVariable {
    LpVariable::new(Some(name.to_string()), None, None, LpCategory::Continuous)
}

fn simple_constraint(vname: &str, rhs: i64) -> LpConstraint {
    let e = LpAffineExpression::from_variable(&var(vname));
    LpConstraint::new(Some(e), LP_CONSTRAINT_LE, None, Some(rhs))
}

#[test]
fn problem_name_spaces_become_underscores() {
    let p = LpProblem::new("my test problem", LP_MINIMIZE);
    assert_eq!(p.name, "my_test_problem");
    assert_eq!(p.status, LP_STATUS_NOT_SOLVED);
    assert!(p.constraints.is_empty());
}

#[test]
fn variables_register_once_by_name() {
    let mut p = LpProblem::new("m", LP_MINIMIZE);
    p.add_variable(var("x"));
    p.add_variable(var("y"));
    p.add_variable(var("x"));
    assert_eq!(p.variables.len(), 2);
}

#[test]
fn add_constraint_registers_its_variables() {
    let mut p = LpProblem::new("m", LP_MINIMIZE);
    let mut e = LpAffineExpression::new(None, 0, None);
    e.add_term(&var("x"), SCALE);
    e.add_term(&var("y"), SCALE);
    let c = LpConstraint::new(Some(e), LP_CONSTRAINT_EQ, None, Some(SCALE));
    p.add_constraint(c, Some("balance".to_string()));
    assert_eq!(p.constraints.len(), 1);
    assert_eq!(p.constraints[0].0, "balance");
    assert_eq!(p.variables.len(), 2);
}

#[test]
fn re_adding_a_name_overwrites_in_place() {
    let mut p = LpProblem::new("m", LP_MINIMIZE);
    p.add_constraint(simple_constraint("x", SCALE), Some("cap".to_string()));
    p.add_constraint(simple_constraint("y", 2 * SCALE), Some("other".to_string()));
    p.add_constraint(simple_constraint("z", 3 * SCALE), Some("cap".to_string()));
    assert_eq!(p.constraints.len(), 2);
    assert_eq!(p.constraints[0].0, "cap");
    assert_eq!(p.constraints[0].1.expression.constant, -3 * SCALE);
    assert_eq!(p.constraints[1].0, "other");
}

#[test]
fn auto_names_count_up_and_never_reuse() {
    let mut p = LpProblem::new("m", LP_MINIMIZE);
    p.add_constraint(simple_constraint("a", SCALE), None);
    p.add_constraint(simple_constraint("b", SCALE), None);
    p.add_constraint(simple_constraint("c", SCALE), None);
    let names: Vec<&str> = p.constraints.iter().map(|e| e.0.as_str()).collect();
    assert_eq!(names, vec!["_C1", "_C2", "_C3"]);

    assert!(p.remove_constraint("_C2"));
    assert!(!p.remove_constraint("_C2"));
    p.add_constraint(simple_constraint("d", SCALE), None);
    let names: Vec<&str> = p.constraints.iter().map(|e| e.0.as_str()).collect();
    assert_eq!(names, vec!["_C1", "_C3", "_C4"]);
}

#[test]
fn auto_naming_skips_taken_numbers() {
    let mut p = LpProblem::new("m", LP_MINIMIZE);
    p.add_constraint(simple_constraint("a", SCALE), Some("_C1".to_string()));
    p.add_constraint(simple_constraint("b", SCALE), None);
    assert_eq!(p.constraints[1].0, "_C2");
}

#[test]
fn objective_is_stored() {
    let mut p = LpProblem::new("m", LP_MINIMIZE);
    let mut e = LpAffineExpression::new(None, 0, None);
    e.add_term(&var("x"), SCALE);
    p.set_objective(e);
    assert!(p.objective.is_some());
}

struct FixedStatusSolver {
    status: i32,
}

impl LpSolver for FixedStatusSolver {
    fn solve(&self, problem: &mut LpProblem) -> i32 {
        for v in problem.variables.iter_mut() {
            v.var_value = Some(SCALE);
        }
        self.status
    }
}

#[test]
fn solve_records_the_solver_status() {
    let mut p = LpProblem::new("m", LP_MINIMIZE);
    p.add_constraint(simple_constraint("x", SCALE), None);
    let solver = FixedStatusSolver { status: 1 };
    let status = p.solve(&solver);
    assert_eq!(status, 1);
    assert_eq!(p.status, 1);
    assert_eq!(p.variables[0].var_value, Some(SCALE));
}

fn idx(values: &[&str]) -> Vec<String> {
    values.iter().map(|s| s.to_string()).collect()
}

#[test]
fn matrix_expands_the_index_product() {
    let indices = vec![idx(&["a", "b"]), idx(&["1", "2"])];
    let vars = LpProblem::matrix("x", &indices, Some(0), None, LpCategory::Continuous);
    let names: Vec<&str> = vars.iter().map(|v| v.name.as_deref().unwrap()).collect();
    assert_eq!(names, vec!["x_a_1", "x_a_2", "x_b_1", "x_b_2"]);
    assert_eq!(vars[0].low_bound, Some(0));
    assert_eq!(vars[0].up_bound, None);

    let empty: Vec<Vec<String>> = Vec::new();
    assert!(LpProblem::matrix("x", &empty, None, None, LpCategory::Continuous).is_empty());
}

#[test]
fn matrix_substitutes_a_placeholder() {
    let indices = vec![idx(&["k"])];
    let vars = LpProblem::matrix("cost[%s]total", &indices, None, None, LpCategory::Continuous);
    assert_eq!(vars[0].name.as_deref(), Some("cost_k_total"));
}

#[test]
fn dict_keys_variables_by_index_tuple() {
    let indices = vec![idx(&["a", "b"]), idx(&["1"])];
    let entries = LpProblem::dict("v", &indices, None, None, LpCategory::Binary);
    assert_eq!(entries.len(), 2);
    assert_eq!(entries[0].0, idx(&["a", "1"]));
    assert_eq!(entries[0].1.name.as_deref(), Some("v_a_1"));
    assert_eq!(entries[0].1.low_bound, Some(0));
    assert_eq!(entries[0].1.up_bound, Some(SCALE));
    assert!(entries[0].1.category == LpCategory::Integer);
    assert_eq!(entries[1].0, idx(&["b", "1"]));
}

#[test]
fn dicts_builds_the_nested_mapping() {
    let indices = vec![idx(&["a", "b"]), idx(&["1", "2"])];
    let tree = LpProblem::dicts("w", &indices, None, None, LpCategory::Continuous);
    match tree {
        LpVariableTree::Node(level) => {
            assert_eq!(level.len(), 2);
            assert_eq!(level[0].0, "a");
            match &level[0].1 {
                LpVariableTree::Node(inner) => {
                    assert_eq!(inner.len(), 2);
                    assert_eq!(inner[1].0, "2");
                    match &inner[1].1 {
                        LpVariableTree::Leaf(v) => {
                            assert_eq!(v.name.as_deref(), Some("w_a_2"));
                        },
                        _ => panic!("expected a leaf"),
                    }
                },
                _ => panic!("expected an inner node"),
            }
        },
        _ => panic!("expected a node"),
    }

    let empty: Vec<Vec<String>> = Vec::new();
    match LpProblem::dicts("w", &empty, None, None, LpCategory::Continuous) {
        LpVariableTree::Node(level) => assert!(level.is_empty()),
        _ => panic!("expected an empty node"),
    }
}
