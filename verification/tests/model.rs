use linprog::model::{Model, ModelError, Objective, Operator, State, Summand, Var};
use linprog::scalar::Scalar;
use linprog::solver::Optimum;

#[derive(Clone, Copy, Debug, PartialEq)]
struct F(f64);

impl Scalar for F {
    fn zero() -> Self {
        F(0.0)
    }
    fn one() -> Self {
        F(1.0)
    }
    fn duplicate(&self) -> Self {
        *self
    }
    fn plus(&self, other: &Self) -> Self {
        F(self.0 + other.0)
    }
    fn minus(&self, other: &Self) -> Self {
        F(self.0 - other.0)
    }
    fn times(&self, other: &Self) -> Self {
        F(self.0 * other.0)
    }
    fn over(&self, other: &Self) -> Self {
        F(self.0 / other.0)
    }
    fn negated(&self) -> Self {
        F(-self.0)
    }
    fn less_than(&self, other: &Self) -> bool {
        self.0 < other.0
    }
    fn equals(&self, other: &Self) -> bool {
        self.0 == other.0
    }
}

#[test]
fn update() {
    let mut model: Model<F> = Model::new("Test-model", Objective::Max);
    assert!(State::VariableRegistration == model.state());
    model.update();
    assert!(State::ConstraintRegistration == model.state());
    model.update();
    assert!(State::PostRegistration == model.state());
    model.update();
    assert!(State::PostRegistration == model.state());
}

#[test]
fn update_indirect() {
    let mut model = Model::new("Test-model", Objective::Max);
    let mut vars: Vec<Var> = vec![];
    vars.push(model.reg_var(F(3.0)).unwrap());
    assert!(State::VariableRegistration == model.state());
    vars.push(model.reg_var(F(3.0)).unwrap());
    model
        .reg_constr(vec![Summand(F(8.4), &vars[0])], Operator::Le, F(6.0))
        .unwrap();
    assert!(State::ConstraintRegistration == model.state());
    model
        .reg_constr(vec![Summand(F(8.4), &vars[0])], Operator::Le, F(5.0))
        .unwrap();
    model.optimize().unwrap();
    assert!(State::PostRegistration == model.state());
}

#[test]
fn reg_var_and_x() {
    let mut model = Model::new("Test-model", Objective::Max);
    let mut vars: Vec<Var> = vec![];
    assert!(0 == model.variable_count());
    // Add variable
    vars.push(model.reg_var(F(3.0)).unwrap());
    assert!(1 == model.variable_count());
    assert!(vars[0].reference() == model.variable_reference(0));
    assert!(model.variable_name(0).is_none());
    assert!(model.variable_value(0).is_none());
    assert!(F(3.0) == model.variable_objective(0));
    // Add variable
    vars.push(model.reg_var(F(4.999)).unwrap());
    assert!(2 == model.variable_count());
    assert!(vars[1].reference() == model.variable_reference(1));
    assert!(vars[1].reference() != model.variable_reference(0));
    assert!(vars[0].reference() == model.variable_reference(0));
    assert!(model.variable_name(1).is_none());
    assert!(model.variable_value(1).is_none());
    assert!(F(3.0) == model.variable_objective(0));
    assert!(F(4.999) == model.variable_objective(1));
}

#[test]
#[should_panic]
fn panic_reg_var() {
    let mut model = Model::new("Test-model", Objective::Max);
    model.reg_var(F(3.999)).unwrap();
    model.update();
    model.reg_var(F(4.989)).unwrap();
}

#[test]
#[should_panic]
fn x() {
    let mut model_0 = Model::new("Test-model 0", Objective::Max);
    let mut model_1 = Model::new("Test-model 1", Objective::Max);
    let mut vars: Vec<Var> = vec![];
    // Add variables
    vars.push(model_1.reg_var(F(3.0)).unwrap());
    vars.push(model_0.reg_var(F(4.0)).unwrap());
    // Test unsolved
    assert!(model_1.x(&vars[0]).is_err());
    model_0.x(&vars[0]).unwrap();
}

#[test]
fn optimum() {
    let model: Model<F> = Model::new("Test-model", Objective::Max);
    // Test unsolved
    assert!(model.optimum().is_err());
}

#[test]
fn reg_constr() {
    let mut model = Model::new("Test-model", Objective::Max);
    let mut vars: Vec<Var> = vec![];
    // Add variables
    vars.push(model.reg_var(F(3.0)).unwrap());
    vars.push(model.reg_var(F(4.0)).unwrap());
    // Add constraint
    model
        .reg_constr(
            vec![Summand(F(3.9), &vars[1]), Summand(F(8.4), &vars[0])],
            Operator::Le,
            F(6.0),
        )
        .unwrap();
    model
        .reg_constr(
            vec![Summand(F(3.9), &vars[1]), Summand(F(8.4), &vars[1])],
            Operator::Le,
            F(6.0),
        )
        .unwrap();
    model.init_tableau();
}

fn standard_rows(model: &Model<F>) -> Vec<Vec<f64>> {
    (0..model.constraint_count())
        .map(|i| {
            (0..=model.variable_count())
                .map(|j| model.constraint_entry(i, j).0)
                .collect()
        })
        .collect()
}

#[test]
fn phase_closed_for_variables() {
    let mut model = Model::new("Test-model", Objective::Max);
    model.reg_var(F(3.999)).unwrap();
    model.update();
    assert_eq!(Some(ModelError::PhaseClosed), model.reg_var(F(4.989)).err());
    assert_eq!(
        Some(ModelError::PhaseClosed),
        model.reg_var_with_name(F(4.989), "late").err()
    );
    assert_eq!(1, model.variable_count());
    assert_eq!(State::ConstraintRegistration, model.state());
}

#[test]
fn phase_closed_for_constraints() {
    let mut model = Model::new("Test-model", Objective::Max);
    let v = model.reg_var(F(1.0)).unwrap();
    model
        .reg_constr(vec![Summand(F(1.0), &v)], Operator::Le, F(4.0))
        .unwrap();
    model.optimize().unwrap();
    assert_eq!(
        Err(ModelError::PhaseClosed),
        model.reg_constr(vec![Summand(F(1.0), &v)], Operator::Le, F(2.0))
    );
    assert_eq!(1, model.constraint_count());
    assert_eq!(Optimum::Finite(F(4.0)), model.optimum().unwrap());
}

#[test]
fn unknown_variable_guard() {
    let mut model_0 = Model::new("Test-model 0", Objective::Max);
    let mut model_1 = Model::new("Test-model 1", Objective::Max);
    let own = model_0.reg_var(F(4.0)).unwrap();
    let foreign = model_1.reg_var(F(3.0)).unwrap();
    assert_eq!(
        Err(ModelError::UnknownVariable),
        model_0.reg_constr(
            vec![Summand(F(1.0), &own), Summand(F(1.0), &foreign)],
            Operator::Le,
            F(4.0)
        )
    );
    assert_eq!(0, model_0.constraint_count());
    assert_eq!(State::ConstraintRegistration, model_0.state());
    assert_eq!(Err(ModelError::UnknownVariable), model_0.x(&foreign));
    assert_eq!(Err(ModelError::NotOptimized), model_0.x(&own));
}

#[test]
fn less_or_equal_is_registered_as_it_is() {
    let mut model = Model::new("Test-model", Objective::Max);
    let a = model.reg_var(F(3.0)).unwrap();
    let b = model.reg_var(F(4.0)).unwrap();
    model
        .reg_constr(
            vec![Summand(F(3.9), &b), Summand(F(8.4), &a)],
            Operator::Le,
            F(6.0),
        )
        .unwrap();
    assert_eq!(vec![vec![8.4, 3.9, 6.0]], standard_rows(&model));
}

#[test]
fn greater_or_equal_is_registered_negated() {
    let mut model = Model::new("Test-model", Objective::Max);
    let a = model.reg_var(F(3.0)).unwrap();
    let b = model.reg_var(F(4.0)).unwrap();
    model
        .reg_constr(
            vec![Summand(F(2.0), &a), Summand(F(-1.0), &b)],
            Operator::Ge,
            F(1.0),
        )
        .unwrap();
    assert_eq!(vec![vec![-2.0, 1.0, -1.0]], standard_rows(&model));
}

#[test]
fn equality_is_registered_as_two_opposite_rows() {
    let mut model = Model::new("Test-model", Objective::Max);
    let a = model.reg_var(F(3.0)).unwrap();
    let b = model.reg_var(F(4.0)).unwrap();
    model
        .reg_constr(
            vec![Summand(F(2.0), &a), Summand(F(-1.5), &b)],
            Operator::E,
            F(7.0),
        )
        .unwrap();
    let rows = standard_rows(&model);
    assert_eq!(vec![vec![2.0, -1.5, 7.0], vec![-2.0, 1.5, -7.0]], rows);
    for j in 0..3 {
        assert_eq!(rows[0][j], -rows[1][j]);
    }
}

#[test]
fn summands_of_one_variable_add_up() {
    let mut model = Model::new("Test-model", Objective::Max);
    let a = model.reg_var(F(3.0)).unwrap();
    let b = model.reg_var(F(4.0)).unwrap();
    model
        .reg_constr(
            vec![Summand(F(1.5), &b), Summand(F(2.25), &b)],
            Operator::Le,
            F(6.0),
        )
        .unwrap();
    assert_eq!(vec![vec![0.0, 3.75, 6.0]], standard_rows(&model));
    assert_eq!(Err(ModelError::NotOptimized), model.x(&a));
}

#[test]
fn minimize_without_bound_is_minus_infinity() {
    let mut model = Model::new("Test-model", Objective::Min);
    let a = model.reg_var(F(-1.0)).unwrap();
    let b = model.reg_var(F(1.0)).unwrap();
    model
        .reg_constr(vec![Summand(F(1.0), &b)], Operator::Le, F(2.0))
        .unwrap();
    model.optimize().unwrap();
    assert_eq!(Optimum::MinusInfinity, model.optimum().unwrap());
    assert_eq!(Err(ModelError::NotOptimized), model.x(&a));
}

#[test]
fn infeasible_model() {
    let mut model = Model::new("Test-model", Objective::Max);
    let a = model.reg_var(F(1.0)).unwrap();
    model
        .reg_constr(vec![Summand(F(1.0), &a)], Operator::Le, F(1.0))
        .unwrap();
    model
        .reg_constr(vec![Summand(F(1.0), &a)], Operator::Ge, F(2.0))
        .unwrap();
    assert_eq!(Err(ModelError::Infeasible), model.optimize());
    assert_eq!(State::PostRegistration, model.state());
    assert_eq!(Err(ModelError::NotOptimized), model.optimum());
    assert_eq!(Err(ModelError::NotOptimized), model.x(&a));
}

#[test]
fn degenerate_model() {
    let mut model = Model::new("Test-model", Objective::Max);
    let a = model.reg_var(F(1.0)).unwrap();
    model
        .reg_constr(vec![Summand(F(1.0), &a)], Operator::Le, F(4.0))
        .unwrap();
    model
        .reg_constr(vec![Summand(F(2.0), &a)], Operator::Le, F(8.0))
        .unwrap();
    assert_eq!(Err(ModelError::Degenerate), model.optimize());
    assert_eq!(Err(ModelError::NotOptimized), model.optimum());
}

#[test]
fn optimize_twice_changes_nothing() {
    let mut model = Model::new("Test-model", Objective::Max);
    let a = model.reg_var(F(2.0)).unwrap();
    let b = model.reg_var(F(1.0)).unwrap();
    model
        .reg_constr(
            vec![Summand(F(2.0), &a), Summand(F(-3.0), &b)],
            Operator::Le,
            F(6.0),
        )
        .unwrap();
    model
        .reg_constr(
            vec![Summand(F(1.0), &a), Summand(F(1.0), &b)],
            Operator::Le,
            F(4.0),
        )
        .unwrap();
    model.optimize().unwrap();
    model.optimize().unwrap();
    assert_eq!(F(3.6), model.x(&a).unwrap());
    assert_eq!(F(0.4), model.x(&b).unwrap());
    assert_eq!(Optimum::Finite(F(7.6)), model.optimum().unwrap());
}

#[test]
fn variable_outside_every_constraint_has_the_value_zero() {
    let mut model = Model::new("Test-model", Objective::Max);
    let a = model.reg_var(F(1.0)).unwrap();
    let b = model.reg_var(F(0.0)).unwrap();
    model
        .reg_constr(vec![Summand(F(1.0), &a)], Operator::Le, F(4.0))
        .unwrap();
    model.optimize().unwrap();
    assert_eq!(F(4.0), model.x(&a).unwrap());
    assert_eq!(F(0.0), model.x(&b).unwrap());
    assert_eq!(Some(F(0.0)), model.variable_value(1));
}

#[test]
fn optimize_without_registration_closes_both_phases() {
    let mut model: Model<F> = Model::new("Test-model", Objective::Max);
    model.optimize().unwrap();
    assert_eq!(State::PostRegistration, model.state());
    assert_eq!(Optimum::Finite(F(0.0)), model.optimum().unwrap());
}

#[test]
fn handles_are_version_four_identifiers() {
    let mut model = Model::new("Test-model", Objective::Max);
    let a = model.reg_var(F(1.0)).unwrap();
    let b = model.reg_var(F(1.0)).unwrap();
    assert_ne!(a.reference(), b.reference());
    for token in [a.reference(), b.reference()] {
        assert_eq!(
            0x0000_0000_0000_4000_8000_0000_0000_0000u128,
            token & 0x0000_0000_0000_f000_c000_0000_0000_0000u128
        );
    }
}

#[test]
fn names_and_sense_are_kept() {
    let mut model = Model::new("ABC_Company", Objective::Min);
    model.reg_var_with_name(F(6.0), "testvar").unwrap();
    model.reg_var(F(3.0)).unwrap();
    assert_eq!("ABC_Company", model.name().as_str());
    assert_eq!(Objective::Min, model.objective());
    assert_eq!(Some("testvar"), model.variable_name(0).map(|n| n.as_str()));
    assert_eq!(None, model.variable_name(1));
}

#[test]
fn initial_tableau_has_one_slack_column_for_each_row() {
    let mut model = Model::new("Test-model", Objective::Min);
    let a = model.reg_var(F(6.0)).unwrap();
    let b = model.reg_var(F(3.0)).unwrap();
    model
        .reg_constr(
            vec![Summand(F(1.0), &a), Summand(F(1.0), &b)],
            Operator::Ge,
            F(1.0),
        )
        .unwrap();
    model
        .reg_constr(vec![Summand(F(3.0), &b)], Operator::Le, F(2.0))
        .unwrap();
    model.init_tableau();
    let expected = vec![
        vec![-6.0, -3.0, 0.0, 0.0, 0.0],
        vec![-1.0, -1.0, 1.0, 0.0, -1.0],
        vec![0.0, 3.0, 0.0, 1.0, 2.0],
    ];
    let tableau: Vec<Vec<f64>> = (0..3)
        .map(|i| (0..5).map(|j| model.tableau_entry(i, j).0).collect())
        .collect();
    assert_eq!(expected, tableau);
}
