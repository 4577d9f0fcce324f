use linprog::{Model, Objective, Operator, Optimum, Scalar, Summand, Var};
use std::collections::HashMap;

#[derive(Clone, Copy, Debug, PartialEq)]
struct F(f64);

impl Scalar for F {
    fn zero() -> Self {
        F(0.0)
    }
    fn one() -> Self {
        F(1.0)
    }
    fn duplicate(&self) -> Self {
        *self
    }
    fn plus(&self, other: &Self) -> Self {
        F(self.0 + other.0)
    }
    fn minus(&self, other: &Self) -> Self {
        F(self.0 - other.0)
    }
    fn times(&self, other: &Self) -> Self {
        F(self.0 * other.0)
    }
    fn over(&self, other: &Self) -> Self {
        F(self.0 / other.0)
    }
    fn negated(&self) -> Self {
        F(-self.0)
    }
    fn less_than(&self, other: &Self) -> bool {
        self.0 < other.0
    }
    fn equals(&self, other: &Self) -> bool {
        self.0 == other.0
    }
}

#[test]
fn integration_test_solve_1() {
    let mut model = Model::new("Test-model", Objective::Max);
    let mut vars: Vec<Var> = vec![];
    // x* = (x1,x2) = (3.6, 0.4)
    // opt: 7.6
    vars.push(model.reg_var(F(2.0)).unwrap());
    vars.push(model.reg_var(F(1.0)).unwrap());
    model
        .reg_constr(
            vec![Summand(F(2.0), &vars[0]), Summand(F(-3.0), &vars[1])],
            Operator::Le,
            F(6.0),
        )
        .unwrap();
    model
        .reg_constr(
            vec![Summand(F(1.0), &vars[0]), Summand(F(1.0), &vars[1])],
            Operator::Le,
            F(4.0),
        )
        .unwrap();
    model.optimize().unwrap();
    // Test
    assert_eq!(F(3.6), model.x(&vars[0]).unwrap());
    assert_eq!(F(0.4), model.x(&vars[1]).unwrap());
    assert_eq!(Optimum::Finite(F(7.6)), model.optimum().unwrap());
}

#[test]
fn solve_2() {
    let mut model = Model::new("Test-model", Objective::Max);
    let mut vars: Vec<Var> = vec![];
    // x* = (x1,x2) = (20, 17)
    // opt: 94
    vars.push(model.reg_var(F(3.0)).unwrap());
    vars.push(model.reg_var(F(2.0)).unwrap());
    model
        .reg_constr(
            vec![Summand(F(-1.0), &vars[0]), Summand(F(2.0), &vars[1])],
            Operator::Le,
            F(14.0),
        )
        .unwrap();
    model
        .reg_constr(
            vec![Summand(F(1.0), &vars[0]), Summand(F(-1.0), &vars[1])],
            Operator::Le,
            F(3.0),
        )
        .unwrap();
    model.optimize().unwrap();
    // Test
    assert_eq!(F(20.0), model.x(&vars[0]).unwrap());
    assert_eq!(F(17.0), model.x(&vars[1]).unwrap());
    assert_eq!(Optimum::Finite(F(94.0)), model.optimum().unwrap());
}

#[test]
fn solve_3() {
    let mut model = Model::new("Test-model", Objective::Max);
    let mut vars: Vec<Var> = vec![];
    // x* = (x1,x2) = None
    // opt: INF
    vars.push(model.reg_var(F(1.0)).unwrap());
    vars.push(model.reg_var(F(2.0)).unwrap());
    model
        .reg_constr(
            vec![Summand(F(-2.6), &vars[0]), Summand(F(-1.999), &vars[1])],
            Operator::Le,
            F(0.0),
        )
        .unwrap();
    model
        .reg_constr(
            vec![Summand(F(3.0), &vars[0]), Summand(F(-4.123), &vars[1])],
            Operator::Le,
            F(12.8),
        )
        .unwrap();
    model
        .reg_constr(
            vec![Summand(F(1.0), &vars[0]), Summand(F(0.0), &vars[1])],
            Operator::Le,
            F(2.0),
        )
        .unwrap();
    model.optimize().unwrap();
    // Test
    assert!(model.x(&vars[0]).is_err());
    assert!(model.x(&vars[1]).is_err());
    assert_eq!(Optimum::PlusInfinity, model.optimum().unwrap());
}

#[test]
fn solve_4() {
    let mut model = Model::new("Test-model (two phase method)", Objective::Min);
    let mut vars: Vec<Var> = vec![];
    // x* = (x1,x2) = (2/3, 1/3)
    // opt: 5
    vars.push(model.reg_var_with_name(F(6.0), "testvar").unwrap());
    vars.push(model.reg_var_with_name(F(3.0), "another testvar").unwrap());
    model
        .reg_constr(
            vec![Summand(F(1.0), &vars[0]), Summand(F(1.0), &vars[1])],
            Operator::Ge,
            F(1.0),
        )
        .unwrap();
    model
        .reg_constr(
            vec![Summand(F(2.0), &vars[0]), Summand(F(-1.0), &vars[1])],
            Operator::Ge,
            F(1.0),
        )
        .unwrap();
    model
        .reg_constr(
            vec![Summand(F(0.0), &vars[0]), Summand(F(3.0), &vars[1])],
            Operator::Le,
            F(2.0),
        )
        .unwrap();
    model.optimize().unwrap();
    // Test
    assert_eq!(F(0.6666666666666666), model.x(&vars[0]).unwrap());
    assert_eq!(F(0.3333333333333333), model.x(&vars[1]).unwrap());
    assert_eq!(Optimum::Finite(F(5.0)), model.optimum().unwrap());
}

#[test]
fn solve_5() {
    let mut model = Model::new("Test-model (two phase method)", Objective::Max);
    let mut vars: Vec<Var> = vec![];
    // x* = (x1,x2) = (0, 2)
    // opt: 2
    vars.push(model.reg_var(F(0.0)).unwrap());
    vars.push(model.reg_var(F(1.0)).unwrap());
    model
        .reg_constr(
            vec![Summand(F(-1.0), &vars[0]), Summand(F(-1.0), &vars[1])],
            Operator::Le,
            F(-1.0),
        )
        .unwrap();
    model
        .reg_constr(
            vec![Summand(F(2.0), &vars[0]), Summand(F(3.0), &vars[1])],
            Operator::Le,
            F(6.0),
        )
        .unwrap();
    model.optimize().unwrap();
    // Test
    assert_eq!(F(0.0), model.x(&vars[0]).unwrap());
    assert_eq!(F(2.0), model.x(&vars[1]).unwrap());
    assert_eq!(Optimum::Finite(F(2.0)), model.optimum().unwrap());
}

#[test]
fn readme_example() {
    let mut model = Model::new("Readme example", Objective::Max);
    let mut vars: Vec<Var> = vec![];
    // x* = (x1,x2) = (130, 20)
    // opt: 490
    vars.push(model.reg_var(F(3.0)).unwrap());
    vars.push(model.reg_var(F(5.0)).unwrap());
    model
        .reg_constr(
            vec![Summand(F(1.0), &vars[0]), Summand(F(2.0), &vars[1])],
            Operator::Le,
            F(170.0),
        )
        .unwrap();
    model
        .reg_constr(
            vec![Summand(F(1.0), &vars[0]), Summand(F(1.0), &vars[1])],
            Operator::Le,
            F(150.0),
        )
        .unwrap();
    model
        .reg_constr(
            vec![Summand(F(0.0), &vars[0]), Summand(F(3.0), &vars[1])],
            Operator::Le,
            F(180.0),
        )
        .unwrap();
    model.optimize().unwrap();
    // Test
    assert_eq!(F(130.0), model.x(&vars[0]).unwrap());
    assert_eq!(F(20.0), model.x(&vars[1]).unwrap());
    assert_eq!(Optimum::Finite(F(490.0)), model.optimum().unwrap());
}

#[test]
fn readme_example_story() {
    let products: HashMap<&str, f64> = [
        ("Product A", 50.0),
        ("Product B", 100.0),
        ("Product C", 110.0),
    ]
    .iter()
    .cloned()
    .collect();

    let machines: HashMap<&str, f64> = [
        ("Machine X", 2500.0),
        ("Machine Y", 2000.0),
        ("Machine Z", 450.0),
    ]
    .iter()
    .cloned()
    .collect();

    let mut time_needed: HashMap<(&str, &str), f64> = HashMap::new();
    time_needed.insert(("Product A", "Machine X"), 10.0);
    time_needed.insert(("Product A", "Machine Y"), 4.0);
    time_needed.insert(("Product A", "Machine Z"), 1.0);

    time_needed.insert(("Product B", "Machine X"), 5.0);
    time_needed.insert(("Product B", "Machine Y"), 10.0);
    time_needed.insert(("Product B", "Machine Z"), 1.5);

    time_needed.insert(("Product C", "Machine X"), 6.0);
    time_needed.insert(("Product C", "Machine Y"), 9.0);
    time_needed.insert(("Product C", "Machine Z"), 3.0);

    let mut model = Model::new("ABC_Company", Objective::Max);
    let mut vars: HashMap<&str, Var> = HashMap::new();

    for (product, &price) in &products {
        vars.insert(product, model.reg_var_with_name(F(price), product).unwrap());
    }

    for (&machine, &max_time) in &machines {
        let mut sum: Vec<Summand<F>> = Vec::new();
        for (&product, _) in &products {
            sum.push(Summand(F(time_needed[&(product, machine)]), &vars[product]));
        }
        model.reg_constr(sum, Operator::Le, F(max_time)).unwrap();
    }

    model.optimize().unwrap();

    // Test
    assert_eq!(F(178.57142857142856), model.x(&vars["Product A"]).unwrap());
    assert_eq!(F(85.71428571428572), model.x(&vars["Product B"]).unwrap());
    assert_eq!(F(47.61904761904763), model.x(&vars["Product C"]).unwrap());
    assert_eq!(Optimum::Finite(F(22738.095238095237)), model.optimum().unwrap());
}
