use linprog::model::{Model, ModelError, Objective, Operator, Summand, Var};
use linprog::natural::Natural;
use linprog::rational::Rational;
use linprog::scalar::{is_negative, is_positive, Scalar};
use linprog::solver::{solve, Optimum, SolveError};

fn q(numerator: i64, denominator: u64) -> Rational {
    Rational::fraction(numerator, denominator).unwrap()
}

fn whole(n: i64) -> Rational {
    Rational::from_integer(n)
}

fn same(a: &Rational, b: &Rational) -> bool {
    a.equals(b)
}

fn finite(o: Optimum<Rational>) -> Rational {
    match o {
        Optimum::Finite(v) => v,
        _ => panic!("no finite optimum"),
    }
}

#[test]
fn natural_sum_carries_over_limbs() {
    let a = Natural::from_u64(0xffff_ffff_ffff_ffff);
    let one = Natural::from_u64(1);
    let b = a.plus(&one);
    // two to the power 64 is beyond every u64
    assert_eq!(1, b.order(&a));
    assert_eq!(-1, a.order(&b));
    assert_eq!(0, b.minus(&one).order(&a));
    assert_eq!(0, b.minus(&a).order(&one));
    assert!(b.minus(&b).is_zero());
    assert!(!b.is_zero());
    assert!(Natural::zero().is_zero());
    assert_eq!(0, Natural::zero().order(&Natural::from_u64(0)));
}

#[test]
fn natural_product_of_limbs() {
    let a = Natural::from_u64(0xffff_ffff);
    assert_eq!(
        0,
        a.times(&a).order(&Natural::from_u64(0xffff_fffe_0000_0001))
    );
    assert_eq!(
        0,
        Natural::from_u64(123_456_789)
            .times(&Natural::from_u64(987_654_321))
            .order(&Natural::from_u64(121_932_631_112_635_269))
    );
    assert!(a.times(&Natural::zero()).is_zero());
    assert!(Natural::zero().times(&a).is_zero());
}

#[test]
fn natural_product_beyond_u64() {
    // (2^64 - 1)^2 = 2^64 * (2^64 - 1) - (2^64 - 1)
    let a = Natural::from_u64(0xffff_ffff_ffff_ffff);
    let b = a.plus(&Natural::from_u64(1));
    let square = a.times(&a);
    let expected = b.times(&a).minus(&a);
    assert_eq!(0, square.order(&expected));
    assert_eq!(1, square.order(&b));
    // the product is the same in either order, and distributes over a sum
    let c = Natural::from_u64(0x1234_5678_9abc_def0);
    assert_eq!(0, a.times(&c).order(&c.times(&a)));
    assert_eq!(
        0,
        b.times(&a.plus(&c)).order(&b.times(&a).plus(&b.times(&c)))
    );
    assert_eq!(0, square.duplicate().order(&square));
}

#[test]
fn natural_division_with_remainder() {
    let (quotient, rest) = Natural::from_u64(1_000_000_007).divide(&Natural::from_u64(97));
    assert_eq!(0, quotient.order(&Natural::from_u64(10_309_278)));
    assert_eq!(0, rest.order(&Natural::from_u64(41)));
    let (quotient, rest) = Natural::from_u64(5).divide(&Natural::from_u64(7));
    assert!(quotient.is_zero());
    assert_eq!(0, rest.order(&Natural::from_u64(5)));
    // (2^64 - 1)^2 + 12345 by 2^64 - 1
    let a = Natural::from_u64(0xffff_ffff_ffff_ffff);
    let n = a.times(&a).plus(&Natural::from_u64(12345));
    let (quotient, rest) = n.divide(&a);
    assert_eq!(0, quotient.order(&a));
    assert_eq!(0, rest.order(&Natural::from_u64(12345)));
    let (quotient, rest) = Natural::zero().divide(&a);
    assert!(quotient.is_zero());
    assert!(rest.is_zero());
}

#[test]
fn natural_common_divisor() {
    let g = Natural::from_u64(84).common_divisor(&Natural::from_u64(36));
    assert_eq!(0, g.order(&Natural::from_u64(12)));
    let g = Natural::from_u64(17).common_divisor(&Natural::from_u64(5));
    assert_eq!(0, g.order(&Natural::from_u64(1)));
    let g = Natural::zero().common_divisor(&Natural::from_u64(5));
    assert_eq!(0, g.order(&Natural::from_u64(5)));
    let a = Natural::from_u64(0xffff_ffff_ffff_ffff);
    let g = a.times(&Natural::from_u64(6)).common_divisor(&a.times(&Natural::from_u64(15)));
    assert_eq!(0, g.order(&a.times(&Natural::from_u64(3))));
}

#[test]
fn rational_arithmetic_is_exact() {
    assert!(same(&q(1, 3).plus(&q(1, 6)), &q(1, 2)));
    assert!(same(&q(1, 3).minus(&q(1, 2)), &q(-1, 6)));
    assert!(same(&q(-2, 3).times(&q(3, 4)), &q(-1, 2)));
    assert!(same(&q(-2, 3).over(&q(-4, 9)), &q(3, 2)));
    assert!(same(&q(2, 3).over(&q(-4, 9)), &q(-3, 2)));
    assert!(same(&q(5, 7).negated(), &q(-5, 7)));
    assert!(same(&q(2, 4), &q(1, 2)));
    assert!(!same(&q(2, 4), &q(1, 3)));
    assert!(same(&q(0, 5), &q(0, 7).negated()));
    assert!(same(&Rational::zero(), &whole(0)));
    assert!(same(&Rational::one(), &q(3, 3)));
    assert!(same(&q(7, 2).duplicate(), &q(7, 2)));
    assert!(same(&whole(i64::MIN), &q(i64::MIN, 1)));
    assert!(same(
        &whole(i64::MIN).plus(&whole(i64::MAX)),
        &whole(-1)
    ));
    // one tenth, added ten times, is one
    let mut sum = Rational::zero();
    for _ in 0..10 {
        sum = sum.plus(&q(1, 10));
    }
    assert!(same(&sum, &whole(1)));
}

fn small(n: &Natural) -> u64 {
    let limbs = n.limbs();
    assert!(limbs.iter().skip(2).all(|&limb| limb == 0));
    limbs
        .iter()
        .take(2)
        .enumerate()
        .map(|(i, &limb)| (limb as u64) << (32 * i))
        .sum()
}

#[test]
fn natural_limbs_round_trip() {
    let n = Natural::from_limbs(vec![1, 2, 3, 0, 0]);
    assert_eq!(
        0,
        n.order(&Natural::from_limbs(vec![1, 2, 3]))
    );
    assert_eq!(0, Natural::from_limbs(n.limbs()).order(&n));
    assert_eq!(0x0000_0002_0000_0001, small(&Natural::from_limbs(vec![1, 2])));
    assert_eq!(
        0,
        Natural::from_u64(0x0000_0002_0000_0001).order(&Natural::from_limbs(vec![1, 2]))
    );
    assert!(Natural::from_limbs(vec![]).is_zero());
    assert!(Natural::from_limbs(vec![0, 0]).is_zero());
    assert_eq!(1, n.order(&Natural::from_u64(u64::MAX)));
}

#[test]
fn rational_parts_are_reduced() {
    let (negative, numerator, denominator) = q(-84, 36).parts();
    assert!(negative);
    assert_eq!(7, small(&numerator));
    assert_eq!(3, small(&denominator));
    let (negative, numerator, denominator) = q(38, 10).plus(&q(38, 10)).parts();
    assert!(!negative);
    assert_eq!(38, small(&numerator));
    assert_eq!(5, small(&denominator));
    let (_, numerator, denominator) = whole(0).parts();
    assert_eq!(0, small(&numerator));
    assert_eq!(1, small(&denominator));
}

#[test]
fn rational_order() {
    assert!(q(1, 3).less_than(&q(1, 2)));
    assert!(!q(1, 2).less_than(&q(1, 3)));
    assert!(!q(1, 2).less_than(&q(2, 4)));
    assert!(q(-1, 2).less_than(&q(-1, 3)));
    assert!(!q(-1, 3).less_than(&q(-1, 2)));
    assert!(q(-1, 2).less_than(&q(1, 3)));
    assert!(!q(1, 3).less_than(&q(-1, 2)));
    assert!(q(-1, 2).less_than(&whole(0)));
    assert!(!whole(0).less_than(&whole(0).negated()));
    assert!(!whole(0).negated().less_than(&whole(0)));
    assert!(is_positive(&q(1, 1000)));
    assert!(!is_positive(&whole(0)));
    assert!(!is_positive(&q(-1, 1000)));
    assert!(is_negative(&q(-1, 1000)));
    assert!(!is_negative(&whole(0).negated()));
}

#[test]
fn fraction_needs_a_denominator() {
    assert!(Rational::fraction(1, 0).is_none());
    assert!(Rational::fraction(0, 0).is_none());
    assert!(Rational::fraction(0, 1).is_some());
}

fn bounded() -> (Model<Rational>, Vec<Var>) {
    let mut model = Model::new("Test-model", Objective::Max);
    let mut vars: Vec<Var> = vec![];
    vars.push(model.reg_var(whole(2)).unwrap());
    vars.push(model.reg_var(whole(1)).unwrap());
    model
        .reg_constr(
            vec![Summand(whole(2), &vars[0]), Summand(whole(-3), &vars[1])],
            Operator::Le,
            whole(6),
        )
        .unwrap();
    model
        .reg_constr(
            vec![Summand(whole(1), &vars[0]), Summand(whole(1), &vars[1])],
            Operator::Le,
            whole(4),
        )
        .unwrap();
    (model, vars)
}

#[test]
fn simple_bounded_case() {
    let (mut model, vars) = bounded();
    model.optimize().unwrap();
    assert!(same(&q(18, 5), &model.x(&vars[0]).unwrap()));
    assert!(same(&q(2, 5), &model.x(&vars[1]).unwrap()));
    assert!(same(&q(38, 5), &finite(model.optimum().unwrap())));
}

#[test]
fn unbounded_case() {
    let mut model = Model::new("Test-model", Objective::Max);
    let mut vars: Vec<Var> = vec![];
    vars.push(model.reg_var(whole(1)).unwrap());
    vars.push(model.reg_var(whole(2)).unwrap());
    model
        .reg_constr(
            vec![Summand(whole(-2), &vars[0]), Summand(whole(-1), &vars[1])],
            Operator::Le,
            whole(2),
        )
        .unwrap();
    model
        .reg_constr(
            vec![Summand(whole(3), &vars[0]), Summand(whole(-4), &vars[1])],
            Operator::Le,
            whole(12),
        )
        .unwrap();
    model
        .reg_constr(vec![Summand(whole(1), &vars[0])], Operator::Le, whole(2))
        .unwrap();
    model.optimize().unwrap();
    assert!(matches!(model.optimum(), Ok(Optimum::PlusInfinity)));
    assert!(matches!(model.x(&vars[0]), Err(ModelError::NotOptimized)));
    assert!(matches!(model.x(&vars[1]), Err(ModelError::NotOptimized)));
}

fn phase_one_model() -> (Model<Rational>, Vec<Var>) {
    let mut model = Model::new("Test-model (two phase method)", Objective::Min);
    let mut vars: Vec<Var> = vec![];
    vars.push(model.reg_var(whole(6)).unwrap());
    vars.push(model.reg_var(whole(3)).unwrap());
    model
        .reg_constr(
            vec![Summand(whole(1), &vars[0]), Summand(whole(1), &vars[1])],
            Operator::Ge,
            whole(1),
        )
        .unwrap();
    model
        .reg_constr(
            vec![Summand(whole(2), &vars[0]), Summand(whole(-1), &vars[1])],
            Operator::Ge,
            whole(1),
        )
        .unwrap();
    model
        .reg_constr(vec![Summand(whole(3), &vars[1])], Operator::Le, whole(2))
        .unwrap();
    (model, vars)
}

#[test]
fn phase_one_required() {
    let (mut model, vars) = phase_one_model();
    model.optimize().unwrap();
    assert!(same(&q(2, 3), &model.x(&vars[0]).unwrap()));
    assert!(same(&q(1, 3), &model.x(&vars[1]).unwrap()));
    assert!(same(&whole(5), &finite(model.optimum().unwrap())));
}

#[test]
fn exact_degenerate_tie() {
    let mut t = vec![
        vec![whole(1), whole(0), whole(0), whole(0)],
        vec![whole(1), whole(1), whole(0), whole(4)],
        vec![q(1, 3), whole(0), whole(1), q(4, 3)],
    ];
    assert!(matches!(solve(&mut t, None), Err(SolveError::Degenerate)));
}

#[test]
fn exact_story() {
    let price = [50, 100, 110];
    let capacity = [2500, 2000, 450];
    let time = [[q(10, 1), q(4, 1), q(1, 1)], [q(5, 1), q(10, 1), q(3, 2)], [
        q(6, 1),
        q(9, 1),
        q(3, 1),
    ]];
    let mut model = Model::new("ABC_Company", Objective::Max);
    let mut vars: Vec<Var> = vec![];
    for p in price {
        vars.push(model.reg_var(whole(p)).unwrap());
    }
    for (j, c) in capacity.iter().enumerate() {
        let sum = (0..3)
            .map(|k| Summand(time[k][j].duplicate(), &vars[k]))
            .collect();
        model.reg_constr(sum, Operator::Le, whole(*c)).unwrap();
    }
    model.optimize().unwrap();
    assert!(same(&q(1250, 7), &model.x(&vars[0]).unwrap()));
    assert!(same(&q(600, 7), &model.x(&vars[1]).unwrap()));
    assert!(same(&q(1000, 21), &model.x(&vars[2]).unwrap()));
    assert!(same(&q(477500, 21), &finite(model.optimum().unwrap())));
}

/// The sum of the products of a standard row of the model with the point.
fn row_sum(model: &Model<Rational>, row: usize, point: &[Rational]) -> Rational {
    let mut sum = Rational::zero();
    for (j, x) in point.iter().enumerate() {
        sum = sum.plus(&model.constraint_entry(row, j).times(x));
    }
    sum
}

fn assert_round_trip(mut model: Model<Rational>, vars: Vec<Var>) {
    assert!(!model.is_canonical());
    model.optimize().unwrap();
    assert!(model.is_canonical());
    let point: Vec<Rational> = vars.iter().map(|v| model.x(v).unwrap()).collect();
    for x in point.iter() {
        assert!(!is_negative(x));
    }
    for i in 0..model.constraint_count() {
        let bound = model.constraint_entry(i, vars.len());
        assert!(!bound.less_than(&row_sum(&model, i, &point)));
    }
    let mut objective = Rational::zero();
    for (j, x) in point.iter().enumerate() {
        objective = objective.plus(&model.variable_objective(j).times(x));
    }
    assert!(same(&objective, &finite(model.optimum().unwrap())));
}

#[test]
fn reported_point_satisfies_the_constraints() {
    let (model, vars) = bounded();
    assert_round_trip(model, vars);
    let (model, vars) = phase_one_model();
    assert_round_trip(model, vars);
}

/// The largest objective over the vertices of a program in two variables: the feasible
/// points in which two of the lines of the constraints and the axes meet.
fn best_vertex(model: &Model<Rational>) -> Option<Rational> {
    let mut lines: Vec<[Rational; 3]> = vec![
        [whole(1), whole(0), whole(0)],
        [whole(0), whole(1), whole(0)],
    ];
    for i in 0..model.constraint_count() {
        lines.push([
            model.constraint_entry(i, 0),
            model.constraint_entry(i, 1),
            model.constraint_entry(i, 2),
        ]);
    }
    let mut best: Option<Rational> = None;
    for a in 0..lines.len() {
        for b in a + 1..lines.len() {
            let (p, r) = (&lines[a], &lines[b]);
            let det = p[0].times(&r[1]).minus(&p[1].times(&r[0]));
            if same(&det, &whole(0)) {
                continue;
            }
            let x = p[2].times(&r[1]).minus(&p[1].times(&r[2])).over(&det);
            let y = p[0].times(&r[2]).minus(&p[2].times(&r[0])).over(&det);
            if is_negative(&x) || is_negative(&y) {
                continue;
            }
            let point = [x, y];
            let inside = (0..model.constraint_count())
                .all(|i| !model.constraint_entry(i, 2).less_than(&row_sum(model, i, &point)));
            if !inside {
                continue;
            }
            let value = model
                .variable_objective(0)
                .times(&point[0])
                .plus(&model.variable_objective(1).times(&point[1]));
            let better = match &best {
                None => true,
                Some(old) => match model.objective() {
                    Objective::Max => old.less_than(&value),
                    Objective::Min => value.less_than(old),
                },
            };
            if better {
                best = Some(value);
            }
        }
    }
    best
}

#[test]
fn no_vertex_is_better_than_the_optimum() {
    let (mut model, _) = bounded();
    model.optimize().unwrap();
    assert!(same(
        &best_vertex(&model).unwrap(),
        &finite(model.optimum().unwrap())
    ));
    let (mut model, _) = phase_one_model();
    model.optimize().unwrap();
    assert!(same(
        &best_vertex(&model).unwrap(),
        &finite(model.optimum().unwrap())
    ));
}

#[test]
fn clean_column_is_read_off_though_it_is_not_basic() {
    // maximize -x - y with x + y <= 4: the initial tableau is optimal, with the value 0,
    // and the columns of x and y are both clean basic in the one row
    let mut model = Model::new("Test-model", Objective::Max);
    let a = model.reg_var(whole(-1)).unwrap();
    let b = model.reg_var(whole(-1)).unwrap();
    model
        .reg_constr(
            vec![Summand(whole(1), &a), Summand(whole(1), &b)],
            Operator::Le,
            whole(4),
        )
        .unwrap();
    model.optimize().unwrap();
    assert!(same(&whole(0), &finite(model.optimum().unwrap())));
    assert!(same(&whole(4), &model.x(&a).unwrap()));
    assert!(same(&whole(4), &model.x(&b).unwrap()));
    assert_eq!(2, model.tableau_rows());
    assert_eq!(4, model.tableau_columns(1));
    assert!(!model.is_canonical());
}

#[test]
fn exact_infeasible() {
    let mut model = Model::new("Test-model", Objective::Max);
    let a = model.reg_var(whole(1)).unwrap();
    model
        .reg_constr(vec![Summand(q(1, 3), &a)], Operator::Le, q(1, 3))
        .unwrap();
    model
        .reg_constr(vec![Summand(whole(1), &a)], Operator::Ge, q(3, 2))
        .unwrap();
    assert!(matches!(model.optimize(), Err(ModelError::Infeasible)));
}

#[test]
fn rows_of_an_equality_tie_in_the_ratio_test() {
    // maximize x + 2y with x + y = 3 and x >= 1/2: after x entered, the two rows of the
    // equality both have the ratio 5/2 for y
    let mut model = Model::new("Test-model", Objective::Max);
    let a = model.reg_var(whole(1)).unwrap();
    let b = model.reg_var(whole(2)).unwrap();
    model
        .reg_constr(
            vec![Summand(whole(1), &a), Summand(whole(1), &b)],
            Operator::E,
            whole(3),
        )
        .unwrap();
    model
        .reg_constr(vec![Summand(whole(1), &a)], Operator::Ge, q(1, 2))
        .unwrap();
    assert_eq!(3, model.constraint_count());
    assert!(matches!(model.optimize(), Err(ModelError::Degenerate)));
}
