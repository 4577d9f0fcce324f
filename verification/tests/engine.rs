use linprog::scalar::Scalar;
use linprog::solver::{
    count_negative_rows, improve, is_canonical, is_rectangular, improve_within, is_base_variable, is_optimal, is_unbounded, next, optimum, pivot, prepare_phase_one,
    prepare_phase_two, solve, Optimum, SolveError,
};
use std::collections::HashMap;

#[derive(Clone, Copy, Debug, PartialEq)]
struct F(f64);

impl Scalar for F {
    fn zero() -> Self {
        F(0.0)
    }
    fn one() -> Self {
        F(1.0)
    }
    fn duplicate(&self) -> Self {
        *self
    }
    fn plus(&self, other: &Self) -> Self {
        F(self.0 + other.0)
    }
    fn minus(&self, other: &Self) -> Self {
        F(self.0 - other.0)
    }
    fn times(&self, other: &Self) -> Self {
        F(self.0 * other.0)
    }
    fn over(&self, other: &Self) -> Self {
        F(self.0 / other.0)
    }
    fn negated(&self) -> Self {
        F(-self.0)
    }
    fn less_than(&self, other: &Self) -> bool {
        self.0 < other.0
    }
    fn equals(&self, other: &Self) -> bool {
        self.0 == other.0
    }
}

fn rows(t: &[&[f64]]) -> Vec<Vec<F>> {
    t.iter().map(|r| r.iter().map(|&x| F(x)).collect()).collect()
}

fn plain(t: &Vec<Vec<F>>) -> Vec<Vec<f64>> {
    t.iter().map(|r| r.iter().map(|x| x.0).collect()).collect()
}

fn tableaus() -> [Vec<Vec<F>>; 4] {
    [
        // x* = (x1,x2) = (3.6, 0.4)
        // opt: 7.6
        rows(&[
            &[2.0, 1.0, 0.0, 0.0, 0.0],
            &[2.0, -3.0, 1.0, 0.0, 6.0],
            &[1.0, 1.0, 0.0, 1.0, 4.0],
        ]),
        // x* = (x1,x2) = (20, 17)
        // opt: 94
        rows(&[
            &[3.0, 2.0, 0.0, 0.0, 0.0],
            &[-1.0, 2.0, 1.0, 0.0, 14.0],
            &[1.0, -1.0, 0.0, 1.0, 3.0],
        ]),
        // x* = (x1,x2) = None
        // opt: 1.0/0.0
        rows(&[
            &[1.0, 2.0, 0.0, 0.0, 0.0, 0.0],
            &[-2.0, -1.0, 1.0, 0.0, 0.0, 2.0],
            &[3.0, -4.0, 0.0, 1.0, 0.0, 12.0],
            &[1.0, 0.0, 0.0, 0.0, 1.0, 2.0],
        ]),
        // Two phase method needed
        rows(&[
            &[2.0, 3.0, 1.0, 0.0, 0.0, 0.0, 0.0],
            &[1.0, 1.0, 1.0, 1.0, 0.0, 0.0, 40.0],
            &[-2.0, -1.0, 1.0, 0.0, 1.0, 0.0, -10.0],
            &[0.0, 1.0, -1.0, 0.0, 0.0, 1.0, -10.0],
        ]),
    ]
}

#[test]
fn test_solve() {
    let mut tableaus = tableaus();
    let mut solution = HashMap::new();
    solution.insert(0, F(3.6));
    solution.insert(1, F(0.4));
    assert_eq!(
        Ok((Option::Some(solution), Optimum::Finite(F(7.6)))),
        solve(&mut tableaus[0], Option::None)
    );
    let mut solution = HashMap::new();
    solution.insert(0, F(20.0));
    solution.insert(1, F(17.0));
    assert_eq!(
        Ok((Option::Some(solution), Optimum::Finite(F(94.0)))),
        solve(&mut tableaus[1], Option::None)
    );
    assert_eq!(
        Ok((Option::None, Optimum::PlusInfinity)),
        solve(&mut tableaus[2], Option::None)
    );
}

#[test]
fn test_solve_two_phases() {
    // phase one alone: the point on which it ends, over all columns, and its value
    let mut tableaus = tableaus();
    prepare_phase_one(&mut tableaus[3], 2, 6);
    assert_eq!(Ok(true), improve(&mut tableaus[3]));
    let (found, value) = optimum(&tableaus[3], 6);
    let mut solution = HashMap::new();
    solution.insert(0, 10.0);
    solution.insert(1, 0.0);
    solution.insert(2, 10.0);
    solution.insert(3, 20.0);
    solution.insert(4, 0.0);
    solution.insert(5, 0.0);
    for (column, x) in solution {
        assert_eq!(x, found.get(&column).map_or(0.0, |v| v.0));
    }
    assert_eq!(F(0.0), value);
}

#[test]
fn tests_solve_1() {
    let mut tableaus = tableaus();
    let mut solution = HashMap::new();
    solution.insert(0, F(3.6));
    solution.insert(1, F(0.4));
    assert_eq!(
        Ok((Option::Some(solution), Optimum::Finite(F(7.6)))),
        solve(&mut tableaus[0], Option::None)
    );
    let mut solution = HashMap::new();
    solution.insert(0, F(20.0));
    solution.insert(1, F(17.0));
    assert_eq!(
        Ok((Option::Some(solution), Optimum::Finite(F(94.0)))),
        solve(&mut tableaus[1], Option::None)
    );
    assert_eq!(
        Ok((Option::None, Optimum::PlusInfinity)),
        solve(&mut tableaus[2], Option::None)
    );
}

#[test]
fn solve_two_phases() {
    let mut tableaus = tableaus();
    let mut solution = HashMap::new();
    solution.insert(0, F(10.0));
    solution.insert(1, F(10.0));
    solution.insert(2, F(20.0));
    assert_eq!(
        Ok((Option::Some(solution), Optimum::Finite(F(70.0)))),
        solve(&mut tableaus[3], Option::None)
    );
}

#[test]
fn two_phase_entry_point_gives_the_same_as_solve() {
    let mut tableaus = tableaus();
    let mut solution = HashMap::new();
    solution.insert(0, F(10.0));
    solution.insert(1, F(10.0));
    solution.insert(2, F(20.0));
    assert_eq!(
        Ok((Option::Some(solution), Optimum::Finite(F(70.0)))),
        linprog::solver::solve_two_phases(&mut tableaus[3], 6)
    );
}

#[test]
fn optimal_only_without_positive_objective_entry() {
    let t = tableaus();
    assert!(!is_optimal(&t[0]));
    assert!(is_optimal(&rows(&[&[-1.0, 0.0, 0.0, 5.0], &[1.0, 1.0, 0.0, 2.0]])));
    // the right-hand side of the objective row does not count
    assert!(is_optimal(&rows(&[&[0.0, 0.0, 9.0], &[1.0, 1.0, 2.0]])));
}

#[test]
fn unbounded_only_without_positive_column_entry() {
    let t = tableaus();
    assert!(!is_unbounded(&t[2], 0));
    // column 1 has the entries -1, -4 and 0 in the constraint rows
    assert!(is_unbounded(&t[2], 1));
    // the objective row does not count
    assert!(is_unbounded(&rows(&[&[7.0, 0.0], &[-1.0, 2.0], &[0.0, 3.0]]), 0));
    assert!(!is_unbounded(&rows(&[&[-7.0, 0.0], &[-1.0, 2.0], &[0.5, 3.0]]), 0));
}

#[test]
fn pivot_takes_largest_entry_and_smallest_ratio() {
    let t = tableaus();
    // column 0 holds the largest entry 2; ratios 6/2 = 3 and 4/1 = 4
    assert_eq!(Ok(Some((1, 0))), pivot(&t[0]));
    // column 0 holds 3; row 1 has a negative entry, row 2 the ratio 3
    assert_eq!(Ok(Some((2, 0))), pivot(&t[1]));
    // column 1 holds 2 and has no positive entry
    assert_eq!(Ok(None), pivot(&t[2]));
}

#[test]
fn pivot_breaks_ties_of_the_objective_by_lowest_column() {
    let t = rows(&[
        &[3.0, 5.0, 5.0, 0.0, 0.0, 0.0],
        &[1.0, 1.0, 2.0, 1.0, 0.0, 8.0],
        &[1.0, 4.0, 1.0, 0.0, 1.0, 8.0],
    ]);
    assert_eq!(Ok(Some((2, 1))), pivot(&t));
}

#[test]
fn degenerate_tie() {
    // both rows have the ratio 4 for the entering column 0
    let mut t = rows(&[
        &[1.0, 0.0, 0.0, 0.0],
        &[1.0, 1.0, 0.0, 4.0],
        &[2.0, 0.0, 1.0, 8.0],
    ]);
    assert_eq!(Err(SolveError::Degenerate), pivot(&t));
    assert_eq!(Err(SolveError::Degenerate), improve(&mut t));
    assert_eq!(Err(SolveError::Degenerate), solve(&mut t, None));
}

#[test]
fn tie_above_the_smallest_ratio_is_no_degeneracy() {
    // ratios 5, 5 and 3: the smallest is taken by row 3 alone
    let t = rows(&[
        &[1.0, 0.0, 0.0, 0.0, 0.0],
        &[1.0, 1.0, 0.0, 0.0, 5.0],
        &[2.0, 0.0, 1.0, 0.0, 10.0],
        &[1.0, 0.0, 0.0, 1.0, 3.0],
    ]);
    assert_eq!(Ok(Some((3, 0))), pivot(&t));
}

#[test]
fn next_is_one_gauss_jordan_step() {
    let mut t = tableaus();
    next(&mut t[0], (1, 0));
    assert_eq!(
        vec![
            vec![0.0, 4.0, -1.0, 0.0, -6.0],
            vec![1.0, -1.5, 0.5, 0.0, 3.0],
            vec![0.0, 2.5, -0.5, 1.0, 1.0],
        ],
        plain(&t[0])
    );
}

#[test]
fn improve_ends_on_an_optimal_tableau() {
    let mut t = tableaus();
    assert_eq!(Ok(true), improve(&mut t[1]));
    assert!(is_optimal(&t[1]));
    assert_eq!(
        vec![
            vec![0.0, 0.0, -5.0, -8.0, -94.0],
            vec![0.0, 1.0, 1.0, 1.0, 17.0],
            vec![1.0, 0.0, 1.0, 2.0, 20.0],
        ],
        plain(&t[1])
    );
    assert_eq!(Ok(false), improve(&mut t[2]));
}

#[test]
fn pivot_limit_stops_the_loop() {
    // two pivots lead to the optimal tableau
    let mut t = tableaus();
    assert_eq!(Err(SolveError::PivotLimit), improve_within(&mut t[0], 0));
    assert_eq!(plain(&tableaus()[0]), plain(&t[0]));
    assert_eq!(Err(SolveError::PivotLimit), improve_within(&mut t[0], 1));
    assert_eq!(
        vec![
            vec![0.0, 4.0, -1.0, 0.0, -6.0],
            vec![1.0, -1.5, 0.5, 0.0, 3.0],
            vec![0.0, 2.5, -0.5, 1.0, 1.0],
        ],
        plain(&t[0])
    );
    assert_eq!(Ok(true), improve_within(&mut t[0], 1));
    let mut t = tableaus();
    assert_eq!(Ok(true), improve_within(&mut t[0], 2));
    // an optimal tableau needs no pivot
    assert_eq!(Ok(true), improve_within(&mut t[0], 0));
}

#[test]
fn rectangular_needs_rows_of_one_positive_width() {
    assert!(is_rectangular(&tableaus()[0]));
    assert!(is_rectangular(&rows(&[&[1.0]])));
    assert!(!is_rectangular(&rows(&[])));
    assert!(!is_rectangular(&rows(&[&[]])));
    assert!(!is_rectangular(&rows(&[&[1.0, 2.0], &[1.0]])));
    assert!(!is_rectangular(&rows(&[&[1.0, 2.0], &[1.0, 2.0], &[1.0, 2.0, 3.0]])));
}

#[test]
fn canonical_form_is_recognized() {
    // the final tableau of the simple bounded case
    let mut t = tableaus();
    assert_eq!(Ok(true), improve(&mut t[1]));
    assert!(is_canonical(&t[1]));
    // two clean basic columns in the one row, whose right-hand side is not zero
    assert!(!is_canonical(&rows(&[&[-1.0, -1.0, 0.0, 0.0], &[1.0, 1.0, 1.0, 4.0]])));
    // ... which does no harm where the right-hand side is zero
    assert!(is_canonical(&rows(&[&[0.0, 0.0, 0.0, 0.0], &[1.0, 1.0, 1.0, 0.0]])));
    // no clean basic column in a row whose right-hand side is not zero
    assert!(!is_canonical(&rows(&[&[0.0, 0.0, 0.0], &[2.0, 3.0, 4.0]])));
    assert!(is_canonical(&rows(&[&[0.0, 0.0, 0.0], &[2.0, 3.0, 0.0]])));
    // a clean basic column with an objective entry and a value that are not zero
    assert!(!is_canonical(&rows(&[&[-1.0, 0.0, 0.0], &[1.0, 0.0, 4.0]])));
    assert!(is_canonical(&rows(&[&[0.0, -1.0, 0.0], &[1.0, 0.0, 4.0]])));
    // a tableau without constraint rows
    assert!(is_canonical(&rows(&[&[1.0, 0.0]])));
}

#[test]
fn base_variable_has_one_one_and_zeros() {
    let t = rows(&[
        &[0.0, 0.0, 0.0, 0.0, 0.0, 0.0],
        &[1.0, 0.0, 1.0, 0.0, 2.0, 3.0],
        &[0.0, 0.0, 1.0, 0.0, 0.0, 4.0],
        &[0.0, 1.0, 0.0, 0.0, 0.0, 5.0],
    ]);
    assert!(is_base_variable(&t, 0));
    assert!(is_base_variable(&t, 1));
    // two ones
    assert!(!is_base_variable(&t, 2));
    // no one
    assert!(!is_base_variable(&t, 3));
    // an entry that is neither zero nor one
    assert!(!is_base_variable(&t, 4));
}

#[test]
fn optimum_reads_clean_basic_columns() {
    let t = rows(&[
        &[0.0, 0.0, 0.0, 0.0, 0.0, -9.5],
        &[1.0, 0.0, 1.0, 0.0, 2.0, 3.0],
        &[0.0, 0.0, 1.0, 0.0, 0.0, 4.0],
        &[0.0, 1.0, 0.0, 0.0, 0.0, 5.0],
    ]);
    let (solution, value) = optimum(&t, 5);
    let mut expected = HashMap::new();
    expected.insert(0, F(3.0));
    expected.insert(1, F(5.0));
    assert_eq!(expected, solution);
    assert_eq!(F(9.5), value);
    let (solution, _) = optimum(&t, 1);
    let mut expected = HashMap::new();
    expected.insert(0, F(3.0));
    assert_eq!(expected, solution);
}

#[test]
fn phase_one_negates_rows_and_adds_artificial_columns() {
    let mut t = tableaus();
    assert_eq!(0, count_negative_rows(&t[0]));
    assert_eq!(2, count_negative_rows(&t[3]));
    let saved = prepare_phase_one(&mut t[3], 2, 6);
    assert_eq!(
        vec![2.0, 3.0, 1.0, 0.0, 0.0, 0.0, 0.0],
        saved.iter().map(|x| x.0).collect::<Vec<f64>>()
    );
    assert_eq!(
        vec![
            vec![2.0, 0.0, 0.0, 0.0, -1.0, -1.0, 0.0, 0.0, 20.0],
            vec![1.0, 1.0, 1.0, 1.0, 0.0, 0.0, 0.0, 0.0, 40.0],
            vec![2.0, 1.0, -1.0, 0.0, -1.0, 0.0, 1.0, 0.0, 10.0],
            vec![0.0, -1.0, 1.0, 0.0, 0.0, -1.0, 0.0, 1.0, 10.0],
        ],
        plain(&t[3]).iter().map(|r| r.iter().map(|x| x + 0.0).collect()).collect::<Vec<Vec<f64>>>()
    );
}

#[test]
fn phase_two_restores_objective_and_drops_artificial_columns() {
    // column 0 is basic in row 1, with the coefficient 2 in the objective set aside
    let mut t = rows(&[
        &[0.0, 0.0, 0.0, 0.0, 0.0],
        &[1.0, 2.0, 0.0, 7.0, 3.0],
        &[0.0, 1.0, 1.0, 9.0, 4.0],
    ]);
    let objective = vec![F(2.0), F(1.0), F(0.0), F(0.0)];
    prepare_phase_two(&mut t, objective, 1);
    assert_eq!(
        vec![
            vec![0.0, -3.0, 0.0, -6.0],
            vec![1.0, 2.0, 0.0, 3.0],
            vec![0.0, 1.0, 1.0, 4.0],
        ],
        plain(&t)
    );
}

#[test]
fn infeasible_where_phase_one_keeps_a_positive_value() {
    // x1 <= 1 and x1 >= 2
    let mut t = rows(&[
        &[1.0, 0.0, 0.0, 0.0],
        &[1.0, 1.0, 0.0, 1.0],
        &[-1.0, 0.0, 1.0, -2.0],
    ]);
    assert_eq!(Err(SolveError::Infeasible), solve(&mut t, None));
}

#[test]
fn solve_with_a_count_reads_that_many_columns() {
    let mut t = tableaus();
    let mut solution = HashMap::new();
    solution.insert(0, F(20.0));
    assert_eq!(
        Ok((Option::Some(solution), Optimum::Finite(F(94.0)))),
        solve(&mut t[1], Some(1))
    );
}
