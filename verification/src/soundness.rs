use crate::basis::{
    based, basic_in, basic_solution, canonical, completes, has_basic, lemma_basic_solution,
    lemma_canonical_completes, lemma_ray, lemma_run_based, ray_point, read_off,
};
use crate::linear::{dot, lemma_dot_agree, lemma_dot_single, lemma_dot_zero_tail, nonnegative};
use crate::phases::{
    needs_phase_one, negative_row, negative_rows, phase_one_tableau, phase_two_tableau,
    solve_outcome,
};
use crate::points::{
    lemma_flipped_zero, lemma_negative_rows_grow, lemma_optimal_bound, lemma_phase_one_objective,
    lemma_phase_one_point, lemma_phase_one_rhs, lemma_phase_one_shape, lemma_phase_two_shape,
    lemma_run_back, lemma_run_keeps, lemma_run_optimal, lemma_run_rhs, lemma_run_unbounded,
    lemma_solve_back, lemma_solve_end, lemma_solve_keeps, objective_at, rhs_nonnegative, solves,
    with_zeros,
};
use crate::tableau::{
    built, entering_column, lemma_run_shape, optimal, rectangular, rhs_column, run, Run,
};
use vstd::prelude::*;

verus! {

/// Every standard row holds one coefficient for each of the `n` variables and then a
/// right-hand side.
pub open spec fn well_shaped(rows: Seq<Seq<real>>, n: int) -> bool {
    forall|i: int| 0 <= i < rows.len() ==> (#[trigger] rows[i]).len() == n + 1
}

/// The point `x` is feasible: every entry is zero or more, and at `x` the sum of every
/// standard row is at most the row's right-hand side.
pub open spec fn feasible(rows: Seq<Seq<real>>, x: Seq<real>) -> bool {
    &&& nonnegative(x)
    &&& forall|i: int|
        0 <= i < rows.len() ==> dot(#[trigger] rows[i], x, x.len() as int) <= rows[i][x.len() as int]
}

/// The point `x` with the slack of every standard row behind it: what the row's sum at `x`
/// leaves of its right-hand side.
pub open spec fn with_slack(rows: Seq<Seq<real>>, x: Seq<real>) -> Seq<real> {
    Seq::new(
        x.len() + rows.len(),
        |j: int|
            if j < x.len() {
                x[j]
            } else {
                rows[j - x.len()][x.len() as int] - dot(rows[j - x.len()], x, x.len() as int)
            },
    )
}

/// The initial tableau of a linear program has a row for the objective and one for every
/// standard row, all of one width, and a zero as the right-hand side of the objective row.
pub proof fn lemma_built_shape(costs: Seq<real>, rows: Seq<Seq<real>>)
    ensures
        rectangular(built(costs, rows)),
        built(costs, rows).len() == rows.len() + 1,
        built(costs, rows)[0].len() == costs.len() + rows.len() + 1,
        built(costs, rows)[0][rhs_column(built(costs, rows))] == 0real,
{
    let t = built(costs, rows);
    assert forall|i: int| 0 <= i < t.len() implies (#[trigger] t[i]).len() == t[0].len() by {}
}

/// A feasible point, with its slack, satisfies the constraint rows of the initial tableau,
/// and the objective of the tableau at it is the objective of the program.
pub proof fn lemma_built_point(costs: Seq<real>, rows: Seq<Seq<real>>, x: Seq<real>)
    requires
        well_shaped(rows, costs.len() as int),
        x.len() == costs.len(),
        feasible(rows, x),
    ensures
        rectangular(built(costs, rows)),
        built(costs, rows)[0][rhs_column(built(costs, rows))] == 0real,
        solves(built(costs, rows), with_slack(rows, x)),
        nonnegative(with_slack(rows, x)),
        objective_at(built(costs, rows), with_slack(rows, x)) == dot(costs, x, x.len() as int),
{
    let t = built(costs, rows);
    let point = with_slack(rows, x);
    let n = costs.len() as int;
    let m = rows.len() as int;
    lemma_built_shape(costs, rows);
    assert forall|i: int| 1 <= i < t.len() implies dot(#[trigger] t[i], point, n + m) == t[i][n
        + m] by {
        let row = rows[i - 1];
        lemma_dot_single(t[i], point, n, n + m, n + i - 1);
        lemma_dot_agree(t[i], point, row, x, n);
    }
    assert forall|j: int| 0 <= j < point.len() implies (#[trigger] point[j]) >= 0real by {}
    lemma_dot_zero_tail(t[0], point, n, n + m);
    lemma_dot_agree(t[0], point, costs, x, n);
}

/// What a point that satisfies the constraint rows of the initial tableau of a linear
/// program, and is zero or more in every place, says of its first entries, one for each
/// variable: they are a feasible point, and the objective of the tableau at the point is
/// the objective of the program at them.
pub proof fn lemma_built_back(costs: Seq<real>, rows: Seq<Seq<real>>, point: Seq<real>)
    requires
        well_shaped(rows, costs.len() as int),
        solves(built(costs, rows), point),
        nonnegative(point),
    ensures
        feasible(rows, point.take(costs.len() as int)),
        objective_at(built(costs, rows), point) == dot(
            costs,
            point.take(costs.len() as int),
            costs.len() as int,
        ),
{
    let t = built(costs, rows);
    let n = costs.len() as int;
    let m = rows.len() as int;
    let x = point.take(n);
    assert forall|j: int| 0 <= j < x.len() implies (#[trigger] x[j]) >= 0real by {}
    assert forall|i: int| 0 <= i < rows.len() implies dot(#[trigger] rows[i], x, n) <= rows[i][n] by {
        let row = rows[i];
        lemma_dot_single(t[i + 1], point, n, n + m, n + i);
        lemma_dot_agree(t[i + 1], point, row, x, n);
    }
    lemma_dot_zero_tail(t[0], point, n, n + m);
    lemma_dot_agree(t[0], point, costs, x, n);
}

/// In the initial tableau of a linear program, the slack column of every row is a basic
/// column.
pub proof fn lemma_built_based(costs: Seq<real>, rows: Seq<Seq<real>>)
    ensures
        based(built(costs, rows)),
{
    let t = built(costs, rows);
    let n = costs.len() as int;
    assert forall|r: int| 1 <= r < t.len() implies #[trigger] has_basic(t, r) by {
        assert(basic_in(t, n + r - 1, r));
    }
}

/// In the phase-one tableau of the initial tableau of a linear program, every row has a
/// basic column: its artificial column where its right-hand side was negative, and its
/// slack column where it was not.
pub proof fn lemma_phase_one_based(costs: Seq<real>, rows: Seq<Seq<real>>)
    ensures
        based(phase_one_tableau(built(costs, rows))),
{
    let t = built(costs, rows);
    let first = phase_one_tableau(t);
    let n = costs.len() as int;
    let b = rhs_column(t);
    assert forall|r: int| 1 <= r < first.len() implies #[trigger] has_basic(first, r) by {
        if negative_row(t, r) {
            let j = b + negative_rows(t, r);
            lemma_negative_rows_grow(t, r, t.len() as int);
            assert forall|i: int| 1 <= i < first.len() && i != r implies (#[trigger] first[i])[j]
                == 0real by {
                if negative_row(t, i) {
                    if i < r {
                        lemma_negative_rows_grow(t, i, r);
                    } else {
                        lemma_negative_rows_grow(t, r, i);
                    }
                }
            }
            assert(basic_in(first, j, r));
        } else {
            let j = n + r - 1;
            assert forall|k: int| 1 <= k < t.len() && negative_row(t, k) implies (#[trigger] t[k])[j]
                == 0real by {}
            lemma_flipped_zero(t, j, t.len() as int);
            assert forall|i: int| 1 <= i < first.len() && i != r implies (#[trigger] first[i])[j]
                == 0real by {}
            assert(basic_in(first, j, r));
        }
    }
}

/// Where a solve ends as optimal, no point that satisfies the constraint rows of the
/// tableau and is zero or more in every place has a larger objective than the value that
/// the solve reports. For a tableau that needs phase one, the objective row must have a
/// zero as its right-hand side.
pub proof fn lemma_solve_bound(t: Seq<Seq<real>>, count: Option<usize>, fuel: nat, x: Seq<real>)
    requires
        rectangular(t),
        solves(t, x),
        nonnegative(x),
        needs_phase_one(t) ==> t[0][rhs_column(t)] == 0real,
        solve_outcome(t, count, fuel).0 is Optimal,
    ensures
        objective_at(t, x) <= solve_outcome(t, count, fuel).0->value,
{
    lemma_solve_keeps(t, count, fuel, x);
    lemma_solve_end(t, count, fuel);
    lemma_optimal_bound(solve_outcome(t, count, fuel).1, x);
}

/// Where the solve of the initial tableau of a linear program ends as
/// optimal, no feasible point has a larger objective than the reported value.
pub proof fn lemma_no_feasible_point_is_better(
    costs: Seq<real>,
    rows: Seq<Seq<real>>,
    fuel: nat,
    x: Seq<real>,
)
    requires
        well_shaped(rows, costs.len() as int),
        x.len() == costs.len(),
        feasible(rows, x),
        solve_outcome(built(costs, rows), None, fuel).0 is Optimal,
    ensures
        dot(costs, x, x.len() as int) <= solve_outcome(built(costs, rows), None, fuel).0->value,
{
    lemma_built_point(costs, rows, x);
    lemma_solve_bound(built(costs, rows), None, fuel, with_slack(rows, x));
}

/// Where the solve of the initial tableau of a linear program
/// ends as optimal, the values read off the final tableau for the variables are a
/// feasible point of the program at which the objective is the reported value, if and
/// only if values that are zero or more for the other columns complete them to a point
/// that satisfies the constraint rows of the final tableau and at which its objective row
/// gives zero.
pub proof fn lemma_round_trip(costs: Seq<real>, rows: Seq<Seq<real>>, fuel: nat)
    requires
        well_shaped(rows, costs.len() as int),
        solve_outcome(built(costs, rows), None, fuel).0 is Optimal,
    ensures
        ({
            let solved = solve_outcome(built(costs, rows), None, fuel);
            let x = read_off(solved.1, costs.len() as int);
            (feasible(rows, x) && dot(costs, x, costs.len() as int) == solved.0->value) <==> (
            exists|s: Seq<real>| completes(solved.1, x, s))
        }),
{
    let t = built(costs, rows);
    let solved = solve_outcome(t, None, fuel);
    let end = solved.1;
    let n = costs.len() as int;
    let x = read_off(end, n);
    lemma_built_shape(costs, rows);
    lemma_solve_end(t, None, fuel);
    if feasible(rows, x) && dot(costs, x, n) == solved.0->value {
        let point = with_slack(rows, x);
        lemma_built_point(costs, rows, x);
        lemma_solve_keeps(t, None, fuel, point);
        assert(x + point.skip(n) =~= point);
        assert forall|j: int| 0 <= j < point.skip(n).len() implies (#[trigger] point.skip(n)[j])
            >= 0real by {}
        assert(completes(end, x, point.skip(n)));
    }
    if exists|s: Seq<real>| completes(end, x, s) {
        let s = choose|s: Seq<real>| completes(end, x, s);
        let point = x + s;
        lemma_solve_back(t, None, fuel, point);
        assert forall|j: int| 0 <= j < point.len() implies (#[trigger] point[j]) >= 0real by {}
        lemma_built_back(costs, rows, point);
        assert(point.take(n) =~= x);
    }
}

/// Where the solve of the initial
/// tableau of a linear program ends as optimal on a tableau in canonical form, the values
/// read off that tableau for the variables are a feasible point of the program, and the
/// objective of the program at that point is the reported value.
pub proof fn lemma_reported_point_is_feasible(costs: Seq<real>, rows: Seq<Seq<real>>, fuel: nat)
    requires
        well_shaped(rows, costs.len() as int),
        solve_outcome(built(costs, rows), None, fuel).0 is Optimal,
        canonical(solve_outcome(built(costs, rows), None, fuel).1),
    ensures
        ({
            let solved = solve_outcome(built(costs, rows), None, fuel);
            let x = read_off(solved.1, costs.len() as int);
            &&& feasible(rows, x)
            &&& dot(costs, x, costs.len() as int) == solved.0->value
        }),
{
    let t = built(costs, rows);
    let end = solve_outcome(t, None, fuel).1;
    let n = costs.len() as int;
    lemma_built_shape(costs, rows);
    lemma_solve_end(t, None, fuel);
    lemma_canonical_completes(end, n);
    lemma_round_trip(costs, rows, fuel);
}

/// The tableau on which the last run of the optimize loop of a solve starts: the tableau
/// itself where no right-hand side is negative, else the phase-two tableau.
pub open spec fn last_start(t: Seq<Seq<real>>, fuel: nat) -> Seq<Seq<real>> {
    if needs_phase_one(t) {
        phase_two_tableau(run(phase_one_tableau(t), fuel).tableau(), t[0])
    } else {
        t
    }
}

/// Where the solve of the initial tableau of a linear program ends as
/// optimal, and every row had a basic column when the last run of the optimize loop
/// started, a feasible point of the program has the reported value as its objective.
pub proof fn lemma_optimum_is_attained(costs: Seq<real>, rows: Seq<Seq<real>>, fuel: nat) -> (x:
    Seq<real>)
    requires
        well_shaped(rows, costs.len() as int),
        solve_outcome(built(costs, rows), None, fuel).0 is Optimal,
        based(last_start(built(costs, rows), fuel)),
    ensures
        x.len() == costs.len(),
        feasible(rows, x),
        dot(costs, x, x.len() as int) == solve_outcome(built(costs, rows), None, fuel).0->value,
{
    let t = built(costs, rows);
    let end = solve_outcome(t, None, fuel).1;
    lemma_built_shape(costs, rows);
    lemma_solve_end(t, None, fuel);
    if needs_phase_one(t) {
        let first = phase_one_tableau(t);
        lemma_phase_one_shape(t);
        lemma_run_shape(first, fuel);
        lemma_phase_two_shape(run(first, fuel).tableau(), t[0]);
    }
    lemma_run_based(last_start(t, fuel), fuel);
    lemma_basic_solution(end);
    let point = basic_solution(end);
    lemma_solve_back(t, None, fuel, point);
    lemma_built_back(costs, rows, point);
    point.take(costs.len() as int)
}

/// Where no standard row of a linear program has a negative
/// right-hand side and the solve of its initial tableau ends as optimal, a feasible point
/// of the program has the reported value as its objective.
pub proof fn lemma_optimum_is_attained_directly(
    costs: Seq<real>,
    rows: Seq<Seq<real>>,
    fuel: nat,
) -> (x: Seq<real>)
    requires
        well_shaped(rows, costs.len() as int),
        !needs_phase_one(built(costs, rows)),
        solve_outcome(built(costs, rows), None, fuel).0 is Optimal,
    ensures
        x.len() == costs.len(),
        feasible(rows, x),
        dot(costs, x, x.len() as int) == solve_outcome(built(costs, rows), None, fuel).0->value,
{
    lemma_built_based(costs, rows);
    lemma_optimum_is_attained(costs, rows, fuel)
}

/// Where no standard row of a linear program has a negative right-hand
/// side and the solve of its initial tableau ends as unbounded, the program has, for
/// every bound, a feasible point with an objective beyond the bound.
pub proof fn lemma_unbounded_has_no_bound(
    costs: Seq<real>,
    rows: Seq<Seq<real>>,
    fuel: nat,
    bound: real,
) -> (x: Seq<real>)
    requires
        well_shaped(rows, costs.len() as int),
        !needs_phase_one(built(costs, rows)),
        solve_outcome(built(costs, rows), None, fuel).0 is Unbounded,
    ensures
        x.len() == costs.len(),
        feasible(rows, x),
        dot(costs, x, x.len() as int) > bound,
{
    let t = built(costs, rows);
    lemma_built_shape(costs, rows);
    assert(rhs_nonnegative(t)) by {
        assert forall|i: int| 1 <= i < t.len() implies (#[trigger] t[i])[rhs_column(t)]
            >= 0real by {
            assert(!negative_row(t, i));
        }
    }
    let end = run(t, fuel).tableau();
    lemma_run_shape(t, fuel);
    lemma_run_rhs(t, fuel);
    lemma_built_based(costs, rows);
    lemma_run_based(t, fuel);
    lemma_run_unbounded(t, fuel);
    let e = entering_column(end);
    let c = end[0][e];
    let lift = bound + end[0][rhs_column(end)];
    let theta = if lift >= 0real {
        lift / c + 1real
    } else {
        0real
    };
    assert(theta >= 0real && theta * c > lift) by (nonlinear_arith)
        requires
            c > 0real,
            theta == if lift >= 0real {
                lift / c + 1real
            } else {
                0real
            },
    ;
    lemma_ray(end, e, theta);
    let point = ray_point(end, e, theta);
    lemma_run_back(t, fuel, point);
    lemma_run_keeps(t, fuel, point);
    lemma_built_back(costs, rows, point);
    point.take(costs.len() as int)
}

/// The solve of the initial tableau of a linear program that has a
/// feasible point does not end as infeasible.
pub proof fn lemma_infeasible_has_no_point(
    costs: Seq<real>,
    rows: Seq<Seq<real>>,
    fuel: nat,
    x: Seq<real>,
)
    requires
        well_shaped(rows, costs.len() as int),
        x.len() == costs.len(),
        feasible(rows, x),
    ensures
        !(solve_outcome(built(costs, rows), None, fuel).0 is Infeasible),
{
    let t = built(costs, rows);
    if needs_phase_one(t) {
        let first = phase_one_tableau(t);
        let count = negative_rows(t, t.len() as int) as int;
        let end = run(first, fuel).tableau();
        lemma_built_point(costs, rows, x);
        lemma_phase_one_shape(t);
        lemma_phase_one_rhs(t);
        lemma_phase_one_based(costs, rows);
        lemma_run_shape(first, fuel);
        lemma_run_rhs(first, fuel);
        lemma_run_based(first, fuel);
        match run(first, fuel) {
            Run::Optimal(_) => {
                let point = with_zeros(with_slack(rows, x), count);
                lemma_phase_one_point(t, with_slack(rows, x));
                assert forall|j: int| 0 <= j < point.len() implies (#[trigger] point[j])
                    >= 0real by {}
                lemma_phase_one_objective(t, point);
                lemma_run_keeps(first, fuel, point);
                lemma_run_optimal(first, fuel);
                lemma_optimal_bound(end, point);
                let corner = basic_solution(end);
                lemma_basic_solution(end);
                lemma_run_back(first, fuel, corner);
                lemma_run_keeps(first, fuel, corner);
                lemma_phase_one_objective(t, corner);
            },
            Run::Unbounded(_) => {
                lemma_run_unbounded(first, fuel);
                let e = entering_column(end);
                let c = end[0][e];
                let level = end[0][rhs_column(end)];
                lemma_ray(end, e, 0real);
                let corner = ray_point(end, e, 0real);
                lemma_run_back(first, fuel, corner);
                lemma_run_keeps(first, fuel, corner);
                lemma_phase_one_objective(t, corner);
                let theta = level / c + 1real;
                assert(theta >= 0real && theta * c > level) by (nonlinear_arith)
                    requires
                        c > 0real,
                        level >= 0real,
                        theta == level / c + 1real,
                ;
                lemma_ray(end, e, theta);
                let far = ray_point(end, e, theta);
                lemma_run_back(first, fuel, far);
                lemma_run_keeps(first, fuel, far);
                lemma_phase_one_objective(t, far);
            },
            _ => {},
        }
    }
}

} // verus!
