use crate::linear::{
    dot, lemma_dot_agree, lemma_dot_combination, lemma_dot_multiple, lemma_dot_scaled,
    lemma_dot_sign, lemma_dot_single, lemma_dot_zero_tail, nonnegative,
};
use crate::phases::{
    flipped_sum, needs_phase_one, negative_row, negative_rows, phase_one_tableau, phase_two_tableau,
    reduced, solve_outcome, substituted,
};
use crate::tableau::{
    candidate, clean_basic, entering_column, is_leaving, lemma_leaving_exists, lemma_pivot_choice,
    lemma_pivoted_shape, lemma_run_shape, objective_value, optimal, pivoted, ratio, rectangular,
    rhs_column, run, step, unbounded_in, unit_row, Step,
};
use vstd::prelude::*;

verus! {

/// The point `x`, with one entry for each column but the last, satisfies every constraint
/// row of `t` read as an equation between the row's sum at `x` and its right-hand side.
pub open spec fn solves(t: Seq<Seq<real>>, x: Seq<real>) -> bool {
    &&& x.len() == rhs_column(t)
    &&& forall|i: int|
        1 <= i < t.len() ==> dot(#[trigger] t[i], x, rhs_column(t)) == t[i][rhs_column(t)]
}

/// The objective of `t` at the point `x`: the sum of the objective row at `x`, less the
/// row's right-hand side.
pub open spec fn objective_at(t: Seq<Seq<real>>, x: Seq<real>) -> real {
    dot(t[0], x, rhs_column(t)) - t[0][rhs_column(t)]
}

/// A pivot is taken on a strictly positive entry of a constraint row.
pub proof fn lemma_step_pivot(t: Seq<Seq<real>>)
    requires
        step(t) is Pivot,
    ensures
        is_leaving(t, step(t)->row, step(t)->column),
        1 <= step(t)->row < t.len(),
        t[step(t)->row][step(t)->column] > 0real,
{
    let e = step(t)->column;
    lemma_leaving_exists(t, e);
}

/// A Gauss-Jordan step keeps every point that satisfies the constraint rows, and keeps
/// the objective at such a point.
pub proof fn lemma_pivot_keeps(t: Seq<Seq<real>>, r: int, e: int, x: Seq<real>)
    requires
        rectangular(t),
        1 <= r < t.len(),
        t[r][e] != 0real,
        solves(t, x),
    ensures
        solves(pivoted(t, r, e), x),
        objective_at(pivoted(t, r, e), x) == objective_at(t, x),
{
    let p = pivoted(t, r, e);
    let b = rhs_column(t);
    lemma_pivoted_shape(t, r, e);
    lemma_dot_scaled(p[r], t[r], t[r][e], x, b);
    assert forall|i: int| 0 <= i < t.len() && i != r implies dot(#[trigger] p[i], x, b) == dot(
        t[i],
        x,
        b,
    ) - t[i][e] * p[r][b] by {
        lemma_dot_combination(p[i], t[i], t[i][e], p[r], x, b);
    }
    assert forall|i: int| 1 <= i < p.len() implies dot(#[trigger] p[i], x, rhs_column(p))
        == p[i][rhs_column(p)] by {}
}

/// A Gauss-Jordan step brings in no point: what satisfies the constraint rows after it
/// satisfied them before.
pub proof fn lemma_pivot_back(t: Seq<Seq<real>>, r: int, e: int, x: Seq<real>)
    requires
        rectangular(t),
        1 <= r < t.len(),
        t[r][e] != 0real,
        solves(pivoted(t, r, e), x),
    ensures
        solves(t, x),
{
    let p = pivoted(t, r, e);
    let b = rhs_column(t);
    let d = t[r][e];
    lemma_pivoted_shape(t, r, e);
    assert forall|j: int| 0 <= j <= b implies t[r][j] == d * #[trigger] p[r][j] by {
        assert(d * (t[r][j] / d) == t[r][j]) by (nonlinear_arith)
            requires
                d != 0real,
        ;
    }
    lemma_dot_multiple(t[r], p[r], d, x, b);
    assert forall|i: int| 1 <= i < t.len() implies dot(#[trigger] t[i], x, b) == t[i][b] by {
        if i != r {
            assert forall|j: int| 0 <= j < b implies t[i][j] == p[i][j] - (-t[i][e]) * p[r][j] by {
                assert(t[i][j] - t[i][e] * p[r][j] - (-t[i][e]) * p[r][j] == t[i][j])
                    by (nonlinear_arith);
            }
            lemma_dot_combination(t[i], p[i], -t[i][e], p[r], x, b);
            assert(p[i][b] - (-t[i][e]) * p[r][b] == t[i][b]) by (nonlinear_arith)
                requires
                    p[i][b] == t[i][b] - t[i][e] * p[r][b],
            ;
        }
    }
}

/// A run of the optimize loop keeps every point that satisfies the constraint rows, and
/// keeps the objective at such a point.
pub proof fn lemma_run_keeps(t: Seq<Seq<real>>, fuel: nat, x: Seq<real>)
    requires
        rectangular(t),
        solves(t, x),
    ensures
        solves(run(t, fuel).tableau(), x),
        objective_at(run(t, fuel).tableau(), x) == objective_at(t, x),
    decreases fuel,
{
    match step(t) {
        Step::Pivot { row, column } => {
            if fuel > 0 {
                lemma_step_pivot(t);
                lemma_pivot_keeps(t, row, column, x);
                lemma_pivoted_shape(t, row, column);
                lemma_run_keeps(pivoted(t, row, column), (fuel - 1) as nat, x);
            }
        },
        _ => {},
    }
}

/// A run of the optimize loop brings in no point.
pub proof fn lemma_run_back(t: Seq<Seq<real>>, fuel: nat, x: Seq<real>)
    requires
        rectangular(t),
        solves(run(t, fuel).tableau(), x),
    ensures
        solves(t, x),
    decreases fuel,
{
    match step(t) {
        Step::Pivot { row, column } => {
            if fuel > 0 {
                lemma_step_pivot(t);
                lemma_pivoted_shape(t, row, column);
                lemma_run_back(pivoted(t, row, column), (fuel - 1) as nat, x);
                lemma_pivot_back(t, row, column, x);
            }
        },
        _ => {},
    }
}

/// A run that ends as optimal ends on a tableau whose objective row has no positive entry.
pub proof fn lemma_run_optimal(t: Seq<Seq<real>>, fuel: nat)
    requires
        run(t, fuel) is Optimal,
    ensures
        optimal(run(t, fuel).tableau()),
    decreases fuel,
{
    match step(t) {
        Step::Pivot { row, column } => {
            if fuel > 0 {
                lemma_run_optimal(pivoted(t, row, column), (fuel - 1) as nat);
            }
        },
        _ => {},
    }
}

/// A run that ends as unbounded ends on a tableau whose entering column has a positive
/// objective entry and no positive entry in a constraint row.
pub proof fn lemma_run_unbounded(t: Seq<Seq<real>>, fuel: nat)
    requires
        rectangular(t),
        run(t, fuel) is Unbounded,
    ensures
        ({
            let end = run(t, fuel).tableau();
            let e = entering_column(end);
            &&& 0 <= e < rhs_column(end)
            &&& end[0][e] > 0real
            &&& unbounded_in(end, e)
        }),
    decreases fuel,
{
    match step(t) {
        Step::Pivot { row, column } => {
            if fuel > 0 {
                lemma_pivoted_shape(t, row, column);
                lemma_run_unbounded(pivoted(t, row, column), (fuel - 1) as nat);
            }
        },
        Step::Unbounded => {
            lemma_pivot_choice(t);
        },
        _ => {},
    }
}

/// On a tableau whose objective row has no positive entry, the objective at a point that
/// is zero or more in every place and satisfies the constraint rows is at most the value
/// read off the tableau.
pub proof fn lemma_optimal_bound(t: Seq<Seq<real>>, x: Seq<real>)
    requires
        optimal(t),
        solves(t, x),
        nonnegative(x),
    ensures
        objective_at(t, x) <= objective_value(t),
{
    lemma_dot_sign(t[0], x, rhs_column(t));
}

/// Every constraint row has a right-hand side that is zero or more.
pub open spec fn rhs_nonnegative(t: Seq<Seq<real>>) -> bool {
    forall|i: int| 1 <= i < t.len() ==> (#[trigger] t[i])[rhs_column(t)] >= 0real
}

/// A pivot on the leaving row of the ratio test keeps every right-hand side zero or more.
pub proof fn lemma_pivot_rhs(t: Seq<Seq<real>>, r: int, e: int)
    requires
        rectangular(t),
        rhs_nonnegative(t),
        is_leaving(t, r, e),
    ensures
        rhs_nonnegative(pivoted(t, r, e)),
{
    let p = pivoted(t, r, e);
    let b = rhs_column(t);
    lemma_pivoted_shape(t, r, e);
    let d = t[r][e];
    let q = t[r][b] / d;
    assert(q >= 0real) by (nonlinear_arith)
        requires
            q == t[r][b] / d,
            t[r][b] >= 0real,
            d > 0real,
    ;
    assert forall|i: int| 1 <= i < p.len() implies (#[trigger] p[i])[rhs_column(p)] >= 0real by {
        if i != r {
            let a = t[i][e];
            if a > 0real {
                assert(candidate(t, i, e));
                assert(t[i][b] - a * q >= 0real) by (nonlinear_arith)
                    requires
                        q < t[i][b] / a,
                        a > 0real,
                ;
            } else {
                assert(t[i][b] - a * q >= 0real) by (nonlinear_arith)
                    requires
                        a <= 0real,
                        q >= 0real,
                        t[i][b] >= 0real,
                ;
            }
        }
    }
}

/// A run of the optimize loop keeps every right-hand side zero or more.
pub proof fn lemma_run_rhs(t: Seq<Seq<real>>, fuel: nat)
    requires
        rectangular(t),
        rhs_nonnegative(t),
    ensures
        rhs_nonnegative(run(t, fuel).tableau()),
    decreases fuel,
{
    match step(t) {
        Step::Pivot { row, column } => {
            if fuel > 0 {
                lemma_step_pivot(t);
                lemma_pivot_rhs(t, row, column);
                lemma_pivoted_shape(t, row, column);
                lemma_run_rhs(pivoted(t, row, column), (fuel - 1) as nat);
            }
        },
        _ => {},
    }
}

/// The point `x` with `n` zeros behind it.
pub open spec fn with_zeros(x: Seq<real>, n: int) -> Seq<real> {
    Seq::new(
        (x.len() + n) as nat,
        |j: int|
            if j < x.len() {
                x[j]
            } else {
                0real
            },
    )
}

/// The phase-one tableau has the rows of the tableau it is made from, and one column more
/// for every row with a negative right-hand side.
pub proof fn lemma_phase_one_shape(t: Seq<Seq<real>>)
    requires
        rectangular(t),
    ensures
        rectangular(phase_one_tableau(t)),
        phase_one_tableau(t).len() == t.len(),
        phase_one_tableau(t)[0].len() == t[0].len() + negative_rows(t, t.len() as int),
{
    let first = phase_one_tableau(t);
    assert forall|i: int| 0 <= i < first.len() implies (#[trigger] first[i]).len()
        == first[0].len() by {}
}

/// A point that satisfies the constraint rows of `t`, with a zero for every artificial
/// column, satisfies the constraint rows of the phase-one tableau.
pub proof fn lemma_phase_one_point(t: Seq<Seq<real>>, x: Seq<real>)
    requires
        rectangular(t),
        solves(t, x),
    ensures
        rectangular(phase_one_tableau(t)),
        phase_one_tableau(t).len() == t.len(),
        phase_one_tableau(t)[0].len() == t[0].len() + negative_rows(t, t.len() as int),
        solves(phase_one_tableau(t), with_zeros(x, negative_rows(t, t.len() as int) as int)),
{
    let n = negative_rows(t, t.len() as int) as int;
    let first = phase_one_tableau(t);
    let point = with_zeros(x, n);
    let b = rhs_column(t);
    assert(rectangular(first)) by {
        assert forall|i: int| 0 <= i < first.len() implies (#[trigger] first[i]).len()
            == first[0].len() by {}
    }
    assert forall|i: int| 1 <= i < first.len() implies dot(#[trigger] first[i], point, b + n)
        == first[i][b + n] by {
        lemma_dot_zero_tail(first[i], point, b, b + n);
        if negative_row(t, i) {
            assert forall|j: int| 0 <= j < b implies first[i][j] == (-1real) * t[i][j] by {}
            lemma_dot_multiple(first[i], t[i], -1real, point, b);
            lemma_dot_agree(t[i], point, t[i], x, b);
        } else {
            lemma_dot_agree(first[i], point, t[i], x, b);
        }
    }
}

/// What satisfies the constraint rows of the phase-one tableau with a zero for every
/// artificial column satisfies the constraint rows of the tableau it was made from.
pub proof fn lemma_phase_one_back(t: Seq<Seq<real>>, x: Seq<real>)
    requires
        rectangular(t),
        x.len() == rhs_column(t),
        solves(phase_one_tableau(t), with_zeros(x, negative_rows(t, t.len() as int) as int)),
    ensures
        solves(t, x),
{
    let n = negative_rows(t, t.len() as int) as int;
    let first = phase_one_tableau(t);
    let point = with_zeros(x, n);
    let b = rhs_column(t);
    assert forall|i: int| 1 <= i < t.len() implies dot(#[trigger] t[i], x, b) == t[i][b] by {
        lemma_dot_zero_tail(first[i], point, b, b + n);
        if negative_row(t, i) {
            assert forall|j: int| 0 <= j < b implies first[i][j] == (-1real) * t[i][j] by {}
            lemma_dot_multiple(first[i], t[i], -1real, point, b);
            lemma_dot_agree(t[i], point, t[i], x, b);
        } else {
            lemma_dot_agree(first[i], point, t[i], x, b);
        }
    }
}

/// The phase-one tableau has no negative right-hand side.
pub proof fn lemma_phase_one_rhs(t: Seq<Seq<real>>)
    requires
        rectangular(t),
    ensures
        rhs_nonnegative(phase_one_tableau(t)),
{
    let first = phase_one_tableau(t);
    assert forall|i: int| 1 <= i < first.len() implies (#[trigger] first[i])[rhs_column(first)]
        >= 0real by {}
}

/// The count of the rows with a negative right-hand side does not fall from row to row,
/// and grows past such a row.
pub proof fn lemma_negative_rows_grow(t: Seq<Seq<real>>, i: int, k: int)
    requires
        1 <= i <= k,
    ensures
        negative_rows(t, i) <= negative_rows(t, k),
        i < k && negative_row(t, i) ==> negative_rows(t, i) < negative_rows(t, k),
    decreases k,
{
    if i < k {
        lemma_negative_rows_grow(t, i, k - 1);
    }
}

/// A column in which every row with a negative right-hand side has a zero has the sum
/// zero over those rows.
pub proof fn lemma_flipped_zero(t: Seq<Seq<real>>, j: int, i: int)
    requires
        forall|k: int| 1 <= k < i && negative_row(t, k) ==> (#[trigger] t[k])[j] == 0real,
    ensures
        flipped_sum(t, j, i) == 0real,
    decreases i,
{
    if i > 1 {
        lemma_flipped_zero(t, j, i - 1);
    }
}

/// The objective row of the phase-one tableau made from `t`, summed over the rows before
/// row `i` only.
pub open spec fn partial_objective(t: Seq<Seq<real>>, i: int) -> Seq<real> {
    Seq::new(rhs_column(t) as nat, |j: int| flipped_sum(t, j, i))
}

/// At a point that is zero or more in every place and satisfies the constraint rows of
/// the phase-one tableau, the objective row summed over the rows before row `i` gives at
/// most the sum of their right-hand sides, and just that sum where the point has a zero
/// for every artificial column.
pub proof fn lemma_partial_objective(t: Seq<Seq<real>>, y: Seq<real>, i: int)
    requires
        rectangular(t),
        1 <= i <= t.len(),
        nonnegative(y),
        solves(phase_one_tableau(t), y),
    ensures
        dot(partial_objective(t, i), y, rhs_column(t)) <= flipped_sum(t, rhs_column(t), i),
        (forall|j: int| rhs_column(t) <= j < y.len() ==> y[j] == 0real) ==> dot(
            partial_objective(t, i),
            y,
            rhs_column(t),
        ) == flipped_sum(t, rhs_column(t), i),
    decreases i,
{
    let b = rhs_column(t);
    let first = phase_one_tableau(t);
    let count = negative_rows(t, t.len() as int) as int;
    let now = partial_objective(t, i);
    if i == 1 {
        lemma_dot_zero_tail(now, y, 0, b);
    } else {
        let k = i - 1;
        let before = partial_objective(t, k);
        lemma_partial_objective(t, y, k);
        if negative_row(t, k) {
            assert forall|j: int| 0 <= j < b implies now[j] == before[j] - 1real * t[k][j] by {}
            lemma_dot_combination(now, before, 1real, t[k], y, b);
            let art = b + negative_rows(t, k);
            lemma_negative_rows_grow(t, k, t.len() as int);
            lemma_dot_single(first[k], y, b, b + count, art);
            assert forall|j: int| 0 <= j < b implies first[k][j] == (-1real) * t[k][j] by {}
            lemma_dot_multiple(first[k], t[k], -1real, y, b);
        } else {
            lemma_dot_agree(now, y, before, y, b);
        }
    }
}

/// At a point that is zero or more in every place and satisfies the constraint rows of
/// the phase-one tableau, the objective of that tableau is zero or less, and is zero
/// where the point has a zero for every artificial column.
pub proof fn lemma_phase_one_objective(t: Seq<Seq<real>>, y: Seq<real>)
    requires
        rectangular(t),
        nonnegative(y),
        solves(phase_one_tableau(t), y),
    ensures
        objective_at(phase_one_tableau(t), y) <= 0real,
        (forall|j: int| rhs_column(t) <= j < y.len() ==> y[j] == 0real) ==> objective_at(
            phase_one_tableau(t),
            y,
        ) == 0real,
{
    let b = rhs_column(t);
    let first = phase_one_tableau(t);
    let count = negative_rows(t, t.len() as int) as int;
    lemma_partial_objective(t, y, t.len() as int);
    lemma_dot_zero_tail(first[0], y, b, b + count);
    lemma_dot_agree(first[0], y, partial_objective(t, t.len() as int), y, b);
}

/// Substituting basic columns out of an objective row keeps the sum of what the row gives
/// at a point and the constant in its last place, for a point that satisfies the
/// constraint rows with a zero for every artificial column.
pub proof fn lemma_reduced_keeps(o: Seq<real>, t: Seq<Seq<real>>, v: int, x: Seq<real>)
    requires
        rectangular(t),
        o.len() >= 1,
        o.len() <= t[0].len(),
        x.len() == o.len() - 1,
        0 <= v <= o.len() - 1,
        solves(t, with_zeros(x, t[0].len() - o.len())),
    ensures
        reduced(o, t, v).len() == o.len(),
        dot(reduced(o, t, v), x, o.len() - 1) + reduced(o, t, v)[o.len() - 1] == dot(
            o,
            x,
            o.len() - 1,
        ) + o[o.len() - 1],
    decreases v,
{
    if v > 0 {
        lemma_reduced_keeps(o, t, v - 1, x);
        let p = reduced(o, t, v - 1);
        let b = o.len() - 1;
        if p[v - 1] != 0real && clean_basic(t, v - 1) {
            let r = unit_row(t, v - 1);
            let row = t[r];
            let c = p[v - 1];
            let s = substituted(p, row, v - 1);
            let point = with_zeros(x, t[0].len() - o.len());
            lemma_dot_zero_tail(row, point, b, rhs_column(t));
            lemma_dot_agree(row, point, row, x, b);
            assert forall|j: int| 0 <= j < b implies s[j] == p[j] - c * row[j] by {
                if j == v - 1 {
                } else {
                    assert(p[j] + c * (-row[j]) == p[j] - c * row[j]) by (nonlinear_arith);
                }
            }
            lemma_dot_combination(s, p, c, row, x, b);
        }
    }
}

/// The phase-two tableau has the rows of the phase-one tableau and the columns of the
/// objective row that was set aside. Its right-hand sides are those of the phase-one
/// tableau.
pub proof fn lemma_phase_two_shape(t: Seq<Seq<real>>, o: Seq<real>)
    requires
        rectangular(t),
        o.len() >= 1,
    ensures
        rectangular(phase_two_tableau(t, o)),
        phase_two_tableau(t, o).len() == t.len(),
        phase_two_tableau(t, o)[0].len() == o.len(),
        rhs_nonnegative(t) ==> rhs_nonnegative(phase_two_tableau(t, o)),
{
    let second = phase_two_tableau(t, o);
    assert forall|i: int| 0 <= i < second.len() implies (#[trigger] second[i]).len()
        == second[0].len() by {}
    if rhs_nonnegative(t) {
        assert forall|i: int| 1 <= i < second.len() implies (#[trigger] second[i])[rhs_column(
            second,
        )] >= 0real by {}
    }
}

/// A point that satisfies the constraint rows of a phase-one tableau with a zero for every
/// artificial column satisfies the constraint rows of the phase-two tableau, and the
/// objective of that tableau at it is what the objective row that was set aside gives at
/// it, plus the constant in the last place of that row.
pub proof fn lemma_phase_two_point(t: Seq<Seq<real>>, o: Seq<real>, x: Seq<real>)
    requires
        rectangular(t),
        o.len() >= 1,
        o.len() <= t[0].len(),
        x.len() == o.len() - 1,
        solves(t, with_zeros(x, t[0].len() - o.len())),
    ensures
        rectangular(phase_two_tableau(t, o)),
        solves(phase_two_tableau(t, o), x),
        objective_at(phase_two_tableau(t, o), x) == dot(o, x, o.len() - 1) + o[o.len() - 1],
{
    let second = phase_two_tableau(t, o);
    let b = o.len() - 1;
    let point = with_zeros(x, t[0].len() - o.len());
    assert(rectangular(second)) by {
        assert forall|i: int| 0 <= i < second.len() implies (#[trigger] second[i]).len()
            == second[0].len() by {}
    }
    assert forall|i: int| 1 <= i < second.len() implies dot(#[trigger] second[i], x, b)
        == second[i][b] by {
        lemma_dot_zero_tail(t[i], point, b, rhs_column(t));
        lemma_dot_agree(second[i], x, t[i], point, b);
    }
    lemma_reduced_keeps(o, t, b, x);
    lemma_dot_agree(second[0], x, reduced(o, t, b), x, b);
}

/// What satisfies the constraint rows of the phase-two tableau satisfies, with a zero for
/// every artificial column, the constraint rows of the phase-one tableau it was made from.
pub proof fn lemma_phase_two_back(t: Seq<Seq<real>>, o: Seq<real>, x: Seq<real>)
    requires
        rectangular(t),
        o.len() >= 1,
        o.len() <= t[0].len(),
        solves(phase_two_tableau(t, o), x),
    ensures
        solves(t, with_zeros(x, t[0].len() - o.len())),
{
    let second = phase_two_tableau(t, o);
    let b = o.len() - 1;
    let point = with_zeros(x, t[0].len() - o.len());
    assert forall|i: int| 1 <= i < t.len() implies dot(#[trigger] t[i], point, rhs_column(t))
        == t[i][rhs_column(t)] by {
        lemma_dot_zero_tail(t[i], point, b, rhs_column(t));
        lemma_dot_agree(second[i], x, t[i], point, b);
    }
}

/// A solve that ends as optimal keeps every point that satisfies the constraint rows, and
/// keeps the objective at such a point. For a tableau that needs phase one, the objective
/// row must have a zero as its right-hand side.
pub proof fn lemma_solve_keeps(t: Seq<Seq<real>>, count: Option<usize>, fuel: nat, x: Seq<real>)
    requires
        rectangular(t),
        solves(t, x),
        needs_phase_one(t) ==> t[0][rhs_column(t)] == 0real,
        solve_outcome(t, count, fuel).0 is Optimal,
    ensures
        solves(solve_outcome(t, count, fuel).1, x),
        objective_at(solve_outcome(t, count, fuel).1, x) == objective_at(t, x),
{
    if needs_phase_one(t) {
        let n = negative_rows(t, t.len() as int) as int;
        let first = phase_one_tableau(t);
        let point = with_zeros(x, n);
        lemma_phase_one_point(t, x);
        lemma_run_keeps(first, fuel, point);
        lemma_run_shape(first, fuel);
        let end = run(first, fuel).tableau();
        let second = phase_two_tableau(end, t[0]);
        lemma_phase_two_point(end, t[0], x);
        lemma_run_keeps(second, fuel, x);
    } else {
        lemma_run_keeps(t, fuel, x);
    }
}

/// A solve that ends as optimal brings in no point: what satisfies the constraint rows of
/// the tableau at the end satisfied those of the tableau at the start, and has there the
/// objective that it has at the end. For a tableau that needs phase one, the objective row
/// must have a zero as its right-hand side.
pub proof fn lemma_solve_back(t: Seq<Seq<real>>, count: Option<usize>, fuel: nat, x: Seq<real>)
    requires
        rectangular(t),
        needs_phase_one(t) ==> t[0][rhs_column(t)] == 0real,
        solve_outcome(t, count, fuel).0 is Optimal,
        solves(solve_outcome(t, count, fuel).1, x),
    ensures
        solves(t, x),
        objective_at(t, x) == objective_at(solve_outcome(t, count, fuel).1, x),
{
    if needs_phase_one(t) {
        let n = negative_rows(t, t.len() as int) as int;
        let first = phase_one_tableau(t);
        lemma_phase_one_shape(t);
        lemma_run_shape(first, fuel);
        let end = run(first, fuel).tableau();
        let second = phase_two_tableau(end, t[0]);
        lemma_phase_two_shape(end, t[0]);
        lemma_run_shape(second, fuel);
        lemma_run_back(second, fuel, x);
        lemma_phase_two_back(end, t[0], x);
        let point = with_zeros(x, n);
        lemma_run_back(first, fuel, point);
        lemma_phase_one_back(t, x);
        lemma_phase_two_point(end, t[0], x);
        lemma_run_keeps(second, fuel, x);
    } else {
        lemma_run_back(t, fuel, x);
        lemma_run_keeps(t, fuel, x);
    }
}

/// What a solve that ends as optimal ends on: a tableau of the shape it started with,
/// without a negative right-hand side and without a positive entry in the objective row,
/// off which the reported value is read.
pub proof fn lemma_solve_end(t: Seq<Seq<real>>, count: Option<usize>, fuel: nat)
    requires
        rectangular(t),
        solve_outcome(t, count, fuel).0 is Optimal,
    ensures
        rectangular(solve_outcome(t, count, fuel).1),
        solve_outcome(t, count, fuel).1.len() == t.len(),
        solve_outcome(t, count, fuel).1[0].len() == t[0].len(),
        rhs_nonnegative(solve_outcome(t, count, fuel).1),
        optimal(solve_outcome(t, count, fuel).1),
        solve_outcome(t, count, fuel).0->value == objective_value(solve_outcome(t, count, fuel).1),
{
    if needs_phase_one(t) {
        let first = phase_one_tableau(t);
        lemma_phase_one_shape(t);
        lemma_phase_one_rhs(t);
        lemma_run_shape(first, fuel);
        lemma_run_rhs(first, fuel);
        let end = run(first, fuel).tableau();
        let second = phase_two_tableau(end, t[0]);
        lemma_phase_two_shape(end, t[0]);
        lemma_run_shape(second, fuel);
        lemma_run_rhs(second, fuel);
        lemma_run_optimal(second, fuel);
    } else {
        assert(rhs_nonnegative(t)) by {
            assert forall|i: int| 1 <= i < t.len() implies (#[trigger] t[i])[rhs_column(t)]
                >= 0real by {
                assert(!negative_row(t, i));
            }
        }
        lemma_run_shape(t, fuel);
        lemma_run_rhs(t, fuel);
        lemma_run_optimal(t, fuel);
    }
}

} // verus!
