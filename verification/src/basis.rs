use crate::linear::{dot, lemma_dot_single, lemma_dot_zero_tail, nonnegative};
use crate::points::{lemma_step_pivot, rhs_nonnegative, solves};
use crate::tableau::{
    clean_basic, column_value, lemma_pivot_choice, lemma_pivoted_shape, lemma_unit_row_unique,
    pivoted, rectangular, rhs_column, run, step, unbounded_in, unit_at, unit_row, Step,
};
use vstd::prelude::*;

verus! {

/// Column `j` is the basic column of row `r`: it has its one in row `r`, zeros in the
/// other constraint rows, and a zero in the objective row.
pub open spec fn basic_in(t: Seq<Seq<real>>, j: int, r: int) -> bool {
    &&& 0 <= j < rhs_column(t)
    &&& unit_at(t, j, r)
    &&& t[0][j] == 0real
}

/// Row `r` has a basic column.
pub open spec fn has_basic(t: Seq<Seq<real>>, r: int) -> bool {
    exists|j: int| basic_in(t, j, r)
}

/// Every constraint row has a basic column.
pub open spec fn based(t: Seq<Seq<real>>) -> bool {
    forall|r: int| 1 <= r < t.len() ==> #[trigger] has_basic(t, r)
}

/// A basic column of row `r`.
pub open spec fn basis(t: Seq<Seq<real>>, r: int) -> int {
    choose|j: int| basic_in(t, j, r)
}

/// Column `j` is the basic column chosen for row `r`.
pub open spec fn chosen(t: Seq<Seq<real>>, j: int, r: int) -> bool {
    1 <= r < t.len() && basis(t, r) == j
}

/// The basic solution of a tableau in which every row has a basic column: the right-hand
/// side of its row for the basic column chosen for a row, and zero for every other
/// column.
pub open spec fn basic_solution(t: Seq<Seq<real>>) -> Seq<real> {
    Seq::new(
        rhs_column(t) as nat,
        |j: int|
            if exists|r: int| chosen(t, j, r) {
                t[choose|r: int| chosen(t, j, r)][rhs_column(t)]
            } else {
                0real
            },
    )
}

/// The basic solution satisfies the constraint rows, and the objective row gives zero at
/// it.
pub proof fn lemma_basic_solution(t: Seq<Seq<real>>)
    requires
        rectangular(t),
        based(t),
    ensures
        solves(t, basic_solution(t)),
        dot(t[0], basic_solution(t), rhs_column(t)) == 0real,
        rhs_nonnegative(t) ==> nonnegative(basic_solution(t)),
{
    let b = rhs_column(t);
    let point = basic_solution(t);
    assert forall|r: int| 1 <= r < t.len() implies dot(#[trigger] t[r], point, b) == t[r][b] by {
        assert(has_basic(t, r));
        let at = basis(t, r);
        assert(chosen(t, at, r));
        let row = choose|row: int| chosen(t, at, row);
        assert(basic_in(t, basis(t, row), row)) by {
            assert(has_basic(t, row));
        }
        lemma_unit_row_unique(t, at, r, row);
        assert forall|k: int| 0 <= k < b && k != at implies t[r][k] == 0real || point[k]
            == 0real by {
            if exists|other: int| chosen(t, k, other) {
                let other = choose|other: int| chosen(t, k, other);
                assert(has_basic(t, other));
            }
        }
        lemma_dot_single(t[r], point, 0, b, at);
    }
    assert forall|k: int| 0 <= k < b implies t[0][k] == 0real || point[k] == 0real by {
        if exists|other: int| chosen(t, k, other) {
            let other = choose|other: int| chosen(t, k, other);
            assert(has_basic(t, other));
        }
    }
    lemma_dot_zero_tail(t[0], point, 0, b);
    if rhs_nonnegative(t) {
        assert forall|k: int| 0 <= k < point.len() implies (#[trigger] point[k]) >= 0real by {}
    }
}

/// A pivot on a constraint row, in a column with an objective entry that is not zero,
/// keeps a basic column for every row.
pub proof fn lemma_pivot_based(t: Seq<Seq<real>>, r: int, e: int)
    requires
        rectangular(t),
        based(t),
        1 <= r < t.len(),
        0 <= e < rhs_column(t),
        t[r][e] != 0real,
        t[0][e] != 0real,
    ensures
        based(pivoted(t, r, e)),
{
    let p = pivoted(t, r, e);
    let d = t[r][e];
    lemma_pivoted_shape(t, r, e);
    assert forall|i: int| 0 <= i < t.len() implies (#[trigger] t[i]).len() == t[0].len() by {}
    assert forall|row: int| 1 <= row < p.len() implies #[trigger] has_basic(p, row) by {
        if row == r {
            assert(d / d == 1real) by (nonlinear_arith)
                requires
                    d != 0real,
            ;
            assert forall|i: int| 0 <= i < p.len() && i != r implies (#[trigger] p[i])[e]
                == 0real by {}
            assert(basic_in(p, e, r));
        } else {
            assert(has_basic(t, row));
            let k = basis(t, row);
            assert(t[r][k] / d == 0real) by (nonlinear_arith)
                requires
                    t[r][k] == 0real,
                    d != 0real,
            ;
            assert forall|i: int| 0 <= i < p.len() implies (#[trigger] p[i])[k] == t[i][k] by {
                if i != r {
                }
            }
            assert(basic_in(p, k, row));
        }
    }
}

/// A run of the optimize loop keeps a basic column for every row.
pub proof fn lemma_run_based(t: Seq<Seq<real>>, fuel: nat)
    requires
        rectangular(t),
        based(t),
    ensures
        based(run(t, fuel).tableau()),
    decreases fuel,
{
    match step(t) {
        Step::Pivot { row, column } => {
            if fuel > 0 {
                lemma_step_pivot(t);
                lemma_pivot_choice(t);
                lemma_pivot_based(t, row, column);
                lemma_pivoted_shape(t, row, column);
                lemma_run_based(pivoted(t, row, column), (fuel - 1) as nat);
            }
        },
        _ => {},
    }
}

/// The point on the ray of column `e` at the distance `theta` from the basic solution:
/// `theta` for column `e`, and for the basic column chosen for a row the right-hand side
/// of the row less `theta` times the row's entry in column `e`.
pub open spec fn ray_point(t: Seq<Seq<real>>, e: int, theta: real) -> Seq<real> {
    Seq::new(
        rhs_column(t) as nat,
        |j: int|
            if j == e {
                theta
            } else if exists|r: int| chosen(t, j, r) {
                let r = choose|r: int| chosen(t, j, r);
                t[r][rhs_column(t)] - theta * t[r][e]
            } else {
                0real
            },
    )
}

/// Along the ray of a column that has a positive objective entry and no positive entry in
/// a constraint row, every point is zero or more in every place and satisfies the
/// constraint rows, and the objective row gives the distance times the objective entry of
/// the column.
pub proof fn lemma_ray(t: Seq<Seq<real>>, e: int, theta: real)
    requires
        rectangular(t),
        based(t),
        rhs_nonnegative(t),
        0 <= e < rhs_column(t),
        t[0][e] > 0real,
        unbounded_in(t, e),
        theta >= 0real,
    ensures
        nonnegative(ray_point(t, e, theta)),
        solves(t, ray_point(t, e, theta)),
        dot(t[0], ray_point(t, e, theta), rhs_column(t)) == theta * t[0][e],
{
    let b = rhs_column(t);
    let point = ray_point(t, e, theta);
    assert forall|k: int| 0 <= k < point.len() implies (#[trigger] point[k]) >= 0real by {
        if k != e && exists|other: int| chosen(t, k, other) {
            let other = choose|other: int| chosen(t, k, other);
            assert(t[other][b] - theta * t[other][e] >= 0real) by (nonlinear_arith)
                requires
                    t[other][b] >= 0real,
                    t[other][e] <= 0real,
                    theta >= 0real,
            ;
        }
    }
    assert forall|r: int| 1 <= r < t.len() implies dot(#[trigger] t[r], point, b) == t[r][b] by {
        assert(has_basic(t, r));
        let at = basis(t, r);
        assert(chosen(t, at, r));
        let row = choose|row: int| chosen(t, at, row);
        assert(basic_in(t, basis(t, row), row)) by {
            assert(has_basic(t, row));
        }
        lemma_unit_row_unique(t, at, r, row);
        assert forall|k: int| 0 <= k < b && k != at && k != e implies t[r][k] == 0real
            || point[k] == 0real by {
            if exists|other: int| chosen(t, k, other) {
                let other = choose|other: int| chosen(t, k, other);
                assert(has_basic(t, other));
            }
        }
        if at < e {
            lemma_dot_single(t[r], point, 0, e, at);
            lemma_dot_single(t[r], point, e, b, e);
        } else {
            lemma_dot_single(t[r], point, 0, at, e);
            lemma_dot_single(t[r], point, at, b, at);
        }
    }
    assert forall|k: int| 0 <= k < b && k != e implies t[0][k] == 0real || point[k] == 0real by {
        if exists|other: int| chosen(t, k, other) {
            let other = choose|other: int| chosen(t, k, other);
            assert(has_basic(t, other));
        }
    }
    lemma_dot_single(t[0], point, 0, b, e);
}

/// The point read off a tableau: for every column but the last, the right-hand side of
/// its row where the column is clean basic, and zero where it is not.
pub open spec fn basic_point(t: Seq<Seq<real>>) -> Seq<real> {
    Seq::new(rhs_column(t) as nat, |j: int| column_value(t, j))
}

/// The values read off the first `n` columns of a tableau.
pub open spec fn read_off(t: Seq<Seq<real>>, n: int) -> Seq<real> {
    Seq::new(n as nat, |j: int| column_value(t, j))
}

/// Column `j` is the only column with its one in row `r` and zeros in the other
/// constraint rows.
pub open spec fn sole_claim(t: Seq<Seq<real>>, r: int, j: int) -> bool {
    &&& 0 <= j < rhs_column(t)
    &&& unit_at(t, j, r)
    &&& forall|k: int| 0 <= k < rhs_column(t) && k != j ==> !unit_at(t, k, r)
}

/// The tableau is in canonical form at the point read off it: every constraint row whose
/// right-hand side is not zero has exactly one clean basic column, and every clean basic
/// column has a zero in the objective row or the value zero.
pub open spec fn canonical(t: Seq<Seq<real>>) -> bool {
    &&& forall|r: int|
        1 <= r < t.len() && (#[trigger] t[r])[rhs_column(t)] != 0real ==> exists|j: int|
            sole_claim(t, r, j)
    &&& forall|j: int|
        0 <= j < rhs_column(t) && #[trigger] clean_basic(t, j) ==> t[0][j] == 0real
            || column_value(t, j) == 0real
}

/// The point read off a tableau in canonical form satisfies the constraint rows, and the
/// objective row gives zero at it.
pub proof fn lemma_canonical_point(t: Seq<Seq<real>>)
    requires
        rectangular(t),
        canonical(t),
    ensures
        solves(t, basic_point(t)),
        dot(t[0], basic_point(t), rhs_column(t)) == 0real,
{
    let b = rhs_column(t);
    let point = basic_point(t);
    assert forall|r: int| 1 <= r < t.len() implies dot(#[trigger] t[r], point, b) == t[r][b] by {
        if t[r][b] != 0real {
            let at = choose|j: int| sole_claim(t, r, j);
            assert forall|k: int| 0 <= k < b && k != at implies t[r][k] == 0real || point[k]
                == 0real by {}
            lemma_dot_single(t[r], point, 0, b, at);
            lemma_unit_row_unique(t, at, r, unit_row(t, at));
        } else {
            assert forall|k: int| 0 <= k < b implies t[r][k] == 0real || point[k] == 0real by {}
            lemma_dot_zero_tail(t[r], point, 0, b);
        }
    }
    lemma_dot_zero_tail(t[0], point, 0, b);
}

/// The values `s` complete the point `x` to one that satisfies the constraint rows of `t`
/// and at which the objective row gives zero. They are zero or more.
pub open spec fn completes(t: Seq<Seq<real>>, x: Seq<real>, s: Seq<real>) -> bool {
    &&& x.len() + s.len() == rhs_column(t)
    &&& nonnegative(s)
    &&& solves(t, x + s)
    &&& dot(t[0], x + s, rhs_column(t)) == 0real
}

/// The values read off a tableau in canonical form for the columns behind the first `n`
/// complete the values read off for the first `n`, where no right-hand side is negative.
pub proof fn lemma_canonical_completes(t: Seq<Seq<real>>, n: int)
    requires
        rectangular(t),
        canonical(t),
        rhs_nonnegative(t),
        0 <= n <= rhs_column(t),
    ensures
        completes(t, read_off(t, n), basic_point(t).skip(n)),
{
    let point = basic_point(t);
    lemma_canonical_point(t);
    assert(read_off(t, n) + point.skip(n) =~= point);
    assert forall|j: int| 0 <= j < point.len() implies (#[trigger] point[j]) >= 0real by {}
    assert forall|j: int| 0 <= j < point.skip(n).len() implies (#[trigger] point.skip(n)[j])
        >= 0real by {}
}

} // verus!
