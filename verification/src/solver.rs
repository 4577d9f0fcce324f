use crate::basis::{canonical, sole_claim};
use crate::phases::{
    concluded, flipped_sum, needs_phase_one, negative_row, negative_rows, phase_one_entry,
    phase_one_tableau, phase_two_entry, phase_two_tableau, reduced, solve_outcome, substituted,
    two_phase_outcome, Outcome,
};
use crate::scalar::{is_negative, is_positive, map_view, matrix_view, row_view, Scalar};
use crate::tableau::{
    candidate, clean_basic, column_value, entering_column, extracted, is_entering, is_leaving,
    is_tie, leaving_row, lemma_entering_unique, lemma_leaving_unique, lemma_pivoted_shape,
    lemma_run_shape, lemma_tie_excludes_leaving, lemma_unit_row_unique, objective_value, optimal,
    pivot_choice, pivoted, ratio, rectangular, rhs_column, run, step, tied_in, unbounded_in,
    unit_at, unit_row, Run, Step,
};
use std::collections::HashMap;
use vstd::prelude::*;

verus! {

/// Why a solve gave no result.
#[derive(Clone, Copy, Debug, PartialEq, Eq, Structural)]
pub enum SolveError {
    /// No point satisfies all constraints.
    Infeasible,
    /// A ratio test had two rows with the same smallest ratio.
    Degenerate,
    /// The pivots allowed to one run of the optimize loop were used up.
    PivotLimit,
}

/// The optimal value of a linear program.
#[derive(Debug, PartialEq, Eq)]
pub enum Optimum<T> {
    /// The objective reaches this value and none beyond it.
    Finite(T),
    /// The objective grows without bound: plus infinity.
    PlusInfinity,
    /// The objective falls without bound: minus infinity.
    MinusInfinity,
}

/// The value that an optimum stands for.
pub open spec fn optimum_view<T: Scalar>(o: Optimum<T>) -> Optimum<real> {
    match o {
        Optimum::Finite(v) => Optimum::Finite(v.val()),
        Optimum::PlusInfinity => Optimum::PlusInfinity,
        Optimum::MinusInfinity => Optimum::MinusInfinity,
    }
}

/// The opposite of an optimal value.
pub open spec fn opposite(o: Optimum<real>) -> Optimum<real> {
    match o {
        Optimum::Finite(v) => Optimum::Finite(-v),
        Optimum::PlusInfinity => Optimum::MinusInfinity,
        Optimum::MinusInfinity => Optimum::PlusInfinity,
    }
}

impl<T: Scalar> Optimum<T> {
    /// The opposite value.
    pub fn negated(self) -> (r: Self)
        ensures
            optimum_view(r) == opposite(optimum_view(self)),
    {
        match self {
            Optimum::Finite(v) => Optimum::Finite(v.negated()),
            Optimum::PlusInfinity => Optimum::MinusInfinity,
            Optimum::MinusInfinity => Optimum::PlusInfinity,
        }
    }
}

/// The number of pivots that one run of the optimize loop may take.
pub const PIVOT_LIMIT: u64 = 0xffff_ffff_ffff_ffff;

/// Whether no entry of the objective row, the right-hand side aside, is strictly positive.
pub fn is_optimal<T: Scalar>(tableau: &Vec<Vec<T>>) -> (r: bool)
    requires
        rectangular(matrix_view(tableau@)),
    ensures
        r == optimal(matrix_view(tableau@)),
{
    let n: usize = tableau[0].len() - 1;
    let mut j: usize = 0;
    while j < n
        invariant
            rectangular(matrix_view(tableau@)),
            n == rhs_column(matrix_view(tableau@)),
            j <= n,
            forall|k: int| 0 <= k < j ==> (#[trigger] matrix_view(tableau@)[0][k]) <= 0real,
        decreases n - j,
    {
        if is_positive(&tableau[0][j]) {
            assert(matrix_view(tableau@)[0][j as int] > 0real);
            return false;
        }
        j += 1;
    }
    true
}

/// Whether no constraint row has a strictly positive entry in `pivot_column`.
pub fn is_unbounded<T: Scalar>(tableau: &Vec<Vec<T>>, pivot_column: usize) -> (r: bool)
    requires
        rectangular(matrix_view(tableau@)),
        pivot_column < tableau@[0].len(),
    ensures
        r == unbounded_in(matrix_view(tableau@), pivot_column as int),
{
    let m: usize = tableau.len();
    let mut i: usize = 1;
    while i < m
        invariant
            rectangular(matrix_view(tableau@)),
            m == tableau@.len(),
            pivot_column < tableau@[0].len(),
            1 <= i <= m,
            forall|k: int|
                1 <= k < i ==> (#[trigger] matrix_view(tableau@)[k])[pivot_column as int] <= 0real,
        decreases m - i,
    {
        assert(matrix_view(tableau@)[i as int].len() == matrix_view(tableau@)[0].len());
        if is_positive(&tableau[i][pivot_column]) {
            return false;
        }
        i += 1;
    }
    true
}

/// The first column that holds the largest entry of the objective row.
fn entering<T: Scalar>(tableau: &Vec<Vec<T>>) -> (e: usize)
    requires
        rectangular(matrix_view(tableau@)),
        rhs_column(matrix_view(tableau@)) >= 1,
    ensures
        is_entering(matrix_view(tableau@), e as int),
        e as int == entering_column(matrix_view(tableau@)),
{
    let ghost t = matrix_view(tableau@);
    let n: usize = tableau[0].len() - 1;
    let mut best: usize = 0;
    let mut j: usize = 1;
    while j < n
        invariant
            t == matrix_view(tableau@),
            rectangular(t),
            n == rhs_column(t),
            1 <= j <= n,
            best < j,
            forall|k: int| 0 <= k < j ==> (#[trigger] t[0][k]) <= t[0][best as int],
            forall|k: int| 0 <= k < best ==> (#[trigger] t[0][k]) < t[0][best as int],
        decreases n - j,
    {
        if tableau[0][best].less_than(&tableau[0][j]) {
            best = j;
        }
        j += 1;
    }
    proof {
        lemma_entering_unique(t, best as int, entering_column(t));
    }
    best
}

/// The entry to pivot on: the entering column is the first with the largest objective
/// entry, the leaving row the one with the strictly smallest ratio among the rows with a
/// positive entry in that column. `Ok(None)` where that column has no positive entry,
/// `Err(Degenerate)` where two rows share the smallest ratio.
pub fn pivot<T: Scalar>(tableau: &Vec<Vec<T>>) -> (r: Result<Option<(usize, usize)>, SolveError>)
    requires
        rectangular(matrix_view(tableau@)),
        rhs_column(matrix_view(tableau@)) >= 1,
    ensures
        match pivot_choice(matrix_view(tableau@)) {
            Step::Unbounded => r == Ok::<Option<(usize, usize)>, SolveError>(None),
            Step::Degenerate => r == Err::<Option<(usize, usize)>, SolveError>(
                SolveError::Degenerate,
            ),
            Step::Pivot { row, column } => r matches Ok(Some(p)) && p.0 == row && p.1 == column
                && is_leaving(matrix_view(tableau@), row, column) && is_entering(
                matrix_view(tableau@),
                column,
            ),
            Step::Optimal => false,
        },
{
    let ghost t = matrix_view(tableau@);
    let e = entering(tableau);
    if is_unbounded(tableau, e) {
        return Ok(None);
    }
    let m: usize = tableau.len();
    let b: usize = tableau[0].len() - 1;
    let mut found = false;
    let mut tie = false;
    let mut best: usize = 0;
    let mut second: usize = 0;
    let mut least: T = T::zero();
    let mut i: usize = 1;
    while i < m
        invariant
            t == matrix_view(tableau@),
            rectangular(t),
            m == t.len(),
            b == rhs_column(t),
            e < b,
            1 <= i <= m,
            !found ==> !tie && forall|k: int| 1 <= k < i ==> !candidate(t, k, e as int),
            found ==> 1 <= best < i && candidate(t, best as int, e as int) && least.val() == ratio(
                t,
                best as int,
                e as int,
            ),
            found ==> forall|k: int|
                1 <= k < i && #[trigger] candidate(t, k, e as int) ==> least.val() <= ratio(
                    t,
                    k,
                    e as int,
                ),
            found && tie ==> 1 <= second < i && second != best && candidate(
                t,
                second as int,
                e as int,
            ) && ratio(t, second as int, e as int) == least.val(),
            found && !tie ==> forall|k: int|
                1 <= k < i && #[trigger] candidate(t, k, e as int) && k != best ==> least.val()
                    < ratio(t, k, e as int),
        decreases m - i,
    {
        assert(t[i as int].len() == t[0].len());
        if is_positive(&tableau[i][e]) {
            let q = tableau[i][b].over(&tableau[i][e]);
            if !found || q.less_than(&least) {
                found = true;
                tie = false;
                best = i;
                least = q;
            } else if q.equals(&least) {
                tie = true;
                second = i;
            }
        }
        i += 1;
    }
    proof {
        if !found {
            let k = choose|k: int| 1 <= k < t.len() && !((#[trigger] t[k])[e as int] <= 0real);
            assert(candidate(t, k, e as int));
        }
        if tie {
            assert(is_tie(t, best as int, second as int, e as int));
        } else {
            if tied_in(t, e as int) {
                lemma_tie_excludes_leaving(t, e as int, best as int);
            }
            lemma_leaving_unique(t, e as int, best as int, leaving_row(t, e as int));
        }
    }
    if tie {
        Err(SolveError::Degenerate)
    } else {
        Ok(Some((best, e)))
    }
}

/// One Gauss-Jordan step on the entry in row `pivot.0` and column `pivot.1`: the row is
/// divided by the entry, and every other row loses its own entry in that column times the
/// scaled row.
pub fn next<T: Scalar>(tableau: &mut Vec<Vec<T>>, pivot: (usize, usize))
    requires
        rectangular(matrix_view(old(tableau)@)),
        pivot.0 < old(tableau)@.len(),
        pivot.1 < old(tableau)@[0].len(),
        matrix_view(old(tableau)@)[pivot.0 as int][pivot.1 as int] != 0real,
    ensures
        matrix_view(final(tableau)@) == pivoted(
            matrix_view(old(tableau)@),
            pivot.0 as int,
            pivot.1 as int,
        ),
{
    let ghost t = matrix_view(tableau@);
    let pr = pivot.0;
    let pc = pivot.1;
    let m: usize = tableau.len();
    let w: usize = tableau[0].len();
    let mut scaled: Vec<T> = Vec::new();
    let mut j: usize = 0;
    while j < w
        invariant
            t == matrix_view(tableau@),
            rectangular(t),
            pr < t.len(),
            pc < w,
            w == t[0].len(),
            t[pr as int].len() == w,
            t[pr as int][pc as int] != 0real,
            j <= w,
            scaled@.len() == j,
            forall|k: int|
                0 <= k < j ==> (#[trigger] scaled@[k]).val() == t[pr as int][k] / t[pr as int][pc as int],
        decreases w - j,
    {
        let x = tableau[pr][j].over(&tableau[pr][pc]);
        scaled.push(x);
        j += 1;
    }
    assert forall|k: int| 0 <= k < m implies (#[trigger] tableau@[k])@.len() == w by {
        assert(t[k].len() == t[0].len());
    }
    assert forall|a: int, k: int| 0 <= a < m && 0 <= k < w implies (#[trigger] tableau@[a]@[k]).val()
        == t[a][k] by {}
    tableau[pr] = scaled;
    let mut i: usize = 0;
    while i < m
        invariant
            rectangular(t),
            m == t.len(),
            tableau@.len() == m,
            pr < m,
            pc < w,
            w == t[0].len(),
            i <= m,
            t[pr as int][pc as int] != 0real,
            forall|k: int| 0 <= k < m ==> (#[trigger] tableau@[k])@.len() == w,
            forall|k: int|
                0 <= k < w ==> (#[trigger] tableau@[pr as int]@[k]).val() == t[pr as int][k]
                    / t[pr as int][pc as int],
            forall|a: int, k: int|
                i <= a < m && a != pr && 0 <= k < w ==> (#[trigger] tableau@[a]@[k]).val()
                    == t[a][k],
            forall|a: int, k: int|
                0 <= a < i && a != pr && 0 <= k < w ==> (#[trigger] tableau@[a]@[k]).val()
                    == t[a][k] - t[a][pc as int] * (t[pr as int][k] / t[pr as int][pc as int]),
        decreases m - i,
    {
        if i != pr {
            let mut row: Vec<T> = Vec::new();
            let mut j: usize = 0;
            while j < w
                invariant
                    rectangular(t),
                    m == t.len(),
                    tableau@.len() == m,
                    pr < m,
                    pc < w,
                    i < m,
                    i != pr,
                    w == t[0].len(),
                    j <= w,
                    row@.len() == j,
                    forall|k: int| 0 <= k < m ==> (#[trigger] tableau@[k])@.len() == w,
                    forall|k: int|
                        0 <= k < w ==> (#[trigger] tableau@[pr as int]@[k]).val() == t[pr as int][k]
                            / t[pr as int][pc as int],
                    forall|k: int|
                        0 <= k < w ==> (#[trigger] tableau@[i as int]@[k]).val() == t[i as int][k],
                    forall|k: int|
                        0 <= k < j ==> (#[trigger] row@[k]).val() == t[i as int][k]
                            - t[i as int][pc as int] * (t[pr as int][k] / t[pr as int][pc as int]),
                decreases w - j,
            {
                let c = tableau[i][pc].times(&tableau[pr][j]);
                let x = tableau[i][j].minus(&c);
                row.push(x);
                j += 1;
            }
            tableau[i] = row;
        }
        i += 1;
    }
    proof {
        let p = pivoted(t, pr as int, pc as int);
        let f = matrix_view(tableau@);
        assert forall|a: int| 0 <= a < f.len() implies #[trigger] f[a] == p[a] by {
            assert forall|k: int| 0 <= k < w implies f[a][k] == p[a][k] by {}
        }
    }
}

/// The optimize loop: pivots until the objective row has no positive entry left. `Ok(true)`
/// on an optimal tableau, `Ok(false)` where the objective grows without bound. Gives up
/// with `PivotLimit` where a pivot is due after `PIVOT_LIMIT` pivots.
pub fn improve<T: Scalar>(tableau: &mut Vec<Vec<T>>) -> (r: Result<bool, SolveError>)
    requires
        rectangular(matrix_view(old(tableau)@)),
    ensures
        matrix_view(final(tableau)@) == run(
            matrix_view(old(tableau)@),
            PIVOT_LIMIT as nat,
        ).tableau(),
        rectangular(matrix_view(final(tableau)@)),
        match run(matrix_view(old(tableau)@), PIVOT_LIMIT as nat) {
            Run::Optimal(_) => r == Ok::<bool, SolveError>(true),
            Run::Unbounded(_) => r == Ok::<bool, SolveError>(false),
            Run::Degenerate(_) => r == Err::<bool, SolveError>(SolveError::Degenerate),
            Run::Exhausted(_) => r == Err::<bool, SolveError>(SolveError::PivotLimit),
        },
{
    improve_within(tableau, PIVOT_LIMIT)
}

/// The optimize loop with at most `limit` pivots: pivots until the objective row has no
/// positive entry left. `Ok(true)` on an optimal tableau, `Ok(false)` where the objective
/// grows without bound. Gives up with `PivotLimit` where a pivot is due after `limit`
/// pivots.
pub fn improve_within<T: Scalar>(tableau: &mut Vec<Vec<T>>, limit: u64) -> (r: Result<
    bool,
    SolveError,
>)
    requires
        rectangular(matrix_view(old(tableau)@)),
    ensures
        matrix_view(final(tableau)@) == run(matrix_view(old(tableau)@), limit as nat).tableau(),
        rectangular(matrix_view(final(tableau)@)),
        match run(matrix_view(old(tableau)@), limit as nat) {
            Run::Optimal(_) => r == Ok::<bool, SolveError>(true),
            Run::Unbounded(_) => r == Ok::<bool, SolveError>(false),
            Run::Degenerate(_) => r == Err::<bool, SolveError>(SolveError::Degenerate),
            Run::Exhausted(_) => r == Err::<bool, SolveError>(SolveError::PivotLimit),
        },
{
    let ghost start = matrix_view(tableau@);
    let mut budget: u64 = limit;
    loop
        invariant
            start == matrix_view(old(tableau)@),
            rectangular(matrix_view(tableau@)),
            run(start, limit as nat) == run(matrix_view(tableau@), budget as nat),
        decreases budget,
    {
        let ghost t = matrix_view(tableau@);
        if is_optimal(tableau) {
            return Ok(true);
        }
        match pivot(tableau) {
            Err(_) => {
                return Err(SolveError::Degenerate);
            },
            Ok(None) => {
                return Ok(false);
            },
            Ok(Some(p)) => {
                if budget == 0 {
                    return Err(SolveError::PivotLimit);
                }
                next(tableau, p);
                budget = budget - 1;
                proof {
                    lemma_pivoted_shape(t, p.0 as int, p.1 as int);
                }
            },
        }
    }
}

/// The constraint row in which column `column` has its one, where the column is clean basic.
fn find_unit_row<T: Scalar>(tableau: &Vec<Vec<T>>, column: usize) -> (r: Option<usize>)
    requires
        rectangular(matrix_view(tableau@)),
        column < tableau@[0].len(),
    ensures
        r.is_some() == clean_basic(matrix_view(tableau@), column as int),
        r matches Some(i) ==> unit_at(matrix_view(tableau@), column as int, i as int) && i
            == unit_row(matrix_view(tableau@), column as int),
{
    let ghost t = matrix_view(tableau@);
    let one = T::one();
    let zero = T::zero();
    let m: usize = tableau.len();
    let mut found: Option<usize> = None;
    let mut i: usize = 1;
    while i < m
        invariant
            t == matrix_view(tableau@),
            rectangular(t),
            m == t.len(),
            column < t[0].len(),
            one.val() == 1real,
            zero.val() == 0real,
            1 <= i <= m,
            found matches Some(r) ==> 1 <= r < i && t[r as int][column as int] == 1real,
            forall|k: int|
                1 <= k < i && found != Some(k as usize) ==> (#[trigger] t[k])[column as int]
                    == 0real,
        decreases m - i,
    {
        assert(t[i as int].len() == t[0].len());
        if tableau[i][column].equals(&one) {
            if found.is_some() {
                proof {
                    assert forall|r: int| !unit_at(t, column as int, r) by {}
                }
                return None;
            }
            found = Some(i);
        } else if !tableau[i][column].equals(&zero) {
            proof {
                assert forall|r: int| !unit_at(t, column as int, r) by {}
            }
            return None;
        }
        i += 1;
    }
    proof {
        match found {
            Some(r) => {
                lemma_unit_row_unique(t, column as int, r as int, unit_row(t, column as int));
            },
            None => {
                assert forall|r: int| !unit_at(t, column as int, r) by {}
            },
        }
    }
    found
}

/// Whether the tableau has a row and every row has the same positive width.
pub fn is_rectangular<T: Scalar>(tableau: &Vec<Vec<T>>) -> (r: bool)
    ensures
        r == rectangular(matrix_view(tableau@)),
{
    let ghost t = matrix_view(tableau@);
    let m: usize = tableau.len();
    if m == 0 {
        return false;
    }
    let w: usize = tableau[0].len();
    if w == 0 {
        return false;
    }
    let mut i: usize = 1;
    while i < m
        invariant
            t == matrix_view(tableau@),
            m == t.len(),
            w == t[0].len(),
            w >= 1,
            1 <= i <= m,
            forall|k: int| 0 <= k < i ==> (#[trigger] t[k]).len() == w,
        decreases m - i,
    {
        if tableau[i].len() != w {
            assert(t[i as int].len() != t[0].len());
            return false;
        }
        i += 1;
    }
    true
}

/// For every column but the last, the constraint row in which it has its one, where the
/// column is clean basic.
fn unit_rows<T: Scalar>(tableau: &Vec<Vec<T>>) -> (claims: Vec<Option<usize>>)
    requires
        rectangular(matrix_view(tableau@)),
    ensures
        claims@.len() == rhs_column(matrix_view(tableau@)),
        forall|j: int|
            0 <= j < claims@.len() ==> match #[trigger] claims@[j] {
                Some(r) => unit_at(matrix_view(tableau@), j, r as int),
                None => !clean_basic(matrix_view(tableau@), j),
            },
{
    let ghost t = matrix_view(tableau@);
    let b: usize = tableau[0].len() - 1;
    let mut claims: Vec<Option<usize>> = Vec::new();
    let mut j: usize = 0;
    while j < b
        invariant
            t == matrix_view(tableau@),
            rectangular(t),
            b == rhs_column(t),
            j <= b,
            claims@.len() == j,
            forall|k: int|
                0 <= k < j ==> match #[trigger] claims@[k] {
                    Some(r) => unit_at(t, k, r as int),
                    None => !clean_basic(t, k),
                },
        decreases b - j,
    {
        claims.push(find_unit_row(tableau, j));
        j += 1;
    }
    claims
}

/// Whether the tableau is in canonical form at the point read off it: every constraint
/// row whose right-hand side is not zero has exactly one clean basic column, and every
/// clean basic column has a zero in the objective row or the value zero.
pub fn is_canonical<T: Scalar>(tableau: &Vec<Vec<T>>) -> (r: bool)
    requires
        rectangular(matrix_view(tableau@)),
    ensures
        r == canonical(matrix_view(tableau@)),
{
    let ghost t = matrix_view(tableau@);
    let m: usize = tableau.len();
    let b: usize = tableau[0].len() - 1;
    let zero = T::zero();
    let claims = unit_rows(tableau);
    let mut j: usize = 0;
    while j < b
        invariant
            t == matrix_view(tableau@),
            rectangular(t),
            m == t.len(),
            b == rhs_column(t),
            zero.val() == 0real,
            claims@.len() == b,
            forall|k: int|
                0 <= k < b ==> match #[trigger] claims@[k] {
                    Some(r) => unit_at(t, k, r as int),
                    None => !clean_basic(t, k),
                },
            j <= b,
            forall|k: int|
                0 <= k < j && #[trigger] clean_basic(t, k) ==> t[0][k] == 0real || column_value(
                    t,
                    k,
                ) == 0real,
        decreases b - j,
    {
        match claims[j] {
            Some(r) => {
                proof {
                    assert(clean_basic(t, j as int));
                    lemma_unit_row_unique(t, j as int, r as int, unit_row(t, j as int));
                    assert(t[r as int].len() == t[0].len());
                }
                if !tableau[0][j].equals(&zero) && !tableau[r][b].equals(&zero) {
                    return false;
                }
            },
            None => {},
        }
        j += 1;
    }
    let mut i: usize = 1;
    while i < m
        invariant
            t == matrix_view(tableau@),
            rectangular(t),
            m == t.len(),
            b == rhs_column(t),
            zero.val() == 0real,
            claims@.len() == b,
            forall|k: int|
                0 <= k < b ==> match #[trigger] claims@[k] {
                    Some(r) => unit_at(t, k, r as int),
                    None => !clean_basic(t, k),
                },
            forall|k: int|
                0 <= k < b && #[trigger] clean_basic(t, k) ==> t[0][k] == 0real || column_value(
                    t,
                    k,
                ) == 0real,
            1 <= i <= m,
            forall|r: int|
                1 <= r < i && (#[trigger] t[r])[b as int] != 0real ==> exists|k: int|
                    sole_claim(t, r, k),
        decreases m - i,
    {
        assert(t[i as int].len() == t[0].len());
        if !tableau[i][b].equals(&zero) {
            let mut found: Option<usize> = None;
            let mut j: usize = 0;
            while j < b
                invariant
                    t == matrix_view(tableau@),
                    rectangular(t),
                    b == rhs_column(t),
                    1 <= i < t.len(),
                    t[i as int][b as int] != 0real,
                    claims@.len() == b,
                    forall|k: int|
                        0 <= k < b ==> match #[trigger] claims@[k] {
                            Some(r) => unit_at(t, k, r as int),
                            None => !clean_basic(t, k),
                        },
                    j <= b,
                    match found {
                        Some(at) => at < j && unit_at(t, at as int, i as int) && forall|k: int|
                            0 <= k < j && k != at ==> !unit_at(t, k, i as int),
                        None => forall|k: int| 0 <= k < j ==> !unit_at(t, k, i as int),
                    },
                decreases b - j,
            {
                let claimed = match claims[j] {
                    Some(r) => r == i,
                    None => false,
                };
                proof {
                    if unit_at(t, j as int, i as int) {
                        assert(clean_basic(t, j as int));
                        match claims@[j as int] {
                            Some(r) => {
                                lemma_unit_row_unique(t, j as int, r as int, i as int);
                            },
                            None => {},
                        }
                    }
                }
                if claimed {
                    if found.is_some() {
                        proof {
                            let first = found.unwrap() as int;
                            assert forall|k: int| !sole_claim(t, i as int, k) by {
                                if sole_claim(t, i as int, k) {
                                    if k != first {
                                        assert(!unit_at(t, first, i as int));
                                    } else {
                                        assert(!unit_at(t, j as int, i as int));
                                    }
                                }
                            }
                        }
                        return false;
                    }
                    found = Some(j);
                }
                j += 1;
            }
            match found {
                Some(at) => {
                    assert(sole_claim(t, i as int, at as int));
                },
                None => {
                    assert forall|k: int| !sole_claim(t, i as int, k) by {}
                    return false;
                },
            }
        }
        i += 1;
    }
    true
}

/// Whether column `variable` is clean basic: one constraint row holds a one there and all
/// the others hold zero.
pub fn is_base_variable<T: Scalar>(tableau: &Vec<Vec<T>>, variable: usize) -> (r: bool)
    requires
        rectangular(matrix_view(tableau@)),
        variable < tableau@[0].len(),
    ensures
        r == clean_basic(matrix_view(tableau@), variable as int),
{
    find_unit_row(tableau, variable).is_some()
}

/// Reads the solution and the objective value off a tableau: each clean basic column among
/// the first `variable_count` gets the right-hand side of its row, and the value is the
/// opposite of the objective row's right-hand side.
pub fn optimum<T: Scalar>(tableau: &Vec<Vec<T>>, variable_count: usize) -> (r: (
    HashMap<usize, T>,
    T,
))
    requires
        rectangular(matrix_view(tableau@)),
        variable_count <= rhs_column(matrix_view(tableau@)),
    ensures
        map_view(r.0@) == extracted(matrix_view(tableau@), variable_count as int),
        r.1.val() == objective_value(matrix_view(tableau@)),
{
    broadcast use vstd::std_specs::hash::group_hash_axioms;

    let ghost t = matrix_view(tableau@);
    let b: usize = tableau[0].len() - 1;
    let mut solution: HashMap<usize, T> = HashMap::with_capacity(variable_count);
    let mut j: usize = 0;
    while j < variable_count
        invariant
            t == matrix_view(tableau@),
            rectangular(t),
            b == rhs_column(t),
            variable_count <= b,
            j <= variable_count,
            map_view(solution@) == extracted(t, j as int),
        decreases variable_count - j,
    {
        let ghost before = solution@;
        match find_unit_row(tableau, j) {
            Some(r) => {
                let x = tableau[r][b].duplicate();
                solution.insert(j, x);
            },
            None => {
            },
        }
        proof {
            let now = map_view(solution@);
            let goal = extracted(t, j + 1);
            assert forall|k: usize| now.contains_key(k) == goal.contains_key(k) by {
                assert(map_view(before).contains_key(k) == extracted(t, j as int).contains_key(k));
            }
            assert forall|k: usize| #[trigger] now.contains_key(k) implies now[k] == goal[k] by {
                if k != j {
                    assert(map_view(before)[k] == extracted(t, j as int)[k]);
                }
            }
        }
        j += 1;
    }
    (solution, tableau[0][b].negated())
}

/// How many constraint rows have a strictly negative right-hand side.
pub fn count_negative_rows<T: Scalar>(tableau: &Vec<Vec<T>>) -> (n: usize)
    requires
        rectangular(matrix_view(tableau@)),
    ensures
        n == negative_rows(matrix_view(tableau@), tableau@.len() as int),
{
    let ghost t = matrix_view(tableau@);
    let m: usize = tableau.len();
    let b: usize = tableau[0].len() - 1;
    let mut n: usize = 0;
    let mut i: usize = 1;
    while i < m
        invariant
            t == matrix_view(tableau@),
            rectangular(t),
            m == t.len(),
            b == rhs_column(t),
            1 <= i <= m,
            n == negative_rows(t, i as int),
            n < i,
        decreases m - i,
    {
        assert(t[i as int].len() == t[0].len());
        if is_negative(&tableau[i][b]) {
            n += 1;
        }
        i += 1;
    }
    n
}

/// Turns the tableau into its phase-one tableau and hands back the objective row that was
/// in it: every constraint row with a negative right-hand side is negated and gets an
/// artificial unit column of its own, and the new objective row is the sum of the negated
/// rows.
pub fn prepare_phase_one<T: Scalar>(
    tableau: &mut Vec<Vec<T>>,
    number_artificial_variables: usize,
    position_b: usize,
) -> (saved: Vec<T>)
    requires
        rectangular(matrix_view(old(tableau)@)),
        position_b == rhs_column(matrix_view(old(tableau)@)),
        number_artificial_variables == negative_rows(
            matrix_view(old(tableau)@),
            old(tableau)@.len() as int,
        ),
    ensures
        row_view(saved@) == matrix_view(old(tableau)@)[0],
        matrix_view(final(tableau)@) == phase_one_tableau(matrix_view(old(tableau)@)),
{
    let ghost t = matrix_view(tableau@);
    let nav = number_artificial_variables;
    let b = position_b;
    let m: usize = tableau.len();
    let zero = T::zero();
    let one = T::one();
    let w: usize = tableau[0].len();
    let mut objective: Vec<T> = Vec::new();
    let mut j: usize = 0;
    while j < w
        invariant
            j <= w,
            objective@.len() == j,
            forall|k: int| 0 <= k < j ==> (#[trigger] objective@[k]).val() == 0real,
        decreases w - j,
    {
        objective.push(T::zero());
        j += 1;
    }
    let mut saved: Vec<T> = Vec::new();
    let mut j: usize = 0;
    while j < w
        invariant
            t == matrix_view(tableau@),
            rectangular(t),
            b == rhs_column(t),
            w == b + 1,
            j <= w,
            saved@.len() == j,
            forall|k: int| 0 <= k < j ==> (#[trigger] saved@[k]).val() == t[0][k],
        decreases w - j,
    {
        saved.push(tableau[0][j].duplicate());
        j += 1;
    }
    let mut seen: usize = 0;
    let mut i: usize = 1;
    assert forall|a: int| 0 <= a < m implies (#[trigger] tableau@[a])@.len() == b + 1 by {
        assert(t[a].len() == t[0].len());
    }
    assert forall|a: int, k: int| 0 <= a < m && 0 <= k <= b implies (#[trigger] tableau@[a]@[k]).val()
        == t[a][k] by {}
    while i < m
        invariant
            rectangular(t),
            m == t.len(),
            tableau@.len() == m,
            b == rhs_column(t),
            nav == negative_rows(t, m as int),
            zero.val() == 0real,
            one.val() == 1real,
            1 <= i <= m,
            seen == negative_rows(t, i as int),
            seen < i,
            objective@.len() == b + 1,
            forall|k: int| 0 <= k <= b ==> (#[trigger] objective@[k]).val() == flipped_sum(t, k, i as int),
            forall|a: int| i <= a < m ==> (#[trigger] tableau@[a])@.len() == b + 1,
            forall|a: int, k: int|
                i <= a < m && 0 <= k <= b ==> (#[trigger] tableau@[a]@[k]).val() == t[a][k],
            forall|a: int| 1 <= a < i ==> (#[trigger] tableau@[a])@.len() == b + nav + 1,
            forall|a: int, k: int|
                1 <= a < i && 0 <= k <= b + nav ==> (#[trigger] tableau@[a]@[k]).val()
                    == phase_one_entry(t, nav as int, a, k),
        decreases m - i,
    {
        let negative = is_negative(&tableau[i][b]);
        let mut row: Vec<T> = Vec::new();
        let mut j: usize = 0;
        while j < b
            invariant
                rectangular(t),
                m == t.len(),
                tableau@.len() == m,
                b == rhs_column(t),
                1 <= i < m,
                negative == negative_row(t, i as int),
                j <= b,
                row@.len() == j,
                objective@.len() == b + 1,
                tableau@[i as int]@.len() == b + 1,
                forall|k: int| 0 <= k <= b ==> (#[trigger] tableau@[i as int]@[k]).val() == t[i as int][k],
                forall|k: int|
                    0 <= k < j ==> (#[trigger] objective@[k]).val() == flipped_sum(
                        t,
                        k,
                        i + 1,
                    ),
                forall|k: int|
                    j <= k <= b ==> (#[trigger] objective@[k]).val() == flipped_sum(
                        t,
                        k,
                        i as int,
                    ),
                forall|k: int|
                    0 <= k < j ==> (#[trigger] row@[k]).val() == phase_one_entry(
                        t,
                        nav as int,
                        i as int,
                        k,
                    ),
            decreases b - j,
        {
            if negative {
                let x = tableau[i][j].negated();
                let sum = objective[j].plus(&x);
                objective[j] = sum;
                row.push(x);
            } else {
                row.push(tableau[i][j].duplicate());
            }
            j += 1;
        }
        let rhs = if negative {
            let x = tableau[i][b].negated();
            let sum = objective[b].plus(&x);
            objective[b] = sum;
            x
        } else {
            tableau[i][b].duplicate()
        };
        let mut k: usize = 0;
        while k < nav
            invariant
                rectangular(t),
                b == rhs_column(t),
                1 <= i < t.len(),
                negative == negative_row(t, i as int),
                seen == negative_rows(t, i as int),
                zero.val() == 0real,
                one.val() == 1real,
                k <= nav,
                row@.len() == b + k,
                forall|c: int|
                    0 <= c < b + k ==> (#[trigger] row@[c]).val() == phase_one_entry(
                        t,
                        nav as int,
                        i as int,
                        c,
                    ),
            decreases nav - k,
        {
            if negative && k == seen {
                row.push(one.duplicate());
            } else {
                row.push(zero.duplicate());
            }
            k += 1;
        }
        row.push(rhs);
        tableau[i] = row;
        if negative {
            seen += 1;
        }
        i += 1;
    }
    let z = objective.pop().unwrap();
    let mut k: usize = 0;
    while k < nav
        invariant
            rectangular(t),
            b == rhs_column(t),
            m == t.len(),
            zero.val() == 0real,
            k <= nav,
            objective@.len() == b + k,
            z.val() == flipped_sum(t, b as int, m as int),
            forall|c: int|
                0 <= c < b + k ==> (#[trigger] objective@[c]).val() == phase_one_entry(
                    t,
                    nav as int,
                    0,
                    c,
                ),
        decreases nav - k,
    {
        objective.push(zero.duplicate());
        k += 1;
    }
    objective.push(z);
    tableau[0] = objective;
    proof {
        let p = phase_one_tableau(t);
        let f = matrix_view(tableau@);
        assert forall|a: int| 0 <= a < f.len() implies #[trigger] f[a] == p[a] by {
            assert forall|k: int| 0 <= k <= b + nav implies f[a][k] == p[a][k] by {}
        }
    }
    saved
}

/// Turns a final phase-one tableau into the tableau on which phase two starts: the
/// objective row that was set aside comes back, with every clean basic column substituted
/// out of it and its constant negated, and the artificial columns leave the constraint rows.
pub fn prepare_phase_two<T: Scalar>(
    tableau: &mut Vec<Vec<T>>,
    phase_two_objective_function: Vec<T>,
    number_artificial_variables: usize,
)
    requires
        rectangular(matrix_view(old(tableau)@)),
        phase_two_objective_function@.len() >= 1,
        phase_two_objective_function@.len() + number_artificial_variables == old(
            tableau,
        )@[0].len(),
    ensures
        matrix_view(final(tableau)@) == phase_two_tableau(
            matrix_view(old(tableau)@),
            row_view(phase_two_objective_function@),
        ),
{
    let ghost t = matrix_view(tableau@);
    let ghost o = row_view(phase_two_objective_function@);
    let mut objective = phase_two_objective_function;
    let m: usize = tableau.len();
    let w: usize = objective.len();
    let last: usize = w - 1;
    let zero = T::zero();
    let mut v: usize = 0;
    while v < last
        invariant
            t == matrix_view(tableau@),
            rectangular(t),
            w == o.len(),
            last == w - 1,
            w <= t[0].len(),
            zero.val() == 0real,
            v <= last,
            objective@.len() == w,
            row_view(objective@) == reduced(o, t, v as int),
        decreases last - v,
    {
        let ghost p = row_view(objective@);
        let mut changed = false;
        if !objective[v].equals(&zero) {
            match find_unit_row(tableau, v) {
                Some(r) => {
                    let ghost row = t[r as int];
                    let top: usize = tableau[r].len() - 1;
                    let mut fresh: Vec<T> = Vec::new();
                    let mut j: usize = 0;
                    while j < w
                        invariant
                            t == matrix_view(tableau@),
                            rectangular(t),
                            p == row_view(objective@),
                            objective@.len() == w,
                            last == w - 1,
                            v < last,
                            1 <= r < t.len(),
                            row == t[r as int],
                            row.len() == t[0].len(),
                            w <= t[0].len(),
                            top == row.len() - 1,
                            j <= w,
                            fresh@.len() == j,
                            forall|k: int|
                                0 <= k < j ==> (#[trigger] fresh@[k]).val() == substituted(
                                    p,
                                    row,
                                    v as int,
                                )[k],
                        decreases w - j,
                    {
                        if j == v {
                            fresh.push(T::zero());
                        } else if j < last {
                            let step = objective[v].times(&tableau[r][j].negated());
                            fresh.push(objective[j].plus(&step));
                        } else {
                            let step = objective[v].times(&tableau[r][top]);
                            fresh.push(objective[j].plus(&step));
                        }
                        j += 1;
                    }
                    objective = fresh;
                },
                None => {},
            }
        }
        v += 1;
    }
    let constant = objective[last].negated();
    objective[last] = constant;
    assert forall|k: int| 0 <= k < w implies (#[trigger] objective@[k]).val() == phase_two_entry(
        t,
        o,
        0,
        k,
    ) by {}
    assert forall|a: int| 0 <= a < m implies (#[trigger] tableau@[a])@.len() == t[0].len() by {
        assert(t[a].len() == t[0].len());
    }
    assert forall|a: int, k: int| 0 <= a < m && 0 <= k < t[0].len() implies (
    #[trigger] tableau@[a]@[k]).val() == t[a][k] by {}
    tableau[0] = objective;
    let mut i: usize = 1;
    while i < m
        invariant
            rectangular(t),
            m == t.len(),
            tableau@.len() == m,
            w == o.len(),
            last == w - 1,
            w <= t[0].len(),
            1 <= i <= m,
            tableau@[0]@.len() == w,
            forall|k: int|
                0 <= k < w ==> (#[trigger] tableau@[0]@[k]).val() == phase_two_entry(t, o, 0, k),
            forall|a: int| i <= a < m ==> (#[trigger] tableau@[a])@.len() == t[0].len(),
            forall|a: int, k: int|
                i <= a < m && 0 <= k < t[0].len() ==> (#[trigger] tableau@[a]@[k]).val()
                    == t[a][k],
            forall|a: int| 1 <= a < i ==> (#[trigger] tableau@[a])@.len() == w,
            forall|a: int, k: int|
                1 <= a < i && 0 <= k < w ==> (#[trigger] tableau@[a]@[k]).val()
                    == phase_two_entry(t, o, a, k),
        decreases m - i,
    {
        let top: usize = tableau[i].len() - 1;
        let mut row: Vec<T> = Vec::new();
        let mut j: usize = 0;
        while j < last
            invariant
                rectangular(t),
                tableau@.len() == t.len(),
                1 <= i < t.len(),
                w == o.len(),
                last == w - 1,
                w <= t[0].len(),
                tableau@[i as int]@.len() == t[0].len(),
                forall|k: int|
                    0 <= k < t[0].len() ==> (#[trigger] tableau@[i as int]@[k]).val()
                        == t[i as int][k],
                j <= last,
                row@.len() == j,
                forall|k: int|
                    0 <= k < j ==> (#[trigger] row@[k]).val() == phase_two_entry(
                        t,
                        o,
                        i as int,
                        k,
                    ),
            decreases last - j,
        {
            row.push(tableau[i][j].duplicate());
            j += 1;
        }
        row.push(tableau[i][top].duplicate());
        tableau[i] = row;
        i += 1;
    }
    proof {
        let p = phase_two_tableau(t, o);
        let f = matrix_view(tableau@);
        assert forall|a: int| 0 <= a < f.len() implies #[trigger] f[a] == p[a] by {
            assert forall|k: int| 0 <= k < w implies f[a][k] == p[a][k] by {}
        }
    }
}

/// Whether some constraint row has a strictly negative right-hand side.
fn has_negative_row<T: Scalar>(tableau: &Vec<Vec<T>>) -> (r: bool)
    requires
        rectangular(matrix_view(tableau@)),
    ensures
        r == needs_phase_one(matrix_view(tableau@)),
{
    let ghost t = matrix_view(tableau@);
    let m: usize = tableau.len();
    let b: usize = tableau[0].len() - 1;
    let mut i: usize = 1;
    while i < m
        invariant
            t == matrix_view(tableau@),
            rectangular(t),
            m == t.len(),
            b == rhs_column(t),
            1 <= i <= m,
            forall|k: int| 1 <= k < i ==> !#[trigger] negative_row(t, k),
        decreases m - i,
    {
        assert(t[i as int].len() == t[0].len());
        if is_negative(&tableau[i][b]) {
            assert(negative_row(t, i as int));
            return true;
        }
        i += 1;
    }
    false
}

/// The optimize loop on a tableau, then the solution and the value read off the first
/// `variable_count` columns of the tableau it ends on.
fn conclude<T: Scalar>(tableau: &mut Vec<Vec<T>>, variable_count: usize) -> (r: Result<
    (Option<HashMap<usize, T>>, Optimum<T>),
    SolveError,
>)
    requires
        rectangular(matrix_view(old(tableau)@)),
        variable_count <= rhs_column(matrix_view(old(tableau)@)),
    ensures
        matrix_view(final(tableau)@) == run(
            matrix_view(old(tableau)@),
            PIVOT_LIMIT as nat,
        ).tableau(),
        answers(
            r,
            concluded(
                run(matrix_view(old(tableau)@), PIVOT_LIMIT as nat),
                variable_count as int,
            ),
        ),
{
    proof {
        lemma_run_shape(matrix_view(tableau@), PIVOT_LIMIT as nat);
    }
    match improve(tableau) {
        Err(e) => Err(e),
        Ok(false) => Ok((None, Optimum::PlusInfinity)),
        Ok(true) => {
            let (solution, value) = optimum(tableau, variable_count);
            Ok((Some(solution), Optimum::Finite(value)))
        },
    }
}

/// Whether the result `r` of a solve says what the outcome `o` says.
pub open spec fn answers<T: Scalar>(
    r: Result<(Option<HashMap<usize, T>>, Optimum<T>), SolveError>,
    o: Outcome,
) -> bool {
    match o {
        Outcome::Optimal { solution, value } => r matches Ok((Some(m), Optimum::Finite(v)))
            && map_view(m@) == solution && v.val() == value,
        Outcome::Unbounded => r matches Ok((None, Optimum::PlusInfinity)),
        Outcome::Infeasible => r matches Err(SolveError::Infeasible),
        Outcome::Degenerate => r matches Err(SolveError::Degenerate),
        Outcome::Exhausted => r matches Err(SolveError::PivotLimit),
    }
}

/// The two-phase method. Phase one negates the rows with a negative right-hand side,
/// gives each an artificial column and maximizes the sum of the negated rows; where that
/// ends on an optimal tableau with value zero, phase two restores the objective row, drops
/// the artificial columns and optimizes. Any other end of phase one but a tie or the pivot
/// limit is `Infeasible`.
pub fn solve_two_phases<T: Scalar>(tableau: &mut Vec<Vec<T>>, position_b: usize) -> (r: Result<
    (Option<HashMap<usize, T>>, Optimum<T>),
    SolveError,
>)
    requires
        rectangular(matrix_view(old(tableau)@)),
        position_b == rhs_column(matrix_view(old(tableau)@)),
        old(tableau)@.len() - 1 <= rhs_column(matrix_view(old(tableau)@)),
    ensures
        answers(r, two_phase_outcome(matrix_view(old(tableau)@), PIVOT_LIMIT as nat).0),
        matrix_view(final(tableau)@) == two_phase_outcome(
            matrix_view(old(tableau)@),
            PIVOT_LIMIT as nat,
        ).1,
{
    let number_artificial_variables = count_negative_rows(tableau);
    let phase_two_objective_function = prepare_phase_one(
        tableau,
        number_artificial_variables,
        position_b,
    );
    let ghost first = matrix_view(tableau@);
    proof {
        assert(rectangular(first)) by {
            assert forall|i: int| 0 <= i < first.len() implies (#[trigger] first[i]).len()
                == first[0].len() by {}
        }
        lemma_run_shape(first, PIVOT_LIMIT as nat);
    }
    match improve(tableau) {
        Err(e) => {
            return Err(e);
        },
        Ok(false) => {
            return Err(SolveError::Infeasible);
        },
        Ok(true) => {},
    }
    let b: usize = tableau[0].len() - 1;
    let zero = T::zero();
    if !tableau[0][b].negated().equals(&zero) {
        return Err(SolveError::Infeasible);
    }
    prepare_phase_two(tableau, phase_two_objective_function, number_artificial_variables);
    let ghost second = matrix_view(tableau@);
    proof {
        assert(rectangular(second)) by {
            assert forall|i: int| 0 <= i < second.len() implies (#[trigger] second[i]).len()
                == second[0].len() by {}
        }
    }
    let variable_count: usize = position_b - (tableau.len() - 1);
    conclude(tableau, variable_count)
}

/// Solves the linear program of a tableau: maximizes the objective of row 0 under the
/// constraint rows, by the two-phase method where some right-hand side is negative, else
/// by the optimize loop alone. The solution is read off the first `variable_count`
/// columns; where no count is given, and wherever the two-phase method runs, off the
/// columns that are left when the right-hand side and one slack column per constraint row
/// are taken away.
pub fn solve<T: Scalar>(tableau: &mut Vec<Vec<T>>, variable_count: Option<usize>) -> (r: Result<
    (Option<HashMap<usize, T>>, Optimum<T>),
    SolveError,
>)
    requires
        rectangular(matrix_view(old(tableau)@)),
        variable_count matches Some(n) ==> n <= rhs_column(matrix_view(old(tableau)@)),
        variable_count is None || needs_phase_one(matrix_view(old(tableau)@)) ==> old(
            tableau,
        )@.len() - 1 <= rhs_column(matrix_view(old(tableau)@)),
    ensures
        answers(
            r,
            solve_outcome(matrix_view(old(tableau)@), variable_count, PIVOT_LIMIT as nat).0,
        ),
        matrix_view(final(tableau)@) == solve_outcome(
            matrix_view(old(tableau)@),
            variable_count,
            PIVOT_LIMIT as nat,
        ).1,
{
    let position_b: usize = tableau[0].len() - 1;
    if has_negative_row(tableau) {
        return solve_two_phases(tableau, position_b);
    }
    let variable_count: usize = match variable_count {
        Some(variable_count) => variable_count,
        None => position_b - (tableau.len() - 1),
    };
    conclude(tableau, variable_count)
}

} // verus!
