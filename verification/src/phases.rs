use crate::tableau::{
    clean_basic, extracted, objective_value, rhs_column, run, unit_row, Run,
};
use vstd::prelude::*;

verus! {

/// Constraint row `i` has a strictly negative right-hand side.
pub open spec fn negative_row(t: Seq<Seq<real>>, i: int) -> bool {
    t[i][rhs_column(t)] < 0real
}

/// Some constraint row has a strictly negative right-hand side.
pub open spec fn needs_phase_one(t: Seq<Seq<real>>) -> bool {
    exists|i: int| 1 <= i < t.len() && #[trigger] negative_row(t, i)
}

/// How many of the constraint rows before row `i` have a negative right-hand side.
pub open spec fn negative_rows(t: Seq<Seq<real>>, i: int) -> nat
    decreases i,
{
    if i <= 1 {
        0
    } else if negative_row(t, i - 1) {
        negative_rows(t, i - 1) + 1
    } else {
        negative_rows(t, i - 1)
    }
}

/// The sum, over the constraint rows before row `i` that have a negative right-hand side,
/// of the opposite of their entry in column `j`.
pub open spec fn flipped_sum(t: Seq<Seq<real>>, j: int, i: int) -> real
    decreases i,
{
    if i <= 1 {
        0real
    } else if negative_row(t, i - 1) {
        flipped_sum(t, j, i - 1) + (-t[i - 1][j])
    } else {
        flipped_sum(t, j, i - 1)
    }
}

/// One entry of the phase-one tableau made from `t`, which has `n` artificial columns
/// between the columns of `t` and the right-hand side.
pub open spec fn phase_one_entry(t: Seq<Seq<real>>, n: int, i: int, j: int) -> real {
    let b = rhs_column(t);
    let source = if j < b {
        j
    } else {
        b
    };
    if b <= j < b + n {
        if i >= 1 && negative_row(t, i) && j - b == negative_rows(t, i) {
            1real
        } else {
            0real
        }
    } else if i == 0 {
        flipped_sum(t, source, t.len() as int)
    } else if negative_row(t, i) {
        -t[i][source]
    } else {
        t[i][source]
    }
}

/// The phase-one tableau made from `t`: every constraint row with a negative right-hand
/// side is negated, one artificial unit column is added for each such row, in row order,
/// and the objective row is the sum of the negated rows.
pub open spec fn phase_one_tableau(t: Seq<Seq<real>>) -> Seq<Seq<real>> {
    let n = negative_rows(t, t.len() as int) as int;
    Seq::new(
        t.len(),
        |i: int| Seq::new((t[0].len() + n) as nat, |j: int| phase_one_entry(t, n, i, j)),
    )
}

/// The objective row `o` after the basic column `v` is substituted out by its row `row`:
/// every other coefficient loses `o[v]` times the row's entry, the constant in the last
/// place gains `o[v]` times the row's right-hand side, and the coefficient of `v` is zero.
pub open spec fn substituted(o: Seq<real>, row: Seq<real>, v: int) -> Seq<real> {
    Seq::new(
        o.len(),
        |j: int|
            if j == v {
                0real
            } else if j < o.len() - 1 {
                o[j] + o[v] * (-row[j])
            } else {
                o[j] + o[v] * row[row.len() - 1]
            },
    )
}

/// The objective row `o` after each of the first `v` columns that is clean basic in `t`
/// and has a coefficient other than zero was substituted out, in column order.
pub open spec fn reduced(o: Seq<real>, t: Seq<Seq<real>>, v: int) -> Seq<real>
    decreases v,
{
    if v <= 0 {
        o
    } else {
        let p = reduced(o, t, v - 1);
        if p[v - 1] != 0real && clean_basic(t, v - 1) {
            substituted(p, t[unit_row(t, v - 1)], v - 1)
        } else {
            p
        }
    }
}

/// One entry of the phase-two tableau made from the final phase-one tableau `t` and the
/// objective row `o` that was set aside.
pub open spec fn phase_two_entry(t: Seq<Seq<real>>, o: Seq<real>, i: int, j: int) -> real {
    let last = o.len() - 1;
    if i == 0 {
        if j == last {
            -reduced(o, t, last)[last]
        } else {
            reduced(o, t, last)[j]
        }
    } else if j == last {
        t[i][rhs_column(t)]
    } else {
        t[i][j]
    }
}

/// The phase-two tableau made from the final phase-one tableau `t` and the objective row
/// `o` that was set aside: the objective row is `o` with its basic columns substituted
/// out and its constant negated, and the constraint rows lose their artificial columns.
pub open spec fn phase_two_tableau(t: Seq<Seq<real>>, o: Seq<real>) -> Seq<Seq<real>> {
    Seq::new(t.len(), |i: int| Seq::new(o.len(), |j: int| phase_two_entry(t, o, i, j)))
}

/// How a solve ends.
pub enum Outcome {
    /// An optimal tableau was reached: the solution and the objective value read off it.
    Optimal { solution: Map<usize, real>, value: real },
    /// The objective grows without bound.
    Unbounded,
    /// No point satisfies all constraints.
    Infeasible,
    /// A ratio test had two rows with the same smallest ratio.
    Degenerate,
    /// A run of the optimize loop used up its pivots.
    Exhausted,
}

/// The number of structural columns: `count` where it is given, else the columns that
/// are left when the right-hand side and one slack column per constraint row are taken
/// away.
pub open spec fn structural_count(t: Seq<Seq<real>>, count: Option<usize>) -> int {
    match count {
        Some(n) => n as int,
        None => rhs_column(t) - (t.len() - 1),
    }
}

/// What the end of the last run of the optimize loop means for the solve, with the
/// solution read off the first `n` columns.
pub open spec fn concluded(r: Run, n: int) -> Outcome {
    match r {
        Run::Optimal(f) => Outcome::Optimal {
            solution: extracted(f, n),
            value: objective_value(f),
        },
        Run::Unbounded(_) => Outcome::Unbounded,
        Run::Degenerate(_) => Outcome::Degenerate,
        Run::Exhausted(_) => Outcome::Exhausted,
    }
}

/// The two-phase method on `t`, each run of the optimize loop allowed `fuel` pivots: how
/// it ends, and the tableau it ends on.
pub open spec fn two_phase_outcome(t: Seq<Seq<real>>, fuel: nat) -> (Outcome, Seq<Seq<real>>) {
    match run(phase_one_tableau(t), fuel) {
        Run::Optimal(f) => if objective_value(f) == 0real {
            let second = run(phase_two_tableau(f, t[0]), fuel);
            (concluded(second, structural_count(t, None)), second.tableau())
        } else {
            (Outcome::Infeasible, f)
        },
        Run::Unbounded(f) => (Outcome::Infeasible, f),
        Run::Degenerate(f) => (Outcome::Degenerate, f),
        Run::Exhausted(f) => (Outcome::Exhausted, f),
    }
}

/// A solve on `t`, each run of the optimize loop allowed `fuel` pivots: the two-phase
/// method where some right-hand side is negative, else the optimize loop alone.
pub open spec fn solve_outcome(t: Seq<Seq<real>>, count: Option<usize>, fuel: nat) -> (
    Outcome,
    Seq<Seq<real>>,
) {
    if needs_phase_one(t) {
        two_phase_outcome(t, fuel)
    } else {
        let only = run(t, fuel);
        (concluded(only, structural_count(t, count)), only.tableau())
    }
}

} // verus!
