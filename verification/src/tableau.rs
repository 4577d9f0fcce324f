use vstd::prelude::*;

verus! {

/// Whether `t` has at least one row and every row has the same positive width.
pub open spec fn rectangular(t: Seq<Seq<real>>) -> bool {
    &&& t.len() >= 1
    &&& t[0].len() >= 1
    &&& forall|i: int| 0 <= i < t.len() ==> (#[trigger] t[i]).len() == t[0].len()
}

/// The index of the right-hand-side column, the last one.
pub open spec fn rhs_column(t: Seq<Seq<real>>) -> int {
    t[0].len() - 1
}

/// No entry of the objective row, the right-hand side aside, is strictly positive.
pub open spec fn optimal(t: Seq<Seq<real>>) -> bool {
    forall|j: int| 0 <= j < rhs_column(t) ==> (#[trigger] t[0][j]) <= 0real
}

/// Column `e` holds the largest entry of the objective row, and is the first that does.
pub open spec fn is_entering(t: Seq<Seq<real>>, e: int) -> bool {
    &&& 0 <= e < rhs_column(t)
    &&& forall|j: int| 0 <= j < rhs_column(t) ==> (#[trigger] t[0][j]) <= t[0][e]
    &&& forall|j: int| 0 <= j < e ==> (#[trigger] t[0][j]) < t[0][e]
}

/// The entering column: the first column with the largest objective entry.
pub open spec fn entering_column(t: Seq<Seq<real>>) -> int {
    choose|e: int| is_entering(t, e)
}

/// No constraint row has a strictly positive entry in column `e`.
pub open spec fn unbounded_in(t: Seq<Seq<real>>, e: int) -> bool {
    forall|i: int| 1 <= i < t.len() ==> (#[trigger] t[i])[e] <= 0real
}

/// The ratio of row `i` for column `e`: its right-hand side over its entry in `e`.
pub open spec fn ratio(t: Seq<Seq<real>>, i: int, e: int) -> real {
    t[i][rhs_column(t)] / t[i][e]
}

/// Row `r` takes part in the ratio test for column `e`.
pub open spec fn candidate(t: Seq<Seq<real>>, i: int, e: int) -> bool {
    1 <= i < t.len() && t[i][e] > 0real
}

/// Row `r` is the one candidate whose ratio is strictly below that of every other candidate.
pub open spec fn is_leaving(t: Seq<Seq<real>>, r: int, e: int) -> bool {
    &&& candidate(t, r, e)
    &&& forall|i: int| #[trigger] candidate(t, i, e) && i != r ==> ratio(t, r, e) < ratio(t, i, e)
}

/// The leaving row for column `e`, where there is one.
pub open spec fn leaving_row(t: Seq<Seq<real>>, e: int) -> int {
    choose|r: int| is_leaving(t, r, e)
}

/// Two different candidates share the smallest ratio for column `e`.
pub open spec fn tied_in(t: Seq<Seq<real>>, e: int) -> bool {
    exists|a: int, b: int| is_tie(t, a, b, e)
}

/// Rows `a` and `b` are different candidates with the same ratio, and no candidate has a
/// smaller one.
pub open spec fn is_tie(t: Seq<Seq<real>>, a: int, b: int, e: int) -> bool {
    &&& a != b
    &&& candidate(t, a, e)
    &&& candidate(t, b, e)
    &&& ratio(t, a, e) == ratio(t, b, e)
    &&& forall|i: int| #[trigger] candidate(t, i, e) ==> ratio(t, a, e) <= ratio(t, i, e)
}

/// The tableau after a Gauss-Jordan step on the entry in row `r` and column `e`: row `r` is
/// divided by that entry, and from every other row its own entry in column `e` times the
/// scaled row `r` is taken away.
pub open spec fn pivoted(t: Seq<Seq<real>>, r: int, e: int) -> Seq<Seq<real>> {
    Seq::new(
        t.len(),
        |i: int|
            Seq::new(
                t[i].len(),
                |j: int|
                    if i == r {
                        t[r][j] / t[r][e]
                    } else {
                        t[i][j] - t[i][e] * (t[r][j] / t[r][e])
                    },
            ),
    )
}

/// What the simplex method does next on a tableau.
pub enum Step {
    /// The objective row has no positive entry: the tableau is final.
    Optimal,
    /// The entering column has no positive entry: the objective grows without bound.
    Unbounded,
    /// Two rows share the smallest ratio of the ratio test.
    Degenerate,
    /// A Gauss-Jordan step on the given entry.
    Pivot { row: int, column: int },
}

/// The pivot that the entering column and the ratio test pick on `t`, or why there is none.
pub open spec fn pivot_choice(t: Seq<Seq<real>>) -> Step {
    let e = entering_column(t);
    if unbounded_in(t, e) {
        Step::Unbounded
    } else if tied_in(t, e) {
        Step::Degenerate
    } else {
        Step::Pivot { row: leaving_row(t, e), column: e }
    }
}

/// The next step on `t`.
pub open spec fn step(t: Seq<Seq<real>>) -> Step {
    if optimal(t) {
        Step::Optimal
    } else {
        pivot_choice(t)
    }
}

/// How a run of the optimize loop ends, with the tableau it ends on.
pub enum Run {
    /// No positive objective entry is left.
    Optimal(Seq<Seq<real>>),
    /// The objective grows without bound.
    Unbounded(Seq<Seq<real>>),
    /// Two rows shared the smallest ratio of a ratio test.
    Degenerate(Seq<Seq<real>>),
    /// The allowed number of pivots was used up.
    Exhausted(Seq<Seq<real>>),
}

impl Run {
    /// The tableau the run ended on.
    pub open spec fn tableau(self) -> Seq<Seq<real>> {
        match self {
            Run::Optimal(t) => t,
            Run::Unbounded(t) => t,
            Run::Degenerate(t) => t,
            Run::Exhausted(t) => t,
        }
    }
}

/// The optimize loop on `t`, allowed `fuel` pivots.
pub open spec fn run(t: Seq<Seq<real>>, fuel: nat) -> Run
    decreases fuel,
{
    match step(t) {
        Step::Optimal => Run::Optimal(t),
        Step::Unbounded => Run::Unbounded(t),
        Step::Degenerate => Run::Degenerate(t),
        Step::Pivot { row, column } => if fuel == 0 {
            Run::Exhausted(t)
        } else {
            run(pivoted(t, row, column), (fuel - 1) as nat)
        },
    }
}

/// At most one column is the entering column.
pub proof fn lemma_entering_unique(t: Seq<Seq<real>>, a: int, b: int)
    requires
        is_entering(t, a),
        is_entering(t, b),
    ensures
        a == b,
{
    if a < b {
        assert(t[0][b] <= t[0][a]);
    } else if b < a {
        assert(t[0][a] <= t[0][b]);
    }
}

/// At most one row is the leaving row.
pub proof fn lemma_leaving_unique(t: Seq<Seq<real>>, e: int, a: int, b: int)
    requires
        is_leaving(t, a, e),
        is_leaving(t, b, e),
    ensures
        a == b,
{
}

/// A tie rules out a leaving row.
pub proof fn lemma_tie_excludes_leaving(t: Seq<Seq<real>>, e: int, r: int)
    requires
        tied_in(t, e),
    ensures
        !is_leaving(t, r, e),
{
    let (a, b) = choose|a: int, b: int| is_tie(t, a, b, e);
}

/// Among the first `k` columns, where there is one, one holds the largest entry of the
/// objective row among them and is the first that does.
pub proof fn lemma_first_largest(t: Seq<Seq<real>>, k: int) -> (e: int)
    requires
        k >= 1,
    ensures
        0 <= e < k,
        forall|j: int| 0 <= j < k ==> (#[trigger] t[0][j]) <= t[0][e],
        forall|j: int| 0 <= j < e ==> (#[trigger] t[0][j]) < t[0][e],
    decreases k,
{
    if k == 1 {
        0
    } else {
        let e = lemma_first_largest(t, k - 1);
        if t[0][e] < t[0][k - 1] {
            k - 1
        } else {
            e
        }
    }
}

/// A tableau with a column besides the right-hand side has an entering column.
pub proof fn lemma_entering_exists(t: Seq<Seq<real>>)
    requires
        rhs_column(t) >= 1,
    ensures
        is_entering(t, entering_column(t)),
{
    let e = lemma_first_largest(t, rhs_column(t));
    assert(is_entering(t, e));
}

/// Among the candidates of the rows before row `k`, where there is one, one has a ratio
/// that none of the others is below.
pub proof fn lemma_least_ratio(t: Seq<Seq<real>>, e: int, k: int) -> (m: int)
    requires
        exists|i: int| 1 <= i < k && candidate(t, i, e),
        k <= t.len(),
    ensures
        1 <= m < k,
        candidate(t, m, e),
        forall|i: int| 1 <= i < k && #[trigger] candidate(t, i, e) ==> ratio(t, m, e) <= ratio(t, i, e),
    decreases k,
{
    let last = k - 1;
    if exists|i: int| 1 <= i < last && candidate(t, i, e) {
        let m = lemma_least_ratio(t, e, last);
        if candidate(t, last, e) && ratio(t, last, e) < ratio(t, m, e) {
            last
        } else {
            m
        }
    } else {
        last
    }
}

/// Where column `e` has a candidate and no two candidates share the smallest ratio, the
/// ratio test has a leaving row.
pub proof fn lemma_leaving_exists(t: Seq<Seq<real>>, e: int)
    requires
        !unbounded_in(t, e),
        !tied_in(t, e),
    ensures
        is_leaving(t, leaving_row(t, e), e),
{
    let c = choose|i: int| 1 <= i < t.len() && !((#[trigger] t[i])[e] <= 0real);
    assert(candidate(t, c, e));
    let m = lemma_least_ratio(t, e, t.len() as int);
    assert forall|i: int| #[trigger] candidate(t, i, e) && i != m implies ratio(t, m, e) < ratio(
        t,
        i,
        e,
    ) by {
        if ratio(t, m, e) == ratio(t, i, e) {
            assert(is_tie(t, m, i, e));
        }
    }
    assert(is_leaving(t, m, e));
}

/// What the choice of a pivot means: the column is the entering column; without a
/// candidate in it the choice is `Unbounded`, with two candidates that share the smallest
/// ratio it is `Degenerate`, and else the row is the leaving row.
pub proof fn lemma_pivot_choice(t: Seq<Seq<real>>)
    requires
        rhs_column(t) >= 1,
    ensures
        is_entering(t, entering_column(t)),
        match pivot_choice(t) {
            Step::Optimal => false,
            Step::Unbounded => unbounded_in(t, entering_column(t)),
            Step::Degenerate => !unbounded_in(t, entering_column(t)) && tied_in(
                t,
                entering_column(t),
            ),
            Step::Pivot { row, column } => column == entering_column(t) && is_leaving(
                t,
                row,
                column,
            ),
        },
{
    lemma_entering_exists(t);
    let e = entering_column(t);
    if !unbounded_in(t, e) && !tied_in(t, e) {
        lemma_leaving_exists(t, e);
    }
}

/// A Gauss-Jordan step keeps the shape of the tableau.
pub proof fn lemma_pivoted_shape(t: Seq<Seq<real>>, r: int, e: int)
    requires
        rectangular(t),
    ensures
        rectangular(pivoted(t, r, e)),
        pivoted(t, r, e).len() == t.len(),
        pivoted(t, r, e)[0].len() == t[0].len(),
{
    let p = pivoted(t, r, e);
    assert forall|i: int| 0 <= i < p.len() implies (#[trigger] p[i]).len() == p[0].len() by {}
}

/// A run of the optimize loop keeps the shape of the tableau.
pub proof fn lemma_run_shape(t: Seq<Seq<real>>, fuel: nat)
    requires
        rectangular(t),
    ensures
        rectangular(run(t, fuel).tableau()),
        run(t, fuel).tableau().len() == t.len(),
        run(t, fuel).tableau()[0].len() == t[0].len(),
    decreases fuel,
{
    match step(t) {
        Step::Pivot { row, column } => {
            if fuel > 0 {
                lemma_pivoted_shape(t, row, column);
                lemma_run_shape(pivoted(t, row, column), (fuel - 1) as nat);
            }
        },
        _ => {},
    }
}

/// Column `j` has a one in constraint row `r` and a zero in every other constraint row.
pub open spec fn unit_at(t: Seq<Seq<real>>, j: int, r: int) -> bool {
    &&& 1 <= r < t.len()
    &&& t[r][j] == 1real
    &&& forall|i: int| 1 <= i < t.len() && i != r ==> (#[trigger] t[i])[j] == 0real
}

/// Column `j` is a clean basic column: one constraint row holds a one there, all others zero.
pub open spec fn clean_basic(t: Seq<Seq<real>>, j: int) -> bool {
    exists|r: int| unit_at(t, j, r)
}

/// The row in which the clean basic column `j` has its one.
pub open spec fn unit_row(t: Seq<Seq<real>>, j: int) -> int {
    choose|r: int| unit_at(t, j, r)
}

/// The value read off for column `j`: the right-hand side of its row where the column is
/// clean basic, zero where it is not.
pub open spec fn column_value(t: Seq<Seq<real>>, j: int) -> real {
    if clean_basic(t, j) {
        t[unit_row(t, j)][rhs_column(t)]
    } else {
        0real
    }
}

/// The solution read off a tableau: each clean basic column among the first `n` with the
/// right-hand side of its row.
pub open spec fn extracted(t: Seq<Seq<real>>, n: int) -> Map<usize, real> {
    Map::new(|j: usize| j < n && clean_basic(t, j as int), |j: usize| column_value(t, j as int))
}

/// The objective value read off a tableau: the opposite of the objective row's right-hand
/// side.
pub open spec fn objective_value(t: Seq<Seq<real>>) -> real {
    -t[0][rhs_column(t)]
}

/// A column has its one in at most one row.
pub proof fn lemma_unit_row_unique(t: Seq<Seq<real>>, j: int, a: int, b: int)
    requires
        unit_at(t, j, a),
        unit_at(t, j, b),
    ensures
        a == b,
{
}

/// One entry of the initial tableau for the objective coefficients `costs` and the
/// standard rows `rows`.
pub open spec fn built_entry(costs: Seq<real>, rows: Seq<Seq<real>>, i: int, j: int) -> real {
    let n = costs.len() as int;
    let m = rows.len() as int;
    if i == 0 {
        if j < n {
            costs[j]
        } else {
            0real
        }
    } else if j < n {
        rows[i - 1][j]
    } else if j < n + m {
        if j - n == i - 1 {
            1real
        } else {
            0real
        }
    } else {
        rows[i - 1][n]
    }
}

/// The initial tableau for the objective coefficients `costs` and the standard rows
/// `rows`. Row 0 holds the coefficients, then a zero for each constraint and one more.
/// Row `i` holds the coefficients of standard row `i`, then the unit vector of its slack
/// column, then its right-hand side.
pub open spec fn built(costs: Seq<real>, rows: Seq<Seq<real>>) -> Seq<Seq<real>> {
    Seq::new(
        rows.len() + 1,
        |i: int| Seq::new(costs.len() + rows.len() + 1, |j: int| built_entry(costs, rows, i, j)),
    )
}

} // verus!
