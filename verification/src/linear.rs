use vstd::prelude::*;

verus! {

/// The sum of the products `a[j] * x[j]` over the first `n` places.
pub open spec fn dot(a: Seq<real>, x: Seq<real>, n: int) -> real
    decreases n,
{
    if n <= 0 {
        0real
    } else {
        dot(a, x, n - 1) + a[n - 1] * x[n - 1]
    }
}

/// Every entry is zero or more.
pub open spec fn nonnegative(x: Seq<real>) -> bool {
    forall|j: int| 0 <= j < x.len() ==> (#[trigger] x[j]) >= 0real
}

/// The sum depends on the first `n` places only.
pub proof fn lemma_dot_agree(a: Seq<real>, x: Seq<real>, b: Seq<real>, y: Seq<real>, n: int)
    requires
        forall|j: int| 0 <= j < n ==> a[j] == b[j] && x[j] == y[j],
    ensures
        dot(a, x, n) == dot(b, y, n),
    decreases n,
{
    if n > 0 {
        lemma_dot_agree(a, x, b, y, n - 1);
    }
}

/// The sum of a row that is `u` less `c` times `w` in every place.
pub proof fn lemma_dot_combination(
    y: Seq<real>,
    u: Seq<real>,
    c: real,
    w: Seq<real>,
    x: Seq<real>,
    n: int,
)
    requires
        forall|j: int| 0 <= j < n ==> y[j] == u[j] - c * w[j],
    ensures
        dot(y, x, n) == dot(u, x, n) - c * dot(w, x, n),
    decreases n,
{
    if n > 0 {
        lemma_dot_combination(y, u, c, w, x, n - 1);
        let k = n - 1;
        assert((u[k] - c * w[k]) * x[k] == u[k] * x[k] - c * (w[k] * x[k])) by (nonlinear_arith);
        assert(c * (dot(w, x, n - 1) + w[k] * x[k]) == c * dot(w, x, n - 1) + c * (w[k] * x[k]))
            by (nonlinear_arith);
    } else {
    }
}

/// The sum of a row that is `w` divided by `p` in every place.
pub proof fn lemma_dot_scaled(y: Seq<real>, w: Seq<real>, p: real, x: Seq<real>, n: int)
    requires
        p != 0real,
        forall|j: int| 0 <= j < n ==> y[j] == w[j] / p,
    ensures
        dot(y, x, n) == dot(w, x, n) / p,
    decreases n,
{
    if n > 0 {
        lemma_dot_scaled(y, w, p, x, n - 1);
        let k = n - 1;
        let d = dot(w, x, n - 1);
        assert(d / p + (w[k] / p) * x[k] == (d + w[k] * x[k]) / p) by (nonlinear_arith)
            requires
                p != 0real,
        ;
    } else {
        assert(0real / p == 0real) by (nonlinear_arith)
            requires
                p != 0real,
        ;
    }
}

/// The sum of a row that is `p` times `w` in every place.
pub proof fn lemma_dot_multiple(y: Seq<real>, w: Seq<real>, p: real, x: Seq<real>, n: int)
    requires
        forall|j: int| 0 <= j < n ==> y[j] == p * w[j],
    ensures
        dot(y, x, n) == p * dot(w, x, n),
    decreases n,
{
    if n > 0 {
        lemma_dot_multiple(y, w, p, x, n - 1);
        let k = n - 1;
        let d = dot(w, x, n - 1);
        assert(p * d + (p * w[k]) * x[k] == p * (d + w[k] * x[k])) by (nonlinear_arith);
    } else {
    }
}

/// Coefficients that are zero or less give, at a point that is zero or more, a sum that
/// is zero or less.
pub proof fn lemma_dot_sign(a: Seq<real>, x: Seq<real>, n: int)
    requires
        forall|j: int| 0 <= j < n ==> a[j] <= 0real && x[j] >= 0real,
    ensures
        dot(a, x, n) <= 0real,
    decreases n,
{
    if n > 0 {
        lemma_dot_sign(a, x, n - 1);
        let k = n - 1;
        assert(a[k] * x[k] <= 0real) by (nonlinear_arith)
            requires
                a[k] <= 0real,
                x[k] >= 0real,
        ;
    }
}

/// Places in which the row or the point is zero add nothing.
pub proof fn lemma_dot_zero_tail(a: Seq<real>, x: Seq<real>, n: int, k: int)
    requires
        0 <= n <= k,
        forall|j: int| n <= j < k ==> a[j] == 0real || x[j] == 0real,
    ensures
        dot(a, x, k) == dot(a, x, n),
    decreases k,
{
    if k > n {
        lemma_dot_zero_tail(a, x, n, k - 1);
        let j = k - 1;
    }
}

/// Where the row or the point is zero in every place from `n` up to `k` but in place
/// `at`, those places add the product in place `at`.
pub proof fn lemma_dot_single(a: Seq<real>, x: Seq<real>, n: int, k: int, at: int)
    requires
        0 <= n <= at < k,
        forall|j: int| n <= j < k && j != at ==> a[j] == 0real || x[j] == 0real,
    ensures
        dot(a, x, k) == dot(a, x, n) + a[at] * x[at],
    decreases k,
{
    if k - 1 == at {
        lemma_dot_zero_tail(a, x, n, at);
    } else {
        lemma_dot_single(a, x, n, k - 1, at);
        let j = k - 1;
    }
}

} // verus!
