use vstd::prelude::*;

verus! {

/// A number type the simplex method can compute with.
///
/// Every value stands for a real number, and every operation is exact on the numbers the
/// values stand for. All contracts of this library are stated over those real numbers, so
/// what they promise holds for a number type whose operations are exact, such as
/// [`Rational`](crate::rational::Rational). With a number type that rounds, the library
/// takes the same steps on the rounded numbers.
pub trait Scalar: Sized {
    /// The real number that this value stands for. An implementation says which number
    /// that is; here it is left open.
    open spec fn val(&self) -> real {
        arbitrary()
    }

    /// The number zero.
    fn zero() -> (r: Self)
        ensures
            r.val() == 0real,
    ;

    /// The number one.
    fn one() -> (r: Self)
        ensures
            r.val() == 1real,
    ;

    /// A second value that stands for the same number.
    fn duplicate(&self) -> (r: Self)
        ensures
            r.val() == self.val(),
    ;

    /// The sum `self + other`.
    fn plus(&self, other: &Self) -> (r: Self)
        ensures
            r.val() == self.val() + other.val(),
    ;

    /// The difference `self - other`.
    fn minus(&self, other: &Self) -> (r: Self)
        ensures
            r.val() == self.val() - other.val(),
    ;

    /// The product `self * other`.
    fn times(&self, other: &Self) -> (r: Self)
        ensures
            r.val() == self.val() * other.val(),
    ;

    /// The quotient `self / other`, for a divisor that is not zero.
    fn over(&self, other: &Self) -> (r: Self)
        requires
            other.val() != 0real,
        ensures
            r.val() == self.val() / other.val(),
    ;

    /// The opposite number `-self`.
    fn negated(&self) -> (r: Self)
        ensures
            r.val() == -self.val(),
    ;

    /// Whether `self < other`.
    fn less_than(&self, other: &Self) -> (r: bool)
        ensures
            r == (self.val() < other.val()),
    ;

    /// Whether `self` and `other` stand for the same number.
    fn equals(&self, other: &Self) -> (r: bool)
        ensures
            r == (self.val() == other.val()),
    ;
}

/// The numbers that a row of values stands for.
pub open spec fn row_view<T: Scalar>(row: Seq<T>) -> Seq<real> {
    Seq::new(row.len(), |j: int| row[j].val())
}

/// The matrix of numbers that a vector of rows stands for.
pub open spec fn matrix_view<T: Scalar>(rows: Seq<Vec<T>>) -> Seq<Seq<real>> {
    Seq::new(rows.len(), |i: int| row_view(rows[i]@))
}

/// The numbers that the values of a map stand for, under the same keys.
pub open spec fn map_view<T: Scalar>(m: Map<usize, T>) -> Map<usize, real> {
    Map::new(|k: usize| m.contains_key(k), |k: usize| m[k].val())
}

/// Whether `x` is strictly positive.
pub fn is_positive<T: Scalar>(x: &T) -> (r: bool)
    ensures
        r == (x.val() > 0real),
{
    let zero = T::zero();
    zero.less_than(x)
}

/// Whether `x` is strictly negative.
pub fn is_negative<T: Scalar>(x: &T) -> (r: bool)
    ensures
        r == (x.val() < 0real),
{
    let zero = T::zero();
    x.less_than(&zero)
}

} // verus!
