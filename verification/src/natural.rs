use vstd::prelude::*;

verus! {

/// The base of the limbs of a natural number: two to the power 32.
pub open spec fn radix() -> int {
    0x1_0000_0000
}

/// The weight of the limb in place `i`: the base to the power `i`.
pub open spec fn weight(i: nat) -> int
    decreases i,
{
    if i == 0 {
        1
    } else {
        radix() * weight((i - 1) as nat)
    }
}

/// The limb in place `i`, zero beyond the end.
pub open spec fn limb(limbs: Seq<u32>, i: int) -> int {
    if 0 <= i < limbs.len() {
        limbs[i] as int
    } else {
        0
    }
}

/// The number that the first `n` limbs stand for, least significant limb first.
pub open spec fn prefix_value(limbs: Seq<u32>, n: nat) -> int
    decreases n,
{
    if n == 0 {
        0
    } else {
        prefix_value(limbs, (n - 1) as nat) + limb(limbs, n - 1) * weight((n - 1) as nat)
    }
}

/// The number that the limbs stand for, least significant limb first.
pub open spec fn value(limbs: Seq<u32>) -> int {
    prefix_value(limbs, limbs.len())
}

/// The weight of every place is one or more.
pub proof fn lemma_weight_positive(i: nat)
    ensures
        weight(i) >= 1,
    decreases i,
{
    if i > 0 {
        lemma_weight_positive((i - 1) as nat);
    }
}

/// The weight of place `i + j` is the product of the weights of the places `i` and `j`.
pub proof fn lemma_weight_add(i: nat, j: nat)
    ensures
        weight(i + j) == weight(i) * weight(j),
    decreases j,
{
    if j == 0 {
    } else {
        lemma_weight_add(i, (j - 1) as nat);
        let a = weight(i);
        let b = weight((j - 1) as nat);
        assert(radix() * (a * b) == a * (radix() * b)) by (nonlinear_arith);
    }
}

/// The first `n` limbs stand for a number below the weight of place `n`.
pub proof fn lemma_prefix_bound(limbs: Seq<u32>, n: nat)
    ensures
        0 <= prefix_value(limbs, n) < weight(n),
    decreases n,
{
    if n > 0 {
        lemma_prefix_bound(limbs, (n - 1) as nat);
        lemma_weight_positive((n - 1) as nat);
        let w = weight((n - 1) as nat);
        let d = limb(limbs, n - 1);
        assert(0 <= d * w && d * w + w <= radix() * w) by (nonlinear_arith)
            requires
                0 <= d < radix(),
                w >= 1,
        ;
    }
}

/// Limbs that agree in the places from `from` up to `to` add the same to the value.
pub proof fn lemma_prefix_agree(a: Seq<u32>, b: Seq<u32>, from: nat, to: nat)
    requires
        from <= to,
        forall|i: int| from <= i < to ==> limb(a, i) == limb(b, i),
    ensures
        prefix_value(a, to) - prefix_value(a, from) == prefix_value(b, to) - prefix_value(b, from),
    decreases to,
{
    if from < to {
        lemma_prefix_agree(a, b, from, (to - 1) as nat);
    }
}

/// Places beyond the end add nothing to the value.
pub proof fn lemma_prefix_beyond(limbs: Seq<u32>, n: nat)
    requires
        n >= limbs.len(),
    ensures
        prefix_value(limbs, n) == value(limbs),
    decreases n,
{
    if n > limbs.len() {
        lemma_prefix_beyond(limbs, (n - 1) as nat);
    }
}

/// A limb pushed behind the others adds itself times the weight of its place.
pub proof fn lemma_push(limbs: Seq<u32>, x: u32)
    ensures
        value(limbs.push(x)) == value(limbs) + x * weight(limbs.len()),
        forall|n: nat| n <= limbs.len() ==> prefix_value(limbs.push(x), n) == prefix_value(limbs, n),
{
    let longer = limbs.push(x);
    assert forall|n: nat| n <= limbs.len() implies prefix_value(longer, n) == prefix_value(
        limbs,
        n,
    ) by {
        assert forall|i: int| 0 <= i < n implies limb(longer, i) == limb(limbs, i) by {}
        lemma_prefix_agree(longer, limbs, 0, n);
    }
}

/// A natural number of any size.
pub struct Natural {
    limbs: Vec<u32>,
}

/// The limb in place `i`, zero beyond the end.
fn limb_at(limbs: &Vec<u32>, i: usize) -> (r: u32)
    ensures
        r == limb(limbs@, i as int),
{
    if i < limbs.len() {
        limbs[i]
    } else {
        0
    }
}

/// A zero in the last place adds nothing to the value.
pub proof fn lemma_drop_zero(limbs: Seq<u32>)
    requires
        limbs.len() > 0,
        limbs.last() == 0,
    ensures
        value(limbs.drop_last()) == value(limbs),
{
    let shorter = limbs.drop_last();
    assert forall|i: int| 0 <= i < shorter.len() implies limb(shorter, i) == limb(limbs, i) by {}
    lemma_prefix_agree(shorter, limbs, 0, shorter.len());
    assert(limb(limbs, limbs.len() - 1) * weight((limbs.len() - 1) as nat) == 0)
        by (nonlinear_arith)
        requires
            limb(limbs, limbs.len() - 1) == 0,
    ;
}

impl Natural {
    /// The number of the limbs, kept without zeros in the last places.
    fn trimmed(limbs: Vec<u32>) -> (r: Self)
        ensures
            r.val() == value(limbs@) as nat,
    {
        let mut limbs = limbs;
        let ghost all = limbs@;
        while limbs.len() > 0 && limbs[limbs.len() - 1] == 0
            invariant
                value(limbs@) == value(all),
            decreases limbs.len(),
        {
            proof {
                lemma_drop_zero(limbs@);
            }
            limbs.pop();
        }
        Natural { limbs }
    }

    /// The number that this value stands for.
    pub closed spec fn val(&self) -> nat {
        value(self.limbs@) as nat
    }

    /// The number zero.
    pub fn zero() -> (r: Self)
        ensures
            r.val() == 0,
    {
        Natural { limbs: Vec::new() }
    }

    /// The number `x`.
    pub fn from_u64(x: u64) -> (r: Self)
        ensures
            r.val() == x,
    {
        let low: u32 = (x % 0x1_0000_0000) as u32;
        let high: u32 = (x / 0x1_0000_0000) as u32;
        let mut limbs: Vec<u32> = Vec::new();
        limbs.push(low);
        limbs.push(high);
        proof {
            let s = limbs@;
            assert(prefix_value(s, 1) == prefix_value(s, 0) + limb(s, 0) * weight(0));
            assert(value(s) == low + high * radix());
        }
        Natural::trimmed(limbs)
    }

    /// The number that the limbs stand for, least significant limb first, each limb a
    /// digit to the base two to the power 32.
    pub fn from_limbs(limbs: Vec<u32>) -> (r: Self)
        ensures
            r.val() == value(limbs@),
    {
        proof {
            lemma_prefix_bound(limbs@, limbs@.len());
        }
        Natural::trimmed(limbs)
    }

    /// The limbs of the number, least significant limb first, each limb a digit to the
    /// base two to the power 32.
    pub fn limbs(&self) -> (r: Vec<u32>)
        ensures
            value(r@) == self.val(),
    {
        let copy = self.duplicate();
        proof {
            lemma_prefix_bound(self.limbs@, self.limbs@.len());
            lemma_prefix_bound(copy.limbs@, copy.limbs@.len());
        }
        copy.limbs
    }

    /// A second value that stands for the same number.
    pub fn duplicate(&self) -> (r: Self)
        ensures
            r.val() == self.val(),
    {
        let n: usize = self.limbs.len();
        let mut limbs: Vec<u32> = Vec::new();
        let mut i: usize = 0;
        while i < n
            invariant
                n == self.limbs@.len(),
                i <= n,
                limbs@ == self.limbs@.take(i as int),
            decreases n - i,
        {
            limbs.push(self.limbs[i]);
            i += 1;
        }
        assert(limbs@ =~= self.limbs@);
        Natural { limbs }
    }

    /// Whether this is the number zero.
    pub fn is_zero(&self) -> (r: bool)
        ensures
            r == (self.val() == 0),
    {
        let zero = Natural::zero();
        self.order(&zero) == 0
    }

    /// The sum `self + other`.
    pub fn plus(&self, other: &Self) -> (r: Self)
        ensures
            r.val() == self.val() + other.val(),
    {
        let ghost a = self.limbs@;
        let ghost b = other.limbs@;
        let n: usize = if self.limbs.len() < other.limbs.len() {
            other.limbs.len()
        } else {
            self.limbs.len()
        };
        let mut limbs: Vec<u32> = Vec::new();
        let mut carry: u64 = 0;
        let mut i: usize = 0;
        while i < n
            invariant
                a == self.limbs@,
                b == other.limbs@,
                i <= n,
                limbs@.len() == i,
                carry <= 1,
                value(limbs@) + carry * weight(i as nat) == prefix_value(a, i as nat)
                    + prefix_value(b, i as nat),
            decreases n - i,
        {
            let x = limb_at(&self.limbs, i);
            let y = limb_at(&other.limbs, i);
            let sum: u64 = x as u64 + y as u64 + carry;
            let digit: u32 = (sum % 0x1_0000_0000) as u32;
            let next: u64 = sum / 0x1_0000_0000;
            proof {
                lemma_push(limbs@, digit);
                let w = weight(i as nat);
                assert(digit * w + next * (radix() * w) == (x + y + carry) * w)
                    by (nonlinear_arith)
                    requires
                        x + y + carry == digit + next * radix(),
                ;
                assert((x + y + carry) * w == x * w + y * w + carry * w) by (nonlinear_arith);
            }
            limbs.push(digit);
            carry = next;
            i += 1;
        }
        proof {
            lemma_push(limbs@, carry as u32);
            lemma_prefix_beyond(a, n as nat);
            lemma_prefix_beyond(b, n as nat);
            lemma_prefix_bound(a, a.len());
            lemma_prefix_bound(b, b.len());
        }
        limbs.push(carry as u32);
        Natural::trimmed(limbs)
    }

    /// The difference `self - other`, where `other` is not the larger.
    pub fn minus(&self, other: &Self) -> (r: Self)
        requires
            self.val() >= other.val(),
        ensures
            r.val() == self.val() - other.val(),
    {
        let ghost a = self.limbs@;
        let ghost b = other.limbs@;
        let n: usize = if self.limbs.len() < other.limbs.len() {
            other.limbs.len()
        } else {
            self.limbs.len()
        };
        let mut limbs: Vec<u32> = Vec::new();
        let mut borrow: u64 = 0;
        let mut i: usize = 0;
        while i < n
            invariant
                a == self.limbs@,
                b == other.limbs@,
                i <= n,
                limbs@.len() == i,
                borrow <= 1,
                value(limbs@) - borrow * weight(i as nat) == prefix_value(a, i as nat)
                    - prefix_value(b, i as nat),
            decreases n - i,
        {
            let x = limb_at(&self.limbs, i);
            let y = limb_at(&other.limbs, i);
            let take: u64 = y as u64 + borrow;
            let (digit, next): (u32, u64) = if x as u64 >= take {
                ((x as u64 - take) as u32, 0u64)
            } else {
                ((x as u64 + 0x1_0000_0000 - take) as u32, 1u64)
            };
            proof {
                lemma_push(limbs@, digit);
                let w = weight(i as nat);
                assert(digit * w - next * (radix() * w) == (x - y - borrow) * w)
                    by (nonlinear_arith)
                    requires
                        digit - next * radix() == x - y - borrow,
                ;
                assert((x - y - borrow) * w == x * w - y * w - borrow * w) by (nonlinear_arith);
            }
            limbs.push(digit);
            borrow = next;
            i += 1;
        }
        proof {
            lemma_prefix_beyond(a, n as nat);
            lemma_prefix_beyond(b, n as nat);
            lemma_prefix_bound(a, a.len());
            lemma_prefix_bound(b, b.len());
            lemma_prefix_bound(limbs@, n as nat);
            if borrow == 1 {
            } else {
            }
        }
        Natural::trimmed(limbs)
    }

    /// The order of `self` and `other`: -1 where `self` is the smaller, 0 where they are
    /// the same number, 1 where `self` is the larger.
    pub fn order(&self, other: &Self) -> (r: i8)
        ensures
            r == if self.val() < other.val() {
                -1i8
            } else if self.val() == other.val() {
                0i8
            } else {
                1i8
            },
    {
        let ghost a = self.limbs@;
        let ghost b = other.limbs@;
        let n: usize = if self.limbs.len() < other.limbs.len() {
            other.limbs.len()
        } else {
            self.limbs.len()
        };
        proof {
            lemma_prefix_beyond(a, n as nat);
            lemma_prefix_beyond(b, n as nat);
            lemma_prefix_bound(a, a.len());
            lemma_prefix_bound(b, b.len());
        }
        let mut i: usize = n;
        while i > 0
            invariant
                a == self.limbs@,
                b == other.limbs@,
                i <= n,
                prefix_value(a, n as nat) == value(a),
                prefix_value(b, n as nat) == value(b),
                value(a) >= 0,
                value(b) >= 0,
                forall|k: int| i <= k < n ==> limb(a, k) == limb(b, k),
            decreases i,
        {
            let x = limb_at(&self.limbs, i - 1);
            let y = limb_at(&other.limbs, i - 1);
            if x != y {
                proof {
                    lemma_prefix_agree(a, b, i as nat, n as nat);
                    lemma_prefix_bound(a, (i - 1) as nat);
                    lemma_prefix_bound(b, (i - 1) as nat);
                    let w = weight((i - 1) as nat);
                    if x < y {
                        assert(x * w + w <= y * w) by (nonlinear_arith)
                            requires
                                x + 1 <= y,
                                w >= 0,
                        ;
                    } else {
                        assert(y * w + w <= x * w) by (nonlinear_arith)
                            requires
                                y + 1 <= x,
                                w >= 0,
                        ;
                    }
                }
                if x < y {
                    return -1;
                } else {
                    return 1;
                }
            }
            i -= 1;
        }
        proof {
            lemma_prefix_agree(a, b, 0, n as nat);
        }
        0
    }

    /// `self` times the limb `d` times the weight of place `shift`.
    fn scaled(&self, d: u32, shift: usize) -> (r: Self)
        ensures
            r.val() == self.val() * d * weight(shift as nat),
    {
        let ghost a = self.limbs@;
        let n: usize = self.limbs.len();
        let mut limbs: Vec<u32> = Vec::new();
        let mut k: usize = 0;
        while k < shift
            invariant
                k <= shift,
                limbs@.len() == k,
                value(limbs@) == 0,
            decreases shift - k,
        {
            proof {
                lemma_push(limbs@, 0u32);
            }
            limbs.push(0u32);
            k += 1;
        }
        let mut carry: u64 = 0;
        let mut i: usize = 0;
        while i < n
            invariant
                a == self.limbs@,
                n == a.len(),
                i <= n,
                limbs@.len() == shift + i,
                carry < 0x1_0000_0000,
                value(limbs@) + carry * weight((shift + i) as nat) == prefix_value(a, i as nat) * d
                    * weight(shift as nat),
            decreases n - i,
        {
            let x = self.limbs[i];
            assert(x as u64 * d as u64 + carry <= 0xffff_ffff * 0xffff_ffff + 0xffff_ffff)
                by (nonlinear_arith)
                requires
                    x <= 0xffff_ffff,
                    d <= 0xffff_ffff,
                    carry <= 0xffff_ffff,
            ;
            let product: u64 = x as u64 * d as u64 + carry;
            let digit: u32 = (product % 0x1_0000_0000) as u32;
            let next: u64 = product / 0x1_0000_0000;
            proof {
                lemma_push(limbs@, digit);
                lemma_weight_add(shift as nat, i as nat);
                let w = weight((shift + i) as nat);
                let ws = weight(shift as nat);
                let wi = weight(i as nat);
                let p = prefix_value(a, i as nat);
                assert(digit * w + next * (radix() * w) == (x * d + carry) * w)
                    by (nonlinear_arith)
                    requires
                        x * d + carry == digit + next * radix(),
                ;
                assert((x * d + carry) * w == x * d * w + carry * w) by (nonlinear_arith);
                assert((p + x * wi) * d * ws == p * d * ws + x * d * w) by (nonlinear_arith)
                    requires
                        w == ws * wi,
                ;
            }
            limbs.push(digit);
            carry = next;
            i += 1;
        }
        proof {
            lemma_push(limbs@, carry as u32);
            lemma_prefix_bound(a, a.len());
            lemma_weight_positive(shift as nat);
        }
        limbs.push(carry as u32);
        Natural::trimmed(limbs)
    }

    /// The product `self * other`.
    pub fn times(&self, other: &Self) -> (r: Self)
        ensures
            r.val() == self.val() * other.val(),
    {
        let ghost b = other.limbs@;
        let n: usize = other.limbs.len();
        let mut total = Natural::zero();
        let mut i: usize = 0;
        while i < n
            invariant
                b == other.limbs@,
                n == b.len(),
                i <= n,
                total.val() == self.val() * prefix_value(b, i as nat),
            decreases n - i,
        {
            let part = self.scaled(other.limbs[i], i);
            proof {
                let s = self.val() as int;
                let p = prefix_value(b, i as nat);
                let x = limb(b, i as int);
                let w = weight(i as nat);
                assert(s * (p + x * w) == s * p + s * x * w) by (nonlinear_arith);
            }
            total = total.plus(&part);
            i += 1;
        }
        proof {
            lemma_prefix_bound(b, b.len());
        }
        total
    }

    /// `self` times the base of the limbs, plus the limb `low`.
    fn shifted_plus(&self, low: u32) -> (r: Self)
        ensures
            r.val() == self.val() * radix() + low,
    {
        proof {
            assert(weight(1) == radix() * weight(0));
        }
        self.scaled(1, 1).plus(&Natural::from_u64(low as u64))
    }

    /// `self` times the limb `d`.
    fn times_limb(&self, d: u32) -> (r: Self)
        ensures
            r.val() == self.val() * d,
    {
        self.scaled(d, 0)
    }

    /// The largest limb `c` with `c * divisor <= self`, for a `self` below the divisor
    /// times the base of the limbs.
    fn quotient_limb(&self, divisor: &Self) -> (c: u32)
        requires
            self.val() < divisor.val() * radix(),
        ensures
            c * divisor.val() <= self.val() < (c + 1) * divisor.val(),
    {
        let mut low: u64 = 0;
        let mut high: u64 = 0x1_0000_0000;
        while high - low > 1
            invariant
                low < high <= 0x1_0000_0000,
                low * divisor.val() <= self.val() < high * divisor.val(),
            decreases high - low,
        {
            let middle: u64 = low + (high - low) / 2;
            let product = divisor.times_limb(middle as u32);
            assert(product.val() == middle * divisor.val()) by (nonlinear_arith)
                requires
                    product.val() == divisor.val() * middle,
            ;
            if product.order(self) <= 0 {
                low = middle;
            } else {
                high = middle;
            }
        }
        low as u32
    }

    /// The quotient and the remainder of `self` by a divisor that is not zero.
    pub fn divide(&self, divisor: &Self) -> (r: (Self, Self))
        requires
            divisor.val() > 0,
        ensures
            self.val() == r.0.val() * divisor.val() + r.1.val(),
            r.1.val() < divisor.val(),
    {
        let ghost a = self.limbs@;
        let ghost d = divisor.val() as int;
        let n: usize = self.limbs.len();
        let mut quotient = Natural::zero();
        let mut remainder = Natural::zero();
        let mut j: usize = n;
        proof {
            lemma_prefix_bound(a, a.len());
            assert((0 * d + 0) * weight(n as nat) == 0) by (nonlinear_arith);
        }
        while j > 0
            invariant
                a == self.limbs@,
                d == divisor.val(),
                d > 0,
                j <= a.len(),
                value(a) >= 0,
                remainder.val() < d,
                value(a) == prefix_value(a, j as nat) + (quotient.val() * d + remainder.val())
                    * weight(j as nat),
            decreases j,
        {
            let x = self.limbs[j - 1];
            let current = remainder.shifted_plus(x);
            let c = current.quotient_limb(divisor);
            let rest = current.minus(&divisor.times_limb(c));
            let more = quotient.shifted_plus(c);
            proof {
                let w = weight((j - 1) as nat);
                let q = quotient.val() as int;
                let r = remainder.val() as int;
                assert(rest.val() < d) by (nonlinear_arith)
                    requires
                        rest.val() == current.val() - d * c,
                        current.val() < (c + 1) * d,
                ;
                assert(x * w + (q * d + r) * (radix() * w) == ((q * radix() + c) * d + (r * radix()
                    + x - d * c)) * w) by (nonlinear_arith);
            }
            quotient = more;
            remainder = rest;
            j -= 1;
        }
        (quotient, remainder)
    }

    /// The greatest common divisor of `self` and `other`: it divides both, and every number
    /// that divides both divides it. It is the other number where one of the two is zero.
    pub fn common_divisor(&self, other: &Self) -> (g: Self)
        ensures
            divides(g.val(), self.val()),
            divides(g.val(), other.val()),
            forall|d: nat|
                divides(d, self.val()) && divides(d, other.val()) ==> divides(d, g.val()),
    {
        let mut x = self.duplicate();
        let mut y = other.duplicate();
        while !y.is_zero()
            invariant
                forall|d: nat|
                    divides(d, x.val()) && divides(d, y.val()) ==> divides(d, self.val())
                        && divides(d, other.val()),
                forall|d: nat|
                    divides(d, self.val()) && divides(d, other.val()) ==> divides(d, x.val())
                        && divides(d, y.val()),
            decreases y.val(),
        {
            let (q, r) = x.divide(&y);
            proof {
                assert forall|d: nat| divides(d, y.val()) && divides(d, r.val()) implies divides(
                    d,
                    x.val(),
                ) by {
                    let k = choose|k: nat| is_multiple(y.val(), d, k);
                    let l = choose|l: nat| is_multiple(r.val(), d, l);
                    assert(x.val() == (q.val() * k + l) * d) by (nonlinear_arith)
                        requires
                            x.val() == q.val() * y.val() + r.val(),
                            y.val() == k * d,
                            r.val() == l * d,
                    ;
                    assert(is_multiple(x.val(), d, q.val() * k + l));
                }
                assert forall|d: nat| divides(d, x.val()) && divides(d, y.val()) implies divides(
                    d,
                    r.val(),
                ) by {
                    let k = choose|k: nat| is_multiple(x.val(), d, k);
                    let l = choose|l: nat| is_multiple(y.val(), d, l);
                    if d == 0 {
                        assert(is_multiple(r.val(), d, 0)) by {}
                    } else {
                        assert(k >= q.val() * l && r.val() == (k - q.val() * l) * d)
                            by (nonlinear_arith)
                            requires
                                x.val() == q.val() * y.val() + r.val(),
                                x.val() == k * d,
                                y.val() == l * d,
                                d > 0,
                        ;
                        assert(is_multiple(r.val(), d, (k - q.val() * l) as nat));
                    }
                }
            }
            x = y;
            y = r;
        }
        proof {
            assert(is_multiple(x.val(), x.val(), 1)) by {}
            assert(is_multiple(y.val(), x.val(), 0)) by {}
        }
        x
    }
}

/// The number `n` is `k` times `d`.
pub open spec fn is_multiple(n: nat, d: nat, k: nat) -> bool {
    n == k * d
}

/// The number `d` divides the number `n`.
pub open spec fn divides(d: nat, n: nat) -> bool {
    exists|k: nat| is_multiple(n, d, k)
}

/// A division by a divisor of the number leaves no remainder.
pub proof fn lemma_exact_division(n: nat, d: nat, q: nat, r: nat)
    requires
        divides(d, n),
        n == q * d + r,
        r < d,
    ensures
        r == 0,
        n == q * d,
{
    let k = choose|k: nat| is_multiple(n, d, k);
    assert(r == 0) by (nonlinear_arith)
        requires
            n == k * d,
            n == q * d + r,
            r < d,
    ;
}

} // verus!
