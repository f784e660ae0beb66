//! Signed fixed-point decimals: `value / precision`, stored as two `i128`s.
use vstd::prelude::*;
use vstd::arithmetic::div_mod::*;

verus! {

/// `x` fits in an `i128`.
pub open spec fn fits_i128(x: int) -> bool {
    i128::MIN <= x <= i128::MAX
}

/// Integer division rounding toward zero, as Rust's `/` on signed integers.
pub open spec fn trunc_div(x: int, d: int) -> int {
    if x == 0 {
        0
    } else if x > 0 && d > 0 {
        x / d
    } else if x < 0 && d < 0 {
        (-x) / (-d)
    } else if x < 0 {
        -((-x) / d)
    } else {
        -(x / (-d))
    }
}

/// The quotient `x / d` of two `i128`s exists (no division by zero, no overflow).
pub open spec fn div_defined(x: int, d: int) -> bool {
    d != 0 && !(x == i128::MIN && d == -1)
}

proof fn lemma_trunc_div_fits(x: int, d: int)
    requires
        fits_i128(x),
        div_defined(x, d),
    ensures
        fits_i128(trunc_div(x, d)),
{
    let n = if x < 0 { -x } else { x };
    let m = if d < 0 { -d } else { d };
    lemma_div_is_ordered_by_denominator(n, 1, m);
    lemma_div_pos_is_pos(n, m);
    if m >= 2 {
        lemma_div_is_ordered_by_denominator(n, 2, m);
    }
}

/// `q * d` is `x` cut toward zero to a multiple of `d`: it lies between 0
/// and `x`, less than `|d|` away from `x`. So `q` is the exact quotient
/// `x / d` rounded toward zero.
pub open spec fn rounds_toward_zero(q: int, d: int, x: int) -> bool {
    let abs_d = if d < 0 { -d } else { d };
    &&& x >= 0 ==> 0 <= q * d <= x < q * d + abs_d
    &&& x < 0 ==> x <= q * d <= 0 && q * d - abs_d < x
}

proof fn lemma_div_bracket(n: int, m: int)
    requires
        n >= 0,
        m > 0,
    ensures
        0 <= (n / m) * m <= n < (n / m) * m + m,
{
    lemma_fundamental_div_mod(n, m);
    lemma_mod_pos_bound(n, m);
    lemma_div_pos_is_pos(n, m);
    let q = n / m;
    assert(q * m >= 0 && q * m == m * q) by (nonlinear_arith)
        requires
            q >= 0,
            m > 0,
    ;
}

/// Rust's division rounds toward zero: `trunc_div(x, d) * d` is `x` cut
/// toward zero to a multiple of `d`.
pub proof fn lemma_trunc_div_rounds(x: int, d: int)
    requires
        d != 0,
    ensures
        rounds_toward_zero(trunc_div(x, d), d, x),
{
    let q = trunc_div(x, d);
    if x == 0 {
        assert(q * d == 0);
    } else if x > 0 && d > 0 {
        lemma_div_bracket(x, d);
    } else if x < 0 && d < 0 {
        lemma_div_bracket(-x, -d);
        assert(q * d == -(q * (-d))) by (nonlinear_arith);
    } else if x < 0 {
        lemma_div_bracket(-x, d);
        let q0 = (-x) / d;
        assert(q * d == -(q0 * d)) by (nonlinear_arith)
            requires
                q == -q0,
        ;
    } else {
        lemma_div_bracket(x, -d);
        let q0 = x / (-d);
        assert(q * d == q0 * (-d)) by (nonlinear_arith)
            requires
                q == -q0,
        ;
    }
}

/// Rust's `x / d` on `i128`, rounding toward zero.
fn quotient(x: i128, d: i128) -> (q: i128)
    requires
        div_defined(x as int, d as int),
    ensures
        q == trunc_div(x as int, d as int),
{
    proof {
        lemma_trunc_div_fits(x as int, d as int);
    }
    x.checked_div(d).unwrap()
}

/// One Newton step toward the integer square root of `n`, from `z > 0`.
pub open spec fn newton_step(n: int, z: int) -> int {
    (z + n / z) / 2
}

/// Newton's iteration for the integer square root of `n`, from a guess `z` no
/// smaller than that root: steps until two successive guesses differ by at
/// most one, and yields the last guess.
pub open spec fn newton_descent(n: int, z: int) -> int
    decreases z,
    when 0 < z && 0 <= n && n < (z + 1) * (z + 1)
{
    let next = newton_step(n, z);
    if next - z > 1 || z - next > 1 {
        proof {
            lemma_newton_step(n, z);
        }
        newton_descent(n, next)
    } else {
        next
    }
}

/// The value of the square root of the decimal `x / p`: Newton's iteration on
/// `x * p` (the square of the result's value, at precision `p`), started from
/// the average of `x` and `p`, and run while two successive guesses differ by
/// more than one.
pub open spec fn sqrt_value(x: int, p: int) -> int {
    if x == 0 {
        0
    } else {
        let start = trunc_div(x + p, 2);
        if start > 1 || start < -1 {
            newton_descent(x * p, start)
        } else {
            start
        }
    }
}

pub proof fn lemma_newton_step(n: int, z: int)
    requires
        0 < z,
        0 <= n,
        n < (z + 1) * (z + 1),
    ensures
        0 <= newton_step(n, z) <= z + 1,
        n < (newton_step(n, z) + 1) * (newton_step(n, z) + 1),
        n < z * z ==> newton_step(n, z) < z,
        z * z <= n ==> z <= newton_step(n, z),
        0 < n && newton_step(n, z) - z <= 1 && z - newton_step(n, z) <= 1 ==> (newton_step(n, z)
            - 1) * (newton_step(n, z) - 1) <= n,
        0 < n && newton_step(n, z) - z <= 1 && z - newton_step(n, z) <= 1 ==> newton_step(n, z)
            * newton_step(n, z) <= n + 1,
        0 <= n / z <= z + 2,
        n <= z * z ==> n / z <= z,
{
    let q = n / z;
    let r = n % z;
    lemma_fundamental_div_mod(n, z);
    lemma_mod_pos_bound(n, z);
    lemma_div_pos_is_pos(n, z);
    assert(n == z * q + r && 0 <= r < z && q >= 0);
    let s = newton_step(n, z);
    assert(s == (z + q) / 2);
    assert(2 * s <= z + q <= 2 * s + 1);
    // The next guess is never below the root.
    assert(n < z * (q + 1)) by (nonlinear_arith)
        requires
            n == z * q + r,
            r < z,
    ;
    assert(z * (q + 1) <= (s + 1) * (s + 1)) by (nonlinear_arith)
        requires
            2 * (s + 1) >= z + q + 1,
            z > 0,
            q >= 0,
    {
        assert(4 * (s + 1) * (s + 1) >= (z + q + 1) * (z + q + 1));
        assert((z + q + 1) * (z + q + 1) - 4 * z * (q + 1) == (z - q - 1) * (z - q - 1));
    }
    // The quotient is at most two above the guess.
    assert(q <= z + 2) by (nonlinear_arith)
        requires
            z * q <= n,
            n < (z + 1) * (z + 1),
            z > 0,
    {
        if q > z + 2 {
            assert(z * q >= z * (z + 3));
        }
    }
    if n <= z * z {
        assert(q <= z) by (nonlinear_arith)
            requires
                z * q <= n,
                n <= z * z,
                z > 0,
        {
            if q > z {
                assert(z * q >= z * (z + 1));
            }
        }
    }
    if n < z * z {
        assert(q < z) by (nonlinear_arith)
            requires
                z * q <= n,
                n < z * z,
                z > 0,
        {
            if q >= z {
                assert(z * q >= z * z);
            }
        }
    }
    if z * z <= n {
        assert(z < s + 1) by (nonlinear_arith)
            requires
                z * z <= n,
                n < (s + 1) * (s + 1),
                z > 0,
                s >= 0,
        {
            if z >= s + 1 {
                assert(z * z >= (s + 1) * (s + 1));
            }
        }
    }
    if 0 < n && s - z <= 1 && z - s <= 1 {
        if z * z <= n {
            if s == z + 1 {
                assert(s * s <= n + 1) by (nonlinear_arith)
                    requires
                        s == z + 1,
                        2 * s <= z + q,
                        z * q <= n,
                        z > 0,
                {
                    assert(q >= z + 2);
                    assert(z * q >= z * (z + 2));
                }
            } else {
                assert(s == z);
                assert(s * s <= n) by (nonlinear_arith)
                    requires
                        s == z,
                        z * z <= n,
                ;
            }
            if s >= 1 {
                assert((s - 1) * (s - 1) <= z * z) by (nonlinear_arith)
                    requires
                        0 <= s - 1 <= z,
                ;
            }
        } else {
            assert(s == z - 1);
            assert(q >= z - 2);
            assert((z - 2) * (z - 2) <= n && s * s <= n + 1) by (nonlinear_arith)
                requires
                    q >= z - 2,
                    z * q <= n,
                    z >= 2,
                    s == z - 1,
            {
                assert(z * q >= z * (z - 2));
            }
        }
    }
}

proof fn lemma_newton_descent(n: int, z: int)
    requires
        0 < z,
        0 < n,
        n < (z + 1) * (z + 1),
    ensures
        1 <= newton_descent(n, z),
        (newton_descent(n, z) - 1) * (newton_descent(n, z) - 1) <= n,
        n < (newton_descent(n, z) + 1) * (newton_descent(n, z) + 1),
        newton_descent(n, z) * newton_descent(n, z) <= n + 1,
    decreases z,
{
    lemma_newton_step(n, z);
    let next = newton_step(n, z);
    if next - z > 1 || z - next > 1 {
        lemma_newton_descent(n, next);
    } else {
        if next == 0 {
            assert(n < 1);
        }
    }
}

proof fn lemma_initial_guess(x: int, p: int)
    requires
        x > 0,
        p > 0,
    ensures
        (x + p) / 2 >= 1,
        x * p < ((x + p) / 2 + 1) * ((x + p) / 2 + 1),
{
    let z = (x + p) / 2;
    assert(x * p < (z + 1) * (z + 1)) by (nonlinear_arith)
        requires
            2 * (z + 1) > x + p,
            x > 0,
            p > 0,
    {
        assert(4 * (z + 1) * (z + 1) > (x + p) * (x + p));
        assert((x + p) * (x + p) - 4 * x * p == (x - p) * (x - p));
    }
}

/// A fixed-point decimal: the number `value / precision`.
#[derive(Clone, Copy, Debug)]
pub struct FixedPoint {
    pub value: i128,
    pub precision: i128,
}

impl FixedPoint {
    /// A well-formed decimal has a positive precision; `new` refuses any other.
    pub open spec fn wf(self) -> bool {
        self.precision > 0
    }

    /// Sum of two decimals of the same precision.
    pub open spec fn spec_sum(self, other: FixedPoint) -> FixedPoint {
        FixedPoint { value: (self.value + other.value) as i128, precision: self.precision }
    }

    /// Difference of two decimals of the same precision.
    pub open spec fn spec_difference(self, other: FixedPoint) -> FixedPoint {
        FixedPoint { value: (self.value - other.value) as i128, precision: self.precision }
    }

    /// Raw product of the two values, before rescaling.
    pub open spec fn raw_product(self, other: FixedPoint) -> int {
        self.value * other.value
    }

    /// Product: the raw product rescaled by the right operand's precision,
    /// at the larger of the two precisions.
    pub open spec fn spec_product(self, other: FixedPoint) -> FixedPoint {
        FixedPoint {
            value: trunc_div(self.raw_product(other), other.precision as int) as i128,
            precision: if other.precision < self.precision {
                self.precision
            } else {
                other.precision
            },
        }
    }

    /// The product exists: the raw product fits and its rescaling is defined.
    pub open spec fn product_defined(self, other: FixedPoint) -> bool {
        &&& fits_i128(self.raw_product(other))
        &&& div_defined(self.raw_product(other), other.precision as int)
    }

    /// Left value scaled up by the right operand's precision.
    pub open spec fn scaled_dividend(self, other: FixedPoint) -> int {
        self.value * other.precision
    }

    /// Quotient at the left operand's precision.
    pub open spec fn spec_quotient(self, other: FixedPoint) -> FixedPoint {
        FixedPoint {
            value: trunc_div(self.scaled_dividend(other), other.value as int) as i128,
            precision: self.precision,
        }
    }

    /// The quotient exists: nonzero divisor, the scaled dividend fits, and the
    /// division does not overflow.
    pub open spec fn quotient_defined(self, other: FixedPoint) -> bool {
        &&& other.value != 0
        &&& fits_i128(self.scaled_dividend(other))
        &&& div_defined(self.scaled_dividend(other), other.value as int)
    }

    /// Creates `value / precision`; the precision must be positive.
    pub fn new(value: i128, precision: i128) -> (r: Self)
        requires
            precision > 0,
        ensures
            r == (FixedPoint { value, precision }),
            r.wf(),
    {
        FixedPoint { value, precision }
    }

    /// The whole number `value` at the given precision. A value that does not
    /// fit, as an `i128` or once scaled, is refused.
    pub fn from_u128(value: u128, precision: i128) -> (r: Self)
        requires
            value <= i128::MAX,
            fits_i128(value * precision),
        ensures
            r.value == value * precision,
            r.precision == precision,
    {
        FixedPoint { value: (value as i128) * precision, precision }
    }

    /// The whole part `value / precision`, rounded toward zero. A negative
    /// whole part, which has no `u128`, is refused.
    pub fn to_u128(&self) -> (r: u128)
        requires
            div_defined(self.value as int, self.precision as int),
            trunc_div(self.value as int, self.precision as int) >= 0,
        ensures
            r == trunc_div(self.value as int, self.precision as int),
    {
        quotient(self.value, self.precision) as u128
    }

    /// Sum of two decimals of the same precision.
    pub fn add(&self, other: &FixedPoint) -> (r: Self)
        requires
            self.precision == other.precision,
            fits_i128(self.value + other.value),
        ensures
            r == self.spec_sum(*other),
            r.value == self.value + other.value,
    {
        FixedPoint { value: self.value.checked_add(other.value).unwrap(), precision: self.precision }
    }

    /// Difference of two decimals of the same precision.
    pub fn sub(&self, other: &FixedPoint) -> (r: Self)
        requires
            self.precision == other.precision,
            fits_i128(self.value - other.value),
        ensures
            r == self.spec_difference(*other),
            r.value == self.value - other.value,
    {
        FixedPoint { value: self.value.checked_sub(other.value).unwrap(), precision: self.precision }
    }

    /// Product: `self.value * other.value / other.precision`, at the larger
    /// precision.
    pub fn mul(&self, other: &FixedPoint) -> (r: Self)
        requires
            self.product_defined(*other),
        ensures
            r == self.spec_product(*other),
            rounds_toward_zero(r.value as int, other.precision as int, self.value * other.value),
            r.precision == if other.precision < self.precision {
                self.precision
            } else {
                other.precision
            },
    {
        let product = self.value.checked_mul(other.value).unwrap();
        proof {
            lemma_trunc_div_fits(product as int, other.precision as int);
            lemma_trunc_div_rounds(product as int, other.precision as int);
        }
        FixedPoint { value: quotient(product, other.precision), precision: self.precision.max(other.precision) }
    }

    /// Quotient: `self.value * other.precision / other.value`, at the
    /// precision of `self`.
    pub fn div(&self, other: &FixedPoint) -> (r: Self)
        requires
            self.quotient_defined(*other),
        ensures
            r == self.spec_quotient(*other),
            rounds_toward_zero(r.value as int, other.value as int, self.value * other.precision),
            r.precision == self.precision,
    {
        let scaled = self.value.checked_mul(other.precision).unwrap();
        proof {
            lemma_trunc_div_fits(scaled as int, other.value as int);
            lemma_trunc_div_rounds(scaled as int, other.value as int);
        }
        FixedPoint { value: quotient(scaled, other.value), precision: self.precision }
    }

    /// Square root by Newton's iteration on `value * precision`, started from
    /// the average of value and precision. With a positive precision, the
    /// result's value `r` brackets the exact square root of
    /// `n = value * precision`: `(r - 1)^2 <= n < (r + 1)^2` and `r^2 <= n + 1`.
    /// A non-positive precision is accepted only where the iteration does not
    /// start (the starting guess is within one of zero).
    pub fn sqrt(&self) -> (r: Self)
        requires
            self.value >= 0,
            self.value == 0 || {
                &&& fits_i128(self.value + self.precision)
                &&& self.precision > 0 ==> fits_i128(self.value * self.precision)
                &&& self.precision <= 0 ==> -1 <= trunc_div(self.value + self.precision, 2) <= 1
            },
        ensures
            r.precision == self.precision,
            r.value == sqrt_value(self.value as int, self.precision as int),
            self.value == 0 ==> r.value == 0,
            self.value > 0 && self.precision > 0 ==> {
                let n = self.value * self.precision;
                &&& (r.value - 1) * (r.value - 1) <= n
                &&& n < (r.value + 1) * (r.value + 1)
                &&& r.value * r.value <= n + 1
            },
    {
        let x = self.value;
        let precision = self.precision;

        if x == 0 {
            return FixedPoint { value: 0, precision };
        }
        let mut z = (x + precision) / 2;
        let mut prev: i128 = 0;
        let ghost n: int = x * precision;
        let ghost start: int = z as int;
        proof {
            assert(z == trunc_div(x + precision, 2));
            if precision > 0 {
                lemma_initial_guess(x as int, precision as int);
                assert(n >= 1) by (nonlinear_arith)
                    requires
                        n == x * precision,
                        x >= 1,
                        precision >= 1,
                ;
                if start <= 1 {
                    assert(z == 1);
                    assert((z - 1) * (z - 1) == 0 && z * z == 1) by (nonlinear_arith)
                        requires
                            z == 1,
                    ;
                }
            }
        }

        while z - prev > 1 || prev - z > 1
            invariant
                x == self.value,
                precision == self.precision,
                0 < x,
                n == x * precision,
                fits_i128(x + precision),
                start == trunc_div(x + precision, 2),
                precision <= 0 ==> z == start && prev == 0 && -1 <= z <= 1,
                precision > 0 ==> {
                    &&& 1 <= n
                    &&& fits_i128(n)
                    &&& start == (x + precision) / 2
                    &&& 1 <= z
                    &&& 0 <= prev
                    &&& n < (z + 1) * (z + 1)
                    &&& (z - prev > 1 || prev - z > 1) ==> z <= start
                    &&& !(z - prev > 1 || prev - z > 1) ==> (z - 1) * (z - 1) <= n && z * z <= n + 1
                },
                sqrt_value(x as int, precision as int) == if z - prev > 1 || prev - z > 1 {
                    newton_descent(n, z as int)
                } else {
                    z as int
                },
            decreases 2 * z + if z - prev > 1 || prev - z > 1 {
                3int
            } else {
                0int
            },
        {
            proof {
                lemma_newton_step(n, z as int);
                if n > z * z {
                    assert(z < 0x1_0000_0000_0000_0000) by (nonlinear_arith)
                        requires
                            z * z < n,
                            n <= i128::MAX,
                            z >= 1,
                    {
                        if z >= 0x1_0000_0000_0000_0000 {
                            assert(z * z >= 0x1_0000_0000_0000_0000 * 0x1_0000_0000_0000_0000);
                        }
                    }
                }
            }
            prev = z;
            z = (z + (x * precision) / z) / 2;
            proof {
                assert(z == newton_step(n, prev as int));
                if z == 0 {
                    assert(n < 1) by (nonlinear_arith)
                        requires
                            z == 0,
                            n < (z + 1) * (z + 1),
                    ;
                }
            }
        }
        FixedPoint { value: z, precision }
    }

    /// `self * self`.
    pub fn square(&self) -> (r: Self)
        requires
            self.product_defined(*self),
        ensures
            r == self.spec_product(*self),
    {
        self.mul(self)
    }
}

/// Dividing an exact multiple `a * b` by `b` gives back `a`.
pub proof fn lemma_trunc_div_exact(a: int, b: int)
    requires
        b != 0,
    ensures
        trunc_div(a * b, b) == a,
{
    if b > 0 {
        if a >= 0 {
            lemma_div_multiples_vanish(a, b);
            assert(a * b >= 0) by (nonlinear_arith)
                requires
                    a >= 0,
                    b > 0,
            ;
            assert(b * a == a * b) by (nonlinear_arith);
        } else {
            lemma_div_multiples_vanish(-a, b);
            assert(a * b < 0 && -(a * b) == b * (-a)) by (nonlinear_arith)
                requires
                    a < 0,
                    b > 0,
            ;
        }
    } else {
        if a > 0 {
            lemma_div_multiples_vanish(a, -b);
            assert(a * b < 0 && -(a * b) == (-b) * a) by (nonlinear_arith)
                requires
                    a > 0,
                    b < 0,
            ;
        } else if a < 0 {
            lemma_div_multiples_vanish(-a, -b);
            assert(a * b > 0 && a * b == (-b) * (-a)) by (nonlinear_arith)
                requires
                    a < 0,
                    b < 0,
            ;
        } else {
            assert(a * b == 0) by (nonlinear_arith)
                requires
                    a == 0,
            ;
        }
    }
}

/// The whole number `n` at precision `p`.
pub open spec fn whole(n: int, p: int) -> FixedPoint {
    FixedPoint { value: (n * p) as i128, precision: p as i128 }
}

/// Subtracting what was added gives back the original decimal.
pub proof fn lemma_sub_undoes_add(a: FixedPoint, b: FixedPoint)
    requires
        a.precision == b.precision,
        fits_i128(a.value + b.value),
    ensures
        a.spec_sum(b).spec_difference(b) == a,
{
}

/// Addition of decimals of the same precision does not depend on the order
/// of its operands.
pub proof fn lemma_add_commutes(a: FixedPoint, b: FixedPoint)
    requires
        a.precision == b.precision,
    ensures
        a.spec_sum(b) == b.spec_sum(a),
{
}

/// Multiplying by one (`precision / precision`) leaves a decimal of that
/// precision unchanged.
pub proof fn lemma_mul_by_one(a: FixedPoint)
    requires
        a.wf(),
    ensures
        a.spec_product(FixedPoint { value: a.precision, precision: a.precision }) == a,
{
    lemma_trunc_div_exact(a.value as int, a.precision as int);
}

/// Dividing by one (`precision / precision`) leaves a decimal unchanged.
pub proof fn lemma_div_by_one(a: FixedPoint)
    requires
        a.wf(),
    ensures
        a.spec_quotient(FixedPoint { value: a.precision, precision: a.precision }) == a,
{
    lemma_trunc_div_exact(a.value as int, a.precision as int);
}

/// The product of two whole numbers is the whole number of their product.
pub proof fn lemma_whole_product(m: int, n: int, p: int)
    requires
        p > 0,
        fits_i128(p),
        fits_i128(m * p),
        fits_i128(n * p),
        fits_i128(m * n * p),
    ensures
        whole(m, p).spec_product(whole(n, p)) == whole(m * n, p),
{
    assert((m * p) * (n * p) == (m * n * p) * p) by (nonlinear_arith);
    lemma_trunc_div_exact(m * n * p, p);
}

/// The quotient of two whole numbers, the first a multiple `n * k` of the
/// second, is the whole number `k`.
pub proof fn lemma_whole_quotient(n: int, k: int, p: int)
    requires
        p > 0,
        n != 0,
        fits_i128(p),
        fits_i128(n * k * p),
        fits_i128(n * p),
        fits_i128(k * p),
    ensures
        whole(n * k, p).spec_quotient(whole(n, p)) == whole(k, p),
{
    assert((n * k * p) * p == (k * p) * (n * p)) by (nonlinear_arith);
    assert(n * p != 0) by (nonlinear_arith)
        requires
            n != 0,
            p > 0,
    ;
    lemma_trunc_div_exact(k * p, n * p);
}

/// Multiplication is the exact product rounded toward zero: when the left
/// operand has the larger (or equal) precision `pa`, the result is at `pa`
/// and `r.value / pa` is `(a.value / pa) * (b.value / pb)` cut toward zero to
/// a multiple of `1 / pa`, i.e. `r.value * pb` is `a.value * b.value` cut
/// toward zero to a multiple of `pb`.
pub proof fn lemma_product_rounds_exact_product(a: FixedPoint, b: FixedPoint)
    requires
        a.wf(),
        b.wf(),
        b.precision <= a.precision,
        a.product_defined(b),
    ensures
        a.spec_product(b).precision == a.precision,
        rounds_toward_zero(a.spec_product(b).value as int, b.precision as int, a.value * b.value),
{
    lemma_trunc_div_fits(a.value * b.value, b.precision as int);
    lemma_trunc_div_rounds(a.value * b.value, b.precision as int);
}

/// Division is the exact quotient rounded toward zero: the result is at the
/// dividend's precision `pa`, and `r.value / pa` times `b.value / pb` is
/// `a.value / pa` up to rounding, i.e. `r.value * b.value` is
/// `a.value * pb` cut toward zero to a multiple of `b.value`.
pub proof fn lemma_quotient_rounds_exact_quotient(a: FixedPoint, b: FixedPoint)
    requires
        a.wf(),
        b.wf(),
        a.quotient_defined(b),
    ensures
        a.spec_quotient(b).precision == a.precision,
        rounds_toward_zero(a.spec_quotient(b).value as int, b.value as int, a.value * b.precision),
{
    lemma_trunc_div_fits(a.value * b.precision, b.value as int);
    lemma_trunc_div_rounds(a.value * b.precision, b.value as int);
}

/// Whole numbers multiply exactly also at different precisions: `m` at
/// precision `pa` times `n` at a precision `pb <= pa` is `m * n` at `pa`
/// (so 2.000 times 3.0 is 6.000).
pub proof fn lemma_whole_product_mixed(m: int, n: int, pa: int, pb: int)
    requires
        pb > 0,
        pb <= pa,
        fits_i128(pa),
        fits_i128(m * pa),
        fits_i128(n * pb),
        fits_i128(m * n * pa),
        fits_i128(m * n * pa * pb),
    ensures
        whole(m, pa).product_defined(whole(n, pb)),
        whole(m, pa).spec_product(whole(n, pb)) == whole(m * n, pa),
{
    assert((m * pa) * (n * pb) == (m * n * pa) * pb) by (nonlinear_arith);
    lemma_trunc_div_exact(m * n * pa, pb);
}

/// Whole numbers divide exactly also at different precisions: `n * k` at
/// precision `pa` over `n` at any precision `pb` is `k` at `pa` (so 6.000
/// over 2.0 is 3.000).
pub proof fn lemma_whole_quotient_mixed(n: int, k: int, pa: int, pb: int)
    requires
        pa > 0,
        pb > 0,
        n != 0,
        fits_i128(pa),
        fits_i128(pb),
        fits_i128(n * k * pa),
        fits_i128(n * pb),
        fits_i128(k * pa),
        fits_i128(n * k * pa * pb),
    ensures
        whole(n * k, pa).quotient_defined(whole(n, pb)),
        whole(n * k, pa).spec_quotient(whole(n, pb)) == whole(k, pa),
{
    assert((n * k * pa) * pb == (k * pa) * (n * pb)) by (nonlinear_arith);
    assert(n * pb != 0) by (nonlinear_arith)
        requires
            n != 0,
            pb > 0,
    ;
    assert(n * pb == -1 ==> (n * k * pa) * pb == -(k * pa)) by (nonlinear_arith);
    lemma_trunc_div_exact(k * pa, n * pb);
}

/// Reading a whole number back gives the number it was made from.
pub proof fn lemma_from_u128_round_trip(value: u128, p: i128)
    requires
        p > 0,
        value <= i128::MAX,
        fits_i128(value * p),
    ensures
        trunc_div(value * p, p as int) == value,
{
    lemma_trunc_div_exact(value as int, p as int);
}

/// On a perfect square `k * k`, Newton's descent from any guess at or above
/// `k` ends exactly at `k`.
proof fn lemma_descent_on_square(k: int, z: int)
    requires
        k >= 1,
        0 < z,
        k * k < (z + 1) * (z + 1),
    ensures
        newton_descent(k * k, z) == k,
    decreases z,
{
    let n = k * k;
    lemma_newton_step(n, z);
    let s = newton_step(n, z);
    if s - z > 1 || z - s > 1 {
        assert(s > 0) by (nonlinear_arith)
            requires
                n < (s + 1) * (s + 1),
                n == k * k,
                k >= 1,
                s >= 0,
        {
            if s == 0 {
                assert((s + 1) * (s + 1) == 1);
            }
        }
        lemma_descent_on_square(k, s);
    } else {
        // The last guess brackets the root and lies within one of the guess before.
        assert(k <= s) by (nonlinear_arith)
            requires
                k * k < (s + 1) * (s + 1),
                k >= 1,
                s >= 0,
        {
            if k > s {
                assert(k * k >= (s + 1) * (s + 1));
            }
        }
        if s > k {
            let q = n / z;
            lemma_fundamental_div_mod(n, z);
            lemma_mod_pos_bound(n, z);
            assert(z * q <= n);
            if z * z <= n {
                assert(z <= k) by (nonlinear_arith)
                    requires
                        z * z <= k * k,
                        z > 0,
                        k > 0,
                {
                    if z > k {
                        assert(z * z > k * k);
                    }
                }
            } else {
                assert(s == z - 1);
                assert(q >= z - 2);
                assert(false) by (nonlinear_arith)
                    requires
                        z >= k + 2,
                        q >= z - 2,
                        z * q <= k * k,
                        k >= 1,
                {
                    assert(z * q >= z * (z - 2));
                    assert(z * (z - 2) >= (k + 2) * k);
                }
            }
        }
    }
}

/// The square root of a perfect square is exact: when `value * precision`
/// is `k * k`, the root's value is `k`.
pub proof fn lemma_sqrt_exact_on_squares(x: int, p: int, k: int)
    requires
        x > 0,
        p > 0,
        k >= 0,
        x * p == k * k,
    ensures
        sqrt_value(x, p) == k,
{
    lemma_initial_guess(x, p);
    assert(k >= 1) by (nonlinear_arith)
        requires
            x * p == k * k,
            x > 0,
            p > 0,
            k >= 0,
    {
        assert(x * p > 0);
    }
    let start = (x + p) / 2;
    if start > 1 {
        lemma_descent_on_square(k, start);
    } else {
        assert(x + p <= 3);
        assert(k == 1) by (nonlinear_arith)
            requires
                k * k == x * p,
                x + p <= 3,
                x >= 1,
                p >= 1,
                k >= 1,
        {
            assert(x * p <= 2);
            if k >= 2 {
                assert(k * k >= 4);
            }
        }
    }
}

/// The square root of a whole number's square is that whole number.
pub proof fn lemma_sqrt_of_whole_square(k: int, p: int)
    requires
        k > 0,
        p > 0,
    ensures
        sqrt_value(k * k * p, p) == k * p,
{
    assert(k * k * p > 0 && (k * k * p) * p == (k * p) * (k * p)) by (nonlinear_arith)
        requires
            k > 0,
            p > 0,
    ;
    lemma_sqrt_exact_on_squares(k * k * p, p, k * p);
}

/// The root's value brackets the exact square root of `value * precision`
/// within one, and its square exceeds `value * precision` by at most one.
pub proof fn lemma_sqrt_brackets_root(x: int, p: int)
    requires
        x > 0,
        p > 0,
    ensures
        1 <= sqrt_value(x, p),
        (sqrt_value(x, p) - 1) * (sqrt_value(x, p) - 1) <= x * p,
        x * p < (sqrt_value(x, p) + 1) * (sqrt_value(x, p) + 1),
        sqrt_value(x, p) * sqrt_value(x, p) <= x * p + 1,
{
    lemma_initial_guess(x, p);
    assert(x * p >= 1) by (nonlinear_arith)
        requires
            x > 0,
            p > 0,
    ;
    let start = (x + p) / 2;
    if start > 1 {
        lemma_newton_descent(x * p, start);
    } else {
        assert((start - 1) * (start - 1) == 0 && start * start == 1) by (nonlinear_arith)
            requires
                start == 1,
        ;
    }
}

} // verus!
