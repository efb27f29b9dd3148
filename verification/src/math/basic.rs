//! Basic mathematical algorithms.

use vstd::arithmetic::div_mod::{
    lemma_fundamental_div_mod, lemma_fundamental_div_mod_converse, lemma_mod_multiples_vanish,
    lemma_small_mod,
};
use vstd::math::abs;
use vstd::prelude::*;

verus! {

/// Greatest common divisor of two natural numbers, with `gcd(0, 0) == 0`.
pub open spec fn gcd(a: nat, b: nat) -> nat
    decreases b,
{
    if b == 0 {
        a
    } else {
        gcd(b, a % b)
    }
}

/// Quotient of the division that rounds toward zero.
pub open spec fn truncated_quotient(a: int, b: int) -> int {
    let q = (abs(a) / abs(b)) as int;
    if (a < 0) == (b < 0) {
        q
    } else {
        -q
    }
}

/// Remainder of the division that rounds toward zero; it has the sign of
/// the dividend.
pub open spec fn truncated_remainder(a: int, b: int) -> int {
    let r = (abs(a) % abs(b)) as int;
    if a < 0 {
        -r
    } else {
        r
    }
}

/// The truncating division of Rust's signed integers, written with the
/// Euclidean `/` and `%` of specifications.
pub proof fn lemma_truncated_division(a: int, b: int)
    requires
        b != 0,
    ensures
        truncated_quotient(a, b) == if a >= 0 {
            a / b
        } else {
            -((-a) / b)
        },
        truncated_remainder(a, b) == if a >= 0 {
            a % b
        } else {
            -((-a) % b)
        },
        a == b * truncated_quotient(a, b) + truncated_remainder(a, b),
        abs(truncated_remainder(a, b)) == abs(a) % abs(b),
        abs(truncated_remainder(a, b)) < abs(b),
        abs(truncated_remainder(a, b)) <= abs(a),
        abs(truncated_quotient(a, b)) == abs(a) / abs(b),
        abs(truncated_quotient(a, b)) <= abs(a),
        abs(b) >= 2 ==> 2 * abs(truncated_quotient(a, b)) <= abs(a),
{
    let x = abs(a) as int;
    let d = abs(b) as int;
    assert(x == d * (x / d) + x % d && 0 <= x % d < d) by (nonlinear_arith)
        requires
            d > 0,
    ;
    if b < 0 {
        assert(x / b == -(x / d) && x % b == x % d) by (nonlinear_arith)
            requires
                b < 0,
                d == -b,
                x >= 0,
        ;
    }
    assert(x / d <= x && x % d <= x && (d >= 2 ==> 2 * (x / d) <= x)) by (nonlinear_arith)
        requires
            d > 0,
            x >= 0,
            x == d * (x / d) + x % d,
            0 <= x % d < d,
    ;
    let q = truncated_quotient(a, b);
    let r = truncated_remainder(a, b);
    assert(a == b * q + r) by (nonlinear_arith)
        requires
            x == d * (x / d) + x % d,
            q == if (a < 0) == (b < 0) {
                x / d
            } else {
                -(x / d)
            },
            r == if a < 0 {
                -(x % d)
            } else {
                x % d
            },
            x == if a < 0 {
                -a
            } else {
                a
            },
            d == if b < 0 {
                -b
            } else {
                b
            },
    ;
}

/// Least common multiple of two natural numbers, with `lcm(0, 0) == 0`.
pub open spec fn lcm(a: nat, b: nat) -> nat {
    if gcd(a, b) == 0 {
        0
    } else {
        a / gcd(a, b) * b
    }
}

/// `d` divides `n`; only 0 is divided by 0.
pub open spec fn divides(d: nat, n: nat) -> bool {
    if d == 0 {
        n == 0
    } else {
        n % d == 0
    }
}

/// What is divided by `d` is a multiple of `d`, and the other way round.
proof fn lemma_divides_multiple(d: nat, n: nat)
    requires
        d > 0,
    ensures
        divides(d, n) <==> exists|k: nat| n == #[trigger] (k * d),
{
    if divides(d, n) {
        lemma_fundamental_div_mod(n as int, d as int);
        let k = n / d;
        assert(n == k * d) by (nonlinear_arith)
            requires
                n == d * (n / d) + n % d,
                n % d == 0,
                k == n / d,
        ;
    }
    if exists|k: nat| n == #[trigger] (k * d) {
        let k = choose|k: nat| n == #[trigger] (k * d);
        lemma_fundamental_div_mod_converse(n as int, d as int, k as int, 0);
    }
}

/// What divides two numbers divides the remainder of one by the other, and
/// what divides a number and a remainder by it divides the dividend.
proof fn lemma_divides_remainder(c: nat, a: nat, b: nat)
    requires
        c > 0,
        b > 0,
        divides(c, b),
    ensures
        divides(c, a) <==> divides(c, a % b),
{
    lemma_divides_multiple(c, a);
    lemma_divides_multiple(c, b);
    lemma_divides_multiple(c, a % b);
    lemma_fundamental_div_mod(a as int, b as int);
    let q = a / b;
    let kb = choose|k: nat| b == #[trigger] (k * c);
    let t = kb * q;
    assert(b * q == t * c) by (nonlinear_arith)
        requires
            b == kb * c,
            t == kb * q,
    ;
    if divides(c, a) {
        let ka = choose|k: nat| a == #[trigger] (k * c);
        assert(ka >= t) by (nonlinear_arith)
            requires
                ka * c == t * c + a % b,
                a % b >= 0,
                c > 0,
        ;
        let k = (ka - t) as nat;
        assert(k * c == ka * c - t * c) by (nonlinear_arith)
            requires
                k == ka - t,
        ;
        assert(a % b == k * c);
    }
    if divides(c, a % b) {
        let kr = choose|k: nat| a % b == #[trigger] (k * c);
        let k = t + kr;
        assert(k * c == t * c + kr * c) by (nonlinear_arith)
            requires
                k == t + kr,
        ;
        assert(a == k * c);
    }
}

/// `gcd(a, b)` is 0 only for `a == b == 0`.
pub proof fn lemma_gcd_zero(a: nat, b: nat)
    ensures
        gcd(a, b) == 0 <==> a == 0 && b == 0,
    decreases b,
{
    if b != 0 {
        lemma_gcd_zero(b, a % b);
    }
}

/// `gcd(a, b)` divides both `a` and `b`.
pub proof fn lemma_gcd_divides(a: nat, b: nat)
    ensures
        divides(gcd(a, b), a),
        divides(gcd(a, b), b),
    decreases b,
{
    lemma_gcd_zero(a, b);
    if b == 0 {
        if a > 0 {
            assert(a % a == 0) by (nonlinear_arith)
                requires
                    a > 0,
            ;
        }
    } else {
        lemma_gcd_divides(b, a % b);
        lemma_divides_remainder(gcd(a, b), a, b);
    }
}

/// Whatever divides both `a` and `b` divides `gcd(a, b)`: among the
/// common divisors it is the greatest.
pub proof fn lemma_gcd_greatest(c: nat, a: nat, b: nat)
    requires
        divides(c, a),
        divides(c, b),
    ensures
        divides(c, gcd(a, b)),
        c <= gcd(a, b) || (a == 0 && b == 0),
    decreases b,
{
    lemma_gcd_zero(a, b);
    if c == 0 {
    } else {
        if b != 0 {
            lemma_divides_remainder(c, a, b);
            lemma_gcd_zero(b, a % b);
            lemma_gcd_greatest(c, b, a % b);
        }
        let g = gcd(a, b);
        if g > 0 {
            lemma_divides_multiple(c, g);
            let k = choose|k: nat| g == #[trigger] (k * c);
            assert(c <= g) by (nonlinear_arith)
                requires
                    g == k * c,
                    g > 0,
                    c > 0,
            ;
        }
    }
}

/// The order of the arguments does not matter.
pub proof fn lemma_gcd_symmetric(a: nat, b: nat)
    ensures
        gcd(a, b) == gcd(b, a),
{
    if a == 0 || b == 0 {
        reveal_with_fuel(gcd, 3);
        if a != 0 {
            assert(0nat % a == 0);
        }
        if b != 0 {
            assert(0nat % b == 0);
        }
    } else if a < b {
        lemma_small_mod(a, b);
    } else if b < a {
        lemma_small_mod(b, a);
    }
}

/// A number is its own greatest common divisor with itself.
pub proof fn lemma_gcd_self(a: nat)
    ensures
        gcd(a, a) == a,
{
    if a > 0 {
        assert(a % a == 0) by (nonlinear_arith)
            requires
                a > 0,
        ;
    }
    reveal_with_fuel(gcd, 3);
}

/// Taking the smaller of two positive numbers off the larger keeps their
/// greatest common divisor.
pub proof fn lemma_gcd_subtract(a: nat, b: nat)
    requires
        0 < b < a,
    ensures
        gcd((a - b) as nat, b) == gcd(a, b),
        gcd(b, (a - b) as nat) == gcd(a, b),
{
    let d = (a - b) as nat;
    assert(d % b == a % b) by {
        lemma_mod_multiples_vanish(-1, a as int, b as int);
        assert(b * (-1) + a == d);
    }
    lemma_gcd_symmetric(b, d);
}

/// What one round of the extended scheme keeps. The running pair `m`,
/// `n` of the two non-negative numbers `x`, `y` is expressed in them by
/// the coefficients, `m == a0 * x + b0 * y` and `n == a1 * x + b1 * y`;
/// the coefficients of the two members differ in sign, and their
/// magnitudes are tied to the pair so that none outgrows `x` or `y`.
pub open spec fn extended_state(
    x: int,
    y: int,
    m: int,
    n: int,
    a0: int,
    a1: int,
    b0: int,
    b1: int,
) -> bool {
    &&& 0 <= m
    &&& 0 <= n
    &&& a0 * x + b0 * y == m
    &&& a1 * x + b1 * y == n
    &&& abs(a1) * m + abs(a0) * n == y
    &&& abs(b1) * m + abs(b0) * n == x
    &&& ((a0 >= 0 && a1 <= 0 && b0 <= 0 && b1 >= 0) || (a0 <= 0 && a1 >= 0 && b0 >= 0 && b1
        <= 0))
    &&& gcd(m as nat, n as nat) == gcd(x as nat, y as nat)
}

/// One round of the extended scheme, which divides `m` by `n`, keeps
/// [`extended_state`], and nothing that it computes on the way leaves the
/// range of `x` and `y`.
pub proof fn lemma_extended_step(
    x: int,
    y: int,
    m: int,
    n: int,
    a0: int,
    a1: int,
    b0: int,
    b1: int,
)
    requires
        0 <= x,
        0 <= y,
        n > 0,
        extended_state(x, y, m, n, a0, a1, b0, b1),
    ensures
        ({
            let q = m / n;
            let r = m % n;
            &&& 0 <= q <= m
            &&& truncated_quotient(m, n) == q
            &&& 0 <= n * q <= m
            &&& r == m - n * q
            &&& 0 <= r < n
            &&& abs(a1 * q) <= y
            &&& abs(a0 - a1 * q) <= y
            &&& abs(b1 * q) <= x
            &&& abs(b0 - b1 * q) <= x
            &&& extended_state(x, y, n, r, a1, a0 - a1 * q, b1, b0 - b1 * q)
        }),
{
    let q = m / n;
    let r = m % n;
    lemma_truncated_division(m, n);
    lemma_fundamental_div_mod(m, n);
    assert(m == n * q + r);
    let a2 = a0 - a1 * q;
    let b2 = b0 - b1 * q;
    // Bezout for the new second member.
    assert(a2 * x + b2 * y == r) by (nonlinear_arith)
        requires
            a2 == a0 - a1 * q,
            b2 == b0 - b1 * q,
            a0 * x + b0 * y == m,
            a1 * x + b1 * y == n,
            m == n * q + r,
    ;
    lemma_magnitudes(y, m, n, q, r, a0, a1);
    lemma_magnitudes(x, m, n, q, r, b0, b1);
}

/// The part of [`lemma_extended_step`] that is the same for both
/// coefficients: `c0` and `c1` differ in sign and their magnitudes weigh
/// the pair to `w`.
proof fn lemma_magnitudes(w: int, m: int, n: int, q: int, r: int, c0: int, c1: int)
    requires
        0 <= m,
        0 < n,
        0 <= q,
        0 <= r,
        m == n * q + r,
        abs(c1) * m + abs(c0) * n == w,
        (c0 >= 0 && c1 <= 0) || (c0 <= 0 && c1 >= 0),
    ensures
        abs(c1 * q) <= w,
        abs(c0 - c1 * q) <= w,
        abs(c0 - c1 * q) * n + abs(c1) * r == w,
        c0 >= 0 && c1 <= 0 ==> c0 - c1 * q >= 0,
        c0 <= 0 && c1 >= 0 ==> c0 - c1 * q <= 0,
{
    let p0 = abs(c0) as int;
    let p1 = abs(c1) as int;
    let t = p1 * q;
    assert(t >= 0) by (nonlinear_arith)
        requires
            t == p1 * q,
            p1 >= 0,
            q >= 0,
    ;
    assert(c1 * q == if c1 <= 0 {
        -t
    } else {
        t
    }) by (nonlinear_arith)
        requires
            t == p1 * q,
            p1 == if c1 <= 0 {
                -c1
            } else {
                c1
            },
    ;
    let c2 = c0 - c1 * q;
    assert(abs(c2) == p0 + t);
    assert((p0 + t) * n + p1 * r == w) by (nonlinear_arith)
        requires
            t == p1 * q,
            m == n * q + r,
            p1 * m + p0 * n == w,
    ;
    assert(p0 + t <= w) by (nonlinear_arith)
        requires
            (p0 + t) * n + p1 * r == w,
            n >= 1,
            p0 + t >= 0,
            p1 >= 0,
            r >= 0,
    ;
}

/// A primitive signed integer with the operations that the algorithms of
/// this module are made of.
pub trait SignedInt: Copy + Sized {
    /// The number that a value stands for.
    spec fn value(self) -> int;

    /// The smallest number that the type holds.
    spec fn lowest() -> int;

    /// The largest number that the type holds.
    spec fn highest() -> int;

    /// Every value lies in the range of its type, which is that of a
    /// two's complement integer of at least 8 bits.
    proof fn lemma_range(self)
        ensures
            Self::lowest() <= self.value() <= Self::highest(),
            Self::lowest() == -Self::highest() - 1,
            Self::highest() >= 127,
    ;

    fn zero() -> (r: Self)
        ensures
            r.value() == 0,
    ;

    fn one() -> (r: Self)
        ensures
            r.value() == 1,
    ;

    fn is_zero(self) -> (r: bool)
        ensures
            r == (self.value() == 0),
    ;

    fn equals(self, other: Self) -> (r: bool)
        ensures
            r == (self.value() == other.value()),
    ;

    fn exceeds(self, other: Self) -> (r: bool)
        ensures
            r == (self.value() > other.value()),
    ;

    fn magnitude(self) -> (r: Self)
        requires
            self.value() != Self::lowest(),
        ensures
            r.value() == abs(self.value()),
    ;

    fn minus(self, other: Self) -> (r: Self)
        requires
            Self::lowest() <= self.value() - other.value() <= Self::highest(),
        ensures
            r.value() == self.value() - other.value(),
    ;

    fn times(self, other: Self) -> (r: Self)
        requires
            Self::lowest() <= self.value() * other.value() <= Self::highest(),
        ensures
            r.value() == self.value() * other.value(),
    ;

    fn quotient(self, other: Self) -> (r: Self)
        requires
            other.value() != 0,
            !(self.value() == Self::lowest() && other.value() == -1),
        ensures
            r.value() == truncated_quotient(self.value(), other.value()),
    ;

    fn remainder(self, other: Self) -> (r: Self)
        requires
            other.value() != 0,
            !(self.value() == Self::lowest() && other.value() == -1),
        ensures
            r.value() == truncated_remainder(self.value(), other.value()),
    ;
}

impl SignedInt for i8 {
    open spec fn value(self) -> int {
        self as int
    }

    open spec fn lowest() -> int {
        i8::MIN as int
    }

    open spec fn highest() -> int {
        i8::MAX as int
    }

    proof fn lemma_range(self) {
    }

    fn zero() -> (r: Self) {
        0
    }

    fn one() -> (r: Self) {
        1
    }

    fn is_zero(self) -> (r: bool) {
        self == 0
    }

    fn equals(self, other: Self) -> (r: bool) {
        self == other
    }

    fn exceeds(self, other: Self) -> (r: bool) {
        self > other
    }

    fn magnitude(self) -> (r: Self) {
        if self < 0 {
            -self
        } else {
            self
        }
    }

    fn minus(self, other: Self) -> (r: Self) {
        self - other
    }

    fn times(self, other: Self) -> (r: Self) {
        self * other
    }

    fn quotient(self, other: Self) -> (r: Self) {
        proof {
            lemma_truncated_division(self as int, other as int);
        }
        self / other
    }

    fn remainder(self, other: Self) -> (r: Self) {
        proof {
            lemma_truncated_division(self as int, other as int);
        }
        self % other
    }
}

impl SignedInt for i16 {
    open spec fn value(self) -> int {
        self as int
    }

    open spec fn lowest() -> int {
        i16::MIN as int
    }

    open spec fn highest() -> int {
        i16::MAX as int
    }

    proof fn lemma_range(self) {
    }

    fn zero() -> (r: Self) {
        0
    }

    fn one() -> (r: Self) {
        1
    }

    fn is_zero(self) -> (r: bool) {
        self == 0
    }

    fn equals(self, other: Self) -> (r: bool) {
        self == other
    }

    fn exceeds(self, other: Self) -> (r: bool) {
        self > other
    }

    fn magnitude(self) -> (r: Self) {
        if self < 0 {
            -self
        } else {
            self
        }
    }

    fn minus(self, other: Self) -> (r: Self) {
        self - other
    }

    fn times(self, other: Self) -> (r: Self) {
        self * other
    }

    fn quotient(self, other: Self) -> (r: Self) {
        proof {
            lemma_truncated_division(self as int, other as int);
        }
        self / other
    }

    fn remainder(self, other: Self) -> (r: Self) {
        proof {
            lemma_truncated_division(self as int, other as int);
        }
        self % other
    }
}

impl SignedInt for i32 {
    open spec fn value(self) -> int {
        self as int
    }

    open spec fn lowest() -> int {
        i32::MIN as int
    }

    open spec fn highest() -> int {
        i32::MAX as int
    }

    proof fn lemma_range(self) {
    }

    fn zero() -> (r: Self) {
        0
    }

    fn one() -> (r: Self) {
        1
    }

    fn is_zero(self) -> (r: bool) {
        self == 0
    }

    fn equals(self, other: Self) -> (r: bool) {
        self == other
    }

    fn exceeds(self, other: Self) -> (r: bool) {
        self > other
    }

    fn magnitude(self) -> (r: Self) {
        if self < 0 {
            -self
        } else {
            self
        }
    }

    fn minus(self, other: Self) -> (r: Self) {
        self - other
    }

    fn times(self, other: Self) -> (r: Self) {
        self * other
    }

    fn quotient(self, other: Self) -> (r: Self) {
        proof {
            lemma_truncated_division(self as int, other as int);
        }
        self / other
    }

    fn remainder(self, other: Self) -> (r: Self) {
        proof {
            lemma_truncated_division(self as int, other as int);
        }
        self % other
    }
}

impl SignedInt for i64 {
    open spec fn value(self) -> int {
        self as int
    }

    open spec fn lowest() -> int {
        i64::MIN as int
    }

    open spec fn highest() -> int {
        i64::MAX as int
    }

    proof fn lemma_range(self) {
    }

    fn zero() -> (r: Self) {
        0
    }

    fn one() -> (r: Self) {
        1
    }

    fn is_zero(self) -> (r: bool) {
        self == 0
    }

    fn equals(self, other: Self) -> (r: bool) {
        self == other
    }

    fn exceeds(self, other: Self) -> (r: bool) {
        self > other
    }

    fn magnitude(self) -> (r: Self) {
        if self < 0 {
            -self
        } else {
            self
        }
    }

    fn minus(self, other: Self) -> (r: Self) {
        self - other
    }

    fn times(self, other: Self) -> (r: Self) {
        self * other
    }

    fn quotient(self, other: Self) -> (r: Self) {
        proof {
            lemma_truncated_division(self as int, other as int);
        }
        self / other
    }

    fn remainder(self, other: Self) -> (r: Self) {
        proof {
            lemma_truncated_division(self as int, other as int);
        }
        self % other
    }
}

impl SignedInt for i128 {
    open spec fn value(self) -> int {
        self as int
    }

    open spec fn lowest() -> int {
        i128::MIN as int
    }

    open spec fn highest() -> int {
        i128::MAX as int
    }

    proof fn lemma_range(self) {
    }

    fn zero() -> (r: Self) {
        0
    }

    fn one() -> (r: Self) {
        1
    }

    fn is_zero(self) -> (r: bool) {
        self == 0
    }

    fn equals(self, other: Self) -> (r: bool) {
        self == other
    }

    fn exceeds(self, other: Self) -> (r: bool) {
        self > other
    }

    fn magnitude(self) -> (r: Self) {
        if self < 0 {
            -self
        } else {
            self
        }
    }

    fn minus(self, other: Self) -> (r: Self) {
        self - other
    }

    fn times(self, other: Self) -> (r: Self) {
        self * other
    }

    fn quotient(self, other: Self) -> (r: Self) {
        proof {
            lemma_truncated_division(self as int, other as int);
        }
        self / other
    }

    fn remainder(self, other: Self) -> (r: Self) {
        proof {
            lemma_truncated_division(self as int, other as int);
        }
        self % other
    }
}

impl SignedInt for isize {
    open spec fn value(self) -> int {
        self as int
    }

    open spec fn lowest() -> int {
        isize::MIN as int
    }

    open spec fn highest() -> int {
        isize::MAX as int
    }

    proof fn lemma_range(self) {
    }

    fn zero() -> (r: Self) {
        0
    }

    fn one() -> (r: Self) {
        1
    }

    fn is_zero(self) -> (r: bool) {
        self == 0
    }

    fn equals(self, other: Self) -> (r: bool) {
        self == other
    }

    fn exceeds(self, other: Self) -> (r: bool) {
        self > other
    }

    fn magnitude(self) -> (r: Self) {
        if self < 0 {
            -self
        } else {
            self
        }
    }

    fn minus(self, other: Self) -> (r: Self) {
        self - other
    }

    fn times(self, other: Self) -> (r: Self) {
        self * other
    }

    fn quotient(self, other: Self) -> (r: Self) {
        proof {
            lemma_truncated_division(self as int, other as int);
        }
        self / other
    }

    fn remainder(self, other: Self) -> (r: Self) {
        proof {
            lemma_truncated_division(self as int, other as int);
        }
        self % other
    }
}

/// Greatest common divisors, four ways.
pub trait GCD: SignedInt {
    /// Euclid's algorithm by remainders: the greatest common divisor of
    /// the magnitudes. It has to fit the type, and the one remainder that
    /// does not, that of the lowest number by -1, must not come up.
    fn gcd_euclidean(self, other: Self) -> (r: Self)
        requires
            gcd(abs(self.value()), abs(other.value())) <= Self::highest(),
            !(self.value() == Self::lowest() && other.value() == -1),
            !(self.value() == -1 && other.value() == Self::lowest()),
        ensures
            r.value() == gcd(abs(self.value()), abs(other.value())),
    ;

    /// The extended Euclidean scheme on the magnitudes, which have to fit
    /// the type: the greatest common divisor of the magnitudes. Round by
    /// round it carries the coefficients that express the running pair in
    /// the two magnitudes; they serve the computation and are not handed
    /// out.
    fn gcd_euclidean_extended(self, other: Self) -> (r: Self)
        requires
            self.value() != Self::lowest(),
            other.value() != Self::lowest(),
        ensures
            r.value() == gcd(abs(self.value()), abs(other.value())),
    ;

    /// Dijkstra's algorithm by subtraction, for two positive numbers or
    /// two zeros.
    fn gcd_dijkstra(self, other: Self) -> (r: Self)
        requires
            (self.value() > 0 && other.value() > 0) || (self.value() == 0 && other.value() == 0),
        ensures
            r.value() == gcd(abs(self.value()), abs(other.value())),
    ;

    /// Subtraction with exchange, for two positive numbers or two zeros.
    fn gcd_bishop(self, other: Self) -> (r: Self)
        requires
            (self.value() > 0 && other.value() > 0) || (self.value() == 0 && other.value() == 0),
        ensures
            r.value() == gcd(abs(self.value()), abs(other.value())),
    ;
}

impl<I: SignedInt> GCD for I {
    fn gcd_euclidean(self, other: Self) -> (r: Self)
        decreases abs(other.value()),
    {
        proof {
            self.lemma_range();
            other.lemma_range();
        }
        if other.equals(Self::zero()) {
            self.magnitude()
        } else {
            let rest = self.remainder(other);
            proof {
                rest.lemma_range();
                let a = self.value();
                let b = other.value();
                lemma_truncated_division(a, b);
                if b == Self::lowest() {
                    if a == Self::lowest() {
                        assert(abs(a) % abs(b) == 0) by (nonlinear_arith)
                            requires
                                abs(a) == abs(b),
                                abs(b) > 0,
                        ;
                    } else {
                        lemma_small_mod(abs(a), abs(b));
                    }
                }
            }
            other.gcd_euclidean(rest)
        }
    }

    fn gcd_euclidean_extended(self, other: Self) -> (r: Self) {
        proof {
            self.lemma_range();
            other.lemma_range();
        }
        let ghost x = abs(self.value()) as int;
        let ghost y = abs(other.value()) as int;
        let mut a0: Self = Self::one();
        let mut a1: Self = Self::zero();
        let mut b0: Self = Self::zero();
        let mut b1: Self = Self::one();
        let mut m: Self = self.magnitude();
        let mut n: Self = other.magnitude();
        proof {
            assert(1 * x + 0 * y == x && 0 * x + 1 * y == y) by (nonlinear_arith);
            assert(abs(0) * x + abs(1) * y == y && abs(1) * x + abs(0) * y == x)
                by (nonlinear_arith);
        }

        while !n.is_zero()
            invariant
                Self::lowest() == -Self::highest() - 1,
                0 <= x <= Self::highest(),
                0 <= y <= Self::highest(),
                x == abs(self.value()),
                y == abs(other.value()),
                extended_state(
                    x,
                    y,
                    m.value(),
                    n.value(),
                    a0.value(),
                    a1.value(),
                    b0.value(),
                    b1.value(),
                ),
            decreases n.value(),
        {
            proof {
                lemma_extended_step(
                    x,
                    y,
                    m.value(),
                    n.value(),
                    a0.value(),
                    a1.value(),
                    b0.value(),
                    b1.value(),
                );
                m.lemma_range();
            }
            let q = m.quotient(n);
            let temp = a0.minus(a1.times(q));
            a0 = a1;
            a1 = temp;
            let temp = b0.minus(b1.times(q));
            b0 = b1;
            b1 = temp;
            let temp = m.minus(n.times(q));
            m = n;
            n = temp;
        }
        m
    }

    fn gcd_dijkstra(self, other: Self) -> (r: Self)
        decreases abs(self.value()) + abs(other.value()),
    {
        proof {
            self.lemma_range();
            other.lemma_range();
            let a = abs(self.value());
            let b = abs(other.value());
            lemma_gcd_self(b);
            if a > b && b > 0 {
                lemma_gcd_subtract(a, b);
            }
            if b > a && a > 0 {
                lemma_gcd_subtract(b, a);
                lemma_gcd_symmetric(a, b);
            }
            lemma_gcd_self(a);
        }
        if self.equals(other) {
            self
        } else if self.exceeds(other) {
            Self::gcd_dijkstra(self.minus(other), other)
        } else {
            Self::gcd_dijkstra(self, other.minus(self))
        }
    }

    fn gcd_bishop(self, other: Self) -> (r: Self) {
        let mut x: Self = self;
        let mut y: Self = other;
        proof {
            self.lemma_range();
            other.lemma_range();
        }

        while !x.equals(y)
            invariant
                Self::lowest() == -Self::highest() - 1,
                Self::highest() >= 127,
                (0 < x.value() <= Self::highest() && 0 < y.value() <= Self::highest()) || (
                x.value() == 0 && y.value() == 0),
                gcd(abs(x.value()), abs(y.value())) == gcd(abs(self.value()), abs(other.value())),
            decreases
                    abs(x.value()) + abs(y.value()),
                    (if x.value() < y.value() {
                        1int
                    } else {
                        0int
                    }),
        {
            proof {
                let a = abs(x.value());
                let b = abs(y.value());
                if a > b {
                    lemma_gcd_subtract(a, b);
                }
                lemma_gcd_symmetric(a, b);
            }
            if x.exceeds(y) {
                x = x.minus(y)
            } else {
                let temp = y;
                y = x;
                x = temp;
            }
        }
        proof {
            lemma_gcd_self(abs(x.value()));
        }
        x
    }
}

/// Least common multiples.
pub trait LCM: GCD {
    /// The least common multiple of the magnitudes, by way of
    /// [`GCD::gcd_euclidean`]. The two numbers must not both be 0, and the
    /// result has to fit the type.
    fn lcm(self, other: Self) -> (r: Self)
        requires
            !(self.value() == 0 && other.value() == 0),
            gcd(abs(self.value()), abs(other.value())) <= Self::highest(),
            !(self.value() == Self::lowest() && other.value() == -1),
            !(self.value() == -1 && other.value() == Self::lowest()),
            lcm(abs(self.value()), abs(other.value())) <= Self::highest(),
        ensures
            r.value() == lcm(abs(self.value()), abs(other.value())),
    ;
}

impl<I: GCD> LCM for I {
    fn lcm(self, other: Self) -> (r: Self) {
        let divisor = self.gcd_euclidean(other);
        proof {
            self.lemma_range();
            other.lemma_range();
            let a = self.value();
            let b = other.value();
            let g = divisor.value();
            lemma_gcd_zero(abs(a), abs(b));
            lemma_truncated_division(a, g);
            let q = truncated_quotient(a, g);
            assert(abs(q * b) == abs(q) * abs(b)) by (nonlinear_arith);
        }
        self.quotient(divisor).times(other).magnitude()
    }
}

} // verus!
