//! Double-precision numbers, by the bits that stand for them.
//!
//! A bound, a gauge and a sum arrive as text and are IEEE 754 doubles once read. What is asked of
//! them here — are they finite, which is smaller, are two the same bound, what whole number is a
//! count — is decided on their bits, so a number is held as its bits and nothing is rounded on the
//! way.
use vstd::arithmetic::div_mod::*;
use vstd::arithmetic::mul::*;
use vstd::arithmetic::power2::*;
use vstd::prelude::*;

verus! {

/// A double-precision number, as `to_bits` gives it.
#[derive(Debug, Clone, Copy)]
pub struct Double {
    pub bits: u64,
}

/// The bit that holds the sign; the bits below it hold the magnitude.
pub const SIGN: u64 = 0x8000_0000_0000_0000;

/// The unit of the exponent; the bits below it hold the fraction.
pub const EXPONENT: u64 = 0x0010_0000_0000_0000;

/// The magnitude of one.
pub const ONE: u64 = 0x3ff0_0000_0000_0000;

/// The magnitude of infinity.
pub const INFINITY: u64 = 0x7ff0_0000_0000_0000;

/// The magnitude that stands for what is not a number.
pub const NAN: u64 = 0x7ff8_0000_0000_0000;

// ── Models ───────────────────────────────────────────────────────────────────

/// The significand of magnitude `m`: the fraction, with the leading one that a normal number has.
pub open spec fn significand(m: nat) -> nat {
    if m / (EXPONENT as nat) == 0 {
        m % (EXPONENT as nat)
    } else {
        EXPONENT as nat + m % (EXPONENT as nat)
    }
}

/// The power of two that the significand of magnitude `m` is multiplied by, from 2^-1074 up.
pub open spec fn scale(m: nat) -> nat {
    if m / (EXPONENT as nat) == 0 {
        0
    } else {
        (m / (EXPONENT as nat) - 1) as nat
    }
}

/// A finite magnitude as a whole number of 2^-1074, which every finite double is.
pub open spec fn units(m: nat) -> nat {
    significand(m) * pow2(scale(m))
}

/// One, in units of 2^-1074.
pub open spec fn one() -> nat {
    pow2(1074)
}

/// How near two bounds must be to be the same, in units of 2^-1074.
///
/// The difference of two doubles is rounded to a double before it is compared with the machine
/// epsilon 2^-52. It rounds to 2^-52 or more from halfway between 2^-52 and the double before it,
/// which is 2^-52 - 2^-105.
pub open spec fn tolerance() -> int {
    pow2(1022) - pow2(968)
}

/// The number with a magnitude and a sign.
pub open spec fn signed(negative: bool, m: nat) -> Double {
    Double {
        bits: if negative {
            (SIGN + m) as u64
        } else {
            m as u64
        },
    }
}

impl View for Double {
    type V = Double;

    open spec fn view(&self) -> Double {
        *self
    }
}

impl PartialEq for Double {
    /// Whether the two are one number. The zeros are, and what is not a number equals nothing.
    fn eq(&self, other: &Double) -> (same: bool) {
        let (m, n) = (self.bits % SIGN, other.bits % SIGN);
        m <= INFINITY && m == n && (m == 0 || (self.bits >= SIGN) == (other.bits >= SIGN))
    }
}

impl vstd::std_specs::cmp::PartialEqSpecImpl for Double {
    open spec fn obeys_eq_spec() -> bool {
        true
    }

    open spec fn eq_spec(&self, other: &Double) -> bool {
        !self.nan() && !other.nan() && self.rank() == other.rank()
    }
}

impl Double {
    /// Whether the sign bit is set.
    pub open spec fn negative(self) -> bool {
        self.bits >= SIGN
    }

    /// The bits below the sign.
    pub open spec fn magnitude(self) -> nat {
        (self.bits % SIGN) as nat
    }

    /// Neither infinite nor not a number.
    pub open spec fn finite(self) -> bool {
        self.magnitude() < INFINITY
    }

    /// Positive or negative infinity.
    pub open spec fn infinite(self) -> bool {
        self.magnitude() == INFINITY
    }

    /// Not a number.
    pub open spec fn nan(self) -> bool {
        self.magnitude() > INFINITY
    }

    /// The value of a finite number, in units of 2^-1074.
    pub open spec fn value(self) -> int {
        if self.negative() {
            -units(self.magnitude())
        } else {
            units(self.magnitude()) as int
        }
    }

    /// The whole number that a finite number counts: nothing below zero, the fraction dropped, and
    /// no more than a `u64` holds.
    pub open spec fn counted(self) -> u64 {
        if self.value() <= 0 {
            0
        } else if self.value() / (one() as int) <= u64::MAX {
            (self.value() / (one() as int)) as u64
        } else {
            u64::MAX
        }
    }

    /// Where the number stands among the numbers: its magnitude, signed.
    pub open spec fn rank(self) -> int {
        if self.negative() {
            -(self.magnitude() as int)
        } else {
            self.magnitude() as int
        }
    }

    /// Whether the number is smaller than `other`. What is not a number is not comparable.
    pub open spec fn below(self, other: Double) -> bool {
        !self.nan() && !other.nan() && self.rank() < other.rank()
    }

    /// Whether the two are one bound: the same infinity, or numbers within the tolerance.
    pub open spec fn same_bound(self, other: Double) -> bool {
        ||| self.infinite() && other.infinite() && self.negative() == other.negative()
        ||| {
            &&& self.finite()
            &&& other.finite()
            &&& -tolerance() < self.value() - other.value() < tolerance()
        }
    }
}

// ── Facts about the models ───────────────────────────────────────────────────

/// A significand has at most 53 bits, and exactly 53 where the scale is not the least.
proof fn lemma_significand(m: nat)
    ensures
        significand(m) < 2 * EXPONENT,
        scale(m) > 0 ==> significand(m) >= EXPONENT,
        m < INFINITY ==> scale(m) <= 2045,
{
}

/// A larger finite magnitude is a larger number.
pub proof fn law_magnitude_orders(m: nat, n: nat)
    requires
        m < n,
    ensures
        units(m) < units(n),
{
    let e = EXPONENT as nat;
    let (mx, nx) = (m / e, n / e);
    lemma_significand(m);
    lemma_significand(n);
    lemma_fundamental_div_mod(m as int, e as int);
    lemma_fundamental_div_mod(n as int, e as int);
    lemma_div_is_ordered(m as int, n as int, e as int);
    lemma_pow2_pos(scale(m));
    if mx == nx {
        assert(significand(m) < significand(n));
        lemma_mul_strict_inequality(
            significand(m) as int,
            significand(n) as int,
            pow2(scale(m)) as int,
        );
    } else if mx == 0 && nx == 1 {
        assert(significand(m) < significand(n));
        assert(scale(n) == 0);
        lemma_mul_strict_inequality(
            significand(m) as int,
            significand(n) as int,
            pow2(scale(m)) as int,
        );
    } else {
        // The scale goes up by at least one, which doubles it, and the significand can at most
        // halve.
        assert(scale(m) < scale(n));
        let up = (scale(n) - scale(m) - 1) as nat;
        lemma_pow2_adds(scale(m) + 1, up);
        lemma_pow2_unfold(scale(m) + 1);
        lemma_pow2_pos(up);
        let (p, q) = (pow2(scale(m)) as int, pow2(scale(n)) as int);
        assert(q >= 2 * p) by (nonlinear_arith)
            requires
                q == (2 * p) * pow2(up),
                pow2(up) > 0,
                p > 0,
        ;
        let (s, t) = (significand(m) as int, significand(n) as int);
        assert(s * p < t * q) by (nonlinear_arith)
            requires
                0 <= s < 2 * EXPONENT,
                t >= EXPONENT,
                p > 0,
                q >= 2 * p,
        ;
    }
}

/// The numbers are ordered as their values are.
pub proof fn law_rank_orders_values(a: Double, b: Double)
    requires
        a.finite(),
        b.finite(),
    ensures
        a.below(b) == (a.value() < b.value()),
        a.rank() == b.rank() <==> a.value() == b.value(),
{
    let (m, n) = (a.magnitude(), b.magnitude());
    assert(units(0) == 0) by {
        assert(significand(0) == 0);
        lemma_mul_basics(pow2(scale(0)) as int);
    }
    if m < n {
        law_magnitude_orders(m, n);
    }
    if n < m {
        law_magnitude_orders(n, m);
    }
    if 0 < m {
        law_magnitude_orders(0, m);
    }
    if 0 < n {
        law_magnitude_orders(0, n);
    }
}

/// Dividing `x * 2^s` by `2^t`.
proof fn lemma_rescale(x: nat, s: nat, t: nat)
    ensures
        s >= t ==> (x * pow2(s)) / pow2(t) == x * pow2((s - t) as nat) && (x * pow2(s)) % pow2(t)
            == 0,
        s < t ==> (x * pow2(s)) / pow2(t) == x / pow2((t - s) as nat),
        s < t ==> ((x * pow2(s)) % pow2(t) == 0 <==> x % pow2((t - s) as nat) == 0),
{
    lemma_pow2_pos(s);
    lemma_pow2_pos(t);
    let (ps, pt) = (pow2(s) as int, pow2(t) as int);
    if s >= t {
        let d = (s - t) as nat;
        lemma_pow2_adds(d, t);
        lemma_mul_is_associative(x as int, pow2(d) as int, pt);
        lemma_div_by_multiple((x * pow2(d)) as int, pt);
        lemma_mod_multiples_basic((x * pow2(d)) as int, pt);
    } else {
        let d = (t - s) as nat;
        let pd = pow2(d) as int;
        lemma_pow2_pos(d);
        lemma_pow2_adds(d, s);
        assert(pt == pd * ps);
        let (q, r) = (x as int / pd, x as int % pd);
        lemma_fundamental_div_mod(x as int, pd);
        assert(x * ps == q * pt + r * ps) by (nonlinear_arith)
            requires
                x == pd * q + r,
                pt == pd * ps,
        ;
        assert(0 <= r * ps < pt) by (nonlinear_arith)
            requires
                0 <= r < pd,
                ps > 0,
                pt == pd * ps,
        ;
        lemma_fundamental_div_mod_converse(x * ps, pt, q, r * ps);
        assert(r * ps == 0 <==> r == 0) by (nonlinear_arith)
            requires
                ps > 0,
        ;
    }
}

/// Two to the power of `n`.
fn power(n: u64) -> (p: u128)
    requires
        n <= 63,
    ensures
        p == pow2(n as nat),
        1 <= p <= 0x8000_0000_0000_0000,
{
    let mut p: u128 = 1;
    let mut i: u64 = 0;
    proof {
        lemma2_to64();
        lemma2_to64_rest();
    }
    while i < n
        invariant
            i <= n <= 63,
            p == pow2(i as nat),
            pow2(63) == 0x8000_0000_0000_0000,
        decreases n - i,
    {
        proof {
            lemma_pow2_unfold((i + 1) as nat);
            if i + 1 < 63 {
                lemma_pow2_strictly_increases((i + 1) as nat, 63);
            }
        }
        p = p * 2;
        i = i + 1;
    }
    proof {
        lemma_pow2_pos(n as nat);
        if n < 63 {
            lemma_pow2_strictly_increases(n as nat, 63);
        }
    }
    p
}

/// `x * 2^s` divided by `2^t`, and whether nothing remains.
fn rescaled(x: u64, s: u64, t: u64) -> (out: (u128, bool))
    requires
        x < 2 * EXPONENT,
        s <= t + 63,
        t <= 2000,
    ensures
        out.0 == (x * pow2(s as nat)) / (pow2(t as nat) as int),
        out.1 == ((x * pow2(s as nat)) % (pow2(t as nat) as int) == 0),
{
    proof {
        lemma_rescale(x as nat, s as nat, t as nat);
    }
    if s >= t {
        let p = power(s - t);
        assert(x * p <= 0xffff_ffff_ffff_ffff_ffff_ffff_ffff_ffff) by (nonlinear_arith)
            requires
                x < 2 * EXPONENT,
                0 < p <= 0x8000_0000_0000_0000,
        ;
        (x as u128 * p, true)
    } else if t - s > 63 {
        proof {
            lemma2_to64();
            if t - s > 64 {
                lemma_pow2_strictly_increases(64, (t - s) as nat);
            }
            lemma_basic_div(x as int, pow2((t - s) as nat) as int);
            lemma_small_mod(x as nat, pow2((t - s) as nat));
        }
        (0, x == 0)
    } else {
        let p = power(t - s);
        (x as u128 / p, x as u128 % p == 0)
    }
}

/// The grain in which two bounds of at most one are compared: 2^-107, in units of 2^-1074.
spec fn grain() -> nat {
    pow2(967)
}

/// The tolerance, in grains.
const GRAINS: u128 = 36_028_797_018_963_966;

proof fn lemma_tolerance()
    ensures
        grain() > 0,
        tolerance() == GRAINS * grain(),
        tolerance() < pow2(1022),
        pow2(1022) == 36_028_797_018_963_968 * grain(),
{
    lemma2_to64_rest();
    lemma_pow2_pos(967);
    lemma_pow2_adds(55, 967);
    lemma_pow2_unfold(968);
    lemma_pow2_pos(968);
}

/// Of two different magnitudes, one of them above one, the difference is at least the epsilon.
proof fn lemma_far_apart(m: nat, n: nat)
    requires
        ONE < m,
        m != n,
    ensures
        units(m) >= pow2(1022),
        units(m) - units(n) >= pow2(1022) || units(n) - units(m) >= pow2(1022),
{
    let p = pow2(1022) as int;
    lemma_pow2_pos(1022);
    let c = lemma_whole_epsilons(m);
    let o = lemma_whole_epsilons(ONE as nat);
    law_magnitude_orders(ONE as nat, m);
    assert(significand(ONE as nat) == EXPONENT && scale(ONE as nat) == 1022);
    assert(units(ONE as nat) == EXPONENT * p);
    assert(c > o) by (nonlinear_arith)
        requires
            c * p > o * p,
            p > 0,
    ;
    assert(o >= 1) by (nonlinear_arith)
        requires
            o * p == EXPONENT * p,
            p > 0,
    ;
    assert(c * p >= p) by (nonlinear_arith)
        requires
            c >= 1,
            p > 0,
    ;
    if n >= ONE {
        let d = lemma_whole_epsilons(n);
        if m < n {
            law_magnitude_orders(m, n);
            assert(d * p - c * p >= p) by (nonlinear_arith)
                requires
                    d * p > c * p,
                    p > 0,
            ;
        } else {
            law_magnitude_orders(n, m);
            assert(c * p - d * p >= p) by (nonlinear_arith)
                requires
                    c * p > d * p,
                    p > 0,
            ;
        }
    } else {
        law_magnitude_orders(n, ONE as nat);
        assert(c * p - o * p >= p) by (nonlinear_arith)
            requires
                c > o,
                p > 0,
        ;
    }
}

/// From one up, a number is a whole number of epsilons.
proof fn lemma_whole_epsilons(m: nat) -> (c: int)
    requires
        ONE <= m,
    ensures
        units(m) == c * pow2(1022),
{
    lemma_div_is_ordered(ONE as int, m as int, EXPONENT as int);
    assert(scale(m) >= 1022);
    let up = (scale(m) - 1022) as nat;
    lemma_pow2_adds(up, 1022);
    lemma_mul_is_associative(significand(m) as int, pow2(up) as int, pow2(1022) as int);
    (significand(m) * pow2(up)) as int
}

/// A number of some grains has a remainder only below 2^52 grains.
proof fn lemma_grains(m: nat)
    ensures
        units(m) == (units(m) / grain()) * grain() + units(m) % grain(),
        0 <= units(m) % grain() < grain(),
        units(m) / grain() >= EXPONENT ==> units(m) % grain() == 0,
{
    lemma_pow2_pos(967);
    lemma_fundamental_div_mod(units(m) as int, grain() as int);
    lemma_mul_is_commutative(grain() as int, (units(m) / grain()) as int);
    lemma_mod_bound(units(m) as int, grain() as int);
    lemma_rescale(significand(m), scale(m), 967);
    lemma_significand(m);
    if scale(m) < 967 {
        let d = (967 - scale(m)) as nat;
        lemma_pow2_unfold(d);
        lemma_pow2_pos((d - 1) as nat);
        let p = pow2(d) as int;
        assert(p >= 2);
        let x = significand(m) as int;
        lemma_fundamental_div_mod(x, p);
        lemma_mod_bound(x, p);
        assert(x / p < EXPONENT) by (nonlinear_arith)
            requires
                x == p * (x / p) + x % p,
                0 <= x % p,
                x < 2 * EXPONENT,
                p >= 2,
        ;
    }
}

/// A count is the whole of a number, its fraction dropped: as many ones as fit into it, none into
/// what is not positive, and as many as a `u64` holds where more would fit.
pub proof fn law_a_count_is_the_whole_of_a_number(x: Double)
    ensures
        x.value() <= 0 ==> x.counted() == 0,
        x.value() >= 0 ==> x.counted() * pow2(1074) <= x.value(),
        0 <= x.value() && x.counted() < u64::MAX ==> x.value() < (x.counted() + 1) * pow2(1074),
        x.value() >= (u64::MAX + 1) * pow2(1074) ==> x.counted() == u64::MAX,
{
    lemma_pow2_pos(1074);
    let (v, p) = (x.value(), pow2(1074) as int);
    if v > 0 {
        lemma_fundamental_div_mod(v, p);
        lemma_mod_bound(v, p);
        let q = v / p;
        assert(q * p <= v < (q + 1) * p) by (nonlinear_arith)
            requires
                v == p * q + v % p,
                0 <= v % p < p,
        ;
        lemma_div_pos_is_pos(v, p);
        if q > u64::MAX {
            assert(u64::MAX * p <= q * p) by (nonlinear_arith)
                requires
                    q >= u64::MAX,
                    p > 0,
            ;
        }
        if v >= (u64::MAX + 1) * p && q <= u64::MAX {
            assert((q + 1) * p <= (u64::MAX + 1) * p) by (nonlinear_arith)
                requires
                    q <= u64::MAX,
                    p > 0,
            ;
        }
    } else {
        lemma_mul_basics(p);
    }
}

/// Every finite number is above negative infinity and below positive infinity.
pub proof fn law_infinities_are_the_ends(x: Double)
    requires
        x.finite(),
    ensures
        x.below(Double { bits: 0x7ff0_0000_0000_0000 }),
        (Double { bits: 0xfff0_0000_0000_0000 }).below(x),
        !(Double { bits: 0x7ff0_0000_0000_0000 }).below(x),
        !x.below(Double { bits: 0xfff0_0000_0000_0000 }),
{
}

/// The zero of all bits unset has no value.
pub proof fn lemma_zero_value()
    ensures
        (Double { bits: 0 }).value() == 0,
        (Double { bits: 0 }).finite(),
{
    assert(significand(0) == 0);
    lemma_mul_basics(pow2(scale(0)) as int);
}

/// A number is one bound with itself, and it makes no odds which of two is named first.
pub proof fn law_same_bound(a: Double, b: Double)
    ensures
        !a.nan() ==> a.same_bound(a),
        a.same_bound(b) == b.same_bound(a),
{
    lemma_tolerance();
    lemma_mul_strictly_positive(GRAINS as int, grain() as int);
}

/// Numbers of opposite sign are within the tolerance where their grains add up to less than it.
proof fn lemma_near_opposite(m: nat, n: nat)
    ensures
        (units(m) + units(n) < tolerance()) == (units(m) / grain() + units(n) / grain() < GRAINS),
{
    lemma_tolerance();
    lemma_grains(m);
    lemma_grains(n);
    let p = grain() as int;
    let (f, g) = ((units(m) / grain()) as int, (units(n) / grain()) as int);
    let (r, q) = ((units(m) % grain()) as int, (units(n) % grain()) as int);
    assert(f * p + r + g * p + q == (f + g) * p + (r + q)) by (nonlinear_arith);
    if f + g < GRAINS {
        if r > 0 && q > 0 {
            assert((f + g) * p + (r + q) < GRAINS * p) by (nonlinear_arith)
                requires
                    f + g <= GRAINS - 2,
                    r < p,
                    q < p,
                    p > 0,
            ;
        } else {
            assert((f + g) * p + (r + q) < GRAINS * p) by (nonlinear_arith)
                requires
                    f + g <= GRAINS - 1,
                    r + q < p,
                    p > 0,
            ;
        }
    } else {
        assert((f + g) * p + (r + q) >= GRAINS * p) by (nonlinear_arith)
            requires
                f + g >= GRAINS,
                r >= 0,
                q >= 0,
                p > 0,
        ;
    }
}

/// Numbers of one sign are within the tolerance where their grains are; where their grains are
/// just that far apart, the remainder of the smaller decides.
proof fn lemma_near_alike(m: nat, n: nat)
    requires
        units(n) <= units(m),
    ensures
        units(n) / grain() <= units(m) / grain(),
        (units(m) - units(n) < tolerance()) == ({
            ||| units(m) / grain() - units(n) / grain() < GRAINS
            ||| units(m) / grain() - units(n) / grain() == GRAINS && units(n) % grain() != 0
        }),
{
    lemma_tolerance();
    lemma_grains(m);
    lemma_grains(n);
    let p = grain() as int;
    lemma_div_is_ordered(units(n) as int, units(m) as int, p);
    let (f, g) = ((units(m) / grain()) as int, (units(n) / grain()) as int);
    let (r, q) = ((units(m) % grain()) as int, (units(n) % grain()) as int);
    assert(f * p + r - (g * p + q) == (f - g) * p + (r - q)) by (nonlinear_arith);
    if f - g < GRAINS {
        assert((f - g) * p + (r - q) < GRAINS * p) by (nonlinear_arith)
            requires
                f - g <= GRAINS - 1,
                r - q < p,
                p > 0,
        ;
    } else if f - g > GRAINS {
        assert((f - g) * p + (r - q) >= GRAINS * p) by (nonlinear_arith)
            requires
                f - g >= GRAINS + 1,
                r - q > -p,
                p > 0,
        ;
    }
}

// ── Questions ────────────────────────────────────────────────────────────────

/// The significand and the scale of a magnitude.
pub fn parts(m: u64) -> (out: (u64, u64))
    ensures
        out.0 == significand(m as nat),
        out.1 == scale(m as nat),
        out.0 < 2 * EXPONENT,
        m < INFINITY ==> out.1 <= 2045,
        m <= ONE ==> out.1 <= 1022,
{
    proof {
        lemma_significand(m as nat);
    }
    if m / EXPONENT == 0 {
        (m % EXPONENT, 0)
    } else {
        (EXPONENT + m % EXPONENT, m / EXPONENT - 1)
    }
}

impl Double {
    /// The number that `bits` stand for.
    pub fn from_bits(bits: u64) -> (x: Double)
        ensures
            x.bits == bits,
    {
        Double { bits }
    }

    /// The number with a magnitude and a sign.
    pub fn with_sign(negative: bool, m: u64) -> (x: Double)
        requires
            m < SIGN,
        ensures
            x == signed(negative, m as nat),
            x.negative() == negative,
            x.magnitude() == m,
    {
        Double {
            bits: if negative {
                SIGN + m
            } else {
                m
            },
        }
    }

    /// Whether the number is neither infinite nor not a number.
    pub fn is_finite(&self) -> (yes: bool)
        ensures
            yes == self.finite(),
    {
        self.bits % SIGN < INFINITY
    }

    /// The whole number that a finite number counts.
    pub fn count(&self) -> (n: u64)
        requires
            self.finite(),
        ensures
            n == self.counted(),
    {
        let m = self.bits % SIGN;
        proof {
            lemma_mul_nonnegative(
                significand(m as nat) as int,
                pow2(scale(m as nat)) as int,
            );
            lemma_pow2_pos(1074);
            lemma_div_pos_is_pos(units(m as nat) as int, one() as int);
        }
        if self.bits >= SIGN {
            return 0;
        }
        let (sig, up) = parts(m);
        if up > 1074 + 63 {
            proof {
                lemma_significand(m as nat);
                lemma_rescale(sig as nat, up as nat, 1074);
                lemma2_to64();
                lemma_pow2_strictly_increases(63, (up - 1074) as nat);
                lemma2_to64_rest();
                let p = pow2((up - 1074) as nat) as int;
                assert(sig * p > u64::MAX) by (nonlinear_arith)
                    requires
                        sig >= EXPONENT,
                        p > 0x8000_0000_0000_0000,
                ;
                assert(self.value() / (one() as int) == sig * p);
            }
            return u64::MAX;
        }
        let (whole, _) = rescaled(sig, up, 1074);
        if whole > 0xffff_ffff_ffff_ffff {
            u64::MAX
        } else {
            whole as u64
        }
    }

    /// Whether the number is smaller than `other`.
    pub fn is_below(&self, other: &Double) -> (yes: bool)
        ensures
            yes == self.below(*other),
    {
        let (m, n) = (self.bits % SIGN, other.bits % SIGN);
        if m > INFINITY || n > INFINITY {
            return false;
        }
        if self.bits >= SIGN {
            if other.bits >= SIGN {
                m > n
            } else {
                m > 0 || n > 0
            }
        } else {
            other.bits < SIGN && m < n
        }
    }

    /// Whether the two are one bound.
    pub fn is_same_bound(&self, other: &Double) -> (yes: bool)
        ensures
            yes == self.same_bound(*other),
    {
        let (m, n) = (self.bits % SIGN, other.bits % SIGN);
        let alike = (self.bits >= SIGN) == (other.bits >= SIGN);
        if m > INFINITY || n > INFINITY {
            return false;
        }
        if m == INFINITY || n == INFINITY {
            return m == n && alike;
        }
        proof {
            lemma_tolerance();
            lemma_mul_strictly_positive(GRAINS as int, grain() as int);
            lemma_mul_nonnegative(significand(m as nat) as int, pow2(scale(m as nat)) as int);
            lemma_mul_nonnegative(significand(n as nat) as int, pow2(scale(n as nat)) as int);
        }
        if m == n && alike {
            return true;
        }
        if m > ONE || n > ONE {
            proof {
                if m > ONE {
                    if m != n {
                        lemma_far_apart(m as nat, n as nat);
                    } else {
                        lemma_far_apart(m as nat, 0);
                    }
                } else {
                    lemma_far_apart(n as nat, m as nat);
                }
            }
            return false;
        }
        let (ms, mu) = parts(m);
        let (ns, nu) = parts(n);
        let (mg, mx) = rescaled(ms, mu, 967);
        let (ng, nx) = rescaled(ns, nu, 967);
        if !alike {
            proof {
                lemma_near_opposite(m as nat, n as nat);
            }
            if mg >= GRAINS || ng >= GRAINS {
                return false;
            }
            mg + ng < GRAINS
        } else if m >= n {
            proof {
                if m > n {
                    law_magnitude_orders(n as nat, m as nat);
                }
                lemma_near_alike(m as nat, n as nat);
            }
            mg - ng < GRAINS || (mg - ng == GRAINS && !nx)
        } else {
            proof {
                law_magnitude_orders(m as nat, n as nat);
                lemma_near_alike(n as nat, m as nat);
            }
            ng - mg < GRAINS || (ng - mg == GRAINS && !mx)
        }
    }
}

} // verus!
