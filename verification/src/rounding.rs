//! Rounding an exact quotient to a double.
use vstd::arithmetic::mul::*;
use vstd::arithmetic::power2::*;
use vstd::prelude::*;

use crate::bignat::BigNat;
use crate::double::{
    law_magnitude_orders, parts, signed, significand, units, Double, EXPONENT, INFINITY, NAN, SIGN,
};

verus! {

// ── Models ───────────────────────────────────────────────────────────────────

/// How far magnitude `k` is from `n / d` units of 2^-1074, in `d`-ths.
///
/// Infinity counts as the power of two after the largest finite double.
pub open spec fn distance(k: nat, n: nat, d: nat) -> int {
    if units(k) * d >= n {
        units(k) * d - n
    } else {
        n - units(k) * d
    }
}

/// Whether magnitude `m` is the nearest to `n / d` units of 2^-1074, and the even one of two that
/// are as near.
pub open spec fn is_nearest(m: nat, n: nat, d: nat) -> bool {
    &&& m <= INFINITY
    &&& forall|k: nat|
        k <= INFINITY && k != m ==> {
            ||| distance(m, n, d) < #[trigger] distance(k, n, d)
            ||| distance(m, n, d) == distance(k, n, d) && m % 2 == 0
        }
}

/// The magnitude that `n / d` units of 2^-1074 round to.
pub open spec fn nearest(n: nat, d: nat) -> nat {
    choose|m: nat| is_nearest(m, n, d)
}

/// Zero of the sign that a difference of zeros has: negative where a negative zero loses a positive
/// one.
pub open spec fn zero_difference(a: Double, b: Double) -> Double {
    signed(a.negative() && a.magnitude() == 0 && !b.negative(), 0)
}

/// `a - b`, rounded.
pub open spec fn difference(a: Double, b: Double) -> Double {
    if a.nan() || b.nan() || (a.infinite() && b.infinite() && a.negative() == b.negative()) {
        signed(false, NAN as nat)
    } else if a.infinite() {
        a
    } else if b.infinite() {
        signed(!b.negative(), INFINITY as nat)
    } else if a.value() == b.value() {
        zero_difference(a, b)
    } else if a.value() > b.value() {
        signed(false, nearest((a.value() - b.value()) as nat, 1))
    } else {
        signed(true, nearest((b.value() - a.value()) as nat, 1))
    }
}

/// The magnitude of the double that a whole number rounds to.
pub open spec fn whole_magnitude(n: u64) -> nat {
    nearest(n as nat * pow2(1074), 1)
}

/// `a` divided by the double that `n` rounds to, rounded.
pub open spec fn quotient(a: Double, n: u64) -> Double {
    if a.nan() {
        signed(false, NAN as nat)
    } else if a.infinite() {
        a
    } else {
        signed(
            a.negative(),
            nearest(units(a.magnitude()) * pow2(1074), units(whole_magnitude(n))),
        )
    }
}

// ── Facts about the models ───────────────────────────────────────────────────

/// A larger magnitude is a larger multiple of `d`.
proof fn lemma_multiples_order(k: nat, m: nat, d: nat)
    requires
        k < m,
        d > 0,
    ensures
        units(k) * d < units(m) * d,
{
    law_magnitude_orders(k, m);
    lemma_mul_strict_inequality(units(k) as int, units(m) as int, d as int);
}

/// Nothing is the nearest twice.
pub proof fn law_nearest_is_unique(m: nat, k: nat, n: nat, d: nat)
    requires
        is_nearest(m, n, d),
        is_nearest(k, n, d),
        d > 0,
    ensures
        m == k,
{
    if m <= k {
        lemma_nearest_in_order(m, k, n, d);
    } else {
        lemma_nearest_in_order(k, m, n, d);
    }
}

proof fn lemma_nearest_in_order(m: nat, k: nat, n: nat, d: nat)
    requires
        is_nearest(m, n, d),
        is_nearest(k, n, d),
        d > 0,
        m <= k,
    ensures
        m == k,
{
    if m < k {
        // Both are as near, so both are even, and the one between them is nearer.
        lemma_multiples_order(m, k, d);
        lemma_multiples_order(m, m + 1, d);
        assert(distance(m, n, d) == distance(k, n, d));
        if m + 1 < k {
            lemma_multiples_order(m + 1, k, d);
            assert(distance(m + 1, n, d) < distance(m, n, d));
        }
    }
}

/// `m` is what `n / d` rounds to.
proof fn lemma_nearest(m: nat, n: nat, d: nat)
    requires
        is_nearest(m, n, d),
        d > 0,
    ensures
        nearest(n, d) == m,
{
    law_nearest_is_unique(m, nearest(n, d), n, d);
}

/// A magnitude rounds to itself.
pub proof fn law_exact_is_nearest(m: nat)
    requires
        m <= INFINITY,
    ensures
        nearest(units(m), 1) == m,
{
    assert forall|k: nat| k <= INFINITY && k != m implies 0 < #[trigger] distance(
        k,
        units(m),
        1,
    ) by {
        if k < m {
            law_magnitude_orders(k, m);
        } else {
            law_magnitude_orders(m, k);
        }
    }
    lemma_nearest(m, units(m), 1);
}

/// Nothing is left of a finite number less itself, and all of a number less zero.
pub proof fn law_difference_ends(a: Double)
    ensures
        a.finite() ==> difference(a, a) == signed(false, 0),
        !a.nan() ==> difference(a, signed(false, 0)) == a,
{
    let z = signed(false, 0);
    lemma_zero_units(0);
    if a.finite() {
        crate::double::law_rank_orders_values(a, z);
    }
    if a.finite() && a.value() != 0 {
        law_exact_is_nearest(a.magnitude());
        if a.magnitude() > 0 {
            law_magnitude_orders(0, a.magnitude());
        }
    }
}

/// A whole number of up to 53 bits is a double, exactly.
proof fn lemma_whole_is_exact(n: nat, d: nat) -> (m: nat)
    requires
        0 < n,
        n * pow2(d) < 2 * EXPONENT,
        d <= 52,
    ensures
        m < INFINITY,
        units(m) == n * pow2(1074),
    decreases 52 - d,
{
    let q = n * pow2(d);
    lemma_pow2_pos(d);
    lemma_pow2_unfold(d + 1);
    if q >= EXPONENT {
        let s = (1074 - d) as nat;
        lemma_units_at(s, q);
        lemma_pow2_adds(d, s);
        lemma_mul_is_associative(n as int, pow2(d) as int, pow2(s) as int);
        s * EXPONENT as nat + q
    } else {
        assert(n * pow2(d + 1) == 2 * q) by (nonlinear_arith)
            requires
                q == n * pow2(d),
                pow2(d + 1) == 2 * pow2(d),
        ;
        if d == 52 {
            lemma2_to64_rest();
            assert(q >= EXPONENT) by (nonlinear_arith)
                requires
                    q == n * pow2(d),
                    n >= 1,
                    pow2(d) == EXPONENT,
            ;
        }
        lemma_whole_is_exact(n, d + 1)
    }
}

/// A whole number below 2^53 rounds to the double that is just that number.
pub proof fn law_whole_numbers_are_exact(n: nat)
    requires
        n < 0x20_0000_0000_0000,
    ensures
        nearest(n * pow2(1074), 1) < INFINITY,
        units(nearest(n * pow2(1074), 1)) == n * pow2(1074),
{
    lemma2_to64();
    if n == 0 {
        lemma_zero_units(0);
        lemma_mul_basics(pow2(1074) as int);
        law_exact_is_nearest(0);
    } else {
        lemma_mul_basics(n as int);
        let m = lemma_whole_is_exact(n, 0);
        law_exact_is_nearest(m);
    }
}

/// A difference is exact where a double is just that number.
pub proof fn law_an_exact_difference_is_exact(a: Double, b: Double, c: Double)
    requires
        a.finite(),
        b.finite(),
        c.finite(),
        c.value() == a.value() - b.value(),
    ensures
        difference(a, b).finite(),
        difference(a, b).value() == a.value() - b.value(),
{
    lemma_zero_units(0);
    lemma_zero_units(c.magnitude());
    lemma_zero_units(a.magnitude());
    lemma_zero_units(b.magnitude());
    law_exact_is_nearest(c.magnitude());
}

proof fn lemma_distance_scales(k: nat, n: nat, d: nat, c: nat)
    requires
        c > 0,
    ensures
        distance(k, n * c, d * c) == distance(k, n, d) * c,
{
    let u = units(k) as int;
    let (x, y, z) = (u * d, n as int, c as int);
    assert(u * (d * c) == x * z) by (nonlinear_arith)
        requires
            x == u * d,
            z == c,
    ;
    assert(n * c == y * z);
    assert(x >= y <==> x * z >= y * z) by (nonlinear_arith)
        requires
            z > 0,
    ;
    assert((x - y) * z == x * z - y * z && (y - x) * z == y * z - x * z) by (nonlinear_arith);
}

/// What is nearest to a fraction is nearest to it however it is extended.
pub proof fn law_an_extended_fraction_rounds_alike(m: nat, n: nat, d: nat, c: nat)
    requires
        is_nearest(m, n, d),
        c > 0,
    ensures
        is_nearest(m, n * c, d * c),
{
    lemma_distance_scales(m, n, d, c);
    assert forall|k: nat| k <= INFINITY && k != m implies {
        ||| distance(m, n * c, d * c) < #[trigger] distance(k, n * c, d * c)
        ||| distance(m, n * c, d * c) == distance(k, n * c, d * c) && m % 2 == 0
    } by {
        lemma_distance_scales(k, n, d, c);
        let (near, far, z) = (distance(m, n, d), distance(k, n, d), c as int);
        assert(near < far ==> near * z < far * z) by (nonlinear_arith)
            requires
                z > 0,
        ;
    }
}

/// A difference and its reverse are the same number of opposite signs, and a difference too large
/// for a double is infinite. What is not a number stays so, and an infinity stays what it is unless
/// the same is taken from it.
pub proof fn law_a_difference_reversed(a: Double, b: Double)
    ensures
        a.finite() && b.finite() ==> {
            &&& !difference(a, b).nan()
            &&& difference(a, b).magnitude() == difference(b, a).magnitude()
            &&& a.value() > b.value() ==> !difference(a, b).negative() && difference(
                b,
                a,
            ).negative()
            &&& a.value() - b.value() >= units(INFINITY as nat) ==> difference(a, b).infinite()
        },
        a.nan() || b.nan() ==> difference(a, b).nan(),
        a.infinite() && b.finite() ==> difference(a, b) == a && difference(b, a).infinite()
            && difference(b, a).negative() != a.negative(),
        a.infinite() && b.infinite() ==> (if a.bits == b.bits {
            difference(a, b).nan()
        } else {
            difference(a, b) == a
        }),
{
    if a.finite() && b.finite() {
        let exact = a.value() - b.value();
        let n = (if exact >= 0 {
            exact
        } else {
            -exact
        }) as nat;
        lemma_nearest_fits(n, 1);
        lemma_zero_units(INFINITY as nat);
        if exact >= units(INFINITY as nat) {
            lemma_nearest_infinity(n, 1);
        }
    }
}

/// A share has the sign of the whole. What is not a number stays so, and an infinity stays what it
/// is. A share is the double nearest to the whole divided by the double nearest to the number of
/// shares.
pub proof fn law_a_share_keeps_its_sign(a: Double, n: u64) -> (m: nat)
    requires
        n > 0,
    ensures
        is_nearest(m, n as nat * pow2(1074), 1),
        a.nan() ==> quotient(a, n).nan(),
        a.infinite() ==> quotient(a, n) == a,
        a.finite() ==> quotient(a, n).negative() == a.negative() && is_nearest(
            quotient(a, n).magnitude(),
            units(a.magnitude()) * pow2(1074),
            units(m),
        ),
{
    let m = whole_magnitude(n);
    lemma_nearest_fits(n as nat * pow2(1074), 1);
    if a.finite() {
        lemma_whole_magnitude(n, m);
        lemma_nearest_fits(units(a.magnitude()) * pow2(1074), units(m));
    }
    m
}

/// No double is nearer to a difference than what the difference rounds to.
pub proof fn law_a_difference_is_nearest(a: Double, b: Double, c: Double)
    requires
        a.finite(),
        b.finite(),
        c.finite(),
        difference(a, b).finite(),
    ensures
        ({
            let (d, e) = (difference(a, b).value() - (a.value() - b.value()), c.value() - (
            a.value() - b.value()));
            -e <= d <= e || e <= d <= -e
        }),
{
    let exact = a.value() - b.value();
    lemma_zero_units(0);
    if exact != 0 {
        let n = (if exact > 0 {
            exact
        } else {
            -exact
        }) as nat;
        lemma_nearest_fits(n, 1);
        let m = nearest(n, 1);
        let k = c.magnitude();
        if k != m {
            assert(distance(m, n, 1) <= distance(k, n, 1));
        }
        if m != 0 {
            assert(distance(m, n, 1) <= distance(0, n, 1));
        }
    }
}

/// No double is nearer to a share of a number, than what the share rounds to: as many of it as the
/// number is shared by come as near to the number as as many of any other.
pub proof fn law_a_share_is_nearest(a: Double, n: u64, c: Double)
    requires
        a.finite(),
        c.finite(),
        0 < n < 0x20_0000_0000_0000,
        quotient(a, n).finite(),
    ensures
        ({
            let (d, e) = (quotient(a, n).value() * n - a.value(), c.value() * n - a.value());
            -e <= d <= e || e <= d <= -e
        }),
        c.value() * n == a.value() ==> quotient(a, n).value() == c.value(),
{
    let p = pow2(1074);
    lemma_pow2_pos(1074);
    law_whole_numbers_are_exact(n as nat);
    let (x, dd) = (units(a.magnitude()) * p, n as nat * p);
    lemma_mul_strictly_positive(n as int, p as int);
    lemma_nearest_fits(x, dd);
    let m = nearest(x, dd);
    let k = c.magnitude();
    assert(distance(m, x, dd) <= distance(k, x, dd));
    lemma_share_distance(m, units(a.magnitude()), n as nat);
    lemma_share_distance(k, units(a.magnitude()), n as nat);
    let (um, uk, ua) = (units(m) as int, units(k) as int, units(a.magnitude()) as int);
    let (near, far) = (
        if um * n >= ua {
            um * n - ua
        } else {
            ua - um * n
        },
        if uk * n >= ua {
            uk * n - ua
        } else {
            ua - uk * n
        },
    );
    assert(near <= far) by (nonlinear_arith)
        requires
            near * p <= far * p,
            p > 0,
    ;
    assert(um * n >= 0 && uk * n >= 0) by (nonlinear_arith)
        requires
            um >= 0,
            uk >= 0,
            n > 0,
    ;
    let (q, cv) = (quotient(a, n).value(), c.value());
    assert((-um) * n == -(um * n)) by (nonlinear_arith);
    assert((-uk) * n == -(uk * n)) by (nonlinear_arith);
    // Zero is a double too, so what is nearest is no further than all of the number.
    assert(distance(m, x, dd) <= distance(0, x, dd));
    lemma_zero_units(0);
    lemma_share_distance(0, units(a.magnitude()), n as nat);
    if cv * n == a.value() {
        assert(uk * n == ua) by {
            if uk * n != ua {
                assert(uk == 0 || ua == 0);
                lemma_mul_basics(n as int);
            }
        }
        assert(um * n == ua);
        assert(um == uk) by (nonlinear_arith)
            requires
                um * n == uk * n,
                n > 0,
        ;
        if um == 0 {
            lemma_zero_units(m);
            lemma_zero_units(k);
        }
        if cv != q {
            assert(um > 0);
            assert(um * n > 0) by (nonlinear_arith)
                requires
                    um > 0,
                    n > 0,
            ;
        }
    }
}

/// How far a magnitude is from a share.
proof fn lemma_share_distance(k: nat, ua: nat, n: nat)
    ensures
        distance(k, ua * pow2(1074), n * pow2(1074)) == (if units(k) * n >= ua {
            units(k) * n - ua
        } else {
            ua - units(k) * n
        }) * pow2(1074),
{
    let p = pow2(1074) as int;
    lemma_pow2_pos(1074);
    let (u, a, m) = (units(k) as int, ua as int, n as int);
    assert(u * (m * p) - a * p == (u * m - a) * p) by (nonlinear_arith);
    assert((a - u * m) * p == -((u * m - a) * p)) by (nonlinear_arith);
    if u * m >= a {
        assert((u * m - a) * p >= 0) by (nonlinear_arith)
            requires
                u * m >= a,
                p > 0,
        ;
    } else {
        assert((u * m - a) * p < 0) by (nonlinear_arith)
            requires
                u * m < a,
                p > 0,
        ;
    }
}

/// Two finite numbers are one bound exactly where their difference, rounded to a double, is smaller
/// than the machine epsilon 2^-52, which is 2^1022 units; so numbers within 2^-53 are one bound, and
/// numbers 2^-52 apart are two. The infinities are one bound with themselves alone.
pub proof fn law_one_bound_is_within_epsilon(a: Double, b: Double)
    ensures
        a.finite() && b.finite() ==> (a.same_bound(b) <==> units(difference(a, b).magnitude())
            < pow2(1022)),
        a.finite() && b.finite() && -pow2(1021) <= a.value() - b.value() <= pow2(1021)
            ==> a.same_bound(b),
        a.finite() && b.finite() && !(-pow2(1022) < a.value() - b.value() < pow2(1022))
            ==> !a.same_bound(b),
        a.infinite() || b.infinite() ==> (a.same_bound(b) <==> a.bits == b.bits),
        a.nan() || b.nan() ==> !a.same_bound(b),
{
    lemma_pow2_unfold(1022);
    lemma_pow2_unfold(1021);
    lemma_pow2_strictly_increases(968, 1021);
    lemma_pow2_pos(968);
    if a.finite() && b.finite() {
        let exact = a.value() - b.value();
        lemma_zero_units(0);
        lemma_pow2_pos(1022);
        if exact == 0 {
            assert(difference(a, b).magnitude() == 0);
        } else {
            let n = (if exact > 0 {
                exact
            } else {
                -exact
            }) as nat;
            lemma_nearest_fits(n, 1);
            lemma_below_epsilon(n);
            assert(difference(a, b).magnitude() == nearest(n, 1));
        }
    }
}

/// What rounds to less than 2^-52.
proof fn lemma_below_epsilon(n: nat)
    ensures
        units(nearest(n, 1)) < pow2(1022) <==> n < pow2(1022) - pow2(968),
{
    let e = EXPONENT as nat;
    let m0 = (971 * e) as nat;
    lemma2_to64_rest();
    lemma_units_at(970, e);
    lemma_units_at(969, (2 * e - 1) as nat);
    lemma_pow2_adds(52, 970);
    lemma_pow2_unfold(970);
    lemma_pow2_unfold(969);
    assert(970 * e + e == m0);
    assert(969 * e + (2 * e - 1) == m0 - 1);
    assert(units(m0) == pow2(1022));
    let (p, h) = (pow2(969) as int, pow2(968) as int);
    assert((2 * e - 1) * p == 2 * e * p - p) by (nonlinear_arith);
    assert(2 * e * p == e * (2 * p)) by (nonlinear_arith);
    assert(units((m0 - 1) as nat) == pow2(1022) - p);
    lemma_nearest_fits(n, 1);
    let m = nearest(n, 1);
    assert(distance(m0, n, 1) >= 0 && distance((m0 - 1) as nat, n, 1) >= 0);
    if m < m0 {
        law_magnitude_orders(m, m0);
        if m < m0 - 1 {
            law_magnitude_orders(m, (m0 - 1) as nat);
        }
    } else {
        if m > m0 {
            law_magnitude_orders(m0, m);
        }
    }
    assert(m0 % 2 == 0);
}

/// Every number has a nearest double.
pub proof fn lemma_nearest_fits(n: nat, d: nat)
    requires
        d > 0,
    ensures
        is_nearest(nearest(n, d), n, d),
        nearest(n, d) <= INFINITY,
{
    if n >= units(INFINITY as nat) * d {
        lemma_nearest_infinity(n, d);
    } else {
        lemma_zero_units(0);
        lemma_mul_basics(d as int);
        let low = lemma_low(n, d, INFINITY as nat);
        let two = units(low) * d + units(low + 1) * d;
        let m = if 2 * n < two || (2 * n == two && low % 2 == 0) {
            low
        } else {
            low + 1
        };
        lemma_nearest_between(low, m, n, d);
    }
}

/// The largest magnitude that is not above `n / d` units.
proof fn lemma_low(n: nat, d: nat, top: nat) -> (low: nat)
    requires
        units(0) * d <= n < units(top) * d,
        top <= INFINITY,
    ensures
        low < top,
        units(low) * d <= n < units(low + 1) * d,
    decreases top,
{
    let below = (top - 1) as nat;
    if units(below) * d <= n {
        below
    } else {
        lemma_low(n, d, below)
    }
}

/// Between two magnitudes that follow each other, the nearer one is the nearest of all.
pub proof fn lemma_nearest_between(low: nat, m: nat, n: nat, d: nat)
    requires
        d > 0,
        low < INFINITY,
        units(low) * d <= n < units(low + 1) * d,
        m == low || m == low + 1,
        m == low ==> 2 * n <= units(low) * d + units(low + 1) * d,
        m == low + 1 ==> 2 * n >= units(low) * d + units(low + 1) * d,
        2 * n == units(low) * d + units(low + 1) * d ==> m % 2 == 0,
    ensures
        nearest(n, d) == m,
        is_nearest(m, n, d),
{
    assert forall|k: nat| k <= INFINITY && k != m implies ({
        ||| distance(m, n, d) < #[trigger] distance(k, n, d)
        ||| distance(m, n, d) == distance(k, n, d) && m % 2 == 0
    }) by {
        if k < low {
            lemma_multiples_order(k, low, d);
        }
        if k > low + 1 {
            lemma_multiples_order(low + 1, k, d);
        }
    }
    lemma_nearest(m, n, d);
}

/// From infinity's place on, infinity is the nearest.
pub proof fn lemma_nearest_infinity(n: nat, d: nat)
    requires
        d > 0,
        n >= units(INFINITY as nat) * d,
    ensures
        nearest(n, d) == INFINITY,
        is_nearest(INFINITY as nat, n, d),
{
    let m = INFINITY as nat;
    assert forall|k: nat| k <= INFINITY && k != m implies distance(m, n, d)
        < #[trigger] distance(k, n, d) by {
        lemma_multiples_order(k, m, d);
    }
    lemma_nearest(m, n, d);
}

/// The magnitude with significand `q` at scale `s`, and the one after it.
proof fn lemma_units_at(s: nat, q: nat)
    requires
        q < 2 * EXPONENT,
        s > 0 ==> q >= EXPONENT,
    ensures
        units(s * EXPONENT as nat + q) == q * pow2(s),
        units(s * EXPONENT as nat + q + 1) == (q + 1) * pow2(s),
{
    let e = EXPONENT as nat;
    lemma_pow2_unfold(s + 1);
    if q < EXPONENT {
        assert((s * e + q) / e == 0 && (s * e + q) % e == q);
    } else {
        assert((s * e + q) / e == s + 1 && (s * e + q) % e == q - e);
    }
    if q + 1 < EXPONENT {
        assert((s * e + q + 1) / e == 0 && (s * e + q + 1) % e == q + 1);
    } else if q + 1 < 2 * e {
        assert((s * e + q + 1) / e == s + 1 && (s * e + q + 1) % e == q + 1 - e);
    } else {
        assert((s * e + q + 1) / e == s + 2 && (s * e + q + 1) % e == 0);
        assert(e * pow2(s + 1) == (q + 1) * pow2(s)) by (nonlinear_arith)
            requires
                pow2(s + 1) == 2 * pow2(s),
                q + 1 == 2 * e,
        ;
    }
}

// ── Rounding ─────────────────────────────────────────────────────────────────

/// The magnitude that `n / d` units of 2^-1074 round to.
pub fn round(n: BigNat, d: &BigNat) -> (m: u64)
    requires
        d@ > 0,
    ensures
        m == nearest(n@, d@),
        is_nearest(m as nat, n@, d@),
{
    let mut step = d.copy();
    step.shift(52);
    let mut next = d.copy();
    next.shift(53);
    // Find the scale at which the quotient has at most 53 bits.
    let mut s: u64 = 0;
    while s < 2046 && n.at_least(&next)
        invariant
            s <= 2046,
            step@ == d@ * pow2((52 + s) as nat),
            next@ == d@ * pow2((53 + s) as nat),
            s > 0 ==> n@ >= step@,
        decreases 2046 - s,
    {
        step.mul_add(2, 0);
        next.mul_add(2, 0);
        proof {
            lemma_pow2_unfold((53 + s) as nat);
            lemma_pow2_unfold((54 + s) as nat);
            lemma_mul_is_associative(d@ as int, pow2((52 + s) as nat) as int, 2);
            lemma_mul_is_associative(d@ as int, pow2((53 + s) as nat) as int, 2);
        }
        s = s + 1;
    }
    if s == 2046 {
        proof {
            lemma2_to64_rest();
            lemma_pow2_adds(52, 2046);
            lemma_units_at(2046, EXPONENT as nat);
            lemma_mul_is_commutative(d@ as int, pow2(2098) as int);
            lemma_nearest_infinity(n@, d@);
        }
        return INFINITY;
    }
    // Divide, one bit of the quotient at a time.
    let ghost whole = n@;
    let mut rest = n;
    let mut q: u64 = 0;
    let mut i: u64 = 0;
    proof {
        lemma2_to64();
        lemma2_to64_rest();
        lemma_pow2_unfold((53 + s) as nat);
        lemma_mul_is_associative(d@ as int, pow2((52 + s) as nat) as int, 2);
    }
    while i < 53
        invariant
            i <= 53,
            rest@ < 2 * step@,
            q < pow2(i as nat),
            pow2(53) == 2 * EXPONENT,
            pow2(i as nat) * whole == rest@ + q * (2 * step@),
        decreases 53 - i,
    {
        proof {
            lemma_pow2_unfold((i + 1) as nat);
            if i + 1 < 53 {
                lemma_pow2_strictly_increases((i + 1) as nat, 53);
            }
        }
        let ghost (r, b, p) = (rest@ as int, step@ as int, pow2(i as nat) as int);
        let ghost w = whole as int;
        let ghost q0 = q as int;
        q = q * 2;
        if rest.at_least(&step) {
            rest.subtract(&step);
            q = q + 1;
            assert((2 * p) * w == 2 * (r - b) + (2 * q0 + 1) * (2 * b)) by (nonlinear_arith)
                requires
                    p * w == r + q0 * (2 * b),
            ;
        } else {
            assert((2 * p) * w == 2 * r + (2 * q0) * (2 * b)) by (nonlinear_arith)
                requires
                    p * w == r + q0 * (2 * b),
            ;
        }
        rest.mul_add(2, 0);
        i = i + 1;
    }
    let above = !step.at_least(&rest);
    let half = !above && rest.at_least(&step);
    let low: u64 = s * EXPONENT + q;
    proof {
        lemma_bracket(whole, d@, s as nat, q as nat, rest@, step@);
        lemma_units_at(s as nat, q as nat);
        assert(low % 2 == q % 2);
        if above || (half && q % 2 == 1) {
            lemma_nearest_between(low as nat, (low + 1) as nat, whole, d@);
        } else {
            lemma_nearest_between(low as nat, low as nat, whole, d@);
        }
    }
    if above || (half && q % 2 == 1) {
        low + 1
    } else {
        low
    }
}

/// What the long division has found of the quotient, once its 53 bits are out.
proof fn lemma_bracket(n: nat, d: nat, s: nat, q: nat, rest: nat, step: nat)
    requires
        d > 0,
        step == d * pow2(52 + s),
        rest < 2 * step,
        pow2(53) * n == rest + q * (2 * step),
        s > 0 ==> n >= step,
        q < 2 * EXPONENT,
    ensures
        s > 0 ==> q >= EXPONENT,
        (q * pow2(s)) * d <= n < ((q + 1) * pow2(s)) * d,
        (2 * n > (q * pow2(s)) * d + ((q + 1) * pow2(s)) * d) == (rest > step),
        (2 * n == (q * pow2(s)) * d + ((q + 1) * pow2(s)) * d) == (rest == step),
{
    lemma2_to64_rest();
    lemma_pow2_adds(52, s);
    lemma_pow2_pos(s);
    let e = EXPONENT as int;
    let t = d * pow2(s) as int;
    assert(t > 0) by (nonlinear_arith)
        requires
            d > 0,
            pow2(s) > 0,
            t == d * pow2(s),
    ;
    assert(step == e * t) by (nonlinear_arith)
        requires
            step == d * (e * pow2(s)),
            t == d * pow2(s),
    ;
    let (qi, ni, r) = (q as int, n as int, rest as int);
    assert((q * pow2(s)) * d == qi * t) by (nonlinear_arith)
        requires
            t == d * pow2(s),
            qi == q,
    ;
    assert(((q + 1) * pow2(s)) * d == qi * t + t) by (nonlinear_arith)
        requires
            t == d * pow2(s),
            qi == q,
    ;
    assert(r == (2 * e) * (ni - qi * t)) by (nonlinear_arith)
        requires
            (2 * e) * ni == r + qi * (2 * (e * t)),
    ;
    if s > 0 && q < EXPONENT {
        assert(qi * t + t <= e * t) by (nonlinear_arith)
            requires
                qi + 1 <= e,
                t > 0,
        ;
    }
}

// ── Arithmetic ───────────────────────────────────────────────────────────────

/// A finite magnitude in units of 2^-1074.
fn units_of(m: u64) -> (n: BigNat)
    ensures
        n@ == units(m as nat),
{
    let (sig, up) = parts(m);
    let mut n = BigNat::from_u64(sig);
    n.shift(up);
    n
}

/// What a positive whole number rounds to is not zero, and finite.
proof fn lemma_whole_magnitude(n: u64, m: nat)
    requires
        n > 0,
        is_nearest(m, n as nat * pow2(1074), 1),
    ensures
        m > 0,
        units(m) > 0,
{
    let x = n as nat * pow2(1074);
    lemma_pow2_pos(1074);
    assert(x >= 1) by (nonlinear_arith)
        requires
            x == n * pow2(1074),
            n >= 1,
            pow2(1074) >= 1,
    ;
    lemma2_to64();
    assert(significand(0) == 0);
    assert(significand(1) == 1);
    assert(units(0) == 0) by {
        lemma_mul_basics(pow2(crate::double::scale(0)) as int);
    }
    assert(units(1) == 1);
    if m == 0 {
        assert(distance(1, x, 1) < distance(0, x, 1));
    }
    law_magnitude_orders(0, m);
}

impl Double {
    /// The number less `other`, rounded.
    pub fn minus(&self, other: &Double) -> (x: Double)
        ensures
            x == difference(*self, *other),
    {
        let (m, n) = (self.bits % SIGN, other.bits % SIGN);
        let (sm, sn) = (self.bits >= SIGN, other.bits >= SIGN);
        if m > INFINITY || n > INFINITY || (m == INFINITY && n == INFINITY && sm == sn) {
            return Double::with_sign(false, NAN);
        }
        if m == INFINITY {
            return *self;
        }
        if n == INFINITY {
            return Double::with_sign(!sn, INFINITY);
        }
        let mut a = units_of(m);
        let b = units_of(n);
        let one = BigNat::from_u64(1);
        if sm == sn {
            if a.at_least(&b) {
                if b.at_least(&a) {
                    proof {
                        lemma_zero_units(m as nat);
                    }
                    return Double::with_sign(false, 0);
                }
                a.subtract(&b);
                Double::with_sign(sm, round(a, &one))
            } else {
                let mut c = units_of(n);
                c.subtract(&a);
                Double::with_sign(!sm, round(c, &one))
            }
        } else {
            let sum = a.plus(&b);
            if m == 0 && n == 0 {
                proof {
                    lemma_zero_units(0);
                }
                return Double::with_sign(sm, 0);
            }
            proof {
                lemma_zero_units(m as nat);
                lemma_zero_units(n as nat);
            }
            Double::with_sign(sm, round(sum, &one))
        }
    }

    /// The number divided by a positive whole number.
    pub fn over(&self, n: u64) -> (x: Double)
        requires
            n > 0,
        ensures
            x == quotient(*self, n),
    {
        let m = self.bits % SIGN;
        if m > INFINITY {
            return Double::with_sign(false, NAN);
        }
        if m == INFINITY {
            return *self;
        }
        let one = BigNat::from_u64(1);
        let mut whole = BigNat::from_u64(n);
        whole.shift(1074);
        let w = round(whole, &one);
        proof {
            lemma_whole_magnitude(n, w as nat);
        }
        let d = units_of(w);
        let mut a = units_of(m);
        a.shift(1074);
        Double::with_sign(self.bits >= SIGN, round(a, &d))
    }
}

/// Only zero has no units.
proof fn lemma_zero_units(m: nat)
    ensures
        units(m) == 0 <==> m == 0,
{
    assert(significand(0) == 0);
    assert(units(0) == 0) by {
        lemma_mul_basics(pow2(crate::double::scale(0)) as int);
    }
    if m > 0 {
        law_magnitude_orders(0, m);
    }
}

} // verus!
