//! Natural numbers of any size, as far as rounding to a double needs them.
use vstd::arithmetic::mul::*;
use vstd::arithmetic::power2::*;
use vstd::prelude::*;

verus! {

/// A natural number, in limbs of 32 bits, the least first.
pub struct BigNat {
    limbs: Vec<u32>,
}

/// One more than the largest limb.
pub const BASE: u64 = 0x1_0000_0000;

/// What a limb at index `i` counts.
spec fn weight(i: nat) -> nat
    decreases i,
{
    if i == 0 {
        1
    } else {
        BASE as nat * weight((i - 1) as nat)
    }
}

/// The number that `limbs` stand for.
spec fn total(limbs: Seq<u32>) -> nat
    decreases limbs.len(),
{
    if limbs.len() == 0 {
        0
    } else {
        total(limbs.drop_last()) + limbs.last() as nat * weight((limbs.len() - 1) as nat)
    }
}

impl View for BigNat {
    type V = nat;

    closed spec fn view(&self) -> nat {
        total(self.limbs@)
    }
}

/// `limbs` with as many zeros behind them as make `len`.
spec fn padded(limbs: Seq<u32>, len: nat) -> Seq<u32>
    decreases len,
{
    Seq::new(
        len,
        |i: int|
            if i < limbs.len() {
                limbs[i]
            } else {
                0u32
            },
    )
}

/// Limbs below `i` are worth less than one limb at `i`.
proof fn lemma_total_bound(limbs: Seq<u32>)
    ensures
        total(limbs) < weight(limbs.len()),
    decreases limbs.len(),
{
    if limbs.len() > 0 {
        let i = (limbs.len() - 1) as nat;
        lemma_total_bound(limbs.drop_last());
        let (w, x) = (weight(i) as int, limbs.last() as int);
        assert(x * w + w <= BASE * w) by (nonlinear_arith)
            requires
                x < BASE,
                w >= 0,
        ;
    }
}

/// One limb more.
proof fn lemma_total_push(limbs: Seq<u32>, x: u32)
    ensures
        total(limbs.push(x)) == total(limbs) + x * weight(limbs.len()),
{
    assert(limbs.push(x).drop_last() =~= limbs);
}

/// Zeros behind the limbs change nothing.
proof fn lemma_total_padded(limbs: Seq<u32>, len: nat)
    requires
        limbs.len() <= len,
    ensures
        total(padded(limbs, len)) == total(limbs),
    decreases len,
{
    if limbs.len() < len {
        let shorter = (len - 1) as nat;
        lemma_total_padded(limbs, shorter);
        assert(padded(limbs, len).drop_last() =~= padded(limbs, shorter));
        lemma_mul_basics(weight(shorter) as int);
    } else {
        assert(padded(limbs, len) =~= limbs);
    }
}

impl BigNat {
    /// Zero.
    pub fn zero() -> (n: BigNat)
        ensures
            n@ == 0,
    {
        BigNat { limbs: Vec::new() }
    }

    /// The number `n`.
    pub fn from_u64(n: u64) -> (out: BigNat)
        ensures
            out@ == n,
    {
        let mut out = BigNat::zero();
        out.mul_add(0, (n / BASE) as u32);
        out.shift(32);
        proof {
            lemma2_to64();
        }
        out.mul_add(1, (n % BASE) as u32);
        out
    }

    /// The limb at `i`, zero beyond the last.
    fn limb(&self, i: usize) -> (x: u32)
        ensures
            forall|len: nat| i < len ==> x == #[trigger] padded(self.limbs@, len)[i as int],
    {
        if i < self.limbs.len() {
            self.limbs[i]
        } else {
            0
        }
    }

    /// Multiply by `factor` and add `addend`.
    pub fn mul_add(&mut self, factor: u32, addend: u32)
        ensures
            final(self)@ == old(self)@ * factor + addend,
    {
        let mut out: Vec<u32> = Vec::new();
        let mut carry: u64 = addend as u64;
        let mut i: usize = 0;
        let ghost limbs = self.limbs@;
        proof {
            assert(limbs.take(0) =~= seq![]);
            assert(total(limbs.take(0)) == 0 && weight(0) == 1);
            lemma_mul_basics(factor as int);
            lemma_mul_basics(carry as int);
        }
        while i < self.limbs.len()
            invariant
                limbs == self.limbs@,
                i <= limbs.len(),
                out@.len() == i,
                carry < BASE,
                total(out@) + carry * weight(i as nat) == total(limbs.take(i as int)) * factor
                    + addend,
            decreases self.limbs.len() - i,
        {
            let x = self.limbs[i];
            assert(x * factor <= 0xffff_fffe_0000_0001) by (nonlinear_arith)
                requires
                    x <= 0xffff_ffff,
                    factor <= 0xffff_ffff,
            ;
            let t: u64 = x as u64 * factor as u64 + carry;
            let ghost before = out@;
            out.push((t % BASE) as u32);
            proof {
                lemma_total_push(before, (t % BASE) as u32);
                assert(limbs.take(i + 1).drop_last() =~= limbs.take(i as int));
                let w = weight(i as nat) as int;
                let (lo, hi, f, c) = ((t % BASE) as int, (t / BASE) as int, factor as int, carry as int);
                let (xi, a, b) = (x as int, total(limbs.take(i as int)) as int, total(before) as int);
                assert(b + lo * w + hi * (BASE * w) == (a + xi * w) * f + addend) by (nonlinear_arith)
                    requires
                        b + c * w == a * f + addend,
                        hi * BASE + lo == xi * f + c,
                ;
            }
            carry = t / BASE;
            i = i + 1;
        }
        assert(limbs.take(i as int) =~= limbs);
        let ghost before = out@;
        if carry > 0 {
            out.push(carry as u32);
        }
        proof {
            lemma_total_push(before, carry as u32);
            lemma_mul_basics(weight(i as nat) as int);
        }
        self.limbs = out;
    }

    /// Multiply by two to the power of `n`.
    pub fn shift(&mut self, n: u64)
        ensures
            final(self)@ == old(self)@ * pow2(n as nat),
    {
        let mut i: u64 = 0;
        let ghost start = self@;
        proof {
            lemma2_to64();
            lemma_mul_basics(start as int);
        }
        while i < n
            invariant
                i <= n,
                self@ == start * pow2(i as nat),
            decreases n - i,
        {
            self.mul_add(2, 0);
            proof {
                lemma_pow2_unfold((i + 1) as nat);
                lemma_mul_is_associative(start as int, pow2(i as nat) as int, 2);
            }
            i = i + 1;
        }
    }

    /// Whether the number is `other` or larger.
    pub fn at_least(&self, other: &BigNat) -> (yes: bool)
        ensures
            yes == (self@ >= other@),
    {
        let n: usize = if self.limbs.len() >= other.limbs.len() {
            self.limbs.len()
        } else {
            other.limbs.len()
        };
        let ghost (a, b) = (padded(self.limbs@, n as nat), padded(other.limbs@, n as nat));
        proof {
            lemma_total_padded(self.limbs@, n as nat);
            lemma_total_padded(other.limbs@, n as nat);
            assert(a.take(n as int) =~= a);
            assert(b.take(n as int) =~= b);
        }
        let mut i: usize = n;
        while i > 0
            invariant
                i <= n,
                a == padded(self.limbs@, n as nat),
                b == padded(other.limbs@, n as nat),
                self@ - other@ == total(a.take(i as int)) - total(b.take(i as int)),
            decreases i,
        {
            let x = self.limb(i - 1);
            let y = other.limb(i - 1);
            proof {
                assert(x == padded(self.limbs@, n as nat)[i - 1]);
                assert(y == padded(other.limbs@, n as nat)[i - 1]);
                assert(a.take(i as int).drop_last() =~= a.take(i - 1));
                assert(b.take(i as int).drop_last() =~= b.take(i - 1));
                lemma_total_bound(a.take(i - 1));
                lemma_total_bound(b.take(i - 1));
                let w = weight((i - 1) as nat) as int;
                let (xi, yi) = (x as int, y as int);
                if x > y {
                    assert(xi * w >= yi * w + w) by (nonlinear_arith)
                        requires
                            xi >= yi + 1,
                            w >= 0,
                    ;
                }
                if x < y {
                    assert(yi * w >= xi * w + w) by (nonlinear_arith)
                        requires
                            yi >= xi + 1,
                            w >= 0,
                    ;
                }
            }
            if x > y {
                return true;
            }
            if x < y {
                return false;
            }
            i = i - 1;
        }
        true
    }

    /// The same number again.
    pub fn copy(&self) -> (out: BigNat)
        ensures
            out@ == self@,
    {
        let mut limbs: Vec<u32> = Vec::new();
        let mut i: usize = 0;
        while i < self.limbs.len()
            invariant
                i <= self.limbs.len(),
                limbs@ == self.limbs@.take(i as int),
            decreases self.limbs.len() - i,
        {
            limbs.push(self.limbs[i]);
            i = i + 1;
            assert(limbs@ =~= self.limbs@.take(i as int));
        }
        assert(limbs@ =~= self.limbs@);
        BigNat { limbs }
    }

    /// The sum with `other`.
    pub fn plus(&self, other: &BigNat) -> (sum: BigNat)
        ensures
            sum@ == self@ + other@,
    {
        let n: usize = if self.limbs.len() >= other.limbs.len() {
            self.limbs.len()
        } else {
            other.limbs.len()
        };
        let ghost (a, b) = (padded(self.limbs@, n as nat), padded(other.limbs@, n as nat));
        proof {
            lemma_total_padded(self.limbs@, n as nat);
            lemma_total_padded(other.limbs@, n as nat);
            assert(a.take(n as int) =~= a);
            assert(b.take(n as int) =~= b);
            assert(a.take(0) =~= seq![]);
            assert(b.take(0) =~= seq![]);
        }
        let mut out: Vec<u32> = Vec::new();
        let mut carry: u64 = 0;
        let mut i: usize = 0;
        while i < n
            invariant
                i <= n,
                out@.len() == i,
                carry <= 1,
                a == padded(self.limbs@, n as nat),
                b == padded(other.limbs@, n as nat),
                total(out@) + carry * weight(i as nat) == total(a.take(i as int)) + total(
                    b.take(i as int),
                ),
            decreases n - i,
        {
            let x = self.limb(i);
            let y = other.limb(i);
            assert(x == padded(self.limbs@, n as nat)[i as int]);
            assert(y == padded(other.limbs@, n as nat)[i as int]);
            let t: u64 = x as u64 + y as u64 + carry;
            let ghost before = out@;
            out.push((t % BASE) as u32);
            proof {
                lemma_total_push(before, (t % BASE) as u32);
                assert(a.take(i + 1).drop_last() =~= a.take(i as int));
                assert(b.take(i + 1).drop_last() =~= b.take(i as int));
                let w = weight(i as nat) as int;
                let (lo, hi, c, xi, yi) = (
                    (t % BASE) as int,
                    (t / BASE) as int,
                    carry as int,
                    x as int,
                    y as int,
                );
                let (p, q, o) = (
                    total(a.take(i as int)) as int,
                    total(b.take(i as int)) as int,
                    total(before) as int,
                );
                assert(o + lo * w + hi * (BASE * w) == (p + xi * w) + (q + yi * w))
                    by (nonlinear_arith)
                    requires
                        o + c * w == p + q,
                        lo + hi * BASE == xi + yi + c,
                ;
            }
            carry = t / BASE;
            i = i + 1;
        }
        let ghost before = out@;
        if carry > 0 {
            out.push(carry as u32);
        }
        proof {
            lemma_total_push(before, carry as u32);
            lemma_mul_basics(weight(n as nat) as int);
        }
        BigNat { limbs: out }
    }

    /// Subtract `other`, which is no larger.
    pub fn subtract(&mut self, other: &BigNat)
        requires
            old(self)@ >= other@,
        ensures
            final(self)@ == old(self)@ - other@,
    {
        let n: usize = if self.limbs.len() >= other.limbs.len() {
            self.limbs.len()
        } else {
            other.limbs.len()
        };
        let ghost (a, b) = (padded(self.limbs@, n as nat), padded(other.limbs@, n as nat));
        proof {
            lemma_total_padded(self.limbs@, n as nat);
            lemma_total_padded(other.limbs@, n as nat);
            assert(a.take(n as int) =~= a);
            assert(b.take(n as int) =~= b);
            assert(a.take(0) =~= seq![]);
            assert(b.take(0) =~= seq![]);
        }
        let mut out: Vec<u32> = Vec::new();
        let mut borrow: u64 = 0;
        let mut i: usize = 0;
        while i < n
            invariant
                i <= n,
                out@.len() == i,
                borrow <= 1,
                a == padded(self.limbs@, n as nat),
                b == padded(other.limbs@, n as nat),
                total(out@) - borrow * weight(i as nat) == total(a.take(i as int)) - total(
                    b.take(i as int),
                ),
            decreases n - i,
        {
            let x = self.limb(i);
            let y = other.limb(i);
            assert(x == padded(self.limbs@, n as nat)[i as int]);
            assert(y == padded(other.limbs@, n as nat)[i as int]);
            let t: u64 = BASE + x as u64 - y as u64 - borrow;
            let next: u64 = if t >= BASE {
                0
            } else {
                1
            };
            let ghost before = out@;
            out.push((t % BASE) as u32);
            proof {
                lemma_total_push(before, (t % BASE) as u32);
                assert(a.take(i + 1).drop_last() =~= a.take(i as int));
                assert(b.take(i + 1).drop_last() =~= b.take(i as int));
                let w = weight(i as nat) as int;
                let (lo, nx, c, xi, yi) = (
                    (t % BASE) as int,
                    next as int,
                    borrow as int,
                    x as int,
                    y as int,
                );
                let (p, q, o) = (
                    total(a.take(i as int)) as int,
                    total(b.take(i as int)) as int,
                    total(before) as int,
                );
                assert(lo - nx * BASE == xi - yi - c);
                assert(o + lo * w - nx * (BASE * w) == (p + xi * w) - (q + yi * w))
                    by (nonlinear_arith)
                    requires
                        o - c * w == p - q,
                        lo - nx * BASE == xi - yi - c,
                ;
            }
            borrow = next;
            i = i + 1;
        }
        proof {
            lemma_total_bound(out@);
            lemma_mul_basics(weight(n as nat) as int);
            assert(borrow == 0);
        }
        self.limbs = out;
    }
}

} // verus!
