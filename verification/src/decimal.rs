//! Whole numbers in decimal, written and read.
use vstd::prelude::*;

use crate::numeral;
use crate::text::chars_of;

verus! {

// ── Models ───────────────────────────────────────────────────────────────────

/// The decimal digit of `d`.
pub open spec fn digit(d: int) -> char {
    ('0' as int + d) as char
}

/// `n` in decimal, without leading zeros.
pub open spec fn decimal(n: nat) -> Seq<char>
    decreases n,
{
    if n < 10 {
        seq![digit(n as int)]
    } else {
        decimal(n / 10).push(digit((n % 10) as int))
    }
}

/// Whether `c` is a decimal digit.
pub open spec fn is_digit(c: char) -> bool {
    '0' <= c <= '9'
}

/// The number that the digits of `s` spell.
pub open spec fn spelled(s: Seq<char>) -> nat
    decreases s.len(),
{
    if s.len() == 0 {
        0
    } else {
        spelled(s.drop_last()) * 10 + (s.last() as nat - '0' as nat) as nat
    }
}

/// Whether `s` is one digit or more, and nothing else.
pub open spec fn is_number(s: Seq<char>) -> bool {
    s.len() > 0 && forall|i: int| 0 <= i < s.len() ==> is_digit(#[trigger] s[i])
}

/// What `str::parse::<u64>` makes of `s`: digits, with at most one plus sign before them, that
/// spell a number which fits.
pub open spec fn parsed_u64(s: Seq<char>) -> Option<u64> {
    let digits = if s.len() > 0 && s.first() == '+' {
        s.drop_first()
    } else {
        s
    };
    if is_number(digits) && spelled(digits) <= u64::MAX {
        Some(spelled(digits) as u64)
    } else {
        None
    }
}

/// The last `digits` decimal digits of `n`, zeros included.
pub open spec fn padded(n: nat, digits: nat) -> Seq<char>
    decreases digits,
{
    if digits == 0 {
        seq![]
    } else {
        padded(n / 10, (digits - 1) as nat).push(digit((n % 10) as int))
    }
}

/// `n` with a point before its last `digits` digits.
pub open spec fn fixed(n: nat, digits: nat) -> Seq<char> {
    decimal(n / numeral::tens(digits)) + seq!['.'] + padded(n, digits)
}

// ── Laws ─────────────────────────────────────────────────────────────────────

/// Decimal digits spell the number that they were written for.
pub proof fn law_decimal_spells(n: nat)
    ensures
        is_number(decimal(n)),
        spelled(decimal(n)) == n,
    decreases n,
{
    let d = (n % 10) as int;
    assert(is_digit(digit(d)));
    if n < 10 {
        assert(decimal(n).drop_last() =~= seq![]);
        assert(spelled(decimal(n).drop_last()) == 0);
    } else {
        law_decimal_spells(n / 10);
        let head = decimal(n / 10);
        assert(decimal(n).drop_last() =~= head);
        assert forall|i: int| 0 <= i < decimal(n).len() implies is_digit(
            #[trigger] decimal(n)[i],
        ) by {
            if i < head.len() {
                assert(decimal(n)[i] == head[i]);
            }
        }
    }
}

/// A number that was written in decimal is read back.
pub proof fn law_decimal_reads_back(n: u64)
    ensures
        parsed_u64(decimal(n as nat)) == Some(n),
{
    law_decimal_spells(n as nat);
    assert(is_digit(decimal(n as nat)[0]));
}

/// A plus sign and zeros before a number change nothing; anything else that is no digit makes it no
/// number, and so does a number that does not fit.
pub proof fn law_what_is_read_as_a_number(zeros: Seq<char>, n: u64, s: Seq<char>, i: int)
    requires
        forall|j: int| 0 <= j < zeros.len() ==> #[trigger] zeros[j] == '0',
    ensures
        parsed_u64(zeros + decimal(n as nat)) == Some(n),
        parsed_u64(seq!['+'] + zeros + decimal(n as nat)) == Some(n),
        0 <= i < s.len() && !is_digit(s[i]) && !(i == 0 && s[i] == '+') ==> parsed_u64(s) is None,
        s.len() == 0 || s == seq!['+'] ==> parsed_u64(s) is None,
        is_number(s) && spelled(s) > u64::MAX ==> parsed_u64(s) is None,
        is_number(s) && spelled(s) <= u64::MAX ==> parsed_u64(s) == Some(spelled(s) as u64),
{
    let t = zeros + decimal(n as nat);
    law_decimal_spells(n as nat);
    lemma_zeros_spell_nothing(zeros, decimal(n as nat));
    assert forall|j: int| 0 <= j < t.len() implies is_digit(#[trigger] t[j]) by {
        if j < zeros.len() {
            assert(zeros[j] == '0');
        } else {
            assert(t[j] == decimal(n as nat)[j - zeros.len()]);
        }
    }
    assert(is_digit(t[0]));
    assert((seq!['+'] + zeros + decimal(n as nat)).drop_first() =~= t);
    if 0 <= i < s.len() && !is_digit(s[i]) {
        if s[0] == '+' && i > 0 {
            assert(s.drop_first()[i - 1] == s[i]);
        }
    }
    if s == seq!['+'] {
        assert(s.drop_first().len() == 0);
    }
    if is_number(s) {
        assert(is_digit(s[0]));
    }
}

proof fn lemma_zeros_spell_nothing(zeros: Seq<char>, s: Seq<char>)
    requires
        forall|j: int| 0 <= j < zeros.len() ==> #[trigger] zeros[j] == '0',
    ensures
        spelled(zeros + s) == spelled(s),
    decreases zeros.len() + s.len(),
{
    if s.len() > 0 {
        lemma_zeros_spell_nothing(zeros, s.drop_last());
        assert((zeros + s).drop_last() =~= zeros + s.drop_last());
    } else if zeros.len() > 0 {
        let rest = zeros.drop_last();
        assert forall|j: int| 0 <= j < rest.len() implies #[trigger] rest[j] == '0' by {
            assert(zeros[j] == '0');
        }
        lemma_zeros_spell_nothing(rest, s);
        assert(zeros + s =~= zeros);
        assert(rest + s =~= rest);
        assert(zeros[zeros.len() - 1] == '0');
    } else {
        assert(zeros + s =~= s);
    }
}

/// A number with a point is its whole part, the point, and just as many digits behind it; the two
/// parts spell it.
pub proof fn law_fixed_reads_back(n: nat, digits: nat) -> (parts: (Seq<char>, Seq<char>))
    ensures
        fixed(n, digits) == parts.0 + "."@ + parts.1,
        is_number(parts.0),
        parts.1.len() == digits,
        digits > 0 ==> is_number(parts.1),
        spelled(parts.0) * numeral::tens(digits) + spelled(parts.1) == n,
{
    reveal_strlit(".");
    assert("."@ =~= seq!['.']);
    let p = numeral::tens(digits);
    numeral::lemma_tens_large(digits);
    law_decimal_spells(n / p);
    lemma_padded(n, digits);
    vstd::arithmetic::div_mod::lemma_fundamental_div_mod(n as int, p as int);
    vstd::arithmetic::mul::lemma_mul_is_commutative(p as int, (n / p) as int);
    (decimal(n / p), padded(n, digits))
}

proof fn lemma_padded(n: nat, digits: nat)
    ensures
        padded(n, digits).len() == digits,
        digits > 0 ==> is_number(padded(n, digits)),
        spelled(padded(n, digits)) == n % numeral::tens(digits),
    decreases digits,
{
    let s = padded(n, digits);
    if digits > 0 {
        let rest = (digits - 1) as nat;
        lemma_padded(n / 10, rest);
        assert(s.drop_last() =~= padded(n / 10, rest));
        assert(is_digit(digit((n % 10) as int)));
        assert forall|i: int| 0 <= i < s.len() implies is_digit(#[trigger] s[i]) by {
            if i < digits - 1 {
                assert(s[i] == padded(n / 10, rest)[i]);
            }
        }
        let p = numeral::tens(rest);
        numeral::lemma_tens_large(rest);
        vstd::arithmetic::div_mod::lemma_breakdown(n as int, 10, p as int);
        assert(numeral::tens(digits) == 10 * p);
    } else {
        assert(numeral::tens(0) == 1);
    }
}

/// A longer spelling is no smaller a number.
proof fn lemma_spelled_grows(s: Seq<char>, i: int)
    requires
        0 <= i <= s.len(),
        forall|j: int| 0 <= j < s.len() ==> is_digit(#[trigger] s[j]),
    ensures
        spelled(s.take(i)) <= spelled(s),
    decreases s.len(),
{
    if i < s.len() {
        let shorter = s.drop_last();
        assert forall|j: int| 0 <= j < shorter.len() implies is_digit(#[trigger] shorter[j]) by {
            assert(shorter[j] == s[j]);
        }
        lemma_spelled_grows(shorter, i);
        assert(shorter.take(i) =~= s.take(i));
    } else {
        assert(s.take(i) =~= s);
    }
}

// ── Writing ──────────────────────────────────────────────────────────────────

/// The digit `d`.
fn digit_char(d: u8) -> (c: char)
    requires
        d < 10,
    ensures
        c == digit(d as int),
{
    (48 + d) as char
}

/// Append `n` in decimal to `out`.
pub fn push_decimal(out: &mut String, n: u64)
    ensures
        final(out)@ == old(out)@ + decimal(n as nat),
    decreases n,
{
    let ghost before = out@;
    if n >= 10 {
        push_decimal(out, n / 10);
        assert(out@ == before + decimal((n / 10) as nat));
    }
    out.push(digit_char((n % 10) as u8));
    assert(out@ =~= before + decimal(n as nat));
}

/// Append to `out` all but the last `digits` digits of `n`.
fn push_whole(out: &mut String, n: u64, digits: u32)
    ensures
        final(out)@ == old(out)@ + decimal(n as nat / numeral::tens(digits as nat)),
    decreases digits,
{
    if digits == 0 {
        assert(numeral::tens(0) == 1);
        push_decimal(out, n);
    } else {
        proof {
            let rest = numeral::tens((digits - 1) as nat);
            numeral::lemma_tens_large((digits - 1) as nat);
            vstd::arithmetic::div_mod::lemma_div_denominator(n as int, 10, rest as int);
            assert((n as nat / 10) / rest == n as nat / numeral::tens(digits as nat));
        }
        push_whole(out, n / 10, digits - 1);
    }
}

/// Append to `out` the last `digits` digits of `n`, zeros included.
fn push_padded(out: &mut String, n: u64, digits: u32)
    ensures
        final(out)@ == old(out)@ + padded(n as nat, digits as nat),
    decreases digits,
{
    let ghost before = out@;
    if digits > 0 {
        push_padded(out, n / 10, digits - 1);
        out.push(digit_char((n % 10) as u8));
    }
    assert(out@ =~= before + padded(n as nat, digits as nat));
}

/// Append to `out` `n` with a point before its last `digits` digits.
pub fn push_fixed(out: &mut String, n: u64, digits: u32)
    ensures
        final(out)@ == old(out)@ + fixed(n as nat, digits as nat),
{
    let ghost before = out@;
    push_whole(out, n, digits);
    out.push('.');
    push_padded(out, n, digits);
    assert(out@ =~= before + fixed(n as nat, digits as nat));
}

// ── Reading ──────────────────────────────────────────────────────────────────

/// Read a whole number as `str::parse::<u64>` does.
pub fn parse_u64(text: &str) -> (n: Option<u64>)
    ensures
        n == parsed_u64(text@),
{
    let s = chars_of(text);
    let start: usize = if s.len() > 0 && s[0] == '+' {
        1
    } else {
        0
    };
    let ghost digits = s@.skip(start as int);
    assert(start == 1 ==> digits =~= s@.drop_first());
    assert(start == 0 ==> digits =~= s@);
    if start == s.len() {
        return None;
    }
    let mut n: u64 = 0;
    let mut i: usize = start;
    assert(digits.take(0) =~= seq![]);
    while i < s.len()
        invariant
            start <= i <= s.len(),
            digits == s@.skip(start as int),
            s@ == text@,
            digits.len() > 0,
            parsed_u64(s@) == if is_number(digits) && spelled(digits) <= u64::MAX {
                Some(spelled(digits) as u64)
            } else {
                None
            },
            n == spelled(digits.take(i - start)),
            forall|j: int| 0 <= j < i - start ==> is_digit(#[trigger] digits[j]),
        decreases s.len() - i,
    {
        let c = s[i];
        assert(c == digits[i - start]);
        if c < '0' || '9' < c {
            assert(!is_digit(digits[i - start]));
            return None;
        }
        let d: u64 = c as u64 - '0' as u64;
        proof {
            let next = digits.take(i + 1 - start);
            assert(next.drop_last() =~= digits.take(i - start));
            assert(spelled(next) == n * 10 + d);
            if is_number(digits) {
                lemma_spelled_grows(digits, i + 1 - start);
            }
        }
        match n.checked_mul(10) {
            None => {
                return None;
            },
            Some(tens) => match tens.checked_add(d) {
                None => {
                    return None;
                },
                Some(sum) => {
                    n = sum;
                },
            },
        }
        i = i + 1;
    }
    assert(digits.take(i - start) =~= digits);
    Some(n)
}

} // verus!
