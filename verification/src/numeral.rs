//! Decimal numerals read as doubles.
use vstd::arithmetic::mul::*;
use vstd::arithmetic::power2::*;
use vstd::prelude::*;

use crate::bignat::BigNat;
use crate::decimal::{is_digit, is_number, spelled};
use crate::double::{scale, signed, significand, units, Double, EXPONENT, INFINITY, NAN};
use crate::rounding::{lemma_nearest_between, lemma_nearest_infinity, nearest, round};
use crate::text::{chars_of, find, first_index, lemma_first_index};

verus! {

// ── Models ───────────────────────────────────────────────────────────────────

/// `c`, a capital letter of ASCII made small.
pub open spec fn lowered(c: char) -> char {
    if 'A' <= c <= 'Z' {
        (c as int + 32) as char
    } else {
        c
    }
}

/// Whether `s` spells `word`, in small letters or capitals.
pub open spec fn spells(s: Seq<char>, word: Seq<char>) -> bool {
    s.map_values(|c: char| lowered(c)) == word
}

/// Ten to the power of `n`.
pub open spec fn tens(n: nat) -> nat
    decreases n,
{
    if n == 0 {
        1
    } else {
        10 * tens((n - 1) as nat)
    }
}

/// The magnitude that `digits` times ten to the power of `exponent` round to.
pub open spec fn scaled(digits: nat, exponent: int) -> nat {
    if exponent >= 0 {
        nearest(digits * tens(exponent as nat) * pow2(1074), 1)
    } else {
        nearest(digits * pow2(1074), tens((-exponent) as nat))
    }
}

/// The exponent that `s` spells: digits, with at most one sign before them.
pub open spec fn exponent_of(s: Seq<char>) -> Option<int> {
    let digits = if s.len() > 0 && (s.first() == '+' || s.first() == '-') {
        s.drop_first()
    } else {
        s
    };
    if !is_number(digits) {
        None
    } else if s.first() == '-' {
        Some(-(spelled(digits) as int))
    } else {
        Some(spelled(digits) as int)
    }
}

/// Where the exponent of a numeral is marked; its length where it has none.
pub open spec fn mark(s: Seq<char>) -> int {
    if first_index(s, 'e') <= first_index(s, 'E') {
        first_index(s, 'e')
    } else {
        first_index(s, 'E')
    }
}

/// The magnitude that an unsigned numeral stands for: digits, with a point somewhere among or
/// around them, and an exponent of ten or none.
pub open spec fn number_of(s: Seq<char>) -> Option<nat> {
    let mantissa = s.take(mark(s));
    let exponent = if mark(s) < s.len() {
        exponent_of(s.skip(mark(s) + 1))
    } else {
        Some(0)
    };
    let point = first_index(mantissa, '.');
    let fraction = if point < mantissa.len() {
        mantissa.skip(point + 1)
    } else {
        seq![]
    };
    let digits = mantissa.take(point) + fraction;
    if is_number(digits) && exponent is Some {
        Some(scaled(spelled(digits), exponent->0 - fraction.len()))
    } else {
        None
    }
}

/// The magnitude that an unsigned numeral or name stands for.
pub open spec fn magnitude_of(s: Seq<char>) -> Option<nat> {
    if spells(s, "inf"@) || spells(s, "infinity"@) {
        Some(INFINITY as nat)
    } else if spells(s, "nan"@) {
        Some(NAN as nat)
    } else {
        number_of(s)
    }
}

/// The double that `s` stands for: the nearest to what it says, the even one of two as near.
///
/// This is what the standard library reads, word for word: at most one sign; then `inf`,
/// `infinity` or `nan` in either case, or digits with an optional point and an optional exponent.
pub open spec fn parsed_double(s: Seq<char>) -> Option<Double> {
    let rest = if s.len() > 0 && (s.first() == '+' || s.first() == '-') {
        s.drop_first()
    } else {
        s
    };
    match magnitude_of(rest) {
        Some(m) => Some(signed(s.first() == '-', m)),
        None => None,
    }
}

// ── Laws ─────────────────────────────────────────────────────────────────────

/// A whole number below 2^53 that is written in decimal is read as just that number.
pub proof fn law_whole_numerals_are_exact(n: u64)
    requires
        n < 0x20_0000_0000_0000,
    ensures
        parsed_double(crate::decimal::decimal(n as nat)) matches Some(x) && {
            &&& x.finite()
            &&& !x.negative()
            &&& x.value() == n * crate::double::one()
            &&& x.counted() == n
        },
{
    let s = crate::decimal::decimal(n as nat);
    crate::decimal::law_decimal_spells(n as nat);
    lemma_only_digits(s);
    assert(is_digit(s[0]));
    assert(s.take(s.len() as int) =~= s);
    assert(s + Seq::<char>::empty() =~= s);
    assert(tens(0) == 1);
    assert(n as nat * tens(0) * pow2(1074) == n as nat * pow2(1074));
    crate::rounding::law_whole_numbers_are_exact(n as nat);
    lemma_pow2_pos(1074);
    let x = parsed_double(s)->0;
    assert(x.value() == n * pow2(1074));
    vstd::arithmetic::div_mod::lemma_div_multiples_vanish(n as int, pow2(1074) as int);
    lemma_mul_is_commutative(n as int, pow2(1074) as int);
    if n > 0 {
        lemma_mul_strictly_positive(n as int, pow2(1074) as int);
    } else {
        lemma_mul_basics(pow2(1074) as int);
    }
}

/// Digits alone are no name, and have neither sign, point nor exponent.
proof fn lemma_only_digits(s: Seq<char>)
    requires
        is_number(s),
    ensures
        mark(s) == s.len(),
        first_index(s, '.') == s.len(),
        !spells(s, "inf"@),
        !spells(s, "infinity"@),
        !spells(s, "nan"@),
{
    assert(is_digit(s[0]));
    crate::text::lemma_first_index_is(s, 'e', s.len() as int);
    crate::text::lemma_first_index_is(s, 'E', s.len() as int);
    crate::text::lemma_first_index_is(s, '.', s.len() as int);
    reveal_strlit("inf");
    reveal_strlit("infinity");
    reveal_strlit("nan");
    let lower = s.map_values(|c: char| lowered(c));
    assert(lower[0] == s[0]);
}

/// No name holds a digit.
proof fn lemma_no_name(s: Seq<char>, i: int)
    requires
        0 <= i < s.len(),
        is_digit(s[i]) || s[i] == '.',
    ensures
        !spells(s, "inf"@),
        !spells(s, "infinity"@),
        !spells(s, "nan"@),
{
    reveal_strlit("inf");
    reveal_strlit("infinity");
    reveal_strlit("nan");
    let lower = s.map_values(|c: char| lowered(c));
    assert(lower[i] == s[i]);
    assert(lower.len() == s.len());
    assert("inf"@.len() == 3 && "nan"@.len() == 3 && "infinity"@.len() == 8);
    assert(!is_digit('i') && !is_digit('n') && !is_digit('f') && !is_digit('t') && !is_digit('y')
        && !is_digit('a'));
    if lower == "inf"@ {
        assert(i == 0 || i == 1 || i == 2);
    }
    if lower == "nan"@ {
        assert(i == 0 || i == 1 || i == 2);
    }
    if lower == "infinity"@ {
        assert(i == 0 || i == 1 || i == 2 || i == 3 || i == 4 || i == 5 || i == 6 || i == 7);
    }
}

/// Digits are the double nearest to the number they spell, however many they are.
pub proof fn law_digits_are_the_nearest_double(s: Seq<char>)
    requires
        is_number(s),
    ensures
        parsed_double(s) matches Some(x) && !x.negative() && crate::rounding::is_nearest(
            x.magnitude(),
            spelled(s) * pow2(1074),
            1,
        ),
{
    lemma_only_digits(s);
    assert(is_digit(s[0]));
    assert(s.take(s.len() as int) =~= s);
    assert(s + Seq::<char>::empty() =~= s);
    assert(tens(0) == 1);
    lemma_mul_basics(spelled(s) as int);
    crate::rounding::lemma_nearest_fits(spelled(s) * pow2(1074), 1);
}

/// Digits with a point among or around them are the double nearest to the number they spell, with
/// as many digits behind the point as stand there.
pub proof fn law_a_point_divides_by_tens(whole: Seq<char>, fraction: Seq<char>)
    requires
        is_number(whole + fraction),
    ensures
        parsed_double(whole + "."@ + fraction) matches Some(x) && !x.negative()
            && crate::rounding::is_nearest(
            x.magnitude(),
            spelled(whole + fraction) * pow2(1074),
            tens(fraction.len()),
        ),
{
    reveal_strlit(".");
    let s = whole + "."@ + fraction;
    let all = whole + fraction;
    assert forall|j: int| 0 <= j < s.len() && j != whole.len() implies is_digit(#[trigger] s[j]) by {
        if j < whole.len() {
            assert(s[j] == all[j]);
        } else {
            assert(s[j] == all[j - 1]);
        }
    }
    let k = whole.len() as int;
    assert(s[k] == '.');
    lemma_no_name(s, k);
    crate::text::lemma_first_index_is(s, 'e', s.len() as int);
    crate::text::lemma_first_index_is(s, 'E', s.len() as int);
    assert(s.take(s.len() as int) =~= s);
    assert forall|j: int| 0 <= j < k implies s[j] != '.' by {
        assert(is_digit(s[j]));
    }
    crate::text::lemma_first_index_is(s, '.', k);
    assert(s.take(k) =~= whole);
    assert(s.skip(k + 1) =~= fraction);
    if k > 0 {
        assert(is_digit(s[0]));
    }
    let e = -(fraction.len() as int);
    let digits = spelled(all);
    lemma_tens_large(fraction.len());
    assert(tens(0) == 1);
    assert(digits * tens(0) * pow2(1074) == digits * pow2(1074)) by {
        lemma_mul_basics(digits as int);
    }
    crate::rounding::lemma_nearest_fits(digits * pow2(1074), tens(fraction.len()));
}

/// An exponent shifts digits by as many places: up, or down where it is negative, to the double
/// nearest to that. It is marked by `e` or `E`, and the digits may have a point among or around
/// them.
pub proof fn law_an_exponent_shifts_by_tens(
    whole: Seq<char>,
    point: bool,
    fraction: Seq<char>,
    marked: char,
    sign: Seq<char>,
    exponent: Seq<char>,
)
    requires
        is_number(whole + fraction),
        !point ==> fraction.len() == 0,
        marked == 'e' || marked == 'E',
        sign == Seq::<char>::empty() || sign == seq!['+'] || sign == seq!['-'],
        is_number(exponent),
    ensures
        parsed_double(
            whole + (if point {
                seq!['.']
            } else {
                seq![]
            }) + fraction + (seq![marked] + sign + exponent),
        ) matches Some(x) && !x.negative() && (if sign == seq!['-'] {
            crate::rounding::is_nearest(
                x.magnitude(),
                spelled(whole + fraction) * pow2(1074),
                tens(fraction.len() + spelled(exponent)),
            )
        } else {
            crate::rounding::is_nearest(
                x.magnitude(),
                spelled(whole + fraction) * pow2(1074) * tens(spelled(exponent)),
                tens(fraction.len()),
            )
        }),
{
    let dot = if point {
        seq!['.']
    } else {
        Seq::<char>::empty()
    };
    let mantissa = whole + dot + fraction;
    let tail = sign + exponent;
    let s = mantissa + (seq![marked] + sign + exponent);
    let n = mantissa.len() as int;
    let all = whole + fraction;
    assert forall|j: int| 0 <= j < n implies (is_digit(#[trigger] s[j]) || (s[j] == '.' && point
        && j == whole.len())) && s[j] == mantissa[j] by {
        if j < whole.len() {
            assert(s[j] == all[j]);
        } else if j >= whole.len() + dot.len() {
            assert(s[j] == all[j - dot.len()]);
        }
    }
    lemma_exponent_parts(s, n);
    assert(s.take(n) =~= mantissa);
    assert(s.skip(n + 1) =~= tail);
    let k = whole.len() as int;
    assert forall|j: int| 0 <= j < k implies mantissa[j] != '.' by {
        assert(is_digit(s[j]));
    }
    if point {
        assert(mantissa[k] == '.');
        crate::text::lemma_first_index_is(mantissa, '.', k);
        assert(mantissa.skip(k + 1) =~= fraction);
    } else {
        assert(mantissa =~= whole);
        crate::text::lemma_first_index_is(mantissa, '.', k);
        assert(fraction =~= Seq::<char>::empty());
    }
    assert(mantissa.take(k) =~= whole);
    assert(is_digit(exponent[0]));
    if sign.len() == 0 {
        assert(tail =~= exponent);
    } else {
        assert(tail.drop_first() =~= exponent);
        assert(tail.first() == sign[0]);
    }
    let e = spelled(exponent);
    let up: int = if sign == seq!['-'] {
        -(e as int)
    } else {
        e as int
    };
    assert(exponent_of(tail) == Some(up));
    assert(number_of(s) == Some(scaled(spelled(all), up - fraction.len())));
    lemma_scaled(spelled(all), up, fraction.len());
}

/// What digits with an exponent and a point are nearest to.
proof fn lemma_scaled(digits: nat, up: int, places: nat)
    ensures
        scaled(digits, up - places) <= INFINITY,
        up >= 0 ==> crate::rounding::is_nearest(
            scaled(digits, up - places),
            digits * pow2(1074) * tens(up as nat),
            tens(places),
        ),
        up <= 0 ==> crate::rounding::is_nearest(
            scaled(digits, up - places),
            digits * pow2(1074),
            tens((places - up) as nat),
        ),
{
    let e = up - places;
    let m = scaled(digits, e);
    let p = pow2(1074);
    assert(tens(0) == 1);
    if e >= 0 {
        let (a, b, c) = (digits * tens(e as nat) * p, tens(e as nat), tens(places));
        crate::rounding::lemma_nearest_fits(a, 1);
        lemma_tens_add(e as nat, places);
        lemma_tens_large(places);
        crate::rounding::law_an_extended_fraction_rounds_alike(m, a, 1, c);
        assert(a * c == digits * p * (b * c)) by (nonlinear_arith)
            requires
                a == digits * b * p,
        ;
        assert(e as nat + places == up);
        lemma_mul_basics(digits as int);
    } else {
        let d = tens((-e) as nat);
        lemma_tens_large((-e) as nat);
        crate::rounding::lemma_nearest_fits(digits * p, d);
        if up >= 0 {
            let c = tens(up as nat);
            lemma_tens_large(up as nat);
            lemma_tens_add((-e) as nat, up as nat);
            assert((-e) as nat + up as nat == places);
            crate::rounding::law_an_extended_fraction_rounds_alike(m, digits * p, d, c);
        }
    }
}

/// Where an exponent is marked behind digits, and a point or none.
proof fn lemma_exponent_parts(s: Seq<char>, n: int)
    requires
        0 < n < s.len(),
        forall|j: int| 0 <= j < n ==> is_digit(#[trigger] s[j]) || s[j] == '.',
        s[n] == 'e' || s[n] == 'E',
    ensures
        mark(s) == n,
        !spells(s, "inf"@),
        !spells(s, "infinity"@),
        !spells(s, "nan"@),
        s.first() != '+' && s.first() != '-',
{
    assert(is_digit(s[0]) || s[0] == '.');
    lemma_first_index(s, 'e');
    lemma_first_index(s, 'E');
    let (i, j) = (first_index(s, 'e'), first_index(s, 'E'));
    if i < n {
        assert(is_digit(s[i]) || s[i] == '.');
    }
    if j < n {
        assert(is_digit(s[j]) || s[j] == '.');
    }
    lemma_no_name(s, 0);
}

/// Whether `c` is a letter, small or a capital.
pub open spec fn is_letter(c: char, small: char, capital: char) -> bool {
    c == small || c == capital
}

/// `inf` and `infinity` are infinite and `nan` is not a number, in small letters or capitals.
pub proof fn law_names_are_read(s: Seq<char>)
    requires
        s.len() == 3 || s.len() == 8,
    ensures
        is_letter(s[0], 'i', 'I') && is_letter(s[1], 'n', 'N') && is_letter(s[2], 'f', 'F') && (
        s.len() == 8 ==> is_letter(s[3], 'i', 'I') && is_letter(s[4], 'n', 'N') && is_letter(
            s[5],
            'i',
            'I',
        ) && is_letter(s[6], 't', 'T') && is_letter(s[7], 'y', 'Y')) ==> (parsed_double(
            s,
        ) matches Some(x) && x.infinite() && !x.negative()),
        s.len() == 3 && is_letter(s[0], 'n', 'N') && is_letter(s[1], 'a', 'A') && is_letter(
            s[2],
            'n',
            'N',
        ) ==> (parsed_double(s) matches Some(x) && x.nan()),
{
    reveal_strlit("inf");
    reveal_strlit("infinity");
    reveal_strlit("nan");
    let lower = s.map_values(|c: char| lowered(c));
    if is_letter(s[0], 'n', 'N') && is_letter(s[1], 'a', 'A') && is_letter(s[2], 'n', 'N')
        && s.len() == 3 {
        assert(lower =~= "nan"@);
        assert(lower[0] == 'n');
        assert("inf"@[0] == 'i' && "infinity"@[0] == 'i');
    } else if s.len() == 3 && is_letter(s[0], 'i', 'I') && is_letter(s[1], 'n', 'N') && is_letter(
        s[2],
        'f',
        'F',
    ) {
        assert(lower =~= "inf"@);
    } else if s.len() == 8 && is_letter(s[0], 'i', 'I') && is_letter(s[1], 'n', 'N') && is_letter(
        s[2],
        'f',
        'F',
    ) && is_letter(s[3], 'i', 'I') && is_letter(s[4], 'n', 'N') && is_letter(s[5], 'i', 'I')
        && is_letter(s[6], 't', 'T') && is_letter(s[7], 'y', 'Y') {
        assert(lower =~= "infinity"@);
    }
}

/// An empty text is no number, nor one that has two points or that starts with two signs, nor one
/// that holds, besides a digit, what is neither a digit, a point, a sign nor the mark of an exponent.
pub proof fn law_other_texts_are_no_numbers(s: Seq<char>, i: int, j: int)
    ensures
        s.len() == 0 ==> parsed_double(s) is None,
        // A digit, and something that no numeral holds.
        0 <= i < s.len() && 0 <= j < s.len() && is_digit(s[j]) && !is_digit(s[i]) && s[i] != '.'
            && s[i] != 'e' && s[i] != 'E' && s[i] != '+' && s[i] != '-' ==> parsed_double(
            s,
        ) is None,
        // Two points.
        0 <= i < j < s.len() && s[i] == '.' && s[j] == '.' ==> parsed_double(s) is None,
        // Two signs at the start.
        s.len() > 1 && (s[0] == '+' || s[0] == '-') && (s[1] == '+' || s[1] == '-')
            ==> parsed_double(s) is None,
{
    let signed_text = s.len() > 0 && (s.first() == '+' || s.first() == '-');
    let rest = if signed_text {
        s.drop_first()
    } else {
        s
    };
    let o: int = if signed_text {
        1
    } else {
        0
    };
    reveal_strlit("inf");
    reveal_strlit("infinity");
    reveal_strlit("nan");
    if number_of(rest) is Some {
        lemma_numeral_holds(rest);
    }
    if s.len() == 0 {
        assert(rest.map_values(|c: char| lowered(c)).len() == 0);
    }
    if 0 <= i < s.len() && 0 <= j < s.len() && is_digit(s[j]) && !is_digit(s[i]) && s[i] != '.'
        && s[i] != 'e' && s[i] != 'E' && s[i] != '+' && s[i] != '-' {
        assert(rest[j - o] == s[j] && rest[i - o] == s[i]);
        lemma_no_name(rest, j - o);
    }
    if 0 <= i < j < s.len() && s[i] == '.' && s[j] == '.' {
        assert(rest[j - o] == s[j] && rest[i - o] == s[i]);
        lemma_no_name(rest, j - o);
    }
    if s.len() > 1 && (s[0] == '+' || s[0] == '-') && (s[1] == '+' || s[1] == '-') {
        assert(rest[0] == s[1]);
        let lower = rest.map_values(|c: char| lowered(c));
        assert(lower[0] == rest[0]);
    }
}

/// What a numeral without a sign holds.
proof fn lemma_numeral_holds(s: Seq<char>)
    requires
        number_of(s) is Some,
    ensures
        s.len() > 0,
        is_digit(s[0]) || s[0] == '.',
        forall|i: int|
            0 <= i < s.len() ==> is_digit(#[trigger] s[i]) || s[i] == '.' || s[i] == 'e' || s[i]
                == 'E' || s[i] == '+' || s[i] == '-',
        forall|i: int, j: int|
            0 <= i < j < s.len() && #[trigger] s[i] == '.' ==> #[trigger] s[j] != '.',
{
    lemma_first_index(s, 'e');
    lemma_first_index(s, 'E');
    let n = mark(s);
    let mantissa = s.take(n);
    lemma_first_index(mantissa, '.');
    let point = first_index(mantissa, '.');
    let fraction = if point < mantissa.len() {
        mantissa.skip(point + 1)
    } else {
        Seq::<char>::empty()
    };
    let digits = mantissa.take(point) + fraction;
    assert(is_number(digits));
    assert forall|i: int| 0 <= i < n && i != point implies is_digit(#[trigger] s[i]) by {
        assert(s[i] == mantissa[i]);
        if i < point {
            assert(digits[i] == s[i]);
        } else {
            assert(digits[i - 1] == s[i]);
        }
    }
    if point < n {
        assert(s[point] == mantissa[point]);
    }
    if n < s.len() {
        let tail = s.skip(n + 1);
        let behind = if tail.len() > 0 && (tail.first() == '+' || tail.first() == '-') {
            tail.drop_first()
        } else {
            tail
        };
        assert(is_number(behind));
        assert forall|i: int| n < i < s.len() implies is_digit(#[trigger] s[i]) || (i == n + 1 && (
        s[i] == '+' || s[i] == '-')) by {
            assert(tail[i - n - 1] == s[i]);
            if i - n - 1 - (tail.len() - behind.len()) >= 0 {
                assert(behind[i - n - 1 - (tail.len() - behind.len())] == s[i]);
            }
        }
    }
}

/// A sign before a numeral gives the number that sign, and a plus sign changes nothing.
pub proof fn law_a_sign_before_a_numeral(s: Seq<char>)
    requires
        s.len() > 0,
        s.first() != '+',
        s.first() != '-',
    ensures
        parsed_double(seq!['+'] + s) == parsed_double(s),
        parsed_double(seq!['-'] + s) is Some == parsed_double(s) is Some,
        parsed_double(s) matches Some(x) ==> {
            let y = parsed_double(seq!['-'] + s)->0;
            &&& !x.negative()
            &&& y.negative()
            &&& y.magnitude() == x.magnitude()
            &&& y.value() == -x.value()
        },
{
    assert((seq!['+'] + s).drop_first() =~= s);
    assert((seq!['-'] + s).drop_first() =~= s);
    if magnitude_of(s) is Some {
        lemma_magnitude_fits(s);
    }
}

proof fn lemma_magnitude_fits(s: Seq<char>)
    requires
        magnitude_of(s) is Some,
    ensures
        magnitude_of(s)->0 <= NAN,
{
    if !(spells(s, "inf"@) || spells(s, "infinity"@)) && !spells(s, "nan"@) {
        let mantissa = s.take(mark(s));
        let exponent = if mark(s) < s.len() {
            exponent_of(s.skip(mark(s) + 1))
        } else {
            Some(0)
        };
        let point = first_index(mantissa, '.');
        let fraction = if point < mantissa.len() {
            mantissa.skip(point + 1)
        } else {
            seq![]
        };
        let e = exponent->0 - fraction.len();
        let digits = spelled(mantissa.take(point) + fraction);
        if e >= 0 {
            crate::rounding::lemma_nearest_fits(digits * tens(e as nat) * pow2(1074), 1);
        } else {
            lemma_tens_large((-e) as nat);
            crate::rounding::lemma_nearest_fits(digits * pow2(1074), tens((-e) as nat));
        }
    }
}

// ── Facts about the models ───────────────────────────────────────────────────

proof fn lemma_tens_add(a: nat, b: nat)
    ensures
        tens(a + b) == tens(a) * tens(b),
    decreases a,
{
    if a > 0 {
        lemma_tens_add((a - 1) as nat, b);
        lemma_mul_is_associative(10, tens((a - 1) as nat) as int, tens(b) as int);
    } else {
        lemma_mul_basics(tens(b) as int);
    }
}

/// Ten is more than two to the power of three.
pub proof fn lemma_tens_large(n: nat)
    ensures
        tens(n) >= pow2(3 * n),
        tens(n) >= 1,
    decreases n,
{
    lemma2_to64();
    if n > 0 {
        lemma_tens_large((n - 1) as nat);
        lemma_pow2_adds(3, (3 * (n - 1)) as nat);
    }
}

proof fn lemma_tens_grow(a: nat, b: nat)
    requires
        a <= b,
    ensures
        tens(a) <= tens(b),
{
    lemma_tens_add(a, (b - a) as nat);
    lemma_tens_large((b - a) as nat);
    lemma_tens_large(a);
    let (x, y) = (tens(a) as int, tens((b - a) as nat) as int);
    assert(x * y >= x) by (nonlinear_arith)
        requires
            x >= 0,
            y >= 1,
    ;
}

/// Digits of which the first is not zero spell a number of that many digits.
proof fn lemma_spelled_size(s: Seq<char>)
    requires
        is_number(s),
        s.first() != '0',
    ensures
        tens((s.len() - 1) as nat) <= spelled(s) < tens(s.len()),
    decreases s.len(),
{
    if s.len() > 1 {
        let shorter = s.drop_last();
        assert forall|i: int| 0 <= i < shorter.len() implies is_digit(#[trigger] shorter[i]) by {
            assert(shorter[i] == s[i]);
        }
        lemma_spelled_size(shorter);
        assert(is_digit(s[s.len() - 1]));
    } else {
        assert(s.drop_last() =~= seq![]);
        assert(spelled(s.drop_last()) == 0);
        assert(is_digit(s[0]));
        assert(tens(0) == 1 && tens(1) == 10 * tens(0));
    }
}

/// Zeros before a number spell nothing.
proof fn lemma_leading_zeros(s: Seq<char>, z: int)
    requires
        0 <= z <= s.len(),
        forall|i: int| 0 <= i < z ==> #[trigger] s[i] == '0',
    ensures
        spelled(s) == spelled(s.skip(z)),
    decreases s.len(),
{
    if z < s.len() {
        lemma_leading_zeros(s.drop_last(), z);
        assert(s.drop_last().skip(z) =~= s.skip(z).drop_last());
    } else if s.len() > 0 {
        lemma_leading_zeros(s.drop_last(), z - 1);
        assert(s.drop_last().skip(z - 1) =~= s.skip(z));
    } else {
        assert(s.skip(z) =~= s);
    }
}

/// Nothing times a power of ten is zero.
proof fn lemma_scaled_zero(exponent: int)
    ensures
        scaled(0, exponent) == 0,
{
    let d = if exponent >= 0 {
        1
    } else {
        tens((-exponent) as nat)
    };
    lemma_tens_large((-exponent) as nat);
    lemma_mul_basics(pow2(1074) as int);
    lemma_mul_basics(tens(exponent as nat) as int);
    lemma_small_magnitudes();
    lemma_mul_basics(d as int);
    lemma_nearest_between(0, 0, 0, d);
}

proof fn lemma_small_magnitudes()
    ensures
        units(0) == 0,
        units(1) == 1,
{
    lemma2_to64();
    assert(significand(0) == 0 && scale(0) == 0);
    assert(significand(1) == 1 && scale(1) == 0);
}

/// A number of so many digits before the point is infinite.
proof fn lemma_scaled_large(digits: nat, size: nat, exponent: int)
    requires
        size > 0,
        digits >= tens((size - 1) as nat),
        size + exponent > 400,
    ensures
        scaled(digits, exponent) == INFINITY,
{
    let lead = (size - 1 + exponent) as nat;
    lemma_tens_grow(400, lead);
    lemma_tens_large(400);
    lemma_pow2_strictly_increases(1024, 1200);
    lemma_pow2_adds(1024, 1074);
    lemma_pow2_pos(1074);
    let p = pow2(1074) as int;
    assert(units(INFINITY as nat) == pow2(2098)) by {
        lemma2_to64_rest();
        lemma_pow2_adds(52, 2046);
        assert(INFINITY as nat / EXPONENT as nat == 2047);
        assert(INFINITY as nat % EXPONENT as nat == 0);
    }
    let big = tens(lead) as int;
    assert(big * p >= pow2(1024) * p) by (nonlinear_arith)
        requires
            big >= pow2(1024),
            p > 0,
    ;
    let x = digits as int;
    if exponent >= 0 {
        let t = tens(exponent as nat) as int;
        lemma_tens_add((size - 1) as nat, exponent as nat);
        lemma_tens_large(exponent as nat);
        assert((x * t) * p >= big * p) by (nonlinear_arith)
            requires
                big == tens((size - 1) as nat) * t,
                x >= tens((size - 1) as nat),
                t >= 1,
                p > 0,
        ;
        lemma_mul_basics(units(INFINITY as nat) as int);
        lemma_nearest_infinity(digits * tens(exponent as nat) * pow2(1074), 1);
    } else {
        let d = (-exponent) as nat;
        let t = tens(d) as int;
        lemma_tens_add(d, lead);
        lemma_tens_large(d);
        assert(x * p >= pow2(2098) * t) by (nonlinear_arith)
            requires
                x >= t * big,
                big * p >= pow2(2098),
                t >= 1,
                p > 0,
        ;
        lemma_nearest_infinity(digits * pow2(1074), tens(d));
    }
}

/// A number of so many zeros after the point is zero.
proof fn lemma_scaled_small(digits: nat, size: nat, exponent: int)
    requires
        digits < tens(size),
        size + exponent < -400,
    ensures
        scaled(digits, exponent) == 0,
{
    let d = (-exponent) as nat;
    let gap = (d - size) as nat;
    lemma_tens_grow(401, gap);
    lemma_tens_large(401);
    lemma_tens_large(size);
    lemma_pow2_strictly_increases(1075, 1203);
    lemma_pow2_unfold(1075);
    lemma_tens_add(size, gap);
    let (x, p, t, g) = (digits as int, pow2(1074) as int, tens(size) as int, tens(gap) as int);
    lemma_pow2_pos(1074);
    assert(2 * (x * p) <= t * g && x * p < t * g) by (nonlinear_arith)
        requires
            0 <= x < t,
            p > 0,
            g >= 2 * p,
    ;
    lemma_small_magnitudes();
    lemma_mul_basics(tens(d) as int);
    lemma_nearest_between(0, 0, digits * pow2(1074), tens(d));
}

// ── Reading ──────────────────────────────────────────────────────────────────

/// Whether `s` spells `word`, in small letters or capitals.
fn is_spelled(s: &[char], word: &str) -> (yes: bool)
    ensures
        yes == spells(s@, word@),
{
    let w = chars_of(word);
    let ghost small = s@.map_values(|c: char| lowered(c));
    if s.len() != w.len() {
        assert(small.len() != w@.len());
        return false;
    }
    let mut i: usize = 0;
    while i < s.len()
        invariant
            i <= s.len() == w.len(),
            w@ == word@,
            small == s@.map_values(|c: char| lowered(c)),
            forall|j: int| 0 <= j < i ==> small[j] == w@[j],
        decreases s.len() - i,
    {
        let c = s[i];
        let l: char = if 'A' <= c && c <= 'Z' {
            (c as u8 + 32) as char
        } else {
            c
        };
        assert(l == small[i as int]);
        if l != w[i] {
            assert(small[i as int] != w@[i as int]);
            return false;
        }
        i = i + 1;
    }
    assert(small =~= w@);
    true
}

/// Whether `s` is one digit or more, and nothing else.
fn all_digits(s: &[char]) -> (yes: bool)
    ensures
        yes == is_number(s@),
{
    let mut i: usize = 0;
    while i < s.len()
        invariant
            i <= s.len(),
            forall|j: int| 0 <= j < i ==> is_digit(#[trigger] s@[j]),
        decreases s.len() - i,
    {
        let c = s[i];
        if c < '0' || '9' < c {
            assert(!is_digit(s@[i as int]));
            return false;
        }
        i = i + 1;
    }
    s.len() > 0
}

/// What an exponent is no smaller than once it is too large to matter.
const HUGE: i128 = 1_000_000_000_000_000_000_000_000_000_000;

/// The exponent that `s` spells; one too large to matter is given as large.
fn read_exponent(s: &[char]) -> (e: Option<i128>)
    ensures
        e is Some == exponent_of(s@) is Some,
        e is Some ==> -HUGE <= e->0 <= HUGE,
        e is Some && -HUGE < e->0 < HUGE ==> e->0 == exponent_of(s@)->0,
        e == Some(HUGE) ==> exponent_of(s@)->0 >= HUGE,
        e == Some((-HUGE) as i128) ==> exponent_of(s@)->0 <= -HUGE,
{
    let negative = s.len() > 0 && s[0] == '-';
    let start: usize = if s.len() > 0 && (s[0] == '+' || s[0] == '-') {
        1
    } else {
        0
    };
    let digits = &s[start..s.len()];
    assert(start == 1 ==> digits@ =~= s@.drop_first());
    assert(start == 0 ==> digits@ =~= s@);
    if !all_digits(digits) {
        return None;
    }
    let mut n: i128 = 0;
    let mut i: usize = 0;
    assert(digits@.take(0) =~= seq![]);
    while i < digits.len()
        invariant
            i <= digits.len(),
            is_number(digits@),
            0 <= n <= HUGE,
            n < HUGE ==> n == spelled(digits@.take(i as int)),
            n == HUGE ==> spelled(digits@.take(i as int)) >= HUGE,
        decreases digits.len() - i,
    {
        let c = digits[i];
        assert(is_digit(digits@[i as int]));
        assert(digits@.take(i + 1).drop_last() =~= digits@.take(i as int));
        let t: i128 = n * 10 + (c as i128 - '0' as i128);
        n = if n == HUGE || t >= HUGE {
            HUGE
        } else {
            t
        };
        i = i + 1;
    }
    assert(digits@.take(i as int) =~= digits@);
    if negative {
        Some(-n)
    } else {
        Some(n)
    }
}

/// The number that the digits of `s` spell.
fn spell(s: &[char]) -> (n: BigNat)
    requires
        is_number(s@),
    ensures
        n@ == spelled(s@),
{
    let mut n = BigNat::zero();
    let mut i: usize = 0;
    assert(s@.take(0) =~= seq![]);
    while i < s.len()
        invariant
            i <= s.len(),
            is_number(s@),
            n@ == spelled(s@.take(i as int)),
        decreases s.len() - i,
    {
        let c = s[i];
        assert(is_digit(s@[i as int]));
        assert(s@.take(i + 1).drop_last() =~= s@.take(i as int));
        n.mul_add(10, c as u32 - '0' as u32);
        i = i + 1;
    }
    assert(s@.take(i as int) =~= s@);
    n
}

/// Multiply `n` by ten to the power of `count`.
fn raise(n: &mut BigNat, count: u128)
    ensures
        final(n)@ == old(n)@ * tens(count as nat),
{
    let ghost start = n@;
    let mut i: u128 = 0;
    proof {
        lemma_mul_basics(start as int);
    }
    while i < count
        invariant
            i <= count,
            n@ == start * tens(i as nat),
        decreases count - i,
    {
        n.mul_add(10, 0);
        proof {
            let t = tens(i as nat) as int;
            let x = start as int;
            assert((x * t) * 10 == x * (10 * t)) by (nonlinear_arith);
        }
        i = i + 1;
    }
}

/// How many zeros `s` starts with.
fn leading_zeros(s: &[char]) -> (z: usize)
    ensures
        z <= s@.len(),
        forall|i: int| 0 <= i < z ==> #[trigger] s@[i] == '0',
        z < s@.len() ==> s@[z as int] != '0',
{
    let mut z: usize = 0;
    while z < s.len() && s[z] == '0'
        invariant
            z <= s.len(),
            forall|i: int| 0 <= i < z ==> #[trigger] s@[i] == '0',
        decreases s.len() - z,
    {
        z = z + 1;
    }
    z
}

/// The magnitude that an unsigned numeral stands for.
fn read_number(s: &[char]) -> (m: Option<u64>)
    ensures
        m is Some == number_of(s@) is Some,
        m is Some ==> m->0 == number_of(s@)->0,
        m is Some ==> m->0 <= INFINITY,
{
    let (small, capital) = (find(s, 'e'), find(s, 'E'));
    let at: usize = if small <= capital {
        small
    } else {
        capital
    };
    let mantissa = &s[0..at];
    let exponent = if at < s.len() {
        read_exponent(&s[at + 1..s.len()])
    } else {
        Some(0)
    };
    let ghost exact = if at < s.len() {
        exponent_of(s@.skip(at + 1))
    } else {
        Some(0)
    };
    let point = find(mantissa, '.');
    let mut digits: Vec<char> = Vec::new();
    push_slice(&mut digits, &mantissa[0..point]);
    let after: usize = if point < mantissa.len() {
        mantissa.len() - point - 1
    } else {
        0
    };
    if point < mantissa.len() {
        push_slice(&mut digits, &mantissa[point + 1..mantissa.len()]);
    }
    let ghost fraction = if point < mantissa@.len() {
        mantissa@.skip(point + 1)
    } else {
        seq![]
    };
    assert(digits@ =~= mantissa@.take(point as int) + fraction);
    let e: i128 = match exponent {
        Some(e) => e,
        None => {
            return None;
        },
    };
    if !all_digits(digits.as_slice()) {
        return None;
    }
    let ghost power = exact->0 - fraction.len();
    assert(number_of(s@) == Some(scaled(spelled(digits@), power)));
    Some(scale_digits(digits.as_slice(), e - after as i128, Ghost(power)))
}

/// Whether `up` is `power`, or beyond the same limit as `power`.
spec fn stands_for(up: int, power: int) -> bool {
    ||| up == power
    ||| up > LIMIT && power > LIMIT
    ||| up < -LIMIT && power < -LIMIT
}

/// More than any number of digits makes up for.
const LIMIT: i128 = 100_000_000_000_000_000_000_000_000_000;

/// The magnitude that digits times a power of ten round to.
fn scale_digits(digits: &[char], up: i128, Ghost(power): Ghost<int>) -> (m: u64)
    requires
        is_number(digits@),
        stands_for(up as int, power),
        -2 * HUGE <= up <= 2 * HUGE,
    ensures
        m == scaled(spelled(digits@), power),
        m <= INFINITY,
{
    let zeros = leading_zeros(digits);
    let size: usize = digits.len() - zeros;
    proof {
        lemma_leading_zeros(digits@, zeros as int);
    }
    if size == 0 {
        proof {
            assert(digits@.skip(zeros as int) =~= seq![]);
            lemma_scaled_zero(power);
        }
        return 0;
    }
    proof {
        let lead = digits@.skip(zeros as int);
        assert forall|i: int| 0 <= i < lead.len() implies is_digit(#[trigger] lead[i]) by {
            assert(lead[i] == digits@[zeros + i]);
        }
        lemma_spelled_size(lead);
    }
    let reach: i128 = size as i128 + up;
    if reach > 400 {
        proof {
            lemma_scaled_large(spelled(digits@), size as nat, power);
        }
        return INFINITY;
    }
    if reach < -400 {
        proof {
            lemma_scaled_small(spelled(digits@), size as nat, power);
        }
        return 0;
    }
    let mut n = spell(digits);
    let mut d = BigNat::from_u64(1);
    if up >= 0 {
        raise(&mut n, up as u128);
    } else {
        raise(&mut d, (-up) as u128);
        proof {
            lemma_mul_basics(tens((-up) as nat) as int);
            lemma_tens_large((-up) as nat);
        }
    }
    n.shift(1074);
    round(n, &d)
}

/// Append `s` to `out`.
fn push_slice(out: &mut Vec<char>, s: &[char])
    ensures
        final(out)@ == old(out)@ + s@,
{
    let mut i: usize = 0;
    assert(out@ + s@.take(0) =~= out@);
    while i < s.len()
        invariant
            i <= s.len(),
            out@ == old(out)@ + s@.take(i as int),
        decreases s.len() - i,
    {
        out.push(s[i]);
        i = i + 1;
        assert(out@ =~= old(out)@ + s@.take(i as int));
    }
    assert(s@.take(i as int) =~= s@);
}

/// Read a double as the standard library does.
pub fn parse_double(s: &[char]) -> (x: Option<Double>)
    ensures
        x == parsed_double(s@),
{
    if s.len() == 0 {
        proof {
            reveal_strlit("inf");
            reveal_strlit("infinity");
            reveal_strlit("nan");
            assert(s@.map_values(|c: char| lowered(c)).len() == 0);
            assert(s@.take(0).len() == 0);
        }
        return None;
    }
    let negative = s[0] == '-';
    let start: usize = if s[0] == '+' || s[0] == '-' {
        1
    } else {
        0
    };
    let rest = &s[start..s.len()];
    assert(start == 1 ==> rest@ =~= s@.drop_first());
    assert(start == 0 ==> rest@ =~= s@);
    let m: u64 = if is_spelled(rest, "inf") || is_spelled(rest, "infinity") {
        INFINITY
    } else if is_spelled(rest, "nan") {
        NAN
    } else {
        match read_number(rest) {
            Some(m) => m,
            None => {
                return None;
            },
        }
    };
    Some(Double::with_sign(negative, m))
}

} // verus!
