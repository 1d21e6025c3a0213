use pix_harness::decimal::{parse_u64, push_decimal, push_fixed};
use pix_harness::double::Double;
use pix_harness::numeral::parse_double;

fn double(x: f64) -> Double {
    Double::from_bits(x.to_bits())
}

/// Numbers that look random but come the same every time.
struct Mixer(u64);

impl Mixer {
    fn next(&mut self) -> u64 {
        self.0 = self.0.wrapping_add(0x9e37_79b9_7f4a_7c15);
        let mut z = self.0;
        z = (z ^ (z >> 30)).wrapping_mul(0xbf58_476d_1ce4_e5b9);
        z = (z ^ (z >> 27)).wrapping_mul(0x94d0_49bb_1331_11eb);
        z ^ (z >> 31)
    }
}

fn interesting() -> Vec<f64> {
    vec![
        0.0,
        -0.0,
        1.0,
        -1.0,
        0.9,
        1.25,
        1.5,
        2.0,
        3.0,
        0.1,
        0.2,
        0.3,
        1e-300,
        5e-324,
        -5e-324,
        2.2250738585072014e-308,
        2.225073858507201e-308,
        f64::EPSILON,
        f64::EPSILON / 2.0,
        f64::EPSILON * 0.99,
        1.0 + f64::EPSILON,
        1.0 - f64::EPSILON / 2.0,
        85_032_960.0,
        9_007_199_254_740_991.0,
        9_007_199_254_740_993.0,
        18_446_744_073_709_551_615.0,
        1e19,
        1e30,
        f64::MAX,
        f64::MIN,
        f64::INFINITY,
        f64::NEG_INFINITY,
        f64::NAN,
    ]
}

fn same(expected: f64, got: Double) -> bool {
    if expected.is_nan() {
        f64::from_bits(got.bits).is_nan()
    } else {
        expected.to_bits() == got.bits
    }
}

fn check_parse(text: &str) {
    let chars: Vec<char> = text.chars().collect();
    let got = parse_double(&chars).map(|x| x.bits);
    let expected = text.parse::<f64>().ok().map(|x| x.to_bits());
    assert_eq!(expected, got, "{text:?}");
}

#[test]
fn numerals_are_read_as_the_standard_library_reads_them() {
    for text in [
        "", "+", "-", ".", "+.", "-.", "1", "+1", "-1", "1.", ".1", "1.5", "01.50", "1e", "1e+", "e5",
        ".e5", "1e5", "1E5", "1e+5", "1e-5", "1.e5", ".1e5", "1e5.", "1 ", " 1", "1_0", "0x10",
        "inf", "INF", "+inf", "-Inf", "infinity", "Infinity", "infinit", "nan", "NaN", "-nan",
        "+NAN", "nano", "0", "-0", "0.0", "00", "0e999999999999999999999", "0e-99999999999999999999",
        "1e308", "1e309", "-1e309", "1e400", "1e99999999999999999999999", "1e-99999999999999999999",
        "1e-323", "1e-324", "4.9e-324", "2.4703282292062327e-324", "2.4703282292062328e-324",
        "2.2250738585072011e-308", "2.2250738585072014e-308", "1.7976931348623157e308",
        "1.7976931348623158e308", "1.797693134862315807e308", "1.7976931348623159e308",
        "9007199254740992", "9007199254740993", "9007199254740994", "9007199254740995",
        "9007199254740993.0000000000000000000000000000000000000000000000000001",
        "0.1", "0.3", "123456789012345678901234567890", "16384", "4096.0", "1.25", "85032960",
        "6.02214076e23", "1.00000000000000011102230246251565404236316680908203125",
        "1.00000000000000011102230246251565404236316680908203126",
        "1.00000000000000011102230246251565404236316680908203124", "١", "1e٣",
    ] {
        check_parse(text);
    }
    let zeros = "0".repeat(400);
    check_parse(&format!("0.{zeros}1"));
    check_parse(&format!("1{zeros}"));
    check_parse(&format!("1{zeros}e-400"));
    check_parse(&format!("0.{zeros}1e401"));
    check_parse(&format!("{zeros}25e-1"));
}

#[test]
fn numerals_round_trip() {
    let mut mixer = Mixer(1);
    for _ in 0..600 {
        let x = f64::from_bits(mixer.next());
        if x.is_finite() {
            check_parse(&format!("{x:e}"));
            check_parse(&format!("{x:.3e}"));
        }
        let y = mixer.next() as f64 / 1e6;
        check_parse(&format!("{y}"));
    }
}

#[test]
fn halfway_numerals_round_to_even() {
    let mut mixer = Mixer(2);
    for _ in 0..200 {
        // Exactly halfway between two doubles from 2^53 on.
        let low = (1u64 << 53) + (mixer.next() >> 12) * 2;
        check_parse(&format!("{}", low + 1));
        check_parse(&format!("{}.5", low + 1));
        check_parse(&format!("{low}.99999999999999999999"));
    }
}

#[test]
fn differences_are_rounded_once() {
    for a in interesting() {
        for b in interesting() {
            let got = double(a).minus(&double(b));
            assert!(same(a - b, got), "{a:e} - {b:e}: {:e}", f64::from_bits(got.bits));
        }
    }
    let mut mixer = Mixer(3);
    for _ in 0..2000 {
        let a = f64::from_bits(mixer.next());
        let b = f64::from_bits((a.to_bits() & !0xffff_ffff_ffff) | (mixer.next() >> 16));
        assert!(same(a - b, double(a).minus(&double(b))), "{a:e} - {b:e}");
    }
}

#[test]
fn quotients_are_rounded_once() {
    let mut mixer = Mixer(4);
    let counts: [u64; 8] = [1, 2, 3, 7, 1_000_003, (1 << 53) + 1, u64::MAX, u64::MAX - 1024];
    for a in interesting() {
        for n in counts {
            let got = double(a).over(n);
            assert!(same(a / n as f64, got), "{a:e} / {n}");
        }
    }
    for _ in 0..1000 {
        let a = f64::from_bits(mixer.next());
        let n = (mixer.next() >> (mixer.next() % 64)).max(1);
        assert!(same(a / n as f64, double(a).over(n)), "{a:e} / {n}");
    }
}

#[test]
fn comparisons_are_those_of_numbers() {
    for a in interesting() {
        for b in interesting() {
            assert_eq!(a < b, double(a).is_below(&double(b)), "{a:e} < {b:e}");
            assert_eq!(a == b, double(a) == double(b), "{a:e} == {b:e}");
            let near = (a - b).abs() < f64::EPSILON;
            if a.is_finite() && b.is_finite() {
                assert_eq!(near, double(a).is_same_bound(&double(b)), "{a:e} ~ {b:e}");
            } else {
                assert_eq!(a == b, double(a).is_same_bound(&double(b)), "{a:e} ~ {b:e}");
            }
        }
    }
    let mut mixer = Mixer(5);
    for _ in 0..5000 {
        let a = (mixer.next() >> 11) as f64 * 2f64.powi(-53 - (mixer.next() % 4) as i32);
        let ulps = (mixer.next() % 16) as i64 - 8;
        let b = f64::from_bits((a.to_bits() as i64 + ulps) as u64);
        let near = (a - b).abs() < f64::EPSILON;
        assert_eq!(near, double(a).is_same_bound(&double(b)), "{a:e} ~ {b:e}");
        let c = a + f64::EPSILON - (mixer.next() % 1024) as f64 * 2f64.powi(-115);
        let close = (a - c).abs() < f64::EPSILON;
        assert_eq!(close, double(a).is_same_bound(&double(c)), "{a:e} ~ {c:e}");
        assert_eq!(close, double(-a).is_same_bound(&double(-c)), "-{a:e} ~ -{c:e}");
    }
}

#[test]
fn bounds_of_opposite_sign_are_one_across_zero() {
    let mut mixer = Mixer(6);
    for _ in 0..5000 {
        let a = (mixer.next() >> 11) as f64 * 2f64.powi(-53) * f64::EPSILON;
        let b = a - f64::EPSILON + (mixer.next() % 64) as f64 * 2f64.powi(-110);
        let near = (a - b).abs() < f64::EPSILON;
        assert_eq!(near, double(a).is_same_bound(&double(b)), "{a:e} ~ {b:e}");
    }
}

#[test]
fn counts_drop_the_fraction_and_the_sign() {
    for a in interesting() {
        if a.is_finite() {
            assert_eq!(a.max(0.0) as u64, double(a).count(), "{a:e}");
        }
    }
    let mut mixer = Mixer(7);
    for _ in 0..3000 {
        let a = mixer.next() as f64 / (1u64 << (mixer.next() % 64)) as f64;
        assert_eq!(a as u64, double(a).count(), "{a:e}");
        let b = f64::from_bits(mixer.next());
        if b.is_finite() {
            assert_eq!(b.max(0.0) as u64, double(b).count(), "{b:e}");
        }
    }
}

#[test]
fn whole_numbers_are_written_and_read_back() {
    let mut mixer = Mixer(8);
    for n in [0, 1, 9, 10, 99, 100, u64::MAX, u64::MAX - 1] {
        let mut out = String::from("n=");
        push_decimal(&mut out, n);
        assert_eq!(format!("n={n}"), out);
        assert_eq!(Some(n), parse_u64(&out[2..]));
    }
    for _ in 0..1000 {
        let n = mixer.next() >> (mixer.next() % 64);
        let mut out = String::new();
        push_decimal(&mut out, n);
        assert_eq!(n.to_string(), out);
        assert_eq!(Some(n), parse_u64(&out));
    }
}

#[test]
fn whole_numbers_are_read_as_the_standard_library_reads_them() {
    for text in [
        "", "+", "-", "-1", "-0", "0", "+0", "007", "1 ", " 1", "1.0", "1e3", "++1", "1_000", "٣",
        "18446744073709551615", "18446744073709551616", "99999999999999999999",
        "000000000000000000000000018446744073709551615",
    ] {
        assert_eq!(text.parse::<u64>().ok(), parse_u64(text), "{text:?}");
    }
}

#[test]
fn fixed_point_numbers_keep_their_zeros() {
    let mut out = String::new();
    push_fixed(&mut out, 10, 10);
    out.push(' ');
    push_fixed(&mut out, 1701, 4);
    out.push(' ');
    push_fixed(&mut out, 10204, 4);
    out.push(' ');
    push_fixed(&mut out, 5, 0);
    assert_eq!("0.0000000010 0.1701 1.0204 5.", out);
}
