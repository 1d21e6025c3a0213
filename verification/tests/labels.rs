use pix_harness::exposition::{classify, parse_le, Kind};
use pix_harness::labels::{label_value, series_key, without_le};
use pix_harness::series::SeriesMap;
use pix_harness::text::{chars_of, comes_before, split, split_lines, trim, unquote};

fn text(s: &[char]) -> String {
    s.iter().collect()
}

#[test]
fn a_key_is_the_family_and_its_labels_by_name() {
    assert_eq!("hopr_pix_live", series_key("hopr_pix_live", &[]));
    assert_eq!("f{a=\"1\"}", series_key("f", &[("a", "1")]));
    assert_eq!("f{a=\"2\",b=\"1\"}", series_key("f", &[("b", "1"), ("a", "2")]));
    assert_eq!("f{a=\"2\",b=\"1\"}", series_key("f", &[("a", "2"), ("b", "1")]));
    // A name comes before one that it begins.
    assert_eq!("f{a=\"y\",a1=\"x\"}", series_key("f", &[("a1", "x"), ("a", "y")]));
    // Labels of one name go by their values, however they were ordered.
    assert_eq!("f{a=\"1\",a=\"2\"}", series_key("f", &[("a", "2"), ("a", "1")]));
}

#[test]
fn every_label_but_le_is_kept() {
    let set = chars_of("outcome=\"recovered\",le=\"0.9\", b = 2 ,,x,y==\"z\"");
    let kept: Vec<(String, String)> = without_le(&set)
        .iter()
        .map(|(name, value)| (text(name), text(value)))
        .collect();
    assert_eq!(
        vec![
            ("outcome".to_string(), "recovered".to_string()),
            ("b".to_string(), "2".to_string()),
            ("y".to_string(), "=\"z".to_string()),
        ],
        kept
    );
    assert!(without_le(&[]).is_empty());
}

#[test]
fn a_label_is_found_by_name() {
    let set = chars_of("kind=\"useful\", le = \"+Inf\" ,le=\"2\"");
    assert_eq!(Some("+Inf".to_string()), label_value(&set, "le").map(text));
    assert_eq!(Some("useful".to_string()), label_value(&set, "kind").map(text));
    assert_eq!(None, label_value(&set, "mode").map(text));
    assert_eq!(None, label_value(&[], "le").map(text));
}

#[test]
fn names_are_classified_by_their_suffix() {
    let family = |name: &str| {
        let chars = chars_of(name);
        match classify(&chars) {
            Kind::Bucket(f) => ("bucket", text(f)),
            Kind::Sum(f) => ("sum", text(f)),
            Kind::Count(f) => ("count", text(f)),
            Kind::Counter(f) => ("counter", text(f)),
            Kind::Gauge(f) => ("gauge", text(f)),
        }
    };
    assert_eq!(("bucket", "a".to_string()), family("a_bucket"));
    assert_eq!(("sum", "a".to_string()), family("a_sum"));
    assert_eq!(("count", "a_total".to_string()), family("a_total_count"));
    assert_eq!(("counter", "a_count_total".to_string()), family("a_count_total"));
    assert_eq!(("gauge", "a_total_bytes".to_string()), family("a_total_bytes"));
    assert_eq!(("bucket", "".to_string()), family("_bucket"));
    assert_eq!(("gauge", "count".to_string()), family("count"));
}

#[test]
fn bounds_are_numbers_or_infinity() {
    let bits = |raw: &str| parse_le(&chars_of(raw)).map(|x| x.bits);
    assert_eq!(Some(f64::INFINITY.to_bits()), bits("+Inf"));
    assert_eq!(Some(f64::INFINITY.to_bits()), bits("+inf"));
    assert_eq!(Some(1f64.to_bits()), bits("1"));
    assert_eq!(Some(1f64.to_bits()), bits("1.0"));
    assert_eq!(Some(0.9f64.to_bits()), bits("0.9"));
    assert_eq!(None, bits("wide"));
    assert_eq!(None, bits(""));
}

#[test]
fn text_is_cut_as_the_standard_library_cuts_it() {
    for s in ["", "a", ",", "a,b", ",a,,b,", " x , y ", "\u{85}x\u{3000},\u{200b}"] {
        let chars = chars_of(s);
        let expected: Vec<String> = s.split(',').map(|p| p.to_string()).collect();
        let got: Vec<String> = split(&chars, ',').into_iter().map(text).collect();
        assert_eq!(expected, got, "{s:?}");
        assert_eq!(s.trim(), text(trim(&chars)));
    }
    for s in ["", "\n", "a", "a\n", "a\nb", "a\r\nb\r\n", "a\rb\n\n", "\r\n", "a\r", "a\r\r\n"] {
        let chars = chars_of(s);
        let expected: Vec<String> = s.lines().map(|p| p.to_string()).collect();
        let got: Vec<String> = split_lines(&chars).into_iter().map(text).collect();
        assert_eq!(expected, got, "{s:?}");
    }
    for s in ["", "\"", "\"\"", "\"a\"", "a\"b", "\"\"a\"", "a"] {
        let chars = chars_of(s);
        assert_eq!(s.trim_matches('"'), text(unquote(&chars)));
    }
}

#[test]
fn white_space_is_what_the_standard_library_says() {
    for n in 0..0x3100u32 {
        if let Some(c) = char::from_u32(n) {
            let chars = [c];
            assert_eq!(c.is_whitespace(), trim(&chars).is_empty(), "{n:#x}");
        }
    }
}

#[test]
fn texts_are_ordered_as_strings_are() {
    let words = ["", "a", "aa", "ab", "b", "B", "é", "\u{1F600}", "\u{FFFD}", "a\"", "a!"];
    for a in words {
        for b in words {
            assert_eq!(a < b, comes_before(a, b), "{a:?} {b:?}");
        }
    }
}

#[test]
fn a_map_holds_one_series_by_key_in_order() {
    let mut map: SeriesMap<u64> = SeriesMap::new();
    assert!(map.is_empty());
    for (key, value) in [("b", 2u64), ("a", 1), ("c", 3), ("b", 5)] {
        map.insert(key.to_string(), value);
    }
    assert_eq!(3, map.len());
    assert_eq!(Some(&5), map.get("b"));
    assert_eq!(None, map.get("d"));
    assert_eq!("a", map.key_at(0));
    assert_eq!(&3, map.value_at(2));
    let mut other: SeriesMap<u64> = SeriesMap::new();
    for (key, value) in [("c", 3u64), ("b", 5), ("a", 1)] {
        other.insert(key.to_string(), value);
    }
    assert_eq!(map, other);
    assert_eq!(map, map.clone());
    assert_eq!(Some(5), map.take("b"));
    assert_eq!(None, map.take("b"));
    assert_eq!(2, map.len());
}
