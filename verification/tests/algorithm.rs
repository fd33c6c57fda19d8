//! Algorithms by name, and permanent ids as values.

use colorthief::algorithm::{
    Algorithm, pairwise_unique_ignore_ascii_case, pairwise_unique_u8, roster,
};
use colorthief::color::ColorId;
use colorthief::distance::{Distance, Metric};
use colorthief::text::{decimal_string, str_eq_ignore_ascii_case, text_less, trim};

const ALL_ALGORITHMS: [Algorithm; 4] = [
    Algorithm::DeltaE76,
    Algorithm::Cie94,
    Algorithm::Ciede2000,
    Algorithm::Ciede2000Exact,
];

#[test]
fn algorithm_display_matches_as_str() {
    for algo in ALL_ALGORITHMS {
        assert_eq!(algo.to_string(), algo.as_str());
    }
}

#[test]
fn algorithm_fromstr_roundtrips_all_words() {
    for algo in ALL_ALGORITHMS {
        assert_eq!(algo.as_str().parse::<Algorithm>().unwrap(), algo);
        assert_eq!(Algorithm::parse(algo.as_str()).unwrap(), algo);
    }
}

#[test]
fn algorithm_fromstr_is_case_insensitive() {
    assert_eq!("DELTA-E-76".parse::<Algorithm>().unwrap(), Algorithm::DeltaE76);
    assert_eq!("Cie94".parse::<Algorithm>().unwrap(), Algorithm::Cie94);
    assert_eq!("CIEDE2000".parse::<Algorithm>().unwrap(), Algorithm::Ciede2000);
    assert_eq!(
        "Ciede2000-Exact".parse::<Algorithm>().unwrap(),
        Algorithm::Ciede2000Exact,
    );
}

#[test]
fn algorithm_fromstr_rejects_unknown_names_roster() {
    let message = "ciede-2000".parse::<Algorithm>().unwrap_err().to_string();
    for word in roster() {
        assert!(message.contains(word), "{message:?} does not name {word:?}");
    }
}

#[test]
fn algorithm_roster_covers_every_variant() {
    for algo in ALL_ALGORITHMS {
        match algo {
            Algorithm::DeltaE76
            | Algorithm::Cie94
            | Algorithm::Ciede2000
            | Algorithm::Ciede2000Exact => {}
            _ => panic!("a variant that the roster does not list"),
        }
    }
    assert_eq!(roster().len(), ALL_ALGORITHMS.len());
}

#[test]
fn algorithm_word_uniqueness_helper_is_correct() {
    assert!(!pairwise_unique_ignore_ascii_case(&["cie94", "CIE94"]));
    assert!(pairwise_unique_ignore_ascii_case(&roster()));
}

#[test]
fn algorithm_discriminant_uniqueness_helper_is_correct() {
    assert!(!pairwise_unique_u8(&[1, 2, 2, 3]));
    assert!(pairwise_unique_u8(&[0, 1, 2, 3]));
}

#[test]
fn algorithm_default_is_ciede2000_exact() {
    assert_eq!(Algorithm::default(), Algorithm::Ciede2000Exact);
}

#[test]
fn algorithm_as_str_emits_stable_identifiers() {
    assert_eq!(Algorithm::DeltaE76.as_str(), "delta-e-76");
    assert_eq!(Algorithm::Cie94.as_str(), "cie94");
    assert_eq!(Algorithm::Ciede2000.as_str(), "ciede2000");
    assert_eq!(Algorithm::Ciede2000Exact.as_str(), "ciede2000-exact");
}

#[test]
fn algorithm_metric_is_shared_by_both_ciede2000_variants() {
    assert_eq!(Algorithm::DeltaE76.metric(), Metric::DeltaE76);
    assert_eq!(Algorithm::Cie94.metric(), Metric::Cie94);
    assert_eq!(Algorithm::Ciede2000.metric(), Metric::Ciede2000);
    assert_eq!(Algorithm::Ciede2000Exact.metric(), Metric::Ciede2000);
}

#[test]
fn algorithm_refusal_message_is_exact() {
    let message = Algorithm::parse("").unwrap_err().to_string();
    assert_eq!(
        message,
        "unknown algorithm; expected one of \"delta-e-76\", \"cie94\", \"ciede2000\", \"ciede2000-exact\"",
    );
}

#[test]
fn color_id_wraps_any_u16() {
    for raw in [0, 1, 42, 949, 950, u16::MAX] {
        assert_eq!(ColorId::new(raw).get(), raw);
    }
}

#[test]
fn color_id_displays_as_its_number() {
    assert_eq!(ColorId::new(0).to_string(), "0");
    assert_eq!(ColorId::new(949).to_string(), "949");
    assert_eq!(ColorId::new(u16::MAX).to_string(), "65535");
}

#[test]
fn color_id_orders_by_number() {
    assert!(ColorId::new(1) < ColorId::new(2));
    assert_eq!(ColorId::new(7), ColorId::new(7));
    let mut ids = [ColorId::new(9), ColorId::new(1), ColorId::new(5)];
    ids.sort_unstable();
    assert_eq!(ids, [ColorId::new(1), ColorId::new(5), ColorId::new(9)]);
}

#[test]
fn distances_compare_as_single_precision_numbers() {
    let values = [
        f32::NEG_INFINITY,
        -2.5,
        -0.0,
        0.0,
        f32::MIN_POSITIVE,
        1.0,
        1.5,
        f32::MAX,
        f32::INFINITY,
        f32::NAN,
        -f32::NAN,
    ];
    for a in values {
        for b in values {
            let (x, y) = (Distance::from_bits(a.to_bits()), Distance::from_bits(b.to_bits()));
            assert_eq!(x.less_than(y), a < b, "{a} < {b}");
            assert_eq!(x.not_less_than(y), a >= b, "{a} >= {b}");
        }
        assert_eq!(Distance::from_bits(a.to_bits()).is_nan(), a.is_nan());
    }
    assert_eq!(Distance::infinity().bits, f32::INFINITY.to_bits());
}

#[test]
fn numbers_and_words_as_text() {
    for n in [0u64, 7, 10, 99, 100, 65_535, u64::MAX] {
        assert_eq!(decimal_string(n), n.to_string());
    }
    assert!(str_eq_ignore_ascii_case("aZ09", "Az09"));
    assert!(!str_eq_ignore_ascii_case("k", "\u{212a}"));
    for s in ["", " ", "a", " a b ", "\u{3000}x\u{a0}", "\u{200b}x", "\t\r\nq\u{85}"] {
        assert_eq!(trim(s), s.trim(), "{s:?}");
    }
    for a in ["", "a", "ab", "b", "é", "zz"] {
        for b in ["", "a", "ab", "b", "é", "zz"] {
            assert_eq!(text_less(a, b), a < b, "{a:?} < {b:?}");
        }
    }
}
