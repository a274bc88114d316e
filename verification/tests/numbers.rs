//! Numbers by their bits, against machine arithmetic.

use maolan_generate::single::{from_bfloat16, from_double, from_half};
use maolan_generate::text::{decimal_text, is_before, parse_signed, parse_unsigned, split, trim};

#[test]
fn every_half_precision_number_is_widened_exactly() {
    for bits in 0..=u16::MAX {
        let expected = half::f16::from_bits(bits).to_f32();
        let value = from_half(bits);
        if expected.is_nan() {
            assert!(f32::from_bits(value.bits).is_nan());
        } else {
            assert_eq!(value.bits, expected.to_bits(), "{bits:#06x}");
        }
    }
}

#[test]
fn every_bfloat16_number_is_widened_exactly() {
    for bits in 0..=u16::MAX {
        assert_eq!(from_bfloat16(bits).bits, (bits as u32) << 16);
    }
}

#[test]
fn doubles_are_narrowed_as_by_a_cast() {
    let mut samples: Vec<f64> = vec![
        0.0,
        -0.0,
        1.0,
        -1.5,
        f64::MAX,
        f64::MIN_POSITIVE,
        f64::INFINITY,
        f64::NEG_INFINITY,
        3.4028234663852886e38,
        3.4028235677973366e38,
        1.401298464324817e-45,
        7.006492321624085e-46,
        7.006492321624086e-46,
        1.1754943508222875e-38,
        1.1754942807573643e-38,
        5e-324,
    ];
    let mut word = 1u64;
    for i in 0..20_000u64 {
        word = word.wrapping_mul(6_364_136_223_846_793_005).wrapping_add(1_442_695_040_888_963_407);
        samples.push(f64::from_bits(word));
        let exponent = 860 + i % 300;
        samples.push(f64::from_bits((word & 0x800f_ffff_ffff_ffff) | (exponent << 52)));
        samples.push(f64::from_bits((word & 0x800f_ffff_e000_0000) | (exponent << 52) | 0x1000_0000));
    }
    for value in samples {
        let expected = value as f32;
        let narrowed = from_double(value.to_bits());
        if value.is_nan() {
            assert!(f32::from_bits(narrowed.bits).is_nan());
        } else {
            assert_eq!(narrowed.bits, expected.to_bits(), "{value:e}");
        }
    }
}

#[test]
fn decimal_numbers() {
    for n in [0u64, 9, 10, 12_345, u64::MAX] {
        assert_eq!(decimal_text(n), n.to_string());
        let chars: Vec<char> = n.to_string().chars().collect();
        assert_eq!(parse_unsigned(&chars, u64::MAX), Some(n));
    }
    let chars = |text: &str| text.chars().collect::<Vec<char>>();
    for text in ["", "+", "-", "+5", "-5", "5", "00", "9223372036854775807", "9223372036854775808",
        "-9223372036854775808", "-9223372036854775809", "1 ", "٣"] {
        assert_eq!(parse_signed(&chars(text)), text.parse::<i64>().ok(), "{text}");
    }
}

#[test]
fn texts_are_cut_trimmed_and_ordered() {
    assert_eq!(split("a,,b", ','), vec!["a", "", "b"]);
    assert_eq!(split("", ','), vec![""]);
    assert_eq!(trim("\u{2003} a b\t\u{85}").into_iter().collect::<String>(), "a b");
    let texts = ["", "a", "aa", "ab", "b", "é", "中", "\u{1f600}"];
    for a in texts {
        for b in texts {
            assert_eq!(is_before(a, b), a < b);
        }
    }
}
