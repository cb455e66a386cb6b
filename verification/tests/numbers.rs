//! Floating-point text and conversions, held against the ones of the language.
use tpt_teleop::num::binary::{double_of_u64, double_to_u64, Width};
use tpt_teleop::num::convert::{divide, narrow, single_of_u64};
use tpt_teleop::num::decimal::{debug_single_exec, display_exec, fixed_exec, padded_left, read};
use tpt_teleop::num::natural::{Nat, Rank};
use tpt_teleop::text::{
    bytes_of, chars_of, lowercase, parse_unsigned, push_decimal, split_segments, split_words, text_after,
    text_of, trimmed, utf8_chars,
};

fn text(v: Vec<char>) -> String {
    v.into_iter().collect()
}

fn chars(s: &str) -> Vec<char> {
    s.chars().collect()
}

/// Bit patterns without a plan, the same in every run.
struct Source(u64);

impl Source {
    fn next(&mut self) -> u64 {
        self.0 ^= self.0 << 13;
        self.0 ^= self.0 >> 7;
        self.0 ^= self.0 << 17;
        self.0
    }
}

fn doubles() -> Vec<f64> {
    let mut v = vec![
        0.0, -0.0, 1.0, -1.0, 0.1, 0.2, 0.3, 2.5, 3.0, 1e21, 1e22, 1e23, 9007199254740993.0, 1e-5, 1e-7,
        123456.789, 5e-324, 2.2250738585072014e-308, 2.225073858507201e-308, f64::MAX, f64::MIN,
        f64::INFINITY, f64::NEG_INFINITY, 0.5, 1.5, 0.125, 9.5, 99.995, 1e15, 1e16, 1e17, 4.35, 0.045,
        2f64.powi(-1074), 2f64.powi(60), 2f64.powi(-44), 9.007199254740992e15, 1.7976931348623157e308,
    ];
    let mut s = Source(0x9e37_79b9_7f4a_7c15);
    for _ in 0..300 {
        let x = f64::from_bits(s.next());
        if x.is_finite() {
            v.push(x);
        }
    }
    for _ in 0..200 {
        v.push((s.next() % 2_000_000) as f64 / 1000.0 - 1000.0);
    }
    v
}

fn singles() -> Vec<f32> {
    let mut v = vec![
        0.0f32, -0.0, 1.0, 0.1, 0.55, 1e16, 1e15, 9.999e15, 1.5e16, 1e-4, 1e-5, 9.9e-5, 1e-6, 123456.0,
        16777216.0, 1e30, f32::MAX, f32::MIN_POSITIVE, 1e-45, f32::INFINITY, f32::NEG_INFINITY, 3.5, -2.25,
        8.5899346e9, 4.8113477e-38,
    ];
    let mut s = Source(0x1234_5678_9abc_def1);
    for _ in 0..400 {
        let x = f32::from_bits(s.next() as u32);
        if x.is_finite() {
            v.push(x);
        }
    }
    v
}

#[test]
fn doubles_are_displayed_as_usual() {
    for x in doubles() {
        assert_eq!(text(display_exec(Width::Double, x.to_bits())), format!("{x}"), "{:x}", x.to_bits());
    }
    assert_eq!(text(display_exec(Width::Double, f64::NAN.to_bits())), "NaN");
}

#[test]
fn singles_are_displayed_as_usual() {
    for x in singles() {
        assert_eq!(text(display_exec(Width::Single, x.to_bits() as u64)), format!("{x}"), "{:x}", x.to_bits());
        assert_eq!(text(debug_single_exec(x.to_bits())), format!("{x:?}"), "{:x}", x.to_bits());
    }
    assert_eq!(text(debug_single_exec(f32::NAN.to_bits())), "NaN");
}

#[test]
fn fixed_places_as_usual() {
    for x in doubles() {
        for places in [1usize, 2, 3, 6, 9] {
            assert_eq!(
                text(fixed_exec(Width::Double, x.to_bits(), places as u32)),
                format!("{x:.places$}"),
                "{:x} {places}",
                x.to_bits()
            );
        }
    }
    for x in singles() {
        assert_eq!(text(fixed_exec(Width::Single, x.to_bits() as u64, 3)), format!("{x:.3}"));
    }
}

#[test]
fn texts_are_read_as_usual() {
    for x in doubles() {
        let s = format!("{x}");
        assert_eq!(read(Width::Double, &chars(&s)), Some(x.to_bits()), "{s}");
        let s = format!("{x:e}");
        assert_eq!(read(Width::Double, &chars(&s)), Some(x.to_bits()), "{s}");
    }
    for x in singles() {
        let s = format!("{x}");
        assert_eq!(read(Width::Single, &chars(&s)), Some(x.to_bits() as u64), "{s}");
    }
    for s in [
        "1", "+1", "-1", ".5", "5.", "1e5", "1E-5", "1e+5", "inf", "-inf", "infinity", "INFINITY", "nan",
        "0.000000000000000000000000000000000000000000001", "1e400", "1e-400", "",
        ".", "e5", "1e", "1e+", "--1", "+", "1 ", " 1", "0x10", "1_000", "infin", "na", "1.2.3", "1e5.5",
        "9007199254740993", "0.1000000000000000055511151231257827021181583404541015625",
        "179769313486231580793728971405301", "4.9406564584124654e-324", "2.4703282292062328e-324",
    ] {
        let want = s.parse::<f64>().ok();
        let got = read(Width::Double, &chars(s)).map(f64::from_bits);
        match (want, got) {
            (Some(a), Some(b)) => {
                assert!(a.to_bits() == b.to_bits() || (a.is_nan() && b.is_nan()), "{s}: {a} {b}")
            }
            (a, b) => assert!(a.is_none() && b.is_none(), "{s}: {a:?} {b:?}"),
        }
        let want = s.parse::<f32>().ok();
        let got = read(Width::Single, &chars(s)).map(|b| f32::from_bits(b as u32));
        match (want, got) {
            (Some(a), Some(b)) => {
                assert!(a.to_bits() == b.to_bits() || (a.is_nan() && b.is_nan()), "{s}: {a} {b}")
            }
            (a, b) => assert!(a.is_none() && b.is_none(), "{s}: {a:?} {b:?}"),
        }
    }
}

#[test]
fn doubles_are_narrowed_as_usual() {
    for x in doubles() {
        assert_eq!(narrow(x.to_bits()), (x as f32).to_bits(), "{x}");
    }
    for x in singles() {
        assert_eq!(narrow((x as f64).to_bits()), x.to_bits(), "{x}");
    }
    let mut s = Source(77);
    for _ in 0..500 {
        let x = f64::from_bits((s.next() & 0x800f_ffff_ffff_ffff) | ((0x380 + s.next() % 0x100) << 52));
        assert_eq!(narrow(x.to_bits()), (x as f32).to_bits(), "{x}");
    }
}

#[test]
fn integers_become_floats_as_usual() {
    let mut s = Source(99);
    let mut v = vec![0u64, 1, 2, (1 << 53) + 1, u64::MAX, u64::MAX - 1024, (1 << 24) + 1, (1 << 24) + 3];
    for i in 0..300 {
        v.push(s.next() >> (i % 64));
    }
    for n in v {
        assert_eq!(double_of_u64(n), (n as f64).to_bits(), "{n}");
        assert_eq!(single_of_u64(n), (n as f32).to_bits(), "{n}");
    }
}

#[test]
fn floats_become_integers_as_usual() {
    for x in doubles() {
        assert_eq!(double_to_u64(x.to_bits()), x as u64, "{x}");
    }
    assert_eq!(double_to_u64(f64::NAN.to_bits()), 0);
}

#[test]
fn quotients_as_usual() {
    let v: Vec<f64> = doubles().into_iter().filter(|x| *x >= 0.0 && x.is_sign_positive()).collect();
    for a in v.iter().filter(|a| a.is_finite()) {
        for b in v.iter().filter(|b| **b > 0.0).step_by(7) {
            assert_eq!(divide(a.to_bits(), b.to_bits()), (a / b).to_bits(), "{a} / {b}");
        }
    }
}

#[test]
fn naturals_count() {
    let a = Nat::from_u64(u64::MAX);
    let b = a.plus(&Nat::from_u64(1));
    assert_eq!(b.to_u64(), None);
    assert!(matches!(a.rank(&b), Rank::Below));
    assert_eq!(b.shift_down(1).to_u64(), Some(1 << 63));
    let (q, r) = b.div_small(10);
    assert_eq!((q.to_u64(), r), (Some(1844674407370955161), 6));
    assert_eq!(Nat::from_u64(3).shift_up(4).to_u64(), Some(48));
    assert_eq!(Nat::from_u64(1 << 20).times(&Nat::from_u64(1 << 20)).to_u64(), Some(1 << 40));
    assert_eq!(Nat::from_u64(7).mul_add_small(10, 3).to_u64(), Some(73));
    assert!(Nat::from_u64(0).is_zero());
}

#[test]
fn texts_are_taken_apart() {
    assert_eq!(text(padded_left(&chars("ab"), 4, ' ')), "  ab");
    assert_eq!(text_of(trimmed(&chars("\t a b \n"))), "a b");
    let parts: Vec<String> = split_segments(&chars("//a//b/"), '/').into_iter().map(text).collect();
    assert_eq!(parts, vec!["a", "b"]);
    let words: Vec<String> = split_words(&chars("  one\u{a0}two three ")).into_iter().map(text).collect();
    let usual: Vec<&str> = "  one\u{a0}two three ".split_whitespace().collect();
    assert_eq!(words, usual);
    assert_eq!(text_after(&chars("a::b::c"), &chars("::")).map(text_of), Some("b::c".to_string()));
    assert_eq!(text_after(&chars("abc"), &chars("::")).map(text_of), None);
    assert_eq!(parse_unsigned(&chars("+42"), 100), Some(42));
    assert_eq!(parse_unsigned(&chars("101"), 100), None);
    assert_eq!(parse_unsigned(&chars("18446744073709551616"), u64::MAX), None);
    assert_eq!(parse_unsigned(&chars("-1"), 100), None);
    assert_eq!(parse_unsigned(&chars(""), 100), None);
    let mut s = String::from("n=");
    push_decimal(&mut s, u64::MAX);
    assert_eq!(s, format!("n={}", u64::MAX));
}

#[test]
fn letters_are_lowered() {
    assert_eq!(lowercase(&chars("Content-TYPE 9")), "content-type 9");
    assert_eq!(lowercase(&chars("ÄÖÜ İ ΑΣ")), "ÄÖÜ İ ΑΣ".to_lowercase());
}

#[test]
fn utf8_as_usual() {
    for s in ["", "plain", "é", "漢字", "🚁 drone", "\u{7f}\u{80}\u{7ff}\u{800}\u{ffff}\u{10000}\u{10ffff}"] {
        assert_eq!(bytes_of(s), s.as_bytes());
        assert_eq!(utf8_chars(s.as_bytes()), Some(chars_of(s)));
    }
    for b in [
        &[0x80u8][..],
        &[0xc0, 0x80],
        &[0xc1, 0xbf],
        &[0xe0, 0x80, 0x80],
        &[0xed, 0xa0, 0x80],
        &[0xf0, 0x80, 0x80, 0x80],
        &[0xf4, 0x90, 0x80, 0x80],
        &[0xf8, 0x88, 0x80, 0x80],
        &[0xe2, 0x82],
        &[0x61, 0xff],
    ] {
        assert_eq!(utf8_chars(b).is_some(), std::str::from_utf8(b).is_ok(), "{b:x?}");
    }
}
