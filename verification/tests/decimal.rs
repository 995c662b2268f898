use staple_checklist::decimal::{parse_count, parse_numeral, Decimal, Magnitude, Numeral};
use staple_checklist::staples::{copies_from_numeral, Percent};

fn fin(negative: bool, whole: u64, hundredths: u8, rest_is_zero: bool) -> Option<Numeral> {
    Some(Numeral {
        negative,
        magnitude: Magnitude::Finite(Decimal { whole, hundredths, rest_is_zero }),
    })
}

fn dec(whole: u64, hundredths: u8, rest_is_zero: bool) -> Option<Numeral> {
    fin(false, whole, hundredths, rest_is_zero)
}

#[test]
fn numerals_are_read() {
    assert_eq!(parse_numeral("38"), dec(38, 0, true));
    assert_eq!(parse_numeral("3.2"), dec(3, 20, true));
    assert_eq!(parse_numeral("+0.75"), dec(0, 75, true));
    assert_eq!(parse_numeral("12.345"), dec(12, 34, false));
    assert_eq!(parse_numeral("12.340"), dec(12, 34, true));
    assert_eq!(parse_numeral("5."), dec(5, 0, true));
    assert_eq!(parse_numeral(".5"), dec(0, 50, true));
    assert_eq!(parse_numeral("007"), dec(7, 0, true));
    assert_eq!(parse_numeral("100.000"), dec(100, 0, true));
}

#[test]
fn a_minus_sign_is_read() {
    assert_eq!(parse_numeral("-1"), fin(true, 1, 0, true));
    assert_eq!(parse_numeral("-0"), fin(true, 0, 0, true));
    assert_eq!(parse_numeral("-.25"), fin(true, 0, 25, true));
    assert_eq!(parse_numeral("-12.5e1"), fin(true, 125, 0, true));
}

#[test]
fn an_exponent_moves_the_point() {
    assert_eq!(parse_numeral("1e1"), dec(10, 0, true));
    assert_eq!(parse_numeral("1E1"), dec(10, 0, true));
    assert_eq!(parse_numeral("1e+1"), dec(10, 0, true));
    assert_eq!(parse_numeral("1e0"), dec(1, 0, true));
    assert_eq!(parse_numeral("1e-0"), dec(1, 0, true));
    assert_eq!(parse_numeral("1e-1"), dec(0, 10, true));
    assert_eq!(parse_numeral("1e-2"), dec(0, 1, true));
    assert_eq!(parse_numeral("1e-3"), dec(0, 0, false));
    assert_eq!(parse_numeral("0e-3"), dec(0, 0, true));
    assert_eq!(parse_numeral("12345e-3"), dec(12, 34, false));
    assert_eq!(parse_numeral("12340e-3"), dec(12, 34, true));
    assert_eq!(parse_numeral("123.45e1"), dec(1234, 50, true));
    assert_eq!(parse_numeral("123.45e2"), dec(12345, 0, true));
    assert_eq!(parse_numeral("123.45e3"), dec(123450, 0, true));
    assert_eq!(parse_numeral("123.45e-2"), dec(1, 23, false));
    assert_eq!(parse_numeral("123.45e-3"), dec(0, 12, false));
    assert_eq!(parse_numeral("123.45e-4"), dec(0, 1, false));
    assert_eq!(parse_numeral("123.45e-5"), dec(0, 0, false));
    assert_eq!(parse_numeral("5.e1"), dec(50, 0, true));
    assert_eq!(parse_numeral(".5e1"), dec(5, 0, true));
    assert_eq!(parse_numeral(".5e-1"), dec(0, 5, true));
    assert_eq!(parse_numeral("1e0000000000000000000000000000000002"), dec(100, 0, true));
    assert_eq!(parse_numeral("1e19"), dec(10000000000000000000, 0, true));
    assert_eq!(parse_numeral("1e20"), dec(u64::MAX, 0, true));
    assert_eq!(parse_numeral("0.0001e23"), dec(10000000000000000000, 0, true));
    assert_eq!(parse_numeral("0.0001e24"), dec(u64::MAX, 0, true));
    assert_eq!(parse_numeral("0e99999999999999999999999999999999999999999999"), dec(0, 0, true));
    assert_eq!(parse_numeral("00.00e99999999999999999999999999999999999999999999"), dec(0, 0, true));
    assert_eq!(parse_numeral("1e99999999999999999999999999999999999999999999"), dec(u64::MAX, 0, true));
    assert_eq!(parse_numeral("1e-99999999999999999999999999999999999999999999"), dec(0, 0, false));
    assert_eq!(parse_numeral("0e-99999999999999999999999999999999999999999999"), dec(0, 0, true));
    assert_eq!(parse_numeral("1e340282366920938463463374607431768211455"), dec(u64::MAX, 0, true));
    assert_eq!(parse_numeral("1e-340282366920938463463374607431768211456"), dec(0, 0, false));
}

#[test]
fn the_words_are_read_in_any_case() {
    let inf = |negative| Some(Numeral { negative, magnitude: Magnitude::Infinite });
    let nan = |negative| Some(Numeral { negative, magnitude: Magnitude::Nan });
    for text in ["inf", "INF", "Inf", "iNf", "infinity", "INFINITY", "Infinity", "+inf", "+Infinity"] {
        assert_eq!(parse_numeral(text), inf(false), "{:?}", text);
    }
    for text in ["-inf", "-INFINITY"] {
        assert_eq!(parse_numeral(text), inf(true), "{:?}", text);
    }
    for text in ["nan", "NaN", "NAN", "+nan"] {
        assert_eq!(parse_numeral(text), nan(false), "{:?}", text);
    }
    assert_eq!(parse_numeral("-nan"), nan(true));
}

#[test]
fn other_text_is_no_numeral() {
    for text in [
        "", "+", "-", ".", "+.", "-.", "1,5", " 1", "1 ", "1.2.3", "n/a", "4x", "++1", "--1", "+-1",
        "1e", "e1", "1e+", "1e-", "1e1.5", ".e1", "1ee1", "1e1e1", "in", "infinit", "infinityy",
        "nane", "na", "i", "1inf", "inf1", "0x10", "1_0", "1e 1", "1 e1", "\u{131}nf", "\u{17f}",
        "1f", "١",
    ] {
        assert_eq!(parse_numeral(text), None, "{:?}", text);
    }
}

const MANY: [&str; 64] = [
    "", "0", "1", "-1", "+1", "1.", ".1", ".", "+.", "-.5", "1e1", "1E1", "1e+1", "1e-1", "1e", "e1",
    "1e+", ".e1", "1.e1", ".5e-1", "inf", "INF", "-inf", "+inf", "infinity", "Infinity", "-INFINITY",
    "infinit", "nan", "NaN", "-nan", "+NAN", "nane", "1,5", " 1", "1 ", "1.2.3", "4x", "++1", "--1",
    "0x10", "1_0", "255", "256", "254.5", "255.5", "3.25", "3.0", "2.5e2", "2.5e3", "25e-1", "25e-2",
    "-0", "-0.0", "-0.5", "-100", "1e5", "1e-5", "0e5", "0.0e-5", "100", "99.75", "100.5", "1e2",
];

#[test]
fn what_is_a_numeral_is_what_std_reads_as_a_float() {
    for text in MANY {
        assert_eq!(parse_numeral(text).is_some(), text.parse::<f32>().is_ok(), "{:?}", text);
    }
}

#[test]
fn copies_are_what_std_makes_of_the_float() {
    for text in MANY {
        if let Some(n) = parse_numeral(text) {
            let float: f32 = text.parse().unwrap();
            if float == 0.0 || float.abs() >= 0.001 || float.is_nan() {
                assert_eq!(copies_from_numeral(n), float.ceil() as u8, "{:?}", text);
            }
        }
    }
}

#[test]
fn shares_are_the_float_brought_between_none_and_all() {
    for text in MANY {
        if let Some(n) = parse_numeral(text) {
            let float: f32 = text.parse().unwrap();
            let want = if float.is_nan() {
                if float.is_sign_negative() { 0 } else { 10000 }
            } else if float.is_sign_negative() {
                0
            } else {
                (float.min(100.0) * 100.0).floor() as u16
            };
            assert_eq!(Percent::from_numeral(n).hundredths, want, "{:?}", text);
        }
    }
}

#[test]
fn a_huge_whole_part_is_held_as_the_largest() {
    assert_eq!(parse_numeral("18446744073709551614"), dec(18446744073709551614, 0, true));
    assert_eq!(parse_numeral("18446744073709551615.5"), dec(u64::MAX, 50, true));
    assert_eq!(parse_numeral("99999999999999999999999"), dec(u64::MAX, 0, true));
}

#[test]
fn counts_agree_with_std() {
    let texts = [
        "0", "4", "255", "256", "+4", "+255", "+", "", "-1", "-0", "04", "0004", "1000", "4x", "x",
        " 4", "4 ", "4.0", "99999999999999999999", "+0", "1e1",
        "340282366920938463463374607431768211455", "340282366920938463463374607431768211456",
    ];
    for text in texts {
        assert_eq!(parse_count(text), text.parse::<u8>().ok(), "{:?}", text);
    }
}

#[test]
fn every_count_is_read_back() {
    for n in 0u8..=255 {
        assert_eq!(parse_count(&format!("{}", n)), Some(n));
    }
}
