use rounding::rounder::is_decimal;
use rounding::rounder::str_sround;
use rounding::rounder::sround_bytes;
use rounding::rounder::Policy;

#[test]
fn pads_without_point() {
    assert_eq!(str_sround("5", 2, &Policy::ToEven), "5.00");
    assert_eq!(str_sround("5", 2, &Policy::AwayFromZero), "5.00");
    assert_eq!(str_sround("5", 0, &Policy::ToEven), "5.");
    assert_eq!(str_sround("-7", 3, &Policy::AwayFromZero), "-7.000");
}

#[test]
fn pads_short_fraction() {
    assert_eq!(str_sround("2.5", 3, &Policy::ToEven), "2.500");
    assert_eq!(str_sround("2.5", 1, &Policy::ToEven), "2.5");
    assert_eq!(str_sround("-0.25", 4, &Policy::AwayFromZero), "-0.2500");
}

#[test]
fn truncates_below_five() {
    assert_eq!(str_sround("2.44", 1, &Policy::ToEven), "2.4");
    assert_eq!(str_sround("2.44", 1, &Policy::AwayFromZero), "2.4");
    assert_eq!(str_sround("0.41", 1, &Policy::AwayFromZero), "0.4");
    assert_eq!(str_sround("3.14159", 3, &Policy::ToEven), "3.142");
}

#[test]
fn tie_to_even() {
    assert_eq!(str_sround("2.45", 1, &Policy::ToEven), "2.4");
    assert_eq!(str_sround("2.55", 1, &Policy::ToEven), "2.6");
}

#[test]
fn tie_to_even_carry_breaks_the_tie() {
    // A '9' consumed by the carry means the value sits above the tie, so
    // even the to-even policy rounds up.
    assert_eq!(str_sround("2.495", 2, &Policy::ToEven), "2.50");
    // An odd kept digit rounds up to its even neighbor.
    assert_eq!(str_sround("2.35", 1, &Policy::ToEven), "2.4");
    // An inspected digit above '5' always rounds up.
    assert_eq!(str_sround("2.46", 1, &Policy::ToEven), "2.5");
}

#[test]
fn away_from_zero() {
    assert_eq!(str_sround("2.45", 1, &Policy::AwayFromZero), "2.5");
    assert_eq!(str_sround("-2.45", 1, &Policy::AwayFromZero), "-2.5");
}

#[test]
fn carry_across_nines() {
    assert_eq!(str_sround("9.99", 1, &Policy::AwayFromZero), "10.0");
    assert_eq!(str_sround("-9.99", 1, &Policy::AwayFromZero), "-10.0");
    assert_eq!(str_sround("0.99", 1, &Policy::AwayFromZero), "1.0");
    assert_eq!(str_sround("19.995", 2, &Policy::AwayFromZero), "20.00");
    assert_eq!(str_sround("99.95", 1, &Policy::AwayFromZero), "100.0");
}

#[test]
fn removes_lone_point() {
    assert_eq!(str_sround("1.50", 0, &Policy::AwayFromZero), "2");
    assert_eq!(str_sround("1.4", 0, &Policy::ToEven), "1");
    assert_eq!(str_sround("3.", 0, &Policy::ToEven), "3");
}

#[test]
fn idempotent_at_positive_precision() {
    let cases = [
        ("2.45", 1usize),
        ("-2.45", 1),
        ("9.99", 1),
        ("0.5", 1),
        ("7", 2),
        ("19.995", 2),
    ];
    for (v, pr) in cases {
        for policy in [Policy::ToEven, Policy::AwayFromZero] {
            let once = str_sround(v, pr, &policy);
            let twice = str_sround(&once, pr, &policy);
            assert_eq!(twice, once);
        }
    }
}

#[test]
fn recognizes_decimal_strings() {
    for good in ["0", "5", "-7", "12.", "0.45", "-0.5", "19.995", "007.00"] {
        assert!(is_decimal(good), "{good}");
    }
    for bad in ["", "-", ".", ".5", "-.5", "1e3", "1.2.3", "+5", "1 2", "NaN", "–1"] {
        assert!(!is_decimal(bad), "{bad}");
    }
}

#[test]
fn rounds_bytes_directly() {
    let v: Vec<u8> = b"2.955".to_vec();
    let r = sround_bytes(&v, 2, &Policy::ToEven);
    assert_eq!(r, b"2.96".to_vec());
    let r2 = sround_bytes(&v, 2, &Policy::AwayFromZero);
    assert_eq!(r2, b"2.96".to_vec());
    let r3 = sround_bytes(&b"2.945".to_vec(), 2, &Policy::ToEven);
    assert_eq!(r3, b"2.94".to_vec());
}
