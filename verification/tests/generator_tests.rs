use rounding::generator::RoundTestIter;
use rounding::rounder::str_sround;
use rounding::rounder::Policy;

#[test]
fn depth_one_positive() {
    let mut it = RoundTestIter::new(1, false);
    assert_eq!(it.next(), Some(("0.4".to_string(), 0)));
    assert_eq!(it.next(), Some(("0.5".to_string(), 0)));
    assert_eq!(it.next(), None);
    assert_eq!(it.next(), None);
}

#[test]
fn depth_one_negative() {
    let mut it = RoundTestIter::new(1, true);
    assert_eq!(it.next(), Some(("-0.4".to_string(), 0)));
    assert_eq!(it.next(), Some(("-0.5".to_string(), 0)));
    assert_eq!(it.next(), None);
}

#[test]
fn depth_one_end_to_end() {
    let mut it = RoundTestIter::new(1, false);
    let (first, p1) = it.next().unwrap();
    let (second, p2) = it.next().unwrap();
    assert_eq!((first.as_str(), p1), ("0.4", 0));
    assert_eq!((second.as_str(), p2), ("0.5", 0));
    assert_eq!(it.next(), None);
    assert_eq!(str_sround(&first, p1, &Policy::ToEven), "0");
    assert_eq!(str_sround(&first, p1, &Policy::AwayFromZero), "0");
    assert_eq!(str_sround(&second, p2, &Policy::ToEven), "0");
    assert_eq!(str_sround(&second, p2, &Policy::AwayFromZero), "1");
}

#[test]
fn depth_two_sequence() {
    let mut it = RoundTestIter::new(2, false);
    let mut got: Vec<(String, usize)> = Vec::new();
    while let Some(pair) = it.next() {
        got.push(pair);
    }
    let mut expected: Vec<(String, usize)> = vec![
        ("0.4".to_string(), 0),
        ("0.5".to_string(), 0),
    ];
    for d in 0..10u8 {
        expected.push((format!("0.{}4", d), 1));
        expected.push((format!("0.{}5", d), 1));
    }
    assert_eq!(got, expected);
}

#[test]
fn every_case_probes_a_boundary() {
    for negative in [false, true] {
        let mut it = RoundTestIter::new(4, negative);
        let mut count: usize = 0;
        while let Some((value, precision)) = it.next() {
            count += 1;
            assert!(precision < 4);
            let bytes = value.as_bytes();
            let off = if negative { 1 } else { 0 };
            assert_eq!(&bytes[off..off + 2], b"0.");
            // The emitted precision keeps everything but the final probe.
            assert_eq!(bytes.len(), off + 3 + precision);
            let last = *bytes.last().unwrap();
            assert!(last == b'4' || last == b'5');
            assert!(bytes[off + 2..bytes.len() - 1].iter().all(|b| b.is_ascii_digit()));
        }
        // Two probes per node: the root plus ten children per deeper level.
        // Depth 4 visits 1 + 10 + 100 + 1000 nodes.
        assert_eq!(count, 2 * 1111);
    }
}

#[test]
fn rounding_generated_cases_matches_magnitude_rule() {
    // Every '4' probe rounds down (truncates); every '5' probe rounds up in
    // magnitude under the away-from-zero policy.
    let mut it = RoundTestIter::new(3, false);
    while let Some((value, precision)) = it.next() {
        let rounded = str_sround(&value, precision, &Policy::AwayFromZero);
        let kept = &value[..value.len() - 1];
        let last = value.as_bytes()[value.len() - 1];
        if last == b'4' {
            // Dropping the probe digit: only the lone point case differs.
            let expect = if precision == 0 {
                kept[..kept.len() - 1].to_string()
            } else {
                kept.to_string()
            };
            assert_eq!(rounded, expect);
        } else {
            assert_ne!(rounded, kept);
        }
    }
}
