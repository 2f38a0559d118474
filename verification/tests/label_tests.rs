use azdice::labels::{ff, ff_checked, lshash, match_to_round};

fn ff_of(x: f64) -> String {
    ff(3, &x.to_string(), x * x < 1.0, x < 0.0)
}

#[test]
fn match_to_round_table() {
    assert_eq!(match_to_round(false, '7'), (false, '7'));
    assert_eq!(match_to_round(true, '0'), (false, '1'));
    assert_eq!(match_to_round(true, '8'), (false, '9'));
    assert_eq!(match_to_round(true, '9'), (true, '0'));
    assert_eq!(match_to_round(true, '.'), (true, '.'));
}

#[test]
fn significant_figures() {
    assert_eq!(ff(3, "12.3456", false, false), "12.3");
    assert_eq!(ff(3, "0.5", true, false), "0.5");
    assert_eq!(ff(3, "-2.5", false, true), "-2.5");
    assert_eq!(ff(3, "99.99", false, false), "100.0");
    assert_eq!(ff(3, "123456", false, false), "123000");
    assert_eq!(ff(3, "0.123456", true, false), "0.123");
    assert_eq!(ff(3, "-17.77777", false, true), "-17.8");
    assert_eq!(ff(3, "100", false, false), "100");
    assert_eq!(ff(3, "9.99999", false, false), "10.00");
    assert_eq!(ff(3, "12345", false, false), "12300");
}

#[test]
fn significant_figures_of_floats() {
    assert_eq!(ff_of(12.3456), "12.3");
    assert_eq!(ff_of(-17.77777), "-17.8");
    assert_eq!(ff_of(50.0), "50");
}

#[test]
fn lshash_finds_characters() {
    assert!(lshash("0.+-", '.'));
    assert!(!lshash("0.+-", '5'));
    assert!(!lshash("", 'a'));
}

#[test]
fn negation_only_prefixes_a_sign() {
    for r in ["12.3456", "0.5", "99.99", "123456", "17.77777", "9.99999", "2.5"] {
        let neg = format!("-{}", r);
        let small = r.parse::<f64>().unwrap() < 1.0;
        assert_eq!(ff(3, &neg, small, true), format!("-{}", ff(3, r, small, false)), "{}", r);
    }
}

#[test]
fn short_numbers_come_back_as_written() {
    for r in ["12.5", "0.25", "100", "7", "1.05"] {
        assert_eq!(ff(3, r, r.parse::<f64>().unwrap() < 1.0, false), r);
    }
}

#[test]
fn whole_numbers_keep_their_first_figures() {
    for r in ["123456", "98765", "99999", "55555", "1234567"] {
        let label = ff(3, r, false, false);
        let zeros = r.len() - 3;
        assert!(label.ends_with(&"0".repeat(zeros)), "{} -> {}", r, label);
        let neg = ff(3, &format!("-{}", r), false, true);
        assert!(neg.ends_with(&"0".repeat(zeros)), "{} -> {}", r, neg);
    }
    assert_eq!(ff(3, "99999", false, false), "100000");
}

#[test]
fn checked_labels() {
    assert_eq!(ff_checked(3, "12.3456", false, false), Some("12.3".to_string()));
    assert_eq!(ff_checked(3, "-", false, true), None);
    assert_eq!(ff_checked(3, "", false, false), None);
    assert_eq!(ff_checked(0, "123456", false, false), None);
    assert_eq!(ff_checked(usize::MAX, "1", false, false), None);
}

#[test]
fn whole_numbers_round_to_their_figures() {
    for (r, rounded) in [("123456", 123000u64), ("98765", 98800), ("99999", 100000), ("55555", 55600), ("1234567", 1230000)] {
        let label = ff(3, r, false, false);
        assert_eq!(label.parse::<u64>().unwrap(), rounded, "{}", r);
    }
}
