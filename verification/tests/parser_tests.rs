use azdice::parser::{advanced_parser_outer, inner_parser, parse_args};
use azdice::text::{is_white_space, lshas, parse_i32_chars, parse_usize_chars, trim_chars};

fn chars(s: &str) -> Vec<char> {
    s.chars().collect()
}

#[test]
fn inner_parser_reads_terms() {
    assert_eq!(inner_parser("5d10+6d12"), Some(vec![(5, 10), (6, 12)]));
    assert_eq!(inner_parser("3d6+1d20"), Some(vec![(3, 6), (1, 20)]));
}

#[test]
fn inner_parser_count_defaults_to_one() {
    assert_eq!(inner_parser("d20"), Some(vec![(1, 20)]));
    assert_eq!(inner_parser("d100"), inner_parser("1d100"));
}

#[test]
fn inner_parser_rejects_malformed_terms() {
    assert_eq!(inner_parser("5d"), None);
    assert_eq!(inner_parser("5d6d7"), None);
    assert_eq!(inner_parser("20"), None);
    assert_eq!(inner_parser(""), None);
    assert_eq!(inner_parser("5d10+"), None);
}

#[test]
fn outer_parser_splits_sides() {
    assert_eq!(
        advanced_parser_outer("4d6 + 2d12 vs 10d100"),
        Some(vec!["4d6+2d12".to_string(), "10d100".to_string()])
    );
    assert_eq!(
        advanced_parser_outer("3d6 vs 1d20"),
        Some(vec!["3d6".to_string(), "1d20".to_string()])
    );
}

#[test]
fn outer_parser_single_side_stands_against_itself() {
    assert_eq!(
        advanced_parser_outer("3d6"),
        Some(vec!["3d6".to_string(), "3d6".to_string()])
    );
    assert_eq!(advanced_parser_outer("3d6"), advanced_parser_outer("3d6 vs 3d6"));
    assert_eq!(advanced_parser_outer("3d6+1d20"), advanced_parser_outer("3d6+1d20 vs 3d6+1d20"));
    assert_eq!(advanced_parser_outer("3d6 vs"), advanced_parser_outer("3d6 vs 3d6"));
}

#[test]
fn outer_parser_rejects_several_versus_and_bad_characters() {
    assert_eq!(advanced_parser_outer("1d6 vs 2d6 vs 3d6"), None);
    assert_eq!(advanced_parser_outer("3x6"), None);
    assert_eq!(advanced_parser_outer("1d20-2"), None);
}

#[test]
fn parse_args_reads_faces_or_default() {
    let mut x: usize = 7;
    let mut dice: i32 = 0;
    parse_args("20", &mut x, &mut dice, 100);
    assert_eq!(dice, 20);
    assert_eq!(x, 7);
    parse_args("twenty", &mut x, &mut dice, 100);
    assert_eq!(dice, 100);
    parse_args("20 10000", &mut x, &mut dice, 100);
    assert_eq!(dice, 20);
    assert_eq!(x, 10000);
    parse_args(" 12   34 ", &mut x, &mut dice, 100);
    assert_eq!(dice, 12);
    assert_eq!(x, 34);
    parse_args("8 many", &mut x, &mut dice, 100);
    assert_eq!(dice, 8);
    assert_eq!(x, 34);
}

#[test]
fn integer_parsing_follows_std() {
    for s in ["0", "+5", "-5", "2147483647", "-2147483648", "2147483648", "", "-", "+", "1a", " 1", "007"] {
        assert_eq!(parse_i32_chars(&chars(s)), s.parse::<i32>().ok(), "{:?}", s);
    }
    for s in ["0", "+5", "-5", "18446744073709551615", "18446744073709551616", "", "+"] {
        assert_eq!(parse_usize_chars(&chars(s)), s.parse::<usize>().ok(), "{:?}", s);
    }
}

#[test]
fn white_space_follows_std() {
    for c in [' ', '\t', '\n', '\u{a0}', '\u{3000}', 'a', '0', '\u{200b}', '\u{85}'] {
        assert_eq!(is_white_space(c), c.is_whitespace(), "{:?}", c);
    }
    assert_eq!(trim_chars(&chars("  5 \n")), chars("5"));
    assert!(lshas("abc", 'b'));
    assert!(!lshas("abc", 'd'));
}
