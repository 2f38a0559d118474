use azdice::libdice::{
    calculate_minmax, count_wins, generate_complex_probability, generate_probability,
    input_within_limits, parse_input, parse_input_checked, progress_shown, roll_die, roll_total,
    sum_faces, die_range, term_rolls, RollTable,
};

fn bonuses(t: &RollTable) -> Vec<i32> {
    t.rows.iter().map(|r| r.0).collect()
}

#[test]
fn minmax_of_opposed_dice() {
    let dice = [vec![(1, 20)], vec![(1, 20)]];
    assert_eq!(calculate_minmax(&dice), 19);
    let dice = [vec![(3, 6)], vec![(1, 20)]];
    assert_eq!(calculate_minmax(&dice), 17);
    let swapped = [vec![(1, 20)], vec![(3, 6)]];
    assert_eq!(calculate_minmax(&swapped), calculate_minmax(&dice));
}

#[test]
fn wins_are_counted_over_the_drawn_rolls() {
    let atts = vec![1, 2, 3];
    let defs = vec![1, 3, 2];
    assert_eq!(count_wins(0, &atts, &defs), 2);
    assert_eq!(count_wins(1, &atts, &defs), 3);
    assert_eq!(count_wins(-1, &atts, &defs), 1);
    assert_eq!(count_wins(-3, &atts, &defs), 0);
    assert_eq!(count_wins(5, &vec![], &vec![]), 0);
    assert_eq!(count_wins(i32::MAX, &vec![i32::MAX], &vec![i32::MIN]), 1);
    let mut last = 0;
    for adv in -4..=4 {
        let w = count_wins(adv, &atts, &defs);
        assert!(last <= w);
        last = w;
    }
}

#[test]
fn plain_probability_extremes() {
    assert_eq!(generate_probability(20, 500, 20), (20, 500));
    assert_eq!(generate_probability(-20, 500, 20), (-20, 0));
    let (adv, vics) = generate_probability(0, 500, 20);
    assert_eq!(adv, 0);
    assert!(vics <= 500);
    assert_eq!(generate_probability(0, 10, 0), (0, 10));
}

#[test]
fn complex_probability_extremes() {
    let dice = [vec![(3, 6)], vec![(1, 20)]];
    assert_eq!(generate_complex_probability(17, 300, &dice), (17, 300));
    assert_eq!(generate_complex_probability(-18, 300, &dice), (-18, 0));
    let constant = [vec![(1, 0)], vec![(1, 20)]];
    assert_eq!(generate_complex_probability(20, 300, &constant), (20, 300));
    assert_eq!(generate_complex_probability(-1, 300, &constant), (-1, 0));
}

#[test]
fn plain_table() {
    assert!(input_within_limits("20", 200));
    let t = parse_input("20", 200).unwrap();
    assert_eq!(t.description, "1d20 vs 1d20");
    assert_eq!(t.title, "Dice output d20.csv");
    assert_eq!(t.rolls, 200);
    assert_eq!(t.rows.len(), 41);
    assert_eq!(t.rows[0], (-20, 0));
    assert_eq!(t.rows[40], (20, 200));
    for (i, r) in t.rows.iter().enumerate() {
        assert_eq!(r.0, -20 + i as i32);
        assert!(r.1 <= 200);
    }
}

#[test]
fn plain_table_reads_the_rounds() {
    let t = parse_input("20 1000", 5).unwrap();
    assert_eq!(t.description, "1d20 vs 1d20");
    assert_eq!(t.rolls, 1000);
    assert_eq!(t.rows.len(), 41);
    assert_eq!(t.rows[0], (-20, 0));
    assert_eq!(t.rows[40], (20, 1000));
    assert!(t.rows.iter().all(|r| r.1 <= 1000));
}

#[test]
fn plain_table_defaults_to_hundred_faces() {
    let t = parse_input("lots", 10).unwrap();
    assert_eq!(t.description, "1d100 vs 1d100");
    assert_eq!(t.rows.len(), 201);
}

#[test]
fn opposed_table() {
    assert!(input_within_limits("3d6 vs 1d20", 200));
    let t = parse_input("3d6 vs 1d20", 200).unwrap();
    assert_eq!(t.description, "3d6 vs 1d20");
    assert_eq!(t.title, "Dice output 3d6 vs 1d20.csv");
    assert_eq!(t.rows.len(), 37);
    assert_eq!(t.rows[0], (-18, 0));
    assert_eq!(t.rows[36], (18, 200));
    assert_eq!(bonuses(&t), (-18..=18).collect::<Vec<i32>>());
}

#[test]
fn d20_table_covers_every_meaningful_bonus() {
    let t = parse_input("1d20 vs 1d20", 100).unwrap();
    assert_eq!(t.description, "1d20 vs 1d20");
    assert_eq!(bonuses(&t), (-20..=20).collect::<Vec<i32>>());
    assert_eq!(t.rows[0], (-20, 0));
    assert_eq!(t.rows[40], (20, 100));
}

#[test]
fn symmetric_tables_read_alike() {
    let forms = ["3d6", "3d6 vs", "3d6 vs 3d6"];
    for f in forms {
        let t = parse_input(f, 20).unwrap();
        assert_eq!(t.description, "3d6 vs 3d6", "{}", f);
        assert_eq!(t.title, "Dice output 3d6 vs 3d6.csv", "{}", f);
        assert_eq!(bonuses(&t), (-16..=16).collect::<Vec<i32>>(), "{}", f);
    }
}

#[test]
fn hundred_sided_tables_read_alike() {
    for f in ["100", "1d100", "d100", "1d100 vs 1d100"] {
        let t = parse_input(f, 10).unwrap();
        assert_eq!(t.description, "1d100 vs 1d100", "{}", f);
        assert_eq!(bonuses(&t), (-100..=100).collect::<Vec<i32>>(), "{}", f);
        assert_eq!(t.rows[0], (-100, 0), "{}", f);
        assert_eq!(t.rows[200], (100, 10), "{}", f);
    }
}

#[test]
fn hundred_sided_table_files() {
    assert_eq!(parse_input("100", 10).unwrap().title, "Dice output d100.csv");
    assert_eq!(parse_input("d100", 10).unwrap().title, "Dice output 1d100 vs 1d100.csv");
    assert_eq!(parse_input("1d100", 10).unwrap().title, "Dice output 1d100 vs 1d100.csv");
}

#[test]
fn descriptions_keep_the_written_sides() {
    let t = parse_input("03d6", 10).unwrap();
    assert_eq!(t.description, "03d6 vs 03d6");
    assert_eq!(t.title, "Dice output 03d6 vs 03d6.csv");
    let u = parse_input("d6 + d8 vs 2d10", 10).unwrap();
    assert_eq!(u.description, "1d6+1d8 vs 2d10");
}

#[test]
fn additive_table() {
    let t = parse_input("3d6+1d20", 20).unwrap();
    assert_eq!(t.description, "3d6+1d20 vs 3d6+1d20");
    // minmax = 38 - 4 = 34, rows from -35 to 35
    assert_eq!(t.rows.len(), 71);
    let u = parse_input("3d6 + 1d20 vs 3d6+1d20", 20).unwrap();
    assert_eq!(u.description, t.description);
}

#[test]
fn malformed_rolls_give_none() {
    assert!(parse_input("1d6 vs 2d6 vs 3d6", 10).is_none());
    assert!(parse_input("3x6 vs 1d6", 10).is_none());
    assert!(parse_input("vs 1d6", 10).is_none());
}

#[test]
fn limits() {
    assert!(!input_within_limits("-5", 10));
    assert!(!input_within_limits("d0", 10));
    assert!(!input_within_limits("2147483647", 10));
    assert!(input_within_limits("1073741823", 0));
    assert!(!input_within_limits("1073741824", 1));
    assert!(input_within_limits("1073741824 0", 1));
    assert!(input_within_limits("3d6 vs", 10));
    assert!(input_within_limits("1d6 vs 2d6 vs 3d6", 10));
    assert!(input_within_limits("1d2147483647", 0));
    assert!(!input_within_limits("1d2147483647", 1));
}

#[test]
fn checked_tables() {
    assert!(parse_input_checked("d0", 10).is_none());
    assert!(parse_input_checked("-5", 10).is_none());
    assert!(matches!(parse_input_checked("1d6 vs 2d6 vs 3d6", 10), Some(None)));
    match parse_input_checked("3d6 vs", 10) {
        Some(Some(t)) => {
            assert_eq!(t.description, "3d6 vs 3d6");
            assert_eq!(t.rows.len(), 33);
        }
        _ => panic!("3d6 vs should build a table"),
    }
}

#[test]
fn dice_rolls_cover_the_faces() {
    let mut seen = [false; 7];
    for _ in 0..3000 {
        let r = roll_die(6);
        assert!((1..=6).contains(&r));
        seen[r as usize] = true;
    }
    assert!(seen[1..].iter().all(|b| *b));
    assert_eq!(roll_die(0), 0);
}

#[test]
fn faces_are_summed_exactly() {
    assert_eq!(sum_faces(5, &vec![1, 2, 3]), 11);
    assert_eq!(sum_faces(-3, &vec![]), -3);
    assert_eq!(sum_faces(0, &vec![6, 6, 6]), 18);
    for _ in 0..200 {
        let t = roll_total(&vec![(3, 6), (1, 0)], 2);
        assert!((5..=20).contains(&t));
    }
    assert_eq!(roll_total(&vec![(4, 0)], 7), 7);
}

#[test]
fn progress_lines() {
    assert!(progress_shown(30, 100));
    assert!(!progress_shown(35, 100));
    assert!(progress_shown(-30, 100));
    assert!(progress_shown(7, 20));
    assert!(progress_shown(-7, 5));
    assert!(progress_shown(0, 35));
    assert!(!progress_shown(5, 35));
    assert!(progress_shown(6, 35));
}

#[test]
fn tables_carry_their_span() {
    let t = parse_input("20", 5).unwrap();
    assert!(t.plain);
    assert_eq!(t.span, 20);
    let u = parse_input("3d6 vs 1d20", 5).unwrap();
    assert!(!u.plain);
    assert_eq!(u.span, 17);
}

#[test]
fn draws_are_handed_exact_ranges() {
    assert_eq!(die_range(6), (1, 7));
    assert_eq!(die_range(0), (0, 1));
    assert_eq!(die_range(1), (1, 2));
    assert_eq!(term_rolls(3), 3);
    assert_eq!(term_rolls(0), 0);
    assert_eq!(term_rolls(-4), 0);
}

#[test]
fn additive_forms_read_alike() {
    let a = parse_input("3d6+1d20", 20).unwrap();
    for f in ["3d6+1d20 vs 3d6+1d20", "3d6 + 1d20  vs  3d6+1d20", "3d6+1d20 vs"] {
        let b = parse_input(f, 20).unwrap();
        assert_eq!(b.description, a.description, "{}", f);
        assert_eq!(b.title, a.title, "{}", f);
        assert_eq!(bonuses(&b), bonuses(&a), "{}", f);
        assert_eq!(b.rows[0], (-35, 0), "{}", f);
        assert_eq!(b.rows[69], (34, 20), "{}", f);
    }
    assert_eq!(bonuses(&a), (-35..=35).collect::<Vec<i32>>());
}
