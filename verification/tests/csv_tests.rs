use azdice::csv::{csv_header, csv_row, parse_azdice_csv_lines};

#[test]
fn rows_are_written_as_lines() {
    assert_eq!(csv_header(), "Skillpoint Advantage,Success(%)\n");
    assert_eq!(csv_row(5, "50.00000"), "5,50.00000\n");
    assert_eq!(csv_row(-12, "0.50000"), "-12,0.50000\n");
}

#[test]
fn written_table_reads_back() {
    let rows = vec![(-1, "0.00000".to_string()), (0, "50.25000".to_string()), (1, "100.00000".to_string())];
    let mut lines = vec![csv_header()];
    for (a, s) in rows.iter() {
        lines.push(csv_row(*a, s));
    }
    assert_eq!(parse_azdice_csv_lines(&lines), Some(rows));
}

#[test]
fn header_only_and_empty_files() {
    assert_eq!(parse_azdice_csv_lines(&vec![]), Some(vec![]));
    assert_eq!(parse_azdice_csv_lines(&vec![csv_header()]), Some(vec![]));
}

#[test]
fn malformed_lines_give_none() {
    let h = csv_header();
    assert_eq!(parse_azdice_csv_lines(&vec![h.clone(), "1,2,3\n".to_string()]), None);
    assert_eq!(parse_azdice_csv_lines(&vec![h.clone(), "x,2\n".to_string()]), None);
    assert_eq!(parse_azdice_csv_lines(&vec![h.clone(), "\n".to_string()]), None);
    assert_eq!(parse_azdice_csv_lines(&vec![h.clone(), "".to_string()]), Some(vec![]));
    assert_eq!(
        parse_azdice_csv_lines(&vec![h, " 7 , 12.5 \n".to_string()]),
        Some(vec![(7, "12.5".to_string())])
    );
}
