use tasklog::report::{cutoff_instant, date_headers, days_back, format_row, report_rows, zero_to_space, SECONDS_PER_DAY};

#[test]
fn days_back_defaults_to_one() {
    assert_eq!(days_back(None), 1);
    assert_eq!(days_back(Some("3")), 3);
    assert_eq!(days_back(Some("+7")), 7);
    assert_eq!(days_back(Some("-2")), -2);
    assert_eq!(days_back(Some("x")), 1);
    assert_eq!(days_back(Some("")), 1);
}

#[test]
fn cutoff_is_whole_days_before_midnight() {
    assert_eq!(cutoff_instant(10 * SECONDS_PER_DAY, 2), Some(8 * SECONDS_PER_DAY));
    assert_eq!(cutoff_instant(1_000, 0), Some(1_000));
    assert_eq!(cutoff_instant(0, i64::MAX), None);
    assert_eq!(cutoff_instant(i64::MIN, 1), None);
}

#[test]
fn zero_shows_as_blank() {
    assert_eq!(zero_to_space(0), " ");
    assert_eq!(zero_to_space(5), "5");
    assert_eq!(zero_to_space(12), "12");
    assert_eq!(zero_to_space(-3), "-3");
}

#[test]
fn row_layout() {
    let expected = format!("   -  1: 2   abc{}", " ".repeat(47));
    assert_eq!(format_row(3725, 1, "abc"), expected);
    let expected = format!("   -   :   x{}", " ".repeat(49));
    assert_eq!(format_row(59, 0, "x"), expected);
    let long = "y".repeat(60);
    assert_eq!(format_row(36000, 0, &long), format!("   - 10:   {}", long));
    assert_eq!(format_row(-3660, 0, ""), format!("   - -1:-1 {}", " ".repeat(50)));
}

#[test]
fn end_to_end_scenario() {
    let lines: Vec<String> = vec!["100,0,A".to_owned(), "20,-10,B".to_owned(), "300,-200,C".to_owned()];
    let rows = report_rows(&lines, 0).unwrap();
    let got: Vec<(&str, usize, i32)> = rows.iter().map(|(t, d)| (t.text.as_str(), *d, t.start())).collect();
    assert_eq!(got, vec![("A", 0, 0), ("B", 1, 10), ("C", 0, 200)]);
    let later = report_rows(&lines, 5).unwrap();
    let got: Vec<(&str, usize)> = later.iter().map(|(t, d)| (t.text.as_str(), *d)).collect();
    assert_eq!(got, vec![("B", 1), ("C", 0)]);
}

#[test]
fn report_drops_lines_without_spans() {
    let lines: Vec<String> = vec!["note".to_owned(), "10,-5,work".to_owned()];
    let rows = report_rows(&lines, 0).unwrap();
    assert_eq!(rows.len(), 1);
    assert_eq!(rows[0].0.text, "work");
    assert_eq!(rows[0].1, 0);
}

#[test]
fn headers_when_the_day_moves_forward() {
    assert_eq!(date_headers(&vec![3, 3, 4, 2, 4, 5]), vec![true, false, true, false, false, true]);
    assert_eq!(date_headers(&vec![0, -1, 1]), vec![false, false, true]);
    assert!(date_headers(&vec![]).is_empty());
}
