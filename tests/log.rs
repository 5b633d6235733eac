use tasklog::log::{chars_of, parse_line, split_fields};
use tasklog::work_times::WorkTimes;

fn spans(line: &str) -> Vec<(i32, i32)> {
    parse_line(line).work_times.iter().map(|w| (w.start, w.end)).collect()
}

#[test]
fn last_field_is_text_and_start_is_negated() {
    let t = parse_line("100,0,A");
    assert_eq!(t.text, "A");
    assert_eq!(t.work_times, vec![WorkTimes { start: 0, end: 100 }]);
    assert!(t.subs.is_empty());
    assert_eq!(spans("20,-10,B"), vec![(10, 20)]);
    assert_eq!(spans("300,-200,C"), vec![(200, 300)]);
}

#[test]
fn pairs_are_read_from_the_right() {
    assert_eq!(spans("8,-7,4,-3,T"), vec![(3, 4), (7, 8)]);
}

#[test]
fn marked_pair_is_the_last_read() {
    assert_eq!(spans("5,-1,#20,-10,X"), vec![(10, 20)]);
    assert_eq!(spans("5,-1,20,-10,X"), vec![(10, 20), (1, 5)]);
}

#[test]
fn pairs_that_do_not_parse_are_skipped() {
    assert_eq!(spans("4,-3,x,-1,T"), vec![(3, 4)]);
    assert_eq!(spans("4,-3,2, 1,T"), vec![(3, 4)]);
    assert_eq!(spans("4,-3,,-1,T"), vec![(3, 4)]);
    assert_eq!(spans("5,-2147483648,T"), vec![]);
    assert_eq!(spans("5,99999999999,T"), vec![]);
}

#[test]
fn unpaired_field_is_ignored() {
    assert_eq!(spans("7,5,-1,T"), vec![(1, 5)]);
}

#[test]
fn line_without_pairs_gives_empty_task() {
    let t = parse_line("just text");
    assert_eq!(t.text, "just text");
    assert!(t.work_times.is_empty());
    assert_eq!(t.duration(), 0);
    let e = parse_line("");
    assert_eq!(e.text, "");
    assert!(e.work_times.is_empty());
}

#[test]
fn signs_are_accepted_on_numbers() {
    assert_eq!(spans("+9,+3,T"), vec![(-3, 9)]);
}

#[test]
fn fields_split_like_str_split() {
    let cs = chars_of("a,,b,");
    let fields: Vec<String> = split_fields(&cs).iter().map(|f| f.iter().collect()).collect();
    assert_eq!(fields, vec!["a", "", "b", ""]);
    assert_eq!(split_fields(&chars_of("")).len(), 1);
    assert_eq!(chars_of("héllo"), vec!['h', 'é', 'l', 'l', 'o']);
}
