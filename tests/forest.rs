use tasklog::forest::{build_forest, push_subtask};
use tasklog::siblings::{sibling_less, sort_siblings, text_less};
use tasklog::layout::{finalize_for_display, fits_depth, height_within, indents};
use tasklog::sorting::sort_by_start_stable;
use tasklog::tasks::Task;
use tasklog::work_times::WorkTimes;

fn task(text: &str, spans: &[(i32, i32)]) -> Task {
    Task {
        text: text.to_owned(),
        subs: vec![],
        work_times: spans.iter().map(|&(start, end)| WorkTimes { start, end }).collect(),
    }
}

fn texts(ts: &[Task]) -> Vec<&str> {
    ts.iter().map(|t| t.text.as_str()).collect()
}

#[test]
fn nested_task_goes_under_its_container() {
    let root = build_forest(vec![task("A", &[(0, 100)]), task("B", &[(10, 20)]), task("C", &[(200, 300)])]);
    assert_eq!(texts(&root.subs), vec!["A", "C"]);
    assert_eq!(texts(&root.subs[0].subs), vec!["B"]);
    assert!(root.subs[1].subs.is_empty());
    assert_eq!(root.work_times, vec![WorkTimes { start: i32::MIN, end: i32::MAX }]);
}

#[test]
fn build_sorts_by_start_before_placing() {
    let root = build_forest(vec![task("B", &[(10, 20)]), task("C", &[(200, 300)]), task("A", &[(0, 100)])]);
    assert_eq!(texts(&root.subs), vec!["A", "C"]);
    assert_eq!(texts(&root.subs[0].subs), vec!["B"]);
}

#[test]
fn out_of_order_placement_is_shallower() {
    let mut root = task("root", &[(i32::MIN, i32::MAX)]);
    push_subtask(&mut root, task("B", &[(10, 20)]));
    push_subtask(&mut root, task("A", &[(0, 100)]));
    assert_eq!(texts(&root.subs), vec!["A", "B"]);
    assert!(root.subs[0].subs.is_empty());
}

#[test]
fn equal_spans_first_placed_becomes_container() {
    let root = build_forest(vec![task("first", &[(5, 9)]), task("second", &[(5, 9)])]);
    assert_eq!(texts(&root.subs), vec!["first"]);
    assert_eq!(texts(&root.subs[0].subs), vec!["second"]);
}

#[test]
fn placement_descends_several_levels() {
    let root = build_forest(vec![
        task("outer", &[(0, 100)]),
        task("middle", &[(10, 50)]),
        task("inner", &[(20, 30)]),
        task("side", &[(60, 70)]),
    ]);
    assert_eq!(texts(&root.subs), vec!["outer"]);
    let outer = &root.subs[0];
    assert_eq!(texts(&outer.subs), vec!["middle", "side"]);
    assert_eq!(texts(&outer.subs[0].subs), vec!["inner"]);
}

#[test]
fn first_matching_child_wins() {
    let mut root = task("root", &[(i32::MIN, i32::MAX)]);
    push_subtask(&mut root, task("wide", &[(0, 100)]));
    push_subtask(&mut root, task("late", &[(50, 150)]));
    push_subtask(&mut root, task("both", &[(60, 70)]));
    assert_eq!(texts(&root.subs), vec!["wide", "late"]);
    assert_eq!(texts(&root.subs[0].subs), vec!["both"]);
    assert!(root.subs[1].subs.is_empty());
}

#[test]
fn new_children_are_kept_in_span_order() {
    let mut root = task("root", &[(0, 1000)]);
    push_subtask(&mut root, task("x", &[(500, 600)]));
    push_subtask(&mut root, task("y", &[(100, 200)]));
    push_subtask(&mut root, task("z", &[(50, 80)]));
    assert_eq!(texts(&root.subs), vec!["z", "y", "x"]);
}

#[test]
fn multi_span_task_nests_across_parent_spans() {
    let root = build_forest(vec![task("p", &[(0, 10), (20, 30)]), task("c", &[(2, 3), (25, 26)])]);
    assert_eq!(texts(&root.subs), vec!["p"]);
    assert_eq!(texts(&root.subs[0].subs), vec!["c"]);
}

#[test]
fn siblings_sort_by_start_not_by_first_span() {
    let mut root = task("root", &[(0, 1000)]);
    push_subtask(&mut root, task("split", &[(5, 6), (1, 2)]));
    push_subtask(&mut root, task("single", &[(3, 4)]));
    assert_eq!(texts(&root.subs), vec!["split", "single"]);
    let built = build_forest(vec![task("single", &[(3, 4)]), task("split", &[(5, 6), (1, 2)])]);
    assert_eq!(texts(&built.subs), vec!["split", "single"]);
}

#[test]
fn siblings_with_equal_start_sort_by_finish() {
    let mut root = task("root", &[(0, 1000)]);
    push_subtask(&mut root, task("split", &[(5, 9), (1, 2)]));
    push_subtask(&mut root, task("long", &[(1, 10)]));
    assert_eq!(texts(&root.subs), vec!["split", "long"]);
    assert!(root.subs[0].subs.is_empty());
}

#[test]
fn siblings_with_equal_start_and_finish_sort_by_text() {
    let mut root = task("root", &[(0, 1000)]);
    push_subtask(&mut root, task("b", &[(1, 2), (8, 9)]));
    push_subtask(&mut root, task("a", &[(1, 3), (9, 9)]));
    assert_eq!(texts(&root.subs), vec!["a", "b"]);
}

#[test]
fn appending_resorts_all_children() {
    let mut root = task("root", &[(0, 1000)]);
    root.subs.push(task("late", &[(500, 600)]));
    root.subs.push(task("early", &[(100, 200)]));
    push_subtask(&mut root, task("middle", &[(300, 400)]));
    assert_eq!(texts(&root.subs), vec!["early", "middle", "late"]);
}

#[test]
fn sibling_comparisons() {
    assert!(sibling_less(&task("x", &[(1, 5)]), &task("a", &[(2, 3)])));
    assert!(sibling_less(&task("x", &[(1, 5)]), &task("a", &[(1, 6)])));
    assert!(sibling_less(&task("a", &[(1, 5)]), &task("b", &[(1, 5)])));
    assert!(!sibling_less(&task("a", &[(1, 5)]), &task("a", &[(1, 5)])));
    assert!(text_less(&"ab".to_owned(), &"abc".to_owned()));
    assert!(text_less(&"abc".to_owned(), &"abd".to_owned()));
    assert!(!text_less(&"b".to_owned(), &"abc".to_owned()));
    assert!(!text_less(&"".to_owned(), &"".to_owned()));
    let sorted = sort_siblings(vec![task("c", &[(9, 9)]), task("b", &[(1, 2)]), task("a", &[(1, 2)]), task("b2", &[(1, 2)])]);
    assert_eq!(texts(&sorted), vec!["a", "b", "b2", "c"]);
}

#[test]
fn indents_lists_children_then_their_subtrees() {
    let root = build_forest(vec![
        task("A", &[(0, 100)]),
        task("A1", &[(10, 20)]),
        task("A2", &[(30, 40)]),
        task("B", &[(200, 300)]),
        task("B1", &[(210, 220)]),
        task("A1x", &[(12, 13)]),
    ]);
    let rows = indents(&root, 0);
    let got: Vec<(&str, usize)> = rows.iter().map(|(t, d)| (t.text.as_str(), *d)).collect();
    assert_eq!(got, vec![("A", 0), ("B", 0), ("A1", 1), ("A2", 1), ("A1x", 2), ("B1", 1)]);
}

#[test]
fn depth_checks() {
    let root = build_forest(vec![task("A", &[(0, 100)]), task("B", &[(10, 20)])]);
    assert!(height_within(&root, 2));
    assert!(!height_within(&root, 1));
    assert!(fits_depth(&root, 0));
    assert!(!fits_depth(&root, usize::MAX - 1));
    assert!(fits_depth(&task("leaf", &[(0, 1)]), usize::MAX));
}

#[test]
fn end_to_end_scenario_rows() {
    let root = build_forest(vec![task("A", &[(0, 100)]), task("B", &[(10, 20)]), task("C", &[(200, 300)])]);
    let rows = indents(&root, 0);
    let shown = finalize_for_display(&rows, 0);
    let got: Vec<(&str, usize, i32)> = shown.iter().map(|(t, d)| (t.text.as_str(), *d, t.start())).collect();
    assert_eq!(got, vec![("A", 0, 0), ("B", 1, 10), ("C", 0, 200)]);
}

#[test]
fn finalize_splits_filters_and_sorts() {
    let root = build_forest(vec![task("P", &[(0, 10), (100, 110)]), task("Q", &[(50, 60)]), task("R", &[(5, 6)])]);
    let rows = indents(&root, 0);
    let shown = finalize_for_display(&rows, 5);
    let got: Vec<(&str, usize, i32)> = shown.iter().map(|(t, d)| (t.text.as_str(), *d, t.start())).collect();
    assert_eq!(got, vec![("R", 1, 5), ("Q", 0, 50), ("P", 0, 100)]);
    for (t, _) in &shown {
        assert_eq!(t.work_times.len(), 1);
        assert!(t.subs.is_empty());
    }
    assert!(finalize_for_display(&rows, 1000).is_empty());
}

#[test]
fn finalize_keeps_order_of_ties() {
    let a = task("a", &[(7, 8)]);
    let b = task("b", &[(7, 9)]);
    let rows: Vec<(&Task, usize)> = vec![(&a, 3), (&b, 1)];
    let shown = finalize_for_display(&rows, i64::MIN);
    let got: Vec<(&str, usize)> = shown.iter().map(|(t, d)| (t.text.as_str(), *d)).collect();
    assert_eq!(got, vec![("a", 3), ("b", 1)]);
}

#[test]
fn stable_sort_by_start() {
    let v = vec![task("c", &[(3, 4)]), task("a1", &[(1, 9)]), task("b", &[(2, 2)]), task("a2", &[(1, 2)])];
    let sorted = sort_by_start_stable(v);
    assert_eq!(texts(&sorted), vec!["a1", "a2", "b", "c"]);
    let rows = vec![(task("y", &[(5, 6)]), 2usize), (task("x", &[(1, 2)]), 0usize)];
    let sorted_rows = sort_by_start_stable(rows);
    assert_eq!(sorted_rows[0].0.text, "x");
    assert_eq!(sorted_rows[1].1, 2);
}
