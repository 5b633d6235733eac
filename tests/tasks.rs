use tasklog::tasks::Task;
use tasklog::work_times::WorkTimes;

fn task(text: &str, spans: &[(i32, i32)]) -> Task {
    Task {
        text: text.to_owned(),
        subs: vec![],
        work_times: spans.iter().map(|&(start, end)| WorkTimes { start, end }).collect(),
    }
}

#[test]
fn test_task_start_finish() {
    let task = Task {
        text: "test".to_owned(),
        subs: vec![],
        work_times: vec![
            WorkTimes { start: 3, end: 4 },
            WorkTimes { start: 1, end: 2 },
        ],
    };
    assert_eq!(task.start(), 1);
    assert_eq!(task.finish(), 4);
    assert_eq!(task.duration(), 2);
}

#[test]
fn test_task_is_subtask() {
    let t1 = Task {
        text: "t1".to_owned(),
        subs: vec![],
        work_times: vec![
            WorkTimes { start: 1, end: 2 },
            WorkTimes { start: 3, end: 4 },
        ],
    };
    let t2 = Task {
        text: "t2".to_owned(),
        subs: vec![],
        work_times: vec![
            WorkTimes { start: 0, end: 5 },
            WorkTimes { start: 6, end: 7 },
        ],
    };
    assert!(t1.is_subtask_of(&t2));
}

#[test]
fn test_task_is_not_subtask() {
    let t1 = Task {
        text: "t1".to_owned(),
        subs: vec![],
        work_times: vec![
            WorkTimes { start: 1, end: 2 },
            WorkTimes { start: 3, end: 4 },
        ],
    };
    let t2 = Task {
        text: "t2".to_owned(),
        subs: vec![],
        work_times: vec![
            WorkTimes { start: 0, end: 1 },
            WorkTimes { start: 6, end: 7 },
        ],
    };
    assert!(!t1.is_subtask_of(&t2));
}

#[test]
fn empty_task_has_sentinels_and_fits_anywhere() {
    let empty = task("nothing", &[]);
    let other = task("other", &[(5, 6)]);
    assert_eq!(empty.duration(), 0);
    assert_eq!(empty.start(), i32::MAX);
    assert_eq!(empty.finish(), i32::MIN);
    assert!(empty.is_subtask_of(&other));
    assert!(empty.is_subtask_of(&task("none", &[])));
    assert!(!other.is_subtask_of(&empty));
}

#[test]
fn containment_is_reflexive_and_allows_equal_bounds() {
    let a = task("a", &[(1, 5)]);
    let b = task("b", &[(1, 5)]);
    assert!(a.is_subtask_of(&a));
    assert!(a.is_subtask_of(&b));
    assert!(!task("c", &[(0, 5)]).is_subtask_of(&a));
    assert!(!task("d", &[(1, 6)]).is_subtask_of(&a));
}

#[test]
fn spans_may_fit_in_different_parent_spans() {
    let child = task("child", &[(1, 2), (11, 12)]);
    let parent = task("parent", &[(10, 20), (0, 3)]);
    assert!(child.is_subtask_of(&parent));
}

#[test]
fn finish_and_start_with_negative_instants() {
    let t = task("t", &[(-50, -40), (-10, 30), (-60, -55)]);
    assert_eq!(t.start(), -60);
    assert_eq!(t.finish(), 30);
    assert_eq!(t.duration(), 10 + 40 + 5);
}

#[test]
fn try_duration_reports_overflow() {
    let ok = task("ok", &[(0, 10), (20, 25)]);
    assert_eq!(ok.try_duration(), Some(15));
    let wide = task("wide", &[(i32::MIN, i32::MAX)]);
    assert_eq!(wide.try_duration(), None);
    let summed = task("summed", &[(0, i32::MAX), (0, 1)]);
    assert_eq!(summed.try_duration(), None);
    assert_eq!(task("none", &[]).try_duration(), Some(0));
}

#[test]
fn explode_gives_one_task_per_span() {
    let mut t = task("work", &[(3, 4), (1, 2)]);
    t.subs.push(task("inner", &[(3, 4)]));
    let pieces = t.explode();
    assert_eq!(pieces.len(), 2);
    assert_eq!(pieces[0].work_times, vec![WorkTimes { start: 3, end: 4 }]);
    assert_eq!(pieces[1].work_times, vec![WorkTimes { start: 1, end: 2 }]);
    for p in &pieces {
        assert_eq!(p.text, "work");
        assert!(p.subs.is_empty());
    }
    assert!(task("none", &[]).explode().is_empty());
}

#[test]
fn clone_copies_the_whole_tree() {
    let mut t = task("top", &[(0, 10)]);
    let mut mid = task("mid", &[(1, 5)]);
    mid.subs.push(task("low", &[(2, 3)]));
    t.subs.push(mid);
    let c = t.clone();
    assert_eq!(c, t);
    assert_eq!(c.subs[0].subs[0].text, "low");
}

#[test]
fn default_task_is_empty() {
    let d = Task::default();
    assert!(d.work_times.is_empty());
    assert!(d.text.is_empty());
    assert!(d.subs.is_empty());
    assert_eq!(d.duration(), 0);
}

#[test]
fn tasks_order_by_spans_first() {
    assert!(task("b", &[(1, 2)]) < task("a", &[(2, 3)]));
    assert!(task("a", &[(1, 2)]) < task("b", &[(1, 2)]));
    assert!(task("z", &[(1, 2)]) < task("a", &[(1, 2), (0, 0)]));
}
