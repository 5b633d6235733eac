use std::cmp::Ordering;
use tasklog::work_times::WorkTimes;

#[test]
fn test_work_times_ordering() {
    let wktimes = vec![
        WorkTimes { start: 2, end: 3 },
        WorkTimes { start: 2, end: 4 },
        WorkTimes { start: 1, end: 3 },
        WorkTimes { start: 1, end: 2 },
    ];
    let mut sorted = wktimes.clone();
    sorted.sort();
    assert_eq!(
        sorted,
        vec![
            WorkTimes { start: 1, end: 2 },
            WorkTimes { start: 1, end: 3 },
            WorkTimes { start: 2, end: 3 },
            WorkTimes { start: 2, end: 4 },
        ]
    );
}

#[test]
fn earlier_start_sorts_first_whatever_the_end() {
    let a = WorkTimes { start: 1, end: 100 };
    let b = WorkTimes { start: 2, end: 3 };
    assert_eq!(a.partial_cmp(&b), Some(Ordering::Less));
    assert_eq!(b.partial_cmp(&a), Some(Ordering::Greater));
    assert!(a < b);
}

#[test]
fn equal_start_compares_by_end() {
    let a = WorkTimes { start: 5, end: 6 };
    let b = WorkTimes { start: 5, end: 9 };
    assert_eq!(a.partial_cmp(&b), Some(Ordering::Less));
    assert_eq!(a.partial_cmp(&a), Some(Ordering::Equal));
    assert_eq!(a.cmp(&b), Ordering::Less);
}

#[test]
fn span_duration_is_end_minus_start() {
    assert_eq!(WorkTimes { start: -10, end: 20 }.duration(), 30);
    assert_eq!(WorkTimes { start: 7, end: 7 }.duration(), 0);
    assert_eq!(WorkTimes { start: 9, end: 4 }.duration(), -5);
}
