use shortest_paths::job::Job;
use shortest_paths::schedule::Schedule;

#[test]
fn test_difference() {
    assert_eq!((Job { weight: 10, duration: 5 }).difference(), 5);
}

#[test]
fn test_sort_by_difference() {
    let v = vec![
        Job { weight: 10, duration: 5 },
        Job { weight: 2, duration: 3 },
        Job { weight: 3, duration: 4 },
    ];
    let mut sched = Schedule { jobs: Box::new(v) };

    sched.sort_by_difference();
    assert_eq!(
        sched.jobs.iter().map(|job| job.weight).collect::<Vec<i32>>(),
        vec![10, 3, 2]
    );
}

#[test]
fn test_sort_by_ratio() {
    let v = vec![
        Job { weight: 10, duration: 5 },
        Job { weight: 2, duration: 3 },
        Job { weight: 3, duration: 4 },
        Job { weight: 1, duration: 1 },
    ];
    let mut sched = Schedule { jobs: Box::new(v) };

    sched.sort_by_ratio();
    assert_eq!(
        sched.jobs.iter().map(|job| job.weight).collect::<Vec<i32>>(),
        vec![10, 1, 3, 2]
    );
}

#[test]
fn total_weighted_completion_time() {
    let v = vec![
        Job { weight: 10, duration: 5 },
        Job { weight: 2, duration: 3 },
        Job { weight: 3, duration: 4 },
    ];
    let sched = Schedule { jobs: Box::new(v) };

    let total = sched.total_weighted_completion_time();
    assert_eq!(total, (10 * 5 + 2 * 8 + 3 * 12) as i64);
}
