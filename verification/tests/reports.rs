use sortedlog::report::Interval;
use sortedlog::report::Reading;
use sortedlog::report::find_largest_temp_diff_interval;
use sortedlog::report::generate_report;
use sortedlog::report::sort_readings_by_time;
use sortedlog::report::sort_values;

fn reading(time: u64, temp: i32) -> Reading {
    Reading { time, temp }
}

#[test]
fn sorting_values_is_ascending_and_keeps_duplicates() {
    let v = vec![5, -3, 9, 5, 0];
    assert_eq!(sort_values(&v), vec![-3, 0, 5, 5, 9]);
    assert_eq!(sort_values(&Vec::new()), Vec::<i32>::new());
}

#[test]
fn sorting_readings_by_time_is_stable() {
    let r = vec![reading(5, 1), reading(2, 9), reading(5, 2), reading(1, 4)];
    let sorted = sort_readings_by_time(&r);
    assert_eq!(
        sorted,
        vec![reading(1, 4), reading(2, 9), reading(5, 1), reading(5, 2)]
    );
}

#[test]
fn interval_of_few_readings_is_zero() {
    assert_eq!(
        find_largest_temp_diff_interval(&Vec::new()),
        Interval { start: 0, end: 0, diff: 0 }
    );
    assert_eq!(
        find_largest_temp_diff_interval(&vec![reading(9, 40)]),
        Interval { start: 0, end: 0, diff: 0 }
    );
}

#[test]
fn interval_finds_largest_adjacent_difference() {
    let r = vec![reading(3, 10), reading(1, 50), reading(2, 20)];
    // Ordered by time: (1, 50), (2, 20), (3, 10); differences 30 then 10.
    assert_eq!(
        find_largest_temp_diff_interval(&r),
        Interval { start: 1, end: 2, diff: 30 }
    );
}

#[test]
fn interval_keeps_the_earliest_of_equal_differences() {
    let r = vec![reading(1, 0), reading(2, 10), reading(3, 0), reading(4, 10)];
    assert_eq!(
        find_largest_temp_diff_interval(&r),
        Interval { start: 1, end: 2, diff: 10 }
    );
}

#[test]
fn interval_of_constant_readings_keeps_zero_times() {
    let r = vec![reading(4, 5), reading(9, 5), reading(6, 5)];
    assert_eq!(
        find_largest_temp_diff_interval(&r),
        Interval { start: 0, end: 0, diff: 0 }
    );
}

#[test]
fn report_of_small_batch_lists_everything() {
    let r = vec![reading(3, 10), reading(1, 50), reading(2, 20)];
    let (highest, lowest, interval) = generate_report(&r);
    assert_eq!(highest, vec![50, 20, 10]);
    assert_eq!(lowest, vec![10, 20, 50]);
    assert_eq!(interval, Interval { start: 1, end: 2, diff: 30 });
}

#[test]
fn report_of_large_batch_takes_five_each_way() {
    let r = vec![
        reading(1, -30),
        reading(2, 70),
        reading(3, 0),
        reading(4, -100),
        reading(5, 55),
        reading(6, 12),
        reading(7, -2),
        reading(8, 33),
    ];
    let (highest, lowest, interval) = generate_report(&r);
    assert_eq!(highest, vec![70, 55, 33, 12, 0]);
    assert_eq!(lowest, vec![-100, -30, -2, 0, 12]);
    // Differences along time order: 100, 70, 100, 155, 43, 14, 35.
    assert_eq!(interval, Interval { start: 4, end: 5, diff: 155 });
}
