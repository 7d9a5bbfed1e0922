use sortedlog::LinkedList;
use sortedlog::logfmt::i32_dec;
use sortedlog::logfmt::log_line;
use sortedlog::logfmt::u64_dec;
use sortedlog::workload::Action;
use sortedlog::workload::action_from_code;
use sortedlog::workload::run_worker;
use sortedlog::workload::worker_step;

#[test]
fn unsigned_decimal_rendering() {
    assert_eq!(u64_dec(0), "0");
    assert_eq!(u64_dec(7), "7");
    assert_eq!(u64_dec(10), "10");
    assert_eq!(u64_dec(105), "105");
    assert_eq!(u64_dec(499999), "499999");
    assert_eq!(u64_dec(u64::MAX), "18446744073709551615");
}

#[test]
fn signed_decimal_rendering() {
    assert_eq!(i32_dec(0), "0");
    assert_eq!(i32_dec(42), "42");
    assert_eq!(i32_dec(-7), "-7");
    assert_eq!(i32_dec(i32::MAX), "2147483647");
    assert_eq!(i32_dec(i32::MIN), "-2147483648");
}

#[test]
fn action_codes_decode_as_sampled() {
    assert_eq!(action_from_code(0), Action::Insert);
    assert_eq!(action_from_code(1), Action::Delete);
    assert_eq!(action_from_code(2), Action::Search);
}

#[test]
fn log_lines_have_the_documented_shape() {
    assert_eq!(log_line(1, Action::Insert, 5), "Thread 1: Inserting value: 5");
    assert_eq!(log_line(2, Action::Delete, -7), "Thread 2: Deleting value: -7");
    assert_eq!(log_line(4, Action::Search, 499999), "Thread 4: Searching for value: 499999");
    assert_eq!(log_line(12, Action::Insert, 0), "Thread 12: Inserting value: 0");
}

#[test]
fn one_step_sends_its_line_before_the_operation_result_shows() {
    let mut l = LinkedList::new();
    let mut log: Vec<String> = Vec::new();
    worker_step(&mut l, &mut log, 3, Action::Insert, 11);
    assert_eq!(log, vec!["Thread 3: Inserting value: 11".to_string()]);
    assert_eq!(l.to_vec(), vec![11]);
}

#[test]
fn worker_logs_one_line_per_operation_in_issue_order() {
    let script: Vec<(Action, i32)> = vec![
        (Action::Insert, 5),
        (Action::Insert, 3),
        (Action::Insert, 8),
        (Action::Delete, 3),
        (Action::Search, 5),
        (Action::Search, 3),
    ];
    let mut l = LinkedList::new();
    let mut log: Vec<String> = Vec::new();
    run_worker(1, &script, &mut l, &mut log);
    assert_eq!(log.len(), script.len());
    assert_eq!(
        log,
        vec![
            "Thread 1: Inserting value: 5".to_string(),
            "Thread 1: Inserting value: 3".to_string(),
            "Thread 1: Inserting value: 8".to_string(),
            "Thread 1: Deleting value: 3".to_string(),
            "Thread 1: Searching for value: 5".to_string(),
            "Thread 1: Searching for value: 3".to_string(),
        ]
    );
    assert_eq!(l.to_vec(), vec![5, 8]);
}

#[test]
fn two_workers_in_turn_keep_their_own_order() {
    let first: Vec<(Action, i32)> = vec![(Action::Insert, 1), (Action::Insert, 2)];
    let second: Vec<(Action, i32)> = vec![(Action::Delete, 1), (Action::Search, 2)];
    let mut l = LinkedList::new();
    let mut log: Vec<String> = Vec::new();
    run_worker(1, &first, &mut l, &mut log);
    run_worker(2, &second, &mut l, &mut log);
    assert_eq!(log.len(), 4);
    let ours: Vec<&String> = log.iter().filter(|s| s.starts_with("Thread 2")).collect();
    assert_eq!(
        ours,
        vec!["Thread 2: Deleting value: 1", "Thread 2: Searching for value: 2"]
    );
    assert_eq!(l.to_vec(), vec![2]);
}
