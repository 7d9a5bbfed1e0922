use sortedlog::LinkedList;

#[test]
fn empty_list_has_no_values() {
    let l = LinkedList::new();
    assert_eq!(l.to_vec(), Vec::<i32>::new());
    assert!(!l.search(0));
}

#[test]
fn inserts_keep_ascending_order() {
    let mut l = LinkedList::new();
    for v in [9, 2, 7, 2, -5, 0, 7, 100, -5, 3] {
        l.insert(v);
    }
    let out = l.to_vec();
    assert_eq!(out.len(), 10);
    for w in out.windows(2) {
        assert!(w[0] <= w[1]);
    }
    assert_eq!(out, vec![-5, -5, 0, 2, 2, 3, 7, 7, 9, 100]);
}

#[test]
fn search_finds_inserted_value() {
    let mut l = LinkedList::new();
    for v in [4, -1, 33, 8] {
        l.insert(v);
        assert!(l.search(v));
    }
    assert!(l.search(4));
    assert!(l.search(-1));
    assert!(l.search(33));
    assert!(l.search(8));
    assert!(!l.search(5));
}

#[test]
fn delete_removes_exactly_one_match() {
    let mut l = LinkedList::new();
    for v in [5, 5, 5, 2, 9] {
        l.insert(v);
    }
    assert_eq!(l.to_vec(), vec![2, 5, 5, 5, 9]);
    assert!(l.delete(5));
    assert_eq!(l.to_vec(), vec![2, 5, 5, 9]);
    assert!(l.delete(5));
    assert_eq!(l.to_vec(), vec![2, 5, 9]);
}

#[test]
fn delete_of_absent_value_changes_nothing() {
    let mut l = LinkedList::new();
    for v in [1, 3, 5] {
        l.insert(v);
    }
    assert!(!l.delete(4));
    assert_eq!(l.to_vec(), vec![1, 3, 5]);
    assert!(!l.delete(0));
    assert!(!l.delete(6));
    assert_eq!(l.to_vec(), vec![1, 3, 5]);
}

#[test]
fn repeated_delete_on_empty_list_returns_false() {
    let mut l = LinkedList::new();
    for _ in 0..10 {
        assert!(!l.delete(7));
        assert_eq!(l.to_vec(), Vec::<i32>::new());
    }
}

#[test]
fn delete_head_moves_successor_up() {
    let mut l = LinkedList::new();
    for v in [10, 20, 30] {
        l.insert(v);
    }
    assert!(l.delete(10));
    assert_eq!(l.to_vec(), vec![20, 30]);
}

#[test]
fn extreme_values_are_handled() {
    let mut l = LinkedList::new();
    l.insert(i32::MAX);
    l.insert(i32::MIN);
    l.insert(0);
    assert_eq!(l.to_vec(), vec![i32::MIN, 0, i32::MAX]);
    assert!(l.delete(i32::MIN));
    assert_eq!(l.to_vec(), vec![0, i32::MAX]);
}

#[test]
fn end_to_end_single_worker_operations() {
    let mut l = LinkedList::new();
    l.insert(5);
    l.insert(3);
    l.insert(8);
    assert!(l.delete(3));
    assert!(l.search(5));
    assert!(!l.search(3));
    assert_eq!(l.to_vec(), vec![5, 8]);
}

// A deterministic workload checked against a straightforward model that
// keeps a sorted vector of values.
#[test]
fn workload_matches_reference_model() {
    let mut l = LinkedList::new();
    let mut model: Vec<i32> = Vec::new();
    let mut state: u64 = 12345;
    for _ in 0..500 {
        state = state.wrapping_mul(6364136223846793005).wrapping_add(1442695040888963407);
        let code = (state >> 33) % 3;
        state = state.wrapping_mul(6364136223846793005).wrapping_add(1442695040888963407);
        let value = ((state >> 33) % 50) as i32;
        match code {
            0 => {
                l.insert(value);
                let pos = model.partition_point(|&x| x < value);
                model.insert(pos, value);
            }
            1 => {
                let got = l.delete(value);
                let expect = model.iter().position(|&x| x == value);
                assert_eq!(got, expect.is_some());
                if let Some(p) = expect {
                    model.remove(p);
                }
            }
            _ => {
                assert_eq!(l.search(value), model.contains(&value));
            }
        }
        assert_eq!(l.to_vec(), model);
    }
}
