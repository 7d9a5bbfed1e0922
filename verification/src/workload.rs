//! The operation vocabulary of the worker tasks and its sequential meaning.
//!
//! A worker runs a script of operations against one list, each operation
//! preceded by its log line. The functions here give that loop its verified
//! core: one step appends exactly one log line and applies exactly one list
//! operation; a whole script applied in order yields the same list state as
//! the single-threaded reference fold over the script.

use vstd::prelude::*;
use crate::list::LinkedList;
use crate::list::insert_sorted;
use crate::list::lemma_insert_sorted_keeps_order;
use crate::list::lemma_remove_first_keeps_order;
use crate::list::remove_first;
use crate::list::sorted;
use crate::logfmt::log_line;
use crate::logfmt::log_line_chars;

verus! {

/// The kind of one list operation.
#[derive(Clone, Copy, PartialEq, Eq, Structural, Debug)]
pub enum Action {
    Insert,
    Delete,
    Search,
}

/// How a sampled action code is read: zero inserts, one deletes, everything
/// else searches.
pub open spec fn action_code(code: u64) -> Action {
    if code == 0 {
        Action::Insert
    } else if code == 1 {
        Action::Delete
    } else {
        Action::Search
    }
}

/// Decodes a sampled action code.
pub fn action_from_code(code: u64) -> (a: Action)
    ensures
        a == action_code(code),
{
    if code == 0 {
        Action::Insert
    } else if code == 1 {
        Action::Delete
    } else {
        Action::Search
    }
}

/// What one operation does to the sequence of list values: an insert places
/// the value in order, a delete removes its first occurrence, a search
/// changes nothing.
pub open spec fn apply_action(s: Seq<i32>, a: Action, v: i32) -> Seq<i32> {
    match a {
        Action::Insert => insert_sorted(s, v),
        Action::Delete => remove_first(s, v),
        Action::Search => s,
    }
}

/// The list state after a whole script of operations, applied in order.
pub open spec fn apply_script(s: Seq<i32>, script: Seq<(Action, i32)>) -> Seq<i32>
    decreases script.len(),
{
    if script.len() == 0 {
        s
    } else {
        apply_action(apply_script(s, script.drop_last()), script.last().0, script.last().1)
    }
}

/// Every script of operations — inserts, deletes and searches in any order —
/// keeps a sorted list sorted.
pub proof fn lemma_apply_script_keeps_order(s: Seq<i32>, script: Seq<(Action, i32)>)
    requires
        sorted(s),
    ensures
        sorted(apply_script(s, script)),
    decreases script.len(),
{
    if script.len() == 0 {
    } else {
        lemma_apply_script_keeps_order(s, script.drop_last());
        let before = apply_script(s, script.drop_last());
        match script.last().0 {
            Action::Insert => lemma_insert_sorted_keeps_order(before, script.last().1),
            Action::Delete => lemma_remove_first_keeps_order(before, script.last().1),
            Action::Search => (),
        }
    }
}

/// One worker iteration: the log line is appended first, then the operation
/// runs against the list.
pub fn worker_step(list: &mut LinkedList, log: &mut Vec<String>, worker: u64, a: Action, value: i32)
    ensures
        final(log)@.len() == old(log)@.len() + 1,
        final(log)@.subrange(0, old(log)@.len() as int) == old(log)@,
        final(log)@.last()@ == log_line_chars(worker as nat, a, value as int),
        final(list)@ == apply_action(old(list)@, a, value),
        sorted(old(list)@) ==> sorted(final(list)@),
{
    let line = log_line(worker, a, value);
    log.push(line);
    proof {
        assert(log@.subrange(0, old(log)@.len() as int) =~= old(log)@);
    }
    match a {
        Action::Insert => {
            list.insert(value);
        }
        Action::Delete => {
            let _ = list.delete(value);
        }
        Action::Search => {
            let _ = list.search(value);
        }
    }
}

/// A whole worker run over a script: exactly one log line per operation, in
/// the script's order and wording, and the list ends in the state the
/// reference fold over the script gives.
pub fn run_worker(
    worker: u64,
    script: &Vec<(Action, i32)>,
    list: &mut LinkedList,
    log: &mut Vec<String>,
)
    ensures
        final(log)@.len() == old(log)@.len() + script@.len(),
        final(log)@.subrange(0, old(log)@.len() as int) == old(log)@,
        forall|k: int|
            0 <= k < script@.len() ==> (#[trigger] final(log)@[old(log)@.len() + k])@
                == log_line_chars(worker as nat, script@[k].0, script@[k].1 as int),
        final(list)@ == apply_script(old(list)@, script@),
        sorted(old(list)@) ==> sorted(final(list)@),
{
    let n = script.len();
    let mut idx: usize = 0;
    while idx < n
        invariant
            idx <= n,
            n == script@.len(),
            log@.len() == old(log)@.len() + idx,
            log@.subrange(0, old(log)@.len() as int) == old(log)@,
            forall|k: int|
                0 <= k < idx ==> (#[trigger] log@[old(log)@.len() + k])@
                    == log_line_chars(worker as nat, script@[k].0, script@[k].1 as int),
            list@ == apply_script(old(list)@, script@.take(idx as int)),
        decreases n - idx,
    {
        let ghost prev_log = log@;
        let (a, v) = script[idx];
        worker_step(list, log, worker, a, v);
        proof {
            assert(script@.take(idx as int + 1).drop_last() =~= script@.take(idx as int));
            assert(script@.take(idx as int + 1).last() == script@[idx as int]);
            assert(log@.subrange(0, old(log)@.len() as int) =~= old(log)@);
            assert forall|k: int| 0 <= k < idx + 1 implies (#[trigger] log@[old(log)@.len() + k])@
                == log_line_chars(worker as nat, script@[k].0, script@[k].1 as int) by {
                if k < idx {
                    assert(log@[old(log)@.len() + k] == log@.subrange(0, prev_log.len() as int)[old(
                        log,
                    )@.len() + k]);
                    assert(log@[old(log)@.len() + k] == prev_log[old(log)@.len() + k]);
                } else {
                    assert(log@[old(log)@.len() + k] == log@.last());
                }
            }
        }
        idx += 1;
    }
    proof {
        assert(script@.take(n as int) =~= script@);
        if sorted(old(list)@) {
            lemma_apply_script_keeps_order(old(list)@, script@);
        }
    }
}

} // verus!
