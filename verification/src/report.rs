//! Report computations over timestamped temperature readings.
//!
//! A reading pairs a timestamp, given as a plain number of time units, with
//! a temperature. The report picks the five lowest and five highest
//! temperatures, and finds the adjacent pair of time-ordered readings with
//! the largest temperature difference.

use vstd::prelude::*;
use crate::list::insert_all;
use crate::list::insert_sorted;

verus! {

/// One sensor reading: a timestamp and a temperature.
#[derive(Clone, Copy, PartialEq, Eq, Structural, Debug)]
pub struct Reading {
    pub time: u64,
    pub temp: i32,
}

/// The adjacent pair of time-ordered readings with the largest temperature
/// difference: the two timestamps and the difference itself.
#[derive(Clone, Copy, PartialEq, Eq, Structural, Debug)]
pub struct Interval {
    pub start: u64,
    pub end: u64,
    pub diff: i32,
}

/// The temperatures of a sequence of readings, in the same order.
pub open spec fn temps(s: Seq<Reading>) -> Seq<i32> {
    s.map_values(|r: Reading| r.temp)
}

/// Where a reading lands when ordered by time: in front of the first strictly
/// later reading, so readings with equal timestamps keep their original
/// relative order.
pub open spec fn insert_by_time(s: Seq<Reading>, r: Reading) -> Seq<Reading>
    decreases s.len(),
{
    if s.len() == 0 {
        seq![r]
    } else if r.time < s[0].time {
        seq![r] + s
    } else {
        seq![s[0]] + insert_by_time(s.drop_first(), r)
    }
}

/// The readings ordered by timestamp, stably.
pub open spec fn sort_by_time(s: Seq<Reading>) -> Seq<Reading>
    decreases s.len(),
{
    if s.len() == 0 {
        Seq::empty()
    } else {
        insert_by_time(sort_by_time(s.drop_last()), s.last())
    }
}

/// The magnitude of a difference.
pub open spec fn abs_int(a: int) -> int {
    if a >= 0 {
        a
    } else {
        -a
    }
}

/// The best interval among the first `p` adjacent pairs of `s`: the scan
/// keeps the earliest pair whose difference is strictly larger than every
/// difference seen before it, and reports zeros when no pair beats zero.
pub open spec fn best_interval(s: Seq<Reading>, p: int) -> (int, int, int)
    decreases p,
{
    if p <= 0 {
        (0, 0, 0)
    } else {
        let prev = best_interval(s, p - 1);
        let d = abs_int(s[p].temp - s[p - 1].temp);
        if d > prev.2 {
            (s[p - 1].time as int, s[p].time as int, d)
        } else {
            prev
        }
    }
}

/// The difference of every adjacent pair of the time-ordered readings stays
/// within the signed 32-bit range, so no difference overflows.
pub open spec fn diffs_fit(s: Seq<Reading>) -> bool {
    forall|k: int|
        1 <= k < sort_by_time(s).len() ==> -2147483647 <= (#[trigger] sort_by_time(s)[k]).temp
            - sort_by_time(s)[k - 1].temp <= 2147483647
}

proof fn lemma_insert_by_time_len(s: Seq<Reading>, r: Reading)
    ensures
        insert_by_time(s, r).len() == s.len() + 1,
    decreases s.len(),
{
    if s.len() == 0 {
    } else if r.time < s[0].time {
    } else {
        lemma_insert_by_time_len(s.drop_first(), r);
    }
}

/// Ordering by time keeps every reading: the result has the input's length.
pub proof fn lemma_sort_by_time_len(s: Seq<Reading>)
    ensures
        sort_by_time(s).len() == s.len(),
    decreases s.len(),
{
    if s.len() == 0 {
    } else {
        lemma_sort_by_time_len(s.drop_last());
        lemma_insert_by_time_len(sort_by_time(s.drop_last()), s.last());
    }
}

proof fn lemma_insert_sorted_position(s: Seq<i32>, v: i32, i: int)
    requires
        0 <= i <= s.len(),
        forall|j: int| 0 <= j < i ==> s[j] < v,
        i < s.len() ==> v <= s[i],
    ensures
        insert_sorted(s, v) == s.insert(i, v),
    decreases s.len(),
{
    if s.len() == 0 {
        assert(insert_sorted(s, v) =~= s.insert(0, v));
    } else if v <= s[0] {
        assert(i == 0);
        assert(seq![v] + s =~= s.insert(0, v));
    } else {
        assert(i >= 1);
        lemma_insert_sorted_position(s.drop_first(), v, i - 1);
        assert(seq![s[0]] + s.drop_first().insert(i - 1, v) =~= s.insert(i, v));
    }
}

proof fn lemma_insert_by_time_position(s: Seq<Reading>, r: Reading, i: int)
    requires
        0 <= i <= s.len(),
        forall|j: int| 0 <= j < i ==> s[j].time <= r.time,
        i < s.len() ==> r.time < s[i].time,
    ensures
        insert_by_time(s, r) == s.insert(i, r),
    decreases s.len(),
{
    if s.len() == 0 {
        assert(insert_by_time(s, r) =~= s.insert(0, r));
    } else if r.time < s[0].time {
        assert(i == 0);
        assert(seq![r] + s =~= s.insert(0, r));
    } else {
        assert(i >= 1);
        lemma_insert_by_time_position(s.drop_first(), r, i - 1);
        assert(seq![s[0]] + s.drop_first().insert(i - 1, r) =~= s.insert(i, r));
    }
}

/// Inserts `x` into an already processed prefix at its ordered place.
fn vec_insert_sorted(v: &mut Vec<i32>, x: i32)
    ensures
        final(v)@ == insert_sorted(old(v)@, x),
{
    let mut i: usize = 0;
    while i < v.len() && v[i] < x
        invariant
            i <= v@.len(),
            v@ == old(v)@,
            forall|j: int| 0 <= j < i ==> v@[j] < x,
        decreases v@.len() - i,
    {
        i += 1;
    }
    proof {
        lemma_insert_sorted_position(v@, x, i as int);
    }
    v.insert(i, x);
}

/// The values of `values`, in non-decreasing order.
pub fn sort_values(values: &Vec<i32>) -> (r: Vec<i32>)
    ensures
        r@ == insert_all(values@),
{
    let mut out: Vec<i32> = Vec::new();
    let mut k: usize = 0;
    while k < values.len()
        invariant
            k <= values@.len(),
            out@ == insert_all(values@.take(k as int)),
        decreases values@.len() - k,
    {
        vec_insert_sorted(&mut out, values[k]);
        proof {
            assert(values@.take(k as int + 1).drop_last() =~= values@.take(k as int));
            assert(values@.take(k as int + 1).last() == values@[k as int]);
        }
        k += 1;
    }
    proof {
        assert(values@.take(values@.len() as int) =~= values@);
    }
    out
}

fn vec_insert_by_time(v: &mut Vec<Reading>, r: Reading)
    ensures
        final(v)@ == insert_by_time(old(v)@, r),
{
    let mut i: usize = 0;
    while i < v.len() && v[i].time <= r.time
        invariant
            i <= v@.len(),
            v@ == old(v)@,
            forall|j: int| 0 <= j < i ==> v@[j].time <= r.time,
        decreases v@.len() - i,
    {
        i += 1;
    }
    proof {
        lemma_insert_by_time_position(v@, r, i as int);
    }
    v.insert(i, r);
}

/// The readings of `readings` ordered by timestamp, stably.
pub fn sort_readings_by_time(readings: &Vec<Reading>) -> (r: Vec<Reading>)
    ensures
        r@ == sort_by_time(readings@),
{
    let mut out: Vec<Reading> = Vec::new();
    let mut k: usize = 0;
    while k < readings.len()
        invariant
            k <= readings@.len(),
            out@ == sort_by_time(readings@.take(k as int)),
        decreases readings@.len() - k,
    {
        vec_insert_by_time(&mut out, readings[k]);
        proof {
            assert(readings@.take(k as int + 1).drop_last() =~= readings@.take(k as int));
            assert(readings@.take(k as int + 1).last() == readings@[k as int]);
        }
        k += 1;
    }
    proof {
        assert(readings@.take(readings@.len() as int) =~= readings@);
    }
    out
}

/// The adjacent pair of time-ordered readings with the largest temperature
/// difference. With fewer than two readings there is no pair, and every
/// field of the result is zero; the same holds when every difference is
/// zero.
pub fn find_largest_temp_diff_interval(readings: &Vec<Reading>) -> (r: Interval)
    requires
        diffs_fit(readings@),
    ensures
        ({
            let s = sort_by_time(readings@);
            let best = best_interval(s, s.len() - 1);
            r.start as int == best.0 && r.end as int == best.1 && r.diff as int == best.2
        }),
{
    if readings.len() < 2 {
        proof {
            lemma_sort_by_time_len(readings@);
        }
        return Interval { start: 0, end: 0, diff: 0 };
    }
    let s = sort_readings_by_time(readings);
    let mut best_diff: i32 = 0;
    let mut best_start: u64 = 0;
    let mut best_end: u64 = 0;
    let mut i: usize = 0;
    while i + 1 < s.len()
        invariant
            s@ == sort_by_time(readings@),
            diffs_fit(readings@),
            i + 1 <= s@.len(),
            best_start as int == best_interval(s@, i as int).0,
            best_end as int == best_interval(s@, i as int).1,
            best_diff as int == best_interval(s@, i as int).2,
        decreases s@.len() - i,
    {
        let a = s[i].temp;
        let b = s[i + 1].temp;
        let d: i32 = if b >= a {
            b - a
        } else {
            a - b
        };
        if d > best_diff {
            best_diff = d;
            best_start = s[i].time;
            best_end = s[i + 1].time;
        }
        i += 1;
    }
    Interval { start: best_start, end: best_end, diff: best_diff }
}

/// The report over a batch of readings: the five highest temperatures in
/// descending order, the five lowest in ascending order — fewer when the
/// batch is smaller — and the largest-difference interval of the
/// time-ordered readings.
pub fn generate_report(readings: &Vec<Reading>) -> (r: (Vec<i32>, Vec<i32>, Interval))
    requires
        diffs_fit(readings@),
    ensures
        ({
            let st = insert_all(temps(readings@));
            let five = if st.len() < 5 {
                st.len() as int
            } else {
                5
            };
            &&& r.0@ == st.reverse().take(five)
            &&& r.1@ == st.take(five)
        }),
        ({
            let s = sort_by_time(readings@);
            let best = best_interval(s, s.len() - 1);
            r.2.start as int == best.0 && r.2.end as int == best.1 && r.2.diff as int == best.2
        }),
{
    let mut vals: Vec<i32> = Vec::new();
    let mut k: usize = 0;
    while k < readings.len()
        invariant
            k <= readings@.len(),
            vals@ == temps(readings@.take(k as int)),
        decreases readings@.len() - k,
    {
        vals.push(readings[k].temp);
        proof {
            assert(vals@ =~= temps(readings@.take(k as int + 1)));
        }
        k += 1;
    }
    proof {
        assert(readings@.take(readings@.len() as int) =~= readings@);
    }
    let st = sort_values(&vals);
    let m = st.len();
    let five = if m < 5 {
        m
    } else {
        5
    };
    let mut lowest: Vec<i32> = Vec::new();
    let mut j: usize = 0;
    while j < five
        invariant
            j <= five,
            five <= m,
            m == st@.len(),
            st@ == insert_all(temps(readings@)),
            lowest@ == st@.take(j as int),
        decreases five - j,
    {
        lowest.push(st[j]);
        proof {
            assert(lowest@ =~= st@.take(j as int + 1));
        }
        j += 1;
    }
    let mut highest: Vec<i32> = Vec::new();
    let mut h: usize = 0;
    while h < five
        invariant
            h <= five,
            five <= m,
            m == st@.len(),
            st@ == insert_all(temps(readings@)),
            highest@ == st@.reverse().take(h as int),
        decreases five - h,
    {
        highest.push(st[m - 1 - h]);
        proof {
            assert(highest@ =~= st@.reverse().take(h as int + 1));
        }
        h += 1;
    }
    let interval = find_largest_temp_diff_interval(readings);
    (highest, lowest, interval)
}

} // verus!
