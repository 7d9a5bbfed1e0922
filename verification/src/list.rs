//! A singly-linked list of `i32` values kept in ascending order.
//!
//! Each node exclusively owns the remainder of the chain, so the whole list
//! is a single ownership chain starting at the optional head. The abstract
//! view of a list is the sequence of values along the chain; `insert`,
//! `delete` and `search` are specified against that sequence.

use vstd::prelude::*;

verus! {

/// One element of the chain: a value and ownership of the rest of the list.
struct Node {
    data: i32,
    next: Option<Box<Node>>,
}

/// A singly-linked list whose values are kept in non-decreasing order.
pub struct LinkedList {
    head: Option<Box<Node>>,
}

/// The sequence of values along a chain, head first.
spec fn chain(node: Option<Box<Node>>) -> Seq<i32>
    decreases node,
{
    match node {
        Option::None => Seq::empty(),
        Option::Some(n) => seq![n.data] + chain(n.next),
    }
}

/// A sequence is in non-decreasing order.
pub open spec fn sorted(s: Seq<i32>) -> bool {
    forall|i: int, j: int| 0 <= i <= j < s.len() ==> s[i] <= s[j]
}

/// Where an insertion lands: the new value goes in front of the first
/// element it does not exceed, so among equal values the new one is placed
/// after every smaller value and the result of inserting into a sorted
/// sequence is again sorted.
pub open spec fn insert_sorted(s: Seq<i32>, v: i32) -> Seq<i32>
    decreases s.len(),
{
    if s.len() == 0 {
        seq![v]
    } else if v <= s[0] {
        seq![v] + s
    } else {
        seq![s[0]] + insert_sorted(s.drop_first(), v)
    }
}

/// The sequence with the first occurrence of `v` removed, unchanged if `v`
/// does not occur.
pub open spec fn remove_first(s: Seq<i32>, v: i32) -> Seq<i32>
    decreases s.len(),
{
    if s.len() == 0 {
        s
    } else if s[0] == v {
        s.drop_first()
    } else {
        seq![s[0]] + remove_first(s.drop_first(), v)
    }
}

impl View for LinkedList {
    type V = Seq<i32>;

    closed spec fn view(&self) -> Seq<i32> {
        chain(self.head)
    }
}

fn insert_into(node: &mut Option<Box<Node>>, value: i32)
    ensures
        chain(*final(node)) == insert_sorted(chain(*old(node)), value),
    decreases *old(node),
{
    match node.take() {
        Option::None => {
            *node = Some(Box::new(Node { data: value, next: None }));
            assert(chain(*final(node)) =~= insert_sorted(chain(*old(node)), value));
        }
        Option::Some(mut boxed) => {
            if value <= boxed.data {
                let ghost rest = chain(Some(boxed));
                *node = Some(Box::new(Node { data: value, next: Some(boxed) }));
                assert(chain(*final(node)) =~= seq![value] + rest);
            } else {
                let ghost whole = chain(Some(boxed));
                assert(whole.drop_first() =~= chain(boxed.next));
                insert_into(&mut boxed.next, value);
                *node = Some(boxed);
            }
        }
    }
}

fn delete_from(node: &mut Option<Box<Node>>, value: i32) -> (found: bool)
    ensures
        chain(*final(node)) == remove_first(chain(*old(node)), value),
        found == chain(*old(node)).contains(value),
    decreases *old(node),
{
    match node.take() {
        Option::None => {
            assert(!chain(*old(node)).contains(value));
            false
        }
        Option::Some(mut boxed) => {
            let ghost whole = chain(Some(boxed));
            assert(whole[0] == boxed.data);
            assert(whole.drop_first() =~= chain(boxed.next));
            if boxed.data == value {
                assert(whole.contains(value));
                *node = boxed.next;
                true
            } else {
                let ghost tail = chain(boxed.next);
                let found = delete_from(&mut boxed.next, value);
                proof {
                    if tail.contains(value) {
                        let i = choose|i: int| 0 <= i < tail.len() && tail[i] == value;
                        assert(whole[i + 1] == value);
                    }
                    if whole.contains(value) {
                        let i = choose|i: int| 0 <= i < whole.len() && whole[i] == value;
                        assert(whole.drop_first()[i - 1] == value);
                    }
                }
                *node = Some(boxed);
                found
            }
        }
    }
}

fn search_in(node: &Option<Box<Node>>, value: i32) -> (found: bool)
    ensures
        found == chain(*node).contains(value),
    decreases *node,
{
    match node {
        Option::None => {
            assert(!chain(*node).contains(value));
            false
        }
        Option::Some(n) => {
            let ghost whole = chain(*node);
            assert(whole[0] == n.data);
            assert(whole.drop_first() =~= chain(n.next));
            if n.data == value {
                assert(whole.contains(value));
                true
            } else {
                let found = search_in(&n.next, value);
                proof {
                    if chain(n.next).contains(value) {
                        let i = choose|i: int|
                            0 <= i < chain(n.next).len() && chain(n.next)[i] == value;
                        assert(whole[i + 1] == value);
                    }
                    if whole.contains(value) {
                        let i = choose|i: int| 0 <= i < whole.len() && whole[i] == value;
                        assert(whole.drop_first()[i - 1] == value);
                    }
                }
                found
            }
        }
    }
}

fn push_values(node: &Option<Box<Node>>, out: &mut Vec<i32>)
    ensures
        final(out)@ == old(out)@ + chain(*node),
    decreases *node,
{
    match node {
        Option::None => {
            assert(final(out)@ =~= old(out)@ + chain(*node));
        }
        Option::Some(n) => {
            out.push(n.data);
            push_values(&n.next, out);
            assert(final(out)@ =~= old(out)@ + chain(*node));
        }
    }
}

impl LinkedList {
    /// An empty list.
    pub fn new() -> (l: LinkedList)
        ensures
            l@ == Seq::<i32>::empty(),
    {
        LinkedList { head: None }
    }

    /// Inserts `value` so that ascending order is preserved: the new node
    /// lands in front of the first value it does not exceed.
    pub fn insert(&mut self, value: i32)
        ensures
            final(self)@ == insert_sorted(old(self)@, value),
            final(self)@.len() == old(self)@.len() + 1,
            final(self)@.to_multiset() == old(self)@.to_multiset().insert(value),
            sorted(old(self)@) ==> sorted(final(self)@),
    {
        insert_into(&mut self.head, value);
        proof {
            lemma_insert_sorted_len(old(self)@, value);
            lemma_insert_sorted_multiset(old(self)@, value);
            if sorted(old(self)@) {
                lemma_insert_sorted_keeps_order(old(self)@, value);
            }
        }
    }

    /// Removes the first node holding `value`, if any, and reports whether
    /// one was removed. On a list without `value` — the empty list included —
    /// nothing changes and the result is `false`.
    pub fn delete(&mut self, value: i32) -> (found: bool)
        ensures
            final(self)@ == remove_first(old(self)@, value),
            found == old(self)@.contains(value),
            found ==> final(self)@.len() + 1 == old(self)@.len() && final(self)@.to_multiset()
                == old(self)@.to_multiset().remove(value),
            !found ==> final(self)@ == old(self)@,
            sorted(old(self)@) ==> sorted(final(self)@),
    {
        let found = delete_from(&mut self.head, value);
        proof {
            lemma_remove_first_multiset(old(self)@, value);
            if old(self)@.contains(value) {
                lemma_remove_first_len(old(self)@, value);
            }
            if sorted(old(self)@) {
                lemma_remove_first_keeps_order(old(self)@, value);
            }
        }
        found
    }

    /// Reports whether some node holds `value`.
    pub fn search(&self, value: i32) -> (found: bool)
        ensures
            found == self@.contains(value),
    {
        search_in(&self.head, value)
    }

    /// The values along the chain, head first.
    pub fn to_vec(&self) -> (out: Vec<i32>)
        ensures
            out@ == self@,
    {
        let mut out: Vec<i32> = Vec::new();
        push_values(&self.head, &mut out);
        assert(out@ =~= self@);
        out
    }
}

/// Inserting into a sorted sequence yields a sorted sequence.
pub proof fn lemma_insert_sorted_keeps_order(s: Seq<i32>, v: i32)
    requires
        sorted(s),
    ensures
        sorted(insert_sorted(s, v)),
    decreases s.len(),
{
    if s.len() == 0 {
    } else if v <= s[0] {
        let r = seq![v] + s;
        assert forall|i: int, j: int| 0 <= i <= j < r.len() implies r[i] <= r[j] by {
            if i == 0 && j > 0 {
                assert(s[0] <= r[j]);
            }
        }
    } else {
        assert(sorted(s.drop_first()));
        lemma_insert_sorted_keeps_order(s.drop_first(), v);
        let rest = insert_sorted(s.drop_first(), v);
        let r = seq![s[0]] + rest;
        lemma_insert_sorted_elements(s.drop_first(), v);
        assert forall|i: int, j: int| 0 <= i <= j < r.len() implies r[i] <= r[j] by {
            if i == 0 && j > 0 {
                assert(rest[j - 1] == v || s.drop_first().contains(rest[j - 1]));
                if s.drop_first().contains(rest[j - 1]) {
                    let k = choose|k: int|
                        0 <= k < s.drop_first().len() && s.drop_first()[k] == rest[j - 1];
                    assert(s[0] <= s[k + 1]);
                }
            }
        }
    }
}

/// Every element of `insert_sorted(s, v)` is `v` or an element of `s`.
pub proof fn lemma_insert_sorted_elements(s: Seq<i32>, v: i32)
    ensures
        forall|j: int|
            0 <= j < insert_sorted(s, v).len() ==> insert_sorted(s, v)[j] == v || s.contains(
                insert_sorted(s, v)[j],
            ),
    decreases s.len(),
{
    let r = insert_sorted(s, v);
    if s.len() == 0 {
    } else if v <= s[0] {
        assert forall|j: int| 0 <= j < r.len() implies r[j] == v || s.contains(r[j]) by {
            if j > 0 {
                assert(r[j] == s[j - 1]);
            }
        }
    } else {
        lemma_insert_sorted_elements(s.drop_first(), v);
        let rest = insert_sorted(s.drop_first(), v);
        assert forall|j: int| 0 <= j < r.len() implies r[j] == v || s.contains(r[j]) by {
            if j == 0 {
                assert(s[0] == r[0]);
                assert(s.contains(s[0]));
            } else {
                assert(r[j] == rest[j - 1]);
                if rest[j - 1] != v {
                    let k = choose|k: int|
                        0 <= k < s.drop_first().len() && s.drop_first()[k] == rest[j - 1];
                    assert(s[k + 1] == rest[j - 1]);
                }
            }
        }
    }
}

/// Removing the first occurrence of a value keeps a sorted sequence sorted.
pub proof fn lemma_remove_first_keeps_order(s: Seq<i32>, v: i32)
    requires
        sorted(s),
    ensures
        sorted(remove_first(s, v)),
    decreases s.len(),
{
    if s.len() == 0 {
    } else if s[0] == v {
        assert(sorted(s.drop_first()));
    } else {
        assert(sorted(s.drop_first()));
        lemma_remove_first_keeps_order(s.drop_first(), v);
        let rest = remove_first(s.drop_first(), v);
        let r = seq![s[0]] + rest;
        lemma_remove_first_elements(s.drop_first(), v);
        assert forall|i: int, j: int| 0 <= i <= j < r.len() implies r[i] <= r[j] by {
            if i == 0 && j > 0 {
                let k = choose|k: int|
                    0 <= k < s.drop_first().len() && s.drop_first()[k] == rest[j - 1];
                assert(s[0] <= s[k + 1]);
            }
        }
    }
}

/// Every element of `remove_first(s, v)` is an element of `s`.
pub proof fn lemma_remove_first_elements(s: Seq<i32>, v: i32)
    ensures
        forall|j: int|
            0 <= j < remove_first(s, v).len() ==> s.contains(remove_first(s, v)[j]),
    decreases s.len(),
{
    let r = remove_first(s, v);
    if s.len() == 0 {
    } else if s[0] == v {
        assert forall|j: int| 0 <= j < r.len() implies s.contains(r[j]) by {
            assert(r[j] == s[j + 1]);
        }
    } else {
        lemma_remove_first_elements(s.drop_first(), v);
        let rest = remove_first(s.drop_first(), v);
        assert forall|j: int| 0 <= j < r.len() implies s.contains(r[j]) by {
            if j == 0 {
                assert(s.contains(s[0]));
            } else {
                assert(r[j] == rest[j - 1]);
                let k = choose|k: int|
                    0 <= k < s.drop_first().len() && s.drop_first()[k] == rest[j - 1];
                assert(s[k + 1] == rest[j - 1]);
            }
        }
    }
}

/// The sequence obtained by inserting the values of `vs`, in order, into an
/// initially empty list.
pub open spec fn insert_all(vs: Seq<i32>) -> Seq<i32>
    decreases vs.len(),
{
    if vs.len() == 0 {
        Seq::empty()
    } else {
        insert_sorted(insert_all(vs.drop_last()), vs.last())
    }
}

/// Order invariant: every sequence of insertions applied to an initially
/// empty list leaves the values in non-decreasing order.
pub proof fn lemma_insert_all_sorted(vs: Seq<i32>)
    ensures
        sorted(insert_all(vs)),
    decreases vs.len(),
{
    if vs.len() == 0 {
    } else {
        lemma_insert_all_sorted(vs.drop_last());
        lemma_insert_sorted_keeps_order(insert_all(vs.drop_last()), vs.last());
    }
}

/// Insert/search closure: after inserting `v` the sequence holds `v`, so a
/// search for `v` succeeds.
pub proof fn lemma_insert_sorted_holds_value(s: Seq<i32>, v: i32)
    ensures
        insert_sorted(s, v).contains(v),
    decreases s.len(),
{
    let r = insert_sorted(s, v);
    if s.len() == 0 {
        assert(r[0] == v);
    } else if v <= s[0] {
        assert(r[0] == v);
    } else {
        lemma_insert_sorted_holds_value(s.drop_first(), v);
        let rest = insert_sorted(s.drop_first(), v);
        let i = choose|i: int| 0 <= i < rest.len() && rest[i] == v;
        assert(r[i + 1] == v);
    }
}

/// Inserting a value grows the sequence by exactly one element.
pub proof fn lemma_insert_sorted_len(s: Seq<i32>, v: i32)
    ensures
        insert_sorted(s, v).len() == s.len() + 1,
    decreases s.len(),
{
    if s.len() == 0 {
    } else if v <= s[0] {
    } else {
        lemma_insert_sorted_len(s.drop_first(), v);
    }
}

/// Removing an occurring value shrinks the sequence by exactly one element.
pub proof fn lemma_remove_first_len(s: Seq<i32>, v: i32)
    requires
        s.contains(v),
    ensures
        remove_first(s, v).len() + 1 == s.len(),
    decreases s.len(),
{
    if s.len() == 0 {
    } else if s[0] == v {
    } else {
        let i = choose|i: int| 0 <= i < s.len() && s[i] == v;
        assert(s.drop_first()[i - 1] == v);
        lemma_remove_first_len(s.drop_first(), v);
    }
}

/// Inserting `v` adds exactly one copy of `v` to the multiset of values and
/// touches nothing else.
pub proof fn lemma_insert_sorted_multiset(s: Seq<i32>, v: i32)
    ensures
        insert_sorted(s, v).to_multiset() == s.to_multiset().insert(v),
    decreases s.len(),
{
    broadcast use vstd::seq_lib::lemma_multiset_commutative;
    broadcast use vstd::seq_lib::group_to_multiset_ensures;
    broadcast use vstd::multiset::group_multiset_axioms;

    if s.len() == 0 {
        assert(seq![v] =~= Seq::<i32>::empty().push(v));
        assert(insert_sorted(s, v).to_multiset() =~= s.to_multiset().insert(v));
    } else if v <= s[0] {
        assert(seq![v] + s =~= Seq::empty().push(v) + s);
        assert((Seq::empty().push(v) + s).to_multiset() =~= Seq::<i32>::empty().push(
            v,
        ).to_multiset().add(s.to_multiset()));
        assert(insert_sorted(s, v).to_multiset() =~= s.to_multiset().insert(v));
    } else {
        lemma_insert_sorted_multiset(s.drop_first(), v);
        assert(s =~= seq![s[0]] + s.drop_first());
        assert(insert_sorted(s, v).to_multiset() =~= s.to_multiset().insert(v));
    }
}

/// Delete correctness at the level of value multisets: when `v` occurs,
/// removing its first occurrence takes away exactly one copy of `v`; when it
/// does not occur, the sequence is left unchanged.
pub proof fn lemma_remove_first_multiset(s: Seq<i32>, v: i32)
    ensures
        s.contains(v) ==> remove_first(s, v).to_multiset() == s.to_multiset().remove(v),
        !s.contains(v) ==> remove_first(s, v) == s,
    decreases s.len(),
{
    broadcast use vstd::seq_lib::lemma_multiset_commutative;
    broadcast use vstd::seq_lib::group_to_multiset_ensures;
    broadcast use vstd::multiset::group_multiset_axioms;

    if s.len() == 0 {
    } else if s[0] == v {
        assert(s.contains(v));
        vstd::seq_lib::to_multiset_remove(s, 0);
        assert(s.remove(0) =~= s.drop_first());
        assert(remove_first(s, v).to_multiset() =~= s.to_multiset().remove(v));
    } else {
        lemma_remove_first_multiset(s.drop_first(), v);
        assert(s =~= seq![s[0]] + s.drop_first());
        if s.contains(v) {
            let i = choose|i: int| 0 <= i < s.len() && s[i] == v;
            assert(s.drop_first()[i - 1] == v);
            assert(s.drop_first().contains(v));
            assert(s.drop_first().to_multiset().count(v) > 0);
            assert(remove_first(s, v).to_multiset() =~= s.to_multiset().remove(v));
        } else {
            if s.drop_first().contains(v) {
                let i = choose|i: int|
                    0 <= i < s.drop_first().len() && s.drop_first()[i] == v;
                assert(s[i + 1] == v);
            }
            assert(remove_first(s, v) =~= s);
        }
    }
}

/// Idempotent emptiness: a deletion from the empty sequence finds nothing
/// and leaves the sequence empty, however often it is repeated.
pub proof fn lemma_remove_from_empty(v: i32)
    ensures
        remove_first(Seq::<i32>::empty(), v) == Seq::<i32>::empty(),
        !Seq::<i32>::empty().contains(v),
{
}

} // verus!
