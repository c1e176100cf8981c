//! Properties of whole sequences of list operations, stated over the values
//! the list holds (`List::view`) and proved from the operations' contracts.
use vstd::prelude::*;

use crate::list::{consistent_with_eq, reports_unequal, search_result, List, SENTINEL};

verus! {

/// One mutating call on a list.
pub enum Op<T> {
    /// `add(v)`
    Add(T),
    /// `remove_index(i)`
    RemoveIndex(usize),
}

/// The values held after one call, as the contracts of `add` and
/// `remove_index` state it.
pub open spec fn step<T>(s: Seq<T>, op: Op<T>) -> Seq<T> {
    match op {
        Op::Add(v) => seq![v] + s,
        Op::RemoveIndex(i) => if i < s.len() {
            s.remove(i as int)
        } else {
            s
        },
    }
}

/// The values held after the calls `ops`, in order, starting from `s`.
pub open spec fn replay<T>(s: Seq<T>, ops: Seq<Op<T>>) -> Seq<T>
    decreases ops.len(),
{
    if ops.len() == 0 {
        s
    } else {
        step(replay(s, ops.drop_last()), ops.last())
    }
}

/// How many of `ops` are adds.
pub open spec fn adds<T>(ops: Seq<Op<T>>) -> nat
    decreases ops.len(),
{
    if ops.len() == 0 {
        0
    } else {
        adds(ops.drop_last()) + if ops.last() is Add {
            1nat
        } else {
            0nat
        }
    }
}

/// How many of `ops`, replayed from `s`, are removals that removed a value.
pub open spec fn removals<T>(s: Seq<T>, ops: Seq<Op<T>>) -> nat
    decreases ops.len(),
{
    if ops.len() == 0 {
        0
    } else {
        removals(s, ops.drop_last()) + match ops.last() {
            Op::RemoveIndex(i) => if i < replay(s, ops.drop_last()).len() {
                1nat
            } else {
                0nat
            },
            Op::Add(_) => 0nat,
        }
    }
}

/// `n` calls of `remove_index(0)`.
pub open spec fn remove_front_times<T>(n: nat) -> Seq<Op<T>> {
    Seq::new(n, |i: int| Op::RemoveIndex(0))
}

/// After any sequence of calls the length is the starting length plus the
/// number of adds minus the number of removals that removed a value.
pub proof fn lemma_len_counts_ops<T>(s: Seq<T>, ops: Seq<Op<T>>)
    ensures
        replay(s, ops).len() + removals(s, ops) == s.len() + adds(ops),
    decreases ops.len(),
{
    if ops.len() > 0 {
        lemma_len_counts_ops(s, ops.drop_last());
    }
}

/// With a comparator that reports zero exactly on equal values, searching
/// for the value just added finds it at the front.
pub proof fn lemma_added_value_found_first<T, C: Fn(&T, &T) -> i32>(
    c: C,
    s: Seq<T>,
    v: T,
    r: Option<usize>,
)
    requires
        consistent_with_eq(c),
        search_result(c, seq![v] + s, v, r),
    ensures
        r == Some(0usize),
{
    let t = seq![v] + s;
    assert(t[0] == v);
    if r != Some(0usize) {
        assert(reports_unequal(c, v, t[0]));
        let w = choose|w: i32| w != 0 && #[trigger] call_ensures(c, (&v, &t[0]), w);
        assert(call_ensures(c, (&v, &v), w));
    }
}

/// Removing the front value `n` times from `n` values leaves none.
pub proof fn lemma_remove_front_all<T>(s: Seq<T>)
    ensures
        replay(s, remove_front_times(s.len())) == Seq::<T>::empty(),
{
    lemma_remove_front_prefix(s, s.len());
    assert(s.subrange(s.len() as int, s.len() as int) =~= Seq::<T>::empty());
}

proof fn lemma_remove_front_prefix<T>(s: Seq<T>, k: nat)
    requires
        k <= s.len(),
    ensures
        replay(s, remove_front_times(k)) == s.subrange(k as int, s.len() as int),
    decreases k,
{
    if k == 0 {
        assert(s.subrange(0, s.len() as int) =~= s);
    } else {
        let ops = remove_front_times::<T>(k);
        assert(ops.drop_last() =~= remove_front_times::<T>((k - 1) as nat));
        lemma_remove_front_prefix(s, (k - 1) as nat);
        let prev = s.subrange(k - 1, s.len() as int);
        assert(prev.remove(0) =~= s.subrange(k as int, s.len() as int));
    }
}

/// A list emptied by removing its front value as many times as it held
/// values is back to the bare sentinel, linked to itself both ways.
pub proof fn lemma_emptied_list_ring<T, C: Fn(&T, &T) -> i32, D: Fn(&T)>(
    before: Seq<T>,
    after: &List<T, C, D>,
)
    requires
        after.wf(),
        after@ == replay(before, remove_front_times(before.len())),
    ensures
        after@.len() == 0,
        after.next_link(SENTINEL) == SENTINEL,
        after.prev_link(SENTINEL) == SENTINEL,
{
    lemma_remove_front_all(before);
    after.lemma_empty_ring();
}

} // verus!
