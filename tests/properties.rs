use std::cell::Cell;
use std::cell::RefCell;

use lab::{List, SENTINEL};

fn int_cmp(a: &i32, b: &i32) -> i32 {
    if *a == *b {
        0
    } else if *a < *b {
        -1
    } else {
        1
    }
}

fn int_destroy(_: &i32) {}

fn front_to_back<C: Fn(&i32, &i32) -> i32, D: Fn(&i32)>(lst: &List<i32, C, D>) -> Vec<i32> {
    let mut out = Vec::new();
    let mut h = lst.next_of(SENTINEL);
    while h != SENTINEL {
        out.push(*lst.value_of(h).unwrap());
        h = lst.next_of(h);
    }
    out
}

fn back_to_front<C: Fn(&i32, &i32) -> i32, D: Fn(&i32)>(lst: &List<i32, C, D>) -> Vec<i32> {
    let mut out = Vec::new();
    let mut h = lst.prev_of(SENTINEL);
    while h != SENTINEL {
        out.push(*lst.value_of(h).unwrap());
        h = lst.prev_of(h);
    }
    out
}

#[test]
fn len_counts_adds_and_successful_removals() {
    let mut lst = List::new(int_cmp, int_destroy);
    let mut adds = 0usize;
    let mut removed = 0usize;
    for i in 0..6 {
        lst.add(i);
        adds += 1;
    }
    for idx in [2usize, 9, 0, 3, 7] {
        if lst.remove_index(idx).is_some() {
            removed += 1;
        }
    }
    lst.add(40);
    adds += 1;
    assert_eq!(removed, 3);
    assert_eq!(lst.len(), adds - removed);
    assert_eq!(lst.len(), 4);
}

#[test]
fn added_value_is_found_at_front() {
    let mut lst = List::new(int_cmp, int_destroy);
    lst.add(7);
    lst.add(3);
    lst.add(7);
    assert_eq!(lst.index_of(&7), Some(0));
    lst.add(5);
    assert_eq!(lst.index_of(&5), Some(0));
    assert_eq!(lst.index_of(&3), Some(2));
}

#[test]
fn out_of_range_removal_changes_nothing() {
    let mut lst = List::new(int_cmp, int_destroy);
    for i in 0..3 {
        lst.add(i);
    }
    let links: Vec<(usize, usize)> = [SENTINEL, lst.next_of(SENTINEL), lst.prev_of(SENTINEL)]
        .iter()
        .map(|h| (lst.next_of(*h), lst.prev_of(*h)))
        .collect();
    assert_eq!(lst.remove_index(3), None);
    assert_eq!(lst.remove_index(usize::MAX), None);
    assert_eq!(lst.len(), 3);
    assert_eq!(front_to_back(&lst), vec![2, 1, 0]);
    let after: Vec<(usize, usize)> = [SENTINEL, lst.next_of(SENTINEL), lst.prev_of(SENTINEL)]
        .iter()
        .map(|h| (lst.next_of(*h), lst.prev_of(*h)))
        .collect();
    assert_eq!(links, after);
    assert_eq!(lst.index_of(&0), Some(2));
}

#[test]
fn walks_both_ways_visit_the_same_nodes_reversed() {
    let mut lst = List::new(int_cmp, int_destroy);
    for i in 0..5 {
        lst.add(i);
    }
    lst.remove_index(1);
    lst.add(9);
    let n = lst.len();
    let mut forward = vec![SENTINEL];
    let mut h = SENTINEL;
    for _ in 0..n {
        h = lst.next_of(h);
        forward.push(h);
    }
    let mut backward = vec![h];
    for _ in 0..n {
        h = lst.prev_of(h);
        backward.push(h);
    }
    assert_eq!(h, SENTINEL);
    backward.reverse();
    assert_eq!(forward, backward);
    assert_eq!(lst.next_of(forward[n]), SENTINEL);
    let mut rev = back_to_front(&lst);
    rev.reverse();
    assert_eq!(front_to_back(&lst), rev);
    assert_eq!(front_to_back(&lst), vec![9, 4, 2, 1, 0]);
}

#[test]
fn removing_front_repeatedly_empties_the_ring() {
    let mut lst = List::new(int_cmp, int_destroy);
    for i in 0..4 {
        lst.add(i);
    }
    let n = lst.len();
    for _ in 0..n {
        assert!(lst.remove_index(0).is_some());
    }
    assert_eq!(lst.len(), 0);
    assert_eq!(lst.next_of(SENTINEL), SENTINEL);
    assert_eq!(lst.prev_of(SENTINEL), SENTINEL);
    assert_eq!(lst.remove_index(0), None);
}

#[test]
fn search_of_empty_list_calls_no_comparator() {
    let calls = Cell::new(0usize);
    let cmp = |a: &i32, b: &i32| {
        calls.set(calls.get() + 1);
        int_cmp(a, b)
    };
    let lst = List::new(cmp, int_destroy);
    assert_eq!(lst.index_of(&1), None);
    assert_eq!(lst.index_of(&0), None);
    assert_eq!(calls.get(), 0);
}

#[test]
fn comparator_gets_query_first_and_stops_at_match() {
    let seen = RefCell::new(Vec::new());
    let cmp = |a: &i32, b: &i32| {
        seen.borrow_mut().push((*a, *b));
        int_cmp(a, b)
    };
    let mut lst = List::new(cmp, int_destroy);
    for i in 0..5 {
        lst.add(i);
    }
    assert_eq!(lst.index_of(&2), Some(2));
    assert_eq!(*seen.borrow(), vec![(2, 4), (2, 3), (2, 2)]);
    seen.borrow_mut().clear();
    assert_eq!(lst.index_of(&8), None);
    assert_eq!(seen.borrow().len(), 5);
}

#[test]
fn scenario_five_values() {
    let mut lst = List::new(int_cmp, int_destroy);
    for i in 0..5 {
        lst.add(i);
    }
    assert_eq!(front_to_back(&lst), vec![4, 3, 2, 1, 0]);
    assert_eq!(lst.index_of(&1), Some(3));
    let mut first = List::new(int_cmp, int_destroy);
    for i in 0..5 {
        first.add(i);
    }
    assert_eq!(first.remove_index(0), Some(4));
    assert_eq!(front_to_back(&first), vec![3, 2, 1, 0]);
    assert_eq!(lst.remove_index(3), Some(1));
    assert_eq!(front_to_back(&lst), vec![4, 3, 2, 0]);
}

#[test]
fn destroy_disposes_each_value_once_front_to_back() {
    let disposed = RefCell::new(Vec::new());
    let dispose = |v: &i32| disposed.borrow_mut().push(*v);
    let mut lst = List::new(int_cmp, dispose);
    for i in 0..4 {
        lst.add(i);
    }
    assert_eq!(lst.remove_index(1), Some(2));
    lst.destroy();
    assert_eq!(*disposed.borrow(), vec![3, 1, 0]);
}

#[test]
fn destroy_of_empty_list_disposes_nothing() {
    let count = Cell::new(0usize);
    let dispose = |_: &i32| count.set(count.get() + 1);
    let lst = List::new(int_cmp, dispose);
    lst.destroy();
    assert_eq!(count.get(), 0);
}

#[test]
fn removal_does_not_dispose() {
    let count = Cell::new(0usize);
    let dispose = |_: &i32| count.set(count.get() + 1);
    let mut lst = List::new(int_cmp, dispose);
    lst.add(1);
    lst.add(2);
    assert_eq!(lst.remove_index(0), Some(2));
    assert_eq!(count.get(), 0);
    lst.destroy();
    assert_eq!(count.get(), 1);
}

#[test]
fn freed_slots_are_reused_and_rings_stay_linked() {
    let mut lst = List::new(int_cmp, int_destroy);
    for round in 0..3 {
        for i in 0..4 {
            lst.add(round * 10 + i);
        }
        assert_eq!(lst.remove_index(1), Some(round * 10 + 2));
        assert_eq!(lst.remove_index(2), Some(round * 10));
    }
    assert_eq!(front_to_back(&lst), vec![23, 21, 13, 11, 3, 1]);
    let mut rev = back_to_front(&lst);
    rev.reverse();
    assert_eq!(front_to_back(&lst), rev);
}
