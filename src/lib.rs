//! A doubly-linked circular list anchored by a permanent sentinel node, with
//! caller-supplied comparison and disposal callbacks.
//!
//! Nodes live in an arena owned by the list; `prev` and `next` are handles
//! (arena slots) rather than owning pointers, so the ring can be cyclic.

mod laws;
mod list;

pub use laws::{
    adds, lemma_added_value_found_first, lemma_emptied_list_ring, lemma_len_counts_ops,
    lemma_remove_front_all, removals, remove_front_times, replay, step, Op,
};
pub use list::{
    consistent_with_eq, reports_equal, reports_unequal, search_result, List, SENTINEL,
};
