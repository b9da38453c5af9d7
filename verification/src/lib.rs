//! A circular singly linked list: a ring of owned values with two ways of
//! walking it, once around or round and round.

pub mod circular_linked_list;
pub mod rendering;
pub mod traversal;
