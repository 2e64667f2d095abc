//! A small library of classic data structures and algorithms, verified with
//! Verus: a growable array with explicit capacity bookkeeping, a singly-linked
//! list, a stack, a queue, a chaining hash map, and textbook search and sort
//! routines.

pub mod advanced_sorts;
pub mod applications;
pub mod basic_sorts;
pub mod hash_map;
pub mod linked_list;
pub mod my_vec;
pub mod queue;
pub mod search;
pub mod stack;
