//! Three linked lists, each built on a different ownership discipline, with
//! every operation verified against a sequence model of the list's contents.

pub mod first;
pub mod lifo;
pub mod second;
pub mod third;
pub mod linkedlist;
