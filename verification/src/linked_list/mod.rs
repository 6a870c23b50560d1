//! Singly linked lists.

pub mod singly;

pub use singly::SinglyLinkedList;
