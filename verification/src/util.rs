//! Building blocks of the wait queue.
pub mod linked_list;
pub mod unsafe_cell;
