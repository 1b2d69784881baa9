//! A wait queue for task wakers.
//!
//! Tasks that must wait for a shared resource register a record with the
//! resource's [`waiter::List`]; when the resource changes state its owner
//! wakes every registered task, oldest registration first. Records live in a
//! table owned by the list and are linked through index pairs, so linking,
//! unlinking and waking never move a record.
pub mod util;
pub mod waiter;
