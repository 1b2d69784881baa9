//! The wait queue as plain values, and what follows from its operations.
use vstd::prelude::*;
use std::task::Waker;
use crate::waiter::handle::will_wake;

verus! {

/// What a list holds: the linked records in registration order, and the
/// handle stored for each record.
#[verifier::ext_equal]
pub struct Waiting {
    /// The keys of the linked records, oldest registration first.
    pub queue: Seq<usize>,
    /// The stored handle of every record of the list, linked or not.
    pub handles: Map<usize, Option<Waker>>,
}

/// A stored handle is kept when it is known to wake the task of the incoming one.
pub open spec fn keeps_handle(prior: Option<Waker>, incoming: Waker) -> bool {
    prior matches Some(p) && will_wake(p, incoming)
}

/// `stored` is what registration leaves behind: the prior handle where it is
/// kept, a clone of the incoming handle otherwise.
pub open spec fn stored_as(prior: Option<Waker>, incoming: Waker, stored: Waker) -> bool {
    if keeps_handle(prior, incoming) {
        prior == Some(stored)
    } else {
        cloned(incoming, stored)
    }
}

impl Waiting {
    /// No record at all.
    pub open spec fn empty() -> Waiting {
        Waiting { queue: Seq::empty(), handles: Map::empty() }
    }

    /// `key` names a record of the list.
    pub open spec fn has_record(self, key: usize) -> bool {
        self.handles.dom().contains(key)
    }

    /// The record `key` is linked.
    pub open spec fn is_linked(self, key: usize) -> bool {
        self.queue.contains(key)
    }

    /// No record is linked twice, and every linked record is a record of the
    /// list with a handle to resume.
    pub open spec fn inv(self) -> bool {
        &&& self.queue.no_duplicates()
        &&& forall|key: usize| #[trigger]
            self.is_linked(key) ==> self.has_record(key) && self.handles[key].is_some()
    }

    /// A new record under `key`: unlinked, without a handle.
    pub open spec fn add_record(self, key: usize) -> Waiting {
        Waiting { queue: self.queue, handles: self.handles.insert(key, None) }
    }

    /// The record `key` is gone, and its handle with it.
    pub open spec fn remove_record(self, key: usize) -> Waiting {
        Waiting { queue: self.queue, handles: self.handles.remove(key) }
    }

    /// The record `key` holds `stored` and is linked: behind all others if it
    /// was not linked before, where it stood if it was.
    pub open spec fn register(self, key: usize, stored: Waker) -> Waiting {
        Waiting {
            queue: if self.is_linked(key) {
                self.queue
            } else {
                self.queue.push(key)
            },
            handles: self.handles.insert(key, Some(stored)),
        }
    }

    /// The record `key` is unlinked; its handle stays.
    pub open spec fn deregister(self, key: usize) -> Waiting {
        Waiting {
            queue: if self.is_linked(key) {
                self.queue.remove(self.queue.index_of(key))
            } else {
                self.queue
            },
            handles: self.handles,
        }
    }

    /// The oldest linked record is unlinked and gives up its handle.
    pub open spec fn wake_oldest(self) -> Waiting {
        if self.queue.len() == 0 {
            self
        } else {
            Waiting {
                queue: self.queue.drop_first(),
                handles: self.handles.insert(self.queue.first(), None),
            }
        }
    }

    /// Every linked record is unlinked and gives up its handle.
    pub open spec fn wake_all(self) -> Waiting {
        Waiting {
            queue: Seq::empty(),
            handles: Map::new(
                |key: usize| self.has_record(key),
                |key: usize|
                    if self.is_linked(key) {
                        None
                    } else {
                        self.handles[key]
                    },
            ),
        }
    }

    /// The records `keys` are registered one after another, the record
    /// `keys[i]` with the handle `stored[i]`.
    pub open spec fn register_all(self, keys: Seq<usize>, stored: Seq<Waker>) -> Waiting
        decreases keys.len(),
    {
        if keys.len() == 0 {
            self
        } else {
            self.register_all(keys.drop_last(), stored.drop_last()).register(
                keys.last(),
                stored.last(),
            )
        }
    }

    /// The keys of the records that waking the oldest again and again resumes,
    /// in the order in which it resumes them.
    pub open spec fn wake_order(self) -> Seq<usize>
        decreases self.queue.len(),
    {
        if self.queue.len() == 0 {
            Seq::empty()
        } else {
            seq![self.queue.first()] + self.wake_oldest().wake_order()
        }
    }
}

} // verus!
