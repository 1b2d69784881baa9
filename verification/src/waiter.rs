//! A list of wakers, one for each task that waits for a resource.
//!
//! When more than one task may contend for a resource, each of them registers
//! with the resource's [`List`] and suspends. Once the resource may be
//! available its owner wakes them all, draining the list. Tasks are woken in
//! the order in which they registered.
//!
//! The list owns the table of records. A task holds an [`Elem`], which names
//! its record, and hands it to every call that concerns the record. A record
//! is registered at the front of the list and woken from the back, and it can
//! be unlinked from any position when its task gives up waiting.
//!
//! The list does no locking: every operation that changes it takes the list by
//! exclusive borrow, so whoever shares a list between tasks wraps it in the
//! lock that already protects the resource.
use crate::util::linked_list::{LinkedList, Pointers};
use crate::waiter::handle::{context_waker, same_task, wake, waker_of};
use crate::waiter::model::{keeps_handle, stored_as, Waiting};
use std::task::{Context, Waker};
use vstd::prelude::*;

pub mod handle;
pub mod laws;
pub mod model;

verus! {

/// An entry in the wait queue.
struct Waiter {
    /// True if queued.
    queued: bool,
    /// Handle of the task that waits to be woken.
    waker: Option<Waker>,
    /// True from the creation of the record's [`Elem`] to its release.
    live: bool,
}

/// The wait queue of one resource.
pub struct List {
    waiters: LinkedList,
    records: Vec<Waiter>,
    free: Vec<usize>,
}

/// One task's membership record in a [`List`].
///
/// An `Elem` is made for one list and is only ever handed to that list. It
/// cannot be copied, so a record has one holder from [`Elem::new`] to
/// [`Elem::release`].
pub struct Elem {
    slot: usize,
}

impl View for List {
    type V = Waiting;

    /// The linked records, oldest registration first, and every record's
    /// stored handle.
    closed spec fn view(&self) -> Waiting {
        Waiting {
            queue: self.waiters@.reverse(),
            handles: Map::new(
                |key: usize| key < self.records@.len() && self.records@[key as int].live,
                |key: usize| self.records@[key as int].waker,
            ),
        }
    }
}

/// Reversing a sequence keeps its members.
proof fn lemma_reverse_contains(s: Seq<usize>, x: usize)
    ensures
        s.reverse().contains(x) == s.contains(x),
{
    if s.contains(x) {
        let i: int = s.index_of(x);
        assert(s.reverse()[s.len() - 1 - i] == x);
    }
    if s.reverse().contains(x) {
        let i: int = s.reverse().index_of(x);
        assert(s[s.len() - 1 - i] == x);
    }
}

/// Reversing a sequence without duplicates puts the member at `i` at the
/// mirrored position, and leaves no duplicates.
proof fn lemma_reverse_index_of(s: Seq<usize>, x: usize)
    requires
        s.no_duplicates(),
        s.contains(x),
    ensures
        s.reverse().no_duplicates(),
        s.reverse().contains(x),
        s.reverse().index_of(x) == s.len() - 1 - s.index_of(x),
{
    lemma_reverse_contains(s, x);
    let i: int = s.index_of(x);
    let j: int = s.reverse().index_of(x);
    assert(s.reverse()[j] == s[s.len() - 1 - j]);
}

impl List {
    /// The record `key` is flagged as queued.
    pub closed spec fn queued(&self, key: usize) -> bool {
        self.records@[key as int].queued
    }

    /// The records met on the way from the front of the list, where the
    /// newest registration stands, to its back.
    pub closed spec fn forward(&self) -> Seq<usize> {
        self.waiters.forward()
    }

    /// The records met on the way from the back of the list, where the
    /// oldest registration stands, to its front.
    pub closed spec fn backward(&self) -> Seq<usize> {
        self.waiters.backward()
    }

    /// The link positions of the record `key`.
    pub closed spec fn pointers(&self, key: usize) -> Pointers {
        self.waiters.pointers(key as int)
    }

    spec fn record_ok(&self, key: usize) -> bool {
        let record = self.records@[key as int];
        &&& record.queued == self.waiters@.contains(key)
        &&& record.queued ==> record.live && record.waker.is_some()
        &&& !record.live ==> record.waker.is_none()
    }

    spec fn free_ok(&self, i: int) -> bool {
        let slot = self.free@[i];
        slot < self.records@.len() && !self.records@[slot as int].live
    }

    /// The links are a well-formed list over the table of records, a record
    /// is flagged as queued exactly if it is linked, a queued record holds a
    /// handle, and the slots set aside for reuse are those of released records.
    pub closed spec fn wf(&self) -> bool {
        &&& self.waiters.wf()
        &&& self.records@.len() == self.waiters.spec_capacity()
        &&& forall|key: usize| key < self.records@.len() ==> #[trigger] self.record_ok(key)
        &&& self.free@.no_duplicates()
        &&& forall|i: int| 0 <= i < self.free@.len() ==> #[trigger] self.free_ok(i)
    }

    /// The plain values of a well-formed list keep the queue's rules.
    pub proof fn lemma_view_inv(&self)
        requires
            self.wf(),
        ensures
            self@.inv(),
    {
        self.waiters.lemma_members();
        let links = self.waiters@;
        assert(self@.queue.no_duplicates()) by {
            assert forall|i: int, j: int|
                0 <= i < links.len() && 0 <= j < links.len() && i != j implies links.reverse()[i]
                != links.reverse()[j] by {}
        }
        assert forall|key: usize| #[trigger] self@.is_linked(key) implies self@.has_record(key)
            && self@.handles[key].is_some() by {
            lemma_reverse_contains(links, key);
            let i: int = links.index_of(key);
            assert(links[i] < self.waiters.spec_capacity());
            assert(self.record_ok(key));
        }
    }

    /// Walking the list link by link meets exactly the linked records: from
    /// the back oldest first, from the front newest first. Counted either
    /// way, their number is the same.
    pub proof fn lemma_traversals(&self)
        requires
            self.wf(),
        ensures
            self.backward() == self@.queue,
            self.forward() == self@.queue.reverse(),
            self.forward().len() == self.backward().len(),
    {
        self.waiters.lemma_traversals();
        assert(self.waiters@.reverse().reverse() =~= self.waiters@);
    }

    /// A record is flagged as queued exactly if it is linked, and exactly
    /// then a walk along the links meets it, from whichever end the walk
    /// starts. A record that is not queued has no neighbours.
    pub proof fn lemma_queued_iff_reachable(&self, key: usize)
        requires
            self.wf(),
            self@.has_record(key),
        ensures
            self.queued(key) == self@.is_linked(key),
            self.queued(key) == self.forward().contains(key),
            self.queued(key) == self.backward().contains(key),
            !self.queued(key) ==> self.pointers(key).is_clear(),
    {
        self.lemma_traversals();
        assert(self.record_ok(key));
        lemma_reverse_contains(self.waiters@, key);
        lemma_reverse_contains(self.waiters@.reverse(), key);
        if !self.queued(key) {
            self.waiters.lemma_unlinked_is_clear(key);
        }
    }

    /// A list without records.
    pub fn new() -> (list: List)
        ensures
            list.wf(),
            list@ == Waiting::empty(),
    {
        let list = List { waiters: LinkedList::new(), records: Vec::new(), free: Vec::new() };
        proof {
            assert(list@.queue =~= Seq::<usize>::empty());
            assert(list@.handles =~= Map::<usize, Option<Waker>>::empty());
        }
        list
    }

    /// Registers the task that is being polled with `cx` as the one to wake
    /// for `elem`, and links the record at the front unless it is linked.
    ///
    /// The stored handle is kept where it is known to wake the same task as
    /// the waker of `cx`; otherwise a clone of that waker takes its place.
    pub fn enqueue_waiter(&mut self, elem: &Elem, cx: &mut Context<'_>)
        requires
            old(self).wf(),
            old(self)@.has_record(elem.key()),
        ensures
            final(self).wf(),
            *final(cx) == *old(cx),
            final(self)@.handles[elem.key()].is_some(),
            final(self)@ == old(self)@.register(
                elem.key(),
                final(self)@.handles[elem.key()].unwrap(),
            ),
            stored_as(
                old(self)@.handles[elem.key()],
                context_waker(*old(cx)),
                final(self)@.handles[elem.key()].unwrap(),
            ),
            keeps_handle(old(self)@.handles[elem.key()], context_waker(*old(cx))) ==> final(self)@.handles == old(self)@.handles,
    {
        let ghost pre = *self;
        let slot: usize = elem.slot;
        let waker = waker_of(cx);
        proof {
            assert(pre.record_ok(slot));
        }
        // Store the waker unless it is the same as already stored.
        let keep = match &self.records[slot].waker {
            Some(stored) => same_task(stored, waker),
            None => false,
        };
        if !keep {
            self.records[slot].waker = Some(waker.clone());
        }
        // Queue if not already queued.
        if !self.records[slot].queued {
            self.records[slot].queued = true;
            self.waiters.push_front(slot);
        }
        proof {
            let links = self.waiters@;
            assert forall|key: usize| key < self.records@.len() implies #[trigger] self.record_ok(
                key,
            ) by {
                assert(pre.record_ok(key));
                if !pre.records@[slot as int].queued {
                    assert(links[0] == slot);
                    if pre.waiters@.contains(key) {
                        let i: int = pre.waiters@.index_of(key);
                        assert(links[i + 1] == key);
                    }
                    if links.contains(key) && key != slot {
                        let i: int = links.index_of(key);
                        assert(pre.waiters@[i - 1] == key);
                    }
                }
            }
            assert forall|i: int| 0 <= i < self.free@.len() implies #[trigger] self.free_ok(i) by {
                assert(pre.free_ok(i));
            }
            lemma_reverse_contains(pre.waiters@, slot);
            let stored = self@.handles[slot].unwrap();
            assert(self@.queue =~= pre@.register(slot, stored).queue);
            assert(self@.handles =~= pre@.register(slot, stored).handles);
            if keeps_handle(pre@.handles[slot], context_waker(*cx)) {
                assert(self@.handles =~= pre@.handles);
            }
        }
    }

    /// Unlinks the record of `elem` if it is linked; its stored handle stays.
    ///
    /// A task calls this when it gives up waiting, and before it releases
    /// its `elem`.
    pub fn remove_waiter(&mut self, elem: &Elem)
        requires
            old(self).wf(),
            old(self)@.has_record(elem.key()),
        ensures
            final(self).wf(),
            final(self)@ == old(self)@.deregister(elem.key()),
    {
        let ghost pre = *self;
        let slot: usize = elem.slot;
        proof {
            assert(pre.record_ok(slot));
            pre.waiters.lemma_members();
        }
        let queued = self.records[slot].queued;
        if queued {
            // Remove the element.
            self.waiters.remove(slot);
            self.records[slot].queued = false;
        }
        proof {
            let links = self.waiters@;
            let at: int = pre.waiters@.index_of(slot);
            assert forall|key: usize| key < self.records@.len() implies #[trigger] self.record_ok(
                key,
            ) by {
                assert(pre.record_ok(key));
                if queued {
                    if pre.waiters@.contains(key) && key != slot {
                        let i: int = pre.waiters@.index_of(key);
                        let j: int = if i < at {
                            i
                        } else {
                            i - 1
                        };
                        assert(links[j] == key);
                    }
                    if links.contains(key) {
                        let j: int = links.index_of(key);
                        let i: int = if j < at {
                            j
                        } else {
                            j + 1
                        };
                        assert(pre.waiters@[i] == key);
                    }
                }
            }
            assert forall|i: int| 0 <= i < self.free@.len() implies #[trigger] self.free_ok(i) by {
                assert(pre.free_ok(i));
            }
            lemma_reverse_contains(pre.waiters@, slot);
            if queued {
                lemma_reverse_index_of(pre.waiters@, slot);
            }
            assert(self@.queue =~= pre@.deregister(slot).queue);
            assert(self@.handles =~= pre@.deregister(slot).handles);
        }
    }

    /// Unlinks the oldest linked record and takes its handle; `None` if no
    /// record is linked.
    fn pop_waiter(&mut self) -> (waker: Option<Waker>)
        requires
            old(self).wf(),
        ensures
            final(self).wf(),
            final(self)@ == old(self)@.wake_oldest(),
            waker == if old(self)@.queue.len() == 0 {
                None
            } else {
                old(self)@.handles[old(self)@.queue.first()]
            },
            waker.is_some() == (old(self)@.queue.len() > 0),
    {
        let ghost pre = *self;
        proof {
            pre.waiters.lemma_members();
        }
        match self.waiters.pop_back() {
            None => {
                proof {
                    assert forall|key: usize|
                        key < self.records@.len() implies #[trigger] self.record_ok(key) by {
                        assert(pre.record_ok(key));
                    }
                    assert forall|i: int| 0 <= i < self.free@.len() implies #[trigger] self.free_ok(
                        i,
                    ) by {
                        assert(pre.free_ok(i));
                    }
                    assert(self@.queue =~= pre@.queue);
                    assert(self@.handles =~= pre@.handles);
                }
                None
            },
            Some(slot) => {
                proof {
                    assert(pre.waiters@[pre.waiters@.len() - 1] == slot);
                    assert(pre.record_ok(slot));
                }
                // A record that the list hands out is flagged as queued.
                assert(self.records@[slot as int].queued);
                self.records[slot].queued = false;
                let waker = self.records[slot].waker.take();
                proof {
                    let links = self.waiters@;
                    assert forall|key: usize|
                        key < self.records@.len() implies #[trigger] self.record_ok(key) by {
                        assert(pre.record_ok(key));
                        if pre.waiters@.contains(key) && key != slot {
                            let i: int = pre.waiters@.index_of(key);
                            assert(links[i] == key);
                        }
                        if links.contains(key) {
                            let i: int = links.index_of(key);
                            assert(pre.waiters@[i] == key);
                        }
                    }
                    assert forall|i: int| 0 <= i < self.free@.len() implies #[trigger] self.free_ok(
                        i,
                    ) by {
                        assert(pre.free_ok(i));
                    }
                    assert(self@.queue =~= pre@.wake_oldest().queue);
                    assert(self@.handles =~= pre@.wake_oldest().handles);
                }
                waker
            },
        }
    }

    /// Wakes every linked record's task, oldest registration first, and
    /// leaves the list empty. A woken record is unlinked and holds no handle.
    pub fn awake_waiters(&mut self)
        requires
            old(self).wf(),
        ensures
            final(self).wf(),
            final(self)@ == old(self)@.wake_all(),
    {
        let ghost start = self@;
        let ghost mut woken: int = 0;
        proof {
            self.lemma_view_inv();
            assert(self@.queue =~= start.queue.skip(0));
            assert(self@.handles =~= Map::new(
                |key: usize| start.has_record(key),
                |key: usize|
                    if start.queue.take(0).contains(key) {
                        None
                    } else {
                        start.handles[key]
                    },
            ));
        }
        loop
            invariant
                self.wf(),
                start.inv(),
                0 <= woken <= start.queue.len(),
                self@.queue == start.queue.skip(woken),
                self@.handles == Map::new(
                    |key: usize| start.has_record(key),
                    |key: usize|
                        if start.queue.take(woken).contains(key) {
                            None
                        } else {
                            start.handles[key]
                        },
                ),
            ensures
                self@.queue.len() == 0,
            decreases start.queue.len() - woken,
        {
            let ghost before = self@;
            match self.pop_waiter() {
                Some(waker) => {
                    wake(waker);
                    proof {
                        let oldest = start.queue[woken];
                        assert(before.queue.first() == oldest);
                        assert(start.is_linked(oldest));
                        assert(self@.queue =~= start.queue.skip(woken + 1));
                        assert forall|key: usize|
                            start.queue.take(woken + 1).contains(key) == (start.queue.take(
                                woken,
                            ).contains(key) || key == oldest) by {
                            if start.queue.take(woken).contains(key) {
                                let i: int = start.queue.take(woken).index_of(key);
                                assert(start.queue.take(woken + 1)[i] == key);
                            }
                            if key == oldest {
                                assert(start.queue.take(woken + 1)[woken] == key);
                            }
                            if start.queue.take(woken + 1).contains(key) {
                                let i: int = start.queue.take(woken + 1).index_of(key);
                                if i < woken {
                                    assert(start.queue.take(woken)[i] == key);
                                }
                            }
                        }
                        assert(self@.handles =~= Map::new(
                            |key: usize| start.has_record(key),
                            |key: usize|
                                if start.queue.take(woken + 1).contains(key) {
                                    None
                                } else {
                                    start.handles[key]
                                },
                        ));
                        woken = woken + 1;
                    }
                },
                None => {
                    break;
                },
            }
        }
        proof {
            assert(woken == start.queue.len());
            assert(start.queue.take(woken) =~= start.queue);
            assert(self@.queue =~= start.wake_all().queue);
            assert(self@.handles =~= start.wake_all().handles);
        }
    }

    /// Whether no record is linked.
    pub fn is_empty(&self) -> (empty: bool)
        requires
            self.wf(),
        ensures
            empty == (self@.queue.len() == 0),
    {
        self.waiters.is_empty()
    }

    /// The number of linked records, counted from the front of the list.
    pub fn len(&self) -> (n: usize)
        requires
            self.wf(),
        ensures
            n == self@.queue.len(),
            n == self.forward().len(),
    {
        self.waiters.len()
    }

    /// The number of linked records, counted from the back of the list.
    pub fn len_backwards(&self) -> (n: usize)
        requires
            self.wf(),
        ensures
            n == self@.queue.len(),
            n == self.backward().len(),
    {
        self.waiters.len_backwards()
    }

    /// Whether the record of `elem` is linked.
    pub fn is_queued(&self, elem: &Elem) -> (queued: bool)
        requires
            self.wf(),
            self@.has_record(elem.key()),
        ensures
            queued == self@.is_linked(elem.key()),
            queued == self.queued(elem.key()),
    {
        proof {
            self.lemma_queued_iff_reachable(elem.slot);
        }
        self.records[elem.slot].queued
    }
}

impl Default for List {
    fn default() -> (list: List)
        ensures
            list.wf(),
            list@ == Waiting::empty(),
    {
        List::new()
    }
}

impl Elem {
    /// The key under which the list keeps this record.
    pub closed spec fn key(&self) -> usize {
        self.slot
    }

    /// A new record of `list`: not linked, and without a handle.
    pub fn new(list: &mut List) -> (elem: Elem)
        requires
            old(list).wf(),
        ensures
            final(list).wf(),
            !old(list)@.has_record(elem.key()),
            final(list)@ == old(list)@.add_record(elem.key()),
    {
        let ghost pre = *list;
        let slot: usize = match list.free.pop() {
            Some(slot) => {
                proof {
                    assert(pre.free_ok(pre.free@.len() - 1));
                }
                list.records[slot].live = true;
                slot
            },
            None => {
                list.records.push(Waiter { queued: false, waker: None, live: true });
                list.waiters.add_node()
            },
        };
        proof {
            assert forall|key: usize| key < list.records@.len() implies #[trigger] list.record_ok(
                key,
            ) by {
                if key < pre.records@.len() {
                    assert(pre.record_ok(key));
                } else {
                    pre.waiters.lemma_members();
                    if pre.waiters@.contains(key) {
                        let i: int = pre.waiters@.index_of(key);
                        assert(pre.waiters@[i] < pre.waiters.spec_capacity());
                    }
                }
            }
            assert forall|i: int| 0 <= i < list.free@.len() implies #[trigger] list.free_ok(i) by {
                assert(pre.free_ok(i));
                assert(pre.free@[i] != slot) by {
                    if pre.free@.len() > list.free@.len() {
                        assert(pre.free@[pre.free@.len() - 1] == slot);
                    }
                }
            }
            assert(list@.queue =~= pre@.add_record(slot).queue);
            assert(list@.handles =~= pre@.add_record(slot).handles) by {
                if slot < pre.records@.len() {
                    assert(pre.record_ok(slot));
                }
            }
        }
        Elem { slot }
    }

    /// Gives the record back to `list`, which drops the stored handle and may
    /// hand the record's place to a later [`Elem::new`].
    ///
    /// The record must not be linked: a task that stops waiting first calls
    /// [`List::remove_waiter`].
    pub fn release(self, list: &mut List)
        requires
            old(list).wf(),
            old(list)@.has_record(self.key()),
            !old(list)@.is_linked(self.key()),
        ensures
            final(list).wf(),
            final(list)@ == old(list)@.remove_record(self.key()),
    {
        let ghost pre = *list;
        let slot: usize = self.slot;
        proof {
            assert(pre.record_ok(slot));
            lemma_reverse_contains(pre.waiters@, slot);
        }
        list.records[slot].waker = None;
        list.records[slot].live = false;
        list.free.push(slot);
        proof {
            assert forall|key: usize| key < list.records@.len() implies #[trigger] list.record_ok(
                key,
            ) by {
                assert(pre.record_ok(key));
            }
            assert forall|i: int| 0 <= i < list.free@.len() implies #[trigger] list.free_ok(i) by {
                if i < pre.free@.len() {
                    assert(pre.free_ok(i));
                }
            }
            assert(list.free@.no_duplicates()) by {
                assert forall|i: int, j: int|
                    0 <= i < list.free@.len() && 0 <= j < list.free@.len() && i != j implies list.free@[i]
                    != list.free@[j] by {
                    if i < pre.free@.len() {
                        assert(pre.free_ok(i));
                    }
                    if j < pre.free@.len() {
                        assert(pre.free_ok(j));
                    }
                }
            }
            assert(list@.queue =~= pre@.remove_record(slot).queue);
            assert(list@.handles =~= pre@.remove_record(slot).handles);
        }
    }
}

} // verus!
