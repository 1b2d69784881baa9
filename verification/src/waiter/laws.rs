//! What the operations of the wait queue add up to.
//!
//! Each statement here is about the plain values of a list, [`Waiting`], and
//! holds of every list through the contracts of [`crate::waiter::List`].
use crate::waiter::model::Waiting;
use std::task::Waker;
use vstd::prelude::*;

verus! {

/// Taking one member out of a sequence without duplicates moves the members
/// behind it one place forward and leaves the others where they were.
pub proof fn lemma_remove_keeps_order(s: Seq<usize>, at: int, member: usize)
    requires
        s.no_duplicates(),
        0 <= at < s.len(),
        s.contains(member),
        member != s[at],
    ensures
        s.remove(at).no_duplicates(),
        s.remove(at).contains(member),
        s.remove(at).index_of(member) == if s.index_of(member) < at {
            s.index_of(member)
        } else {
            s.index_of(member) - 1
        },
{
    let rest = s.remove(at);
    let i: int = s.index_of(member);
    let moved: int = if i < at {
        i
    } else {
        i - 1
    };
    assert(rest[moved] == member);
    assert forall|a: int, b: int| 0 <= a < rest.len() && 0 <= b < rest.len() && a != b implies rest[a]
        != rest[b] by {
        let sa: int = if a < at {
            a
        } else {
            a + 1
        };
        let sb: int = if b < at {
            b
        } else {
            b + 1
        };
        assert(rest[a] == s[sa] && rest[b] == s[sb]);
    }
}

/// Records that are distinct and not linked, registered one after another,
/// line up behind the records that were linked before, in the order of their
/// registration. The list grows by exactly their number.
pub proof fn lemma_register_all(list: Waiting, keys: Seq<usize>, stored: Seq<Waker>)
    requires
        keys.no_duplicates(),
        keys.len() == stored.len(),
        forall|i: int| 0 <= i < keys.len() ==> !list.is_linked(#[trigger] keys[i]),
    ensures
        list.register_all(keys, stored).queue == list.queue + keys,
        list.register_all(keys, stored).queue.len() == list.queue.len() + keys.len(),
    decreases keys.len(),
{
    if keys.len() == 0 {
        assert(list.queue + keys =~= list.queue);
    } else {
        let earlier = keys.drop_last();
        let newest = keys.last();
        lemma_register_all(list, earlier, stored.drop_last());
        let before = list.register_all(earlier, stored.drop_last());
        if before.is_linked(newest) {
            let i: int = before.queue.index_of(newest);
            if i < list.queue.len() {
                assert(list.queue[i] == newest);
                assert(!list.is_linked(keys[keys.len() - 1]));
            } else {
                assert(keys[i - list.queue.len()] == keys[keys.len() - 1]);
            }
        }
        assert(before.queue.push(newest) =~= list.queue + keys);
    }
}

/// Registering a record that is linked leaves the queue as it is: the list
/// does not grow, and the record keeps its place.
pub proof fn lemma_register_linked(list: Waiting, key: usize, stored: Waker)
    requires
        list.is_linked(key),
    ensures
        list.register(key, stored).queue == list.queue,
{
}

/// Registering a record twice in a row links it once.
pub proof fn lemma_register_twice(list: Waiting, key: usize, first: Waker, second: Waker)
    ensures
        list.register(key, first).is_linked(key),
        list.register(key, first).register(key, second).queue == list.register(key, first).queue,
        list.register(key, first).register(key, second).queue.len() == list.register(
            key,
            first,
        ).queue.len(),
{
    let once = list.register(key, first);
    if list.is_linked(key) {
    } else {
        assert(once.queue[once.queue.len() - 1] == key);
    }
}

/// Waking the oldest record again and again resumes the linked records in
/// the order of the queue.
pub proof fn lemma_wake_order(list: Waiting)
    ensures
        list.wake_order() == list.queue,
    decreases list.queue.len(),
{
    if list.queue.len() > 0 {
        lemma_wake_order(list.wake_oldest());
        assert(seq![list.queue.first()] + list.queue.drop_first() =~= list.queue);
    }
}

/// First registered, first woken: records registered with an empty list are
/// resumed in the order of their registration, and waking them all leaves
/// the list empty.
pub proof fn lemma_first_in_first_out(list: Waiting, keys: Seq<usize>, stored: Seq<Waker>)
    requires
        list.queue.len() == 0,
        keys.no_duplicates(),
        keys.len() == stored.len(),
    ensures
        list.register_all(keys, stored).wake_order() == keys,
        list.register_all(keys, stored).wake_all().queue.len() == 0,
{
    lemma_register_all(list, keys, stored);
    lemma_wake_order(list.register_all(keys, stored));
    assert(list.queue + keys =~= keys);
}

/// Deregistering a record that is not linked changes nothing.
pub proof fn lemma_deregister_unlinked(list: Waiting, key: usize)
    requires
        !list.is_linked(key),
    ensures
        list.deregister(key) == list,
{
}

/// Deregistering a linked record removes that record and no other: the list
/// is shorter by one, every other record stays linked or unlinked as it was,
/// the records that stay linked keep their order, and no handle changes.
pub proof fn lemma_deregister_linked(list: Waiting, key: usize)
    requires
        list.inv(),
        list.is_linked(key),
    ensures
        !list.deregister(key).is_linked(key),
        list.deregister(key).queue.len() == list.queue.len() - 1,
        list.deregister(key).handles == list.handles,
        forall|other: usize|
            other != key ==> #[trigger] list.deregister(key).is_linked(other) == list.is_linked(
                other,
            ),
        forall|a: usize, b: usize|
            a != key && b != key && #[trigger] list.is_linked(a) && #[trigger] list.is_linked(b) ==> (
            list.deregister(key).queue.index_of(a) < list.deregister(key).queue.index_of(b)) == (
            list.queue.index_of(a) < list.queue.index_of(b)),
{
    let at: int = list.queue.index_of(key);
    let rest = list.deregister(key).queue;
    assert(rest == list.queue.remove(at));
    if rest.contains(key) {
        let i: int = rest.index_of(key);
        let j: int = if i < at {
            i
        } else {
            i + 1
        };
        assert(list.queue[j] == key);
    }
    assert forall|other: usize| other != key implies #[trigger] list.deregister(key).is_linked(
        other,
    ) == list.is_linked(other) by {
        if list.is_linked(other) {
            lemma_remove_keeps_order(list.queue, at, other);
        }
        if rest.contains(other) {
            let i: int = rest.index_of(other);
            let j: int = if i < at {
                i
            } else {
                i + 1
            };
            assert(list.queue[j] == other);
        }
    }
    assert forall|a: usize, b: usize|
        a != key && b != key && #[trigger] list.is_linked(a) && #[trigger] list.is_linked(
            b,
        ) implies (rest.index_of(a) < rest.index_of(b)) == (list.queue.index_of(a)
        < list.queue.index_of(b)) by {
        lemma_remove_keeps_order(list.queue, at, a);
        lemma_remove_keeps_order(list.queue, at, b);
    }
}

/// Every operation keeps the queue's rules: no record is linked twice, and
/// a linked record is a record of the list that holds a handle.
pub proof fn lemma_operations_keep_inv(list: Waiting, key: usize, stored: Waker)
    requires
        list.inv(),
    ensures
        list.has_record(key) ==> list.register(key, stored).inv(),
        list.deregister(key).inv(),
        list.wake_oldest().inv(),
        list.wake_all().inv(),
        !list.has_record(key) ==> list.add_record(key).inv(),
        !list.is_linked(key) ==> list.remove_record(key).inv(),
{
    if list.has_record(key) {
        let after = list.register(key, stored);
        if !list.is_linked(key) {
            assert forall|i: int, j: int|
                0 <= i < after.queue.len() && 0 <= j < after.queue.len() && i != j implies after.queue[i]
                != after.queue[j] by {
                if i < list.queue.len() {
                    assert(list.is_linked(list.queue[i]));
                }
                if j < list.queue.len() {
                    assert(list.is_linked(list.queue[j]));
                }
            }
        }
        assert forall|other: usize| #[trigger] after.is_linked(other) implies after.has_record(other)
            && after.handles[other].is_some() by {
            if other != key {
                let i: int = after.queue.index_of(other);
                assert(list.queue[i] == other);
                assert(list.is_linked(other));
            }
        }
    }
    if list.is_linked(key) {
        lemma_deregister_linked(list, key);
        let after = list.deregister(key);
        let at: int = list.queue.index_of(key);
        assert(after.queue.no_duplicates()) by {
            assert forall|i: int, j: int|
                0 <= i < after.queue.len() && 0 <= j < after.queue.len() && i != j implies after.queue[i]
                != after.queue[j] by {
                let si: int = if i < at {
                    i
                } else {
                    i + 1
                };
                let sj: int = if j < at {
                    j
                } else {
                    j + 1
                };
                assert(after.queue[i] == list.queue[si] && after.queue[j] == list.queue[sj]);
            }
        }
        assert forall|other: usize| #[trigger] after.is_linked(other) implies after.has_record(other)
            && after.handles[other].is_some() by {
            assert(list.is_linked(other));
        }
    }
    if list.queue.len() > 0 {
        let after = list.wake_oldest();
        assert forall|other: usize| #[trigger] after.is_linked(other) implies after.has_record(other)
            && after.handles[other].is_some() by {
            let i: int = after.queue.index_of(other);
            assert(list.queue[i + 1] == other);
            assert(list.is_linked(other));
        }
    }
    if !list.has_record(key) {
        assert forall|other: usize| #[trigger]
            list.add_record(key).is_linked(other) implies list.add_record(key).has_record(other)
            && list.add_record(key).handles[other].is_some() by {
            assert(list.is_linked(other));
        }
    }
    if !list.is_linked(key) {
        assert forall|other: usize| #[trigger]
            list.remove_record(key).is_linked(other) implies list.remove_record(key).has_record(other)
            && list.remove_record(key).handles[other].is_some() by {
            assert(list.is_linked(other));
        }
    }
}

} // verus!
