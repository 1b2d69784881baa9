//! What the wait queue needs from a task's resumption handle.
//!
//! The handle is [`std::task::Waker`], reached through a [`std::task::Context`].
//! Nothing in this file is proved: each item states what the standard library
//! documents of the function it stands for.
use vstd::prelude::*;

verus! {

/// [`std::task::Waker`], carried through the list as an opaque value.
#[verifier::external_type_specification]
#[verifier::external_body]
pub struct ExWaker(std::task::Waker);

/// [`std::task::Context`], from which a poll takes the current task's waker.
#[verifier::external_type_specification]
#[verifier::external_body]
pub struct ExContext<'a>(std::task::Context<'a>);

/// The waker that `Context::waker` hands out for `cx`.
pub uninterp spec fn context_waker(cx: std::task::Context<'_>) -> std::task::Waker;

/// The answer of `Waker::will_wake` for a stored and an incoming waker.
pub uninterp spec fn will_wake(stored: std::task::Waker, incoming: std::task::Waker) -> bool;

/// `Context::waker`: borrows the waker of the task that is being polled. The
/// contract only names the waker; the context is read, not changed.
#[verifier::external_body]
pub(crate) fn waker_of<'a>(cx: &'a std::task::Context<'_>) -> (waker: &'a std::task::Waker)
    ensures
        *waker == context_waker(*cx),
{
    cx.waker()
}

/// `Waker::will_wake`: whether waking `stored` is known to wake the task that
/// `incoming` wakes. The standard library answers on a best effort, so the
/// contract only names the answer.
#[verifier::external_body]
pub(crate) fn same_task(stored: &std::task::Waker, incoming: &std::task::Waker) -> (same: bool)
    ensures
        same == will_wake(*stored, *incoming),
{
    stored.will_wake(incoming)
}

/// `Waker::clone`: a second handle for the same task. Nothing is claimed of
/// the copy beyond its being what `clone` returned.
pub assume_specification[ <std::task::Waker as Clone>::clone ](waker: &std::task::Waker) -> (copy:
    std::task::Waker)
;

/// `Waker::wake`: asks the scheduler to poll the task again, consuming the
/// handle. The request has no result that the list could inspect.
#[verifier::external_body]
pub(crate) fn wake(waker: std::task::Waker) {
    waker.wake()
}

} // verus!
