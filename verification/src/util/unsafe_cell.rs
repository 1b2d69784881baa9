use vstd::prelude::*;

verus! {

/// A cell that hands its content to a closure for the duration of one call.
///
/// Reading goes through a shared borrow of the cell and writing through an
/// exclusive one, so two accesses can never overlap.
#[derive(Debug)]
pub struct UnsafeCell<T>(T);

impl<T> View for UnsafeCell<T> {
    type V = T;

    /// The value held by the cell.
    closed spec fn view(&self) -> T {
        self.0
    }
}

impl<T> UnsafeCell<T> {
    /// Wraps `data`.
    pub fn new(data: T) -> (cell: UnsafeCell<T>)
        ensures
            cell@ == data,
    {
        UnsafeCell(data)
    }

    /// Runs `f` on a shared borrow of the content and returns what `f` returns.
    pub fn with<R>(&self, f: impl FnOnce(&T) -> R) -> (r: R)
        requires
            f.requires((&self@,)),
        ensures
            f.ensures((&self@,), r),
    {
        f(&self.0)
    }

    /// Runs `f` on an exclusive borrow of the content and returns what `f`
    /// returns; the cell then holds whatever `f` left behind the borrow.
    pub fn with_mut<R>(&mut self, f: impl FnOnce(&mut T) -> R) -> (r: R)
        requires
            forall|content: &mut T| *content == old(self)@ ==> #[trigger] f.requires((content,)),
        ensures
            exists|content: &mut T|
                *content == old(self)@ && *final(content) == final(self)@ && #[trigger] f.ensures(
                    (content,),
                    r,
                ),
    {
        f(&mut self.0)
    }
}

} // verus!
