use vstd::prelude::*;

verus! {

/// The two failure cases of the bounded stack: a push onto a full stack,
/// and a peek or pop on an empty one.
#[derive(Clone, Copy, PartialEq, Eq, Structural, Debug)]
pub enum StackError {
    CapacityExceeded,
    Underflow,
}

/// A fixed-capacity last-in-first-out container: it holds at most `N`
/// elements and never grows past that bound. Operations that would
/// break the bound fail explicitly instead.
pub struct Stack<T, const N: usize> {
    buffer: Vec<T>,
}

impl<T, const N: usize> View for Stack<T, N> {
    type V = Seq<T>;

    /// The elements, bottom first.
    closed spec fn view(&self) -> Seq<T> {
        self.buffer@
    }
}

impl<T, const N: usize> Stack<T, N> {
    /// The capacity bound: never more than `N` elements.
    pub closed spec fn wf(&self) -> bool {
        self.buffer@.len() <= N
    }

    /// Appends `data` at the top, unless the stack already holds `N` elements.
    pub fn push(&mut self, data: T) -> (r: Result<(), StackError>)
        requires
            old(self).wf(),
        ensures
            final(self).wf(),
            old(self)@.len() < N ==> r == Ok::<(), StackError>(())
                && final(self)@ == old(self)@.push(data),
            old(self)@.len() >= N ==> r == Err::<(), StackError>(StackError::CapacityExceeded)
                && final(self)@ == old(self)@,
    {
        if self.buffer.len() < N {
            self.buffer.push(data);
            Ok(())
        } else {
            Err(StackError::CapacityExceeded)
        }
    }

    /// True exactly when the stack holds no elements.
    pub fn is_empty(&self) -> (r: bool)
        ensures
            r == (self@.len() == 0),
    {
        self.buffer.len() == 0
    }

    /// Borrows the top element; fails on an empty stack.
    pub fn peek(&self) -> (r: Result<&T, StackError>)
        ensures
            self@.len() > 0 ==> r is Ok && *r->Ok_0 == self@.last(),
            self@.len() == 0 ==> r == Err::<&T, StackError>(StackError::Underflow),
    {
        if self.buffer.len() > 0 {
            Ok(&self.buffer[self.buffer.len() - 1])
        } else {
            Err(StackError::Underflow)
        }
    }

    /// Removes and returns the top element; fails on an empty stack.
    pub fn pop(&mut self) -> (r: Result<T, StackError>)
        requires
            old(self).wf(),
        ensures
            final(self).wf(),
            old(self)@.len() > 0 ==> r is Ok && r->Ok_0 == old(self)@.last()
                && final(self)@ == old(self)@.drop_last(),
            old(self)@.len() == 0 ==> r == Err::<T, StackError>(StackError::Underflow)
                && final(self)@ == old(self)@,
    {
        match self.buffer.pop() {
            Some(data) => Ok(data),
            None => Err(StackError::Underflow),
        }
    }
}

impl<T, const N: usize> Default for Stack<T, N> {
    /// An empty stack over a fresh backing buffer.
    fn default() -> (r: Self)
        ensures
            r.wf(),
            r@ == Seq::<T>::empty(),
    {
        Stack { buffer: Vec::new() }
    }
}

} // verus!
