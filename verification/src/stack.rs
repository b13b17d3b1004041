//! Functionality for a stack container.

use vstd::prelude::*;

verus! {

/// A basic stack container.
pub struct Stack<T> {
    /// The values in the stack.
    values: Vec<T>,
}

impl<T> View for Stack<T> {
    type V = Seq<T>;

    closed spec fn view(&self) -> Seq<T> {
        self.values@
    }
}

impl<T: Copy> Stack<T> {
    /// Initializes an empty stack.
    pub fn new() -> (r: Self)
        ensures
            r@ == Seq::<T>::empty(),
    {
        Stack { values: Vec::new() }
    }

    /// Constructs a stack holding one value.
    pub fn from(value: T) -> (r: Self)
        ensures
            r@ == seq![value],
    {
        let mut values: Vec<T> = Vec::new();
        values.push(value);
        proof {
            assert(values@ =~= seq![value]);
        }
        Stack { values }
    }

    /// Pushes a value onto the stack.
    pub fn push(&mut self, value: T)
        ensures
            final(self)@ == old(self)@.push(value),
    {
        self.values.push(value);
    }

    /// Gets the top value from the stack, or `None` if the stack is empty.
    pub fn top(&self) -> (r: Option<T>)
        ensures
            self@.len() == 0 ==> r is None,
            self@.len() > 0 ==> r == Some(self@.last()),
    {
        if self.values.len() == 0 {
            None
        } else {
            Some(self.values[self.values.len() - 1])
        }
    }

    /// Pops a value from the stack, or `None` if the stack is empty.
    pub fn pop(&mut self) -> (r: Option<T>)
        ensures
            old(self)@.len() == 0 ==> r is None && final(self)@ == old(self)@,
            old(self)@.len() > 0 ==> r == Some(old(self)@.last()) && final(self)@ == old(
                self,
            )@.drop_last(),
    {
        if self.values.len() == 0 {
            None
        } else {
            let value = self.values.pop();
            proof {
                assert(self@ =~= old(self)@.drop_last());
            }
            value
        }
    }

    /// Checks if the stack is empty.
    pub fn empty(&self) -> (r: bool)
        ensures
            r <==> self@.len() == 0,
    {
        self.values.len() == 0
    }
}

impl<T: Copy> Default for Stack<T> {
    fn default() -> (r: Self)
        ensures
            r@ == Seq::<T>::empty(),
    {
        Stack::new()
    }
}

} // verus!
