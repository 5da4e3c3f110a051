use vstd::prelude::*;

verus! {

/// Source of identifiers: hands out 0, 1, 2, ... and never the same number twice.
#[derive(Debug)]
pub struct NextId(usize);

impl NextId {
    /// The number that the next call of `next` hands out.
    pub closed spec fn view(&self) -> nat {
        self.0 as nat
    }

    pub fn new() -> (counter: Self)
        ensures
            counter@ == 0,
    {
        Self(0)
    }

    /// The number that the next call of `next` hands out, without taking it.
    pub fn peek(&self) -> (id: usize)
        ensures
            id == self@,
    {
        self.0
    }

    /// Hands out the next number. The numbers are the whole numbers from 0 on,
    /// each once; after the greatest of them there is none left to hand out.
    pub fn next(&mut self) -> (id: usize)
        requires
            old(self)@ < usize::MAX,
        ensures
            id == old(self)@,
            final(self)@ == old(self)@ + 1,
    {
        let id = self.0;
        self.0 = id + 1;
        id
    }
}

} // verus!
