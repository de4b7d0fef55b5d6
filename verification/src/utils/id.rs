use vstd::prelude::*;

verus! {

/// An identifier handed out by a [`Gen`].
pub type Id = usize;

/// A generator of fresh identifiers, counting up from zero.
pub struct Gen {
    next: Id,
}

impl Gen {
    /// The identifier that the next call of [`Gen::next`] hands out.
    pub closed spec fn upcoming(&self) -> nat {
        self.next as nat
    }

    /// A generator whose first identifier is zero.
    pub fn new() -> (result: Self)
        ensures
            result.upcoming() == 0,
    {
        Gen { next: 0 }
    }

    /// Whether another identifier can be handed out.
    pub fn has_next(&self) -> (result: bool)
        ensures
            result == (self.upcoming() < usize::MAX),
    {
        self.next < usize::MAX
    }

    /// Hands out a fresh identifier: every call returns one more than the
    /// previous call did.
    pub fn next(&mut self) -> (result: Id)
        requires
            old(self).upcoming() < usize::MAX,
        ensures
            result as nat == old(self).upcoming(),
            final(self).upcoming() == old(self).upcoming() + 1,
    {
        let result = self.next;
        self.next = self.next + 1;
        result
    }
}

} // verus!
