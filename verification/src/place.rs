use vstd::prelude::*;

use crate::Connectable;

verus! {

/// A place of the net: an arena slot holding a human-readable name and a
/// mutable token count. Its identity is its arena index `id` in the owning
/// net; token counts change only through the engine's consume and propagate
/// steps (or through explicit seeding before a run).
#[derive(Debug)]
pub struct Place {
    pub id: usize,
    pub name: String,
    pub tokens: i32,
}

impl Place {
    /// Creates a new place with the given arena index and name, holding no
    /// tokens.
    pub fn new(id: usize, name: &str) -> (p: Place)
        ensures
            p.id == id,
            p.name@ == name@,
            p.tokens == 0,
    {
        Place { id, name: name.to_owned(), tokens: 0 }
    }

    pub fn name(&self) -> (n: &str)
        ensures
            n@ == self.name@,
    {
        self.name.as_str()
    }

    pub fn tokens(&self) -> (t: i32)
        ensures
            t == self.tokens,
    {
        self.tokens
    }

    /// Adds `amount` tokens to the place.
    pub fn add_tokens(&mut self, amount: i32)
        requires
            i32::MIN <= old(self).tokens + amount <= i32::MAX,
        ensures
            final(self).tokens == old(self).tokens + amount,
            final(self).id == old(self).id,
            final(self).name == old(self).name,
    {
        self.tokens = self.tokens + amount;
    }

    /// Removes `amount` tokens from the place.
    pub fn remove_tokens(&mut self, amount: i32)
        requires
            i32::MIN <= old(self).tokens - amount <= i32::MAX,
        ensures
            final(self).tokens == old(self).tokens - amount,
            final(self).id == old(self).id,
            final(self).name == old(self).name,
    {
        self.tokens = self.tokens - amount;
    }

    /// Removes all tokens from the place, as a firing RESET connection does.
    pub fn clear_tokens(&mut self)
        ensures
            final(self).tokens == 0,
            final(self).id == old(self).id,
            final(self).name == old(self).name,
    {
        self.tokens = 0;
    }
}

impl Connectable for Place {
    fn connection_title(&self) -> &str {
        self.name.as_str()
    }
}

impl PartialEq for Place {
    /// Two places are the same node exactly when they are the same arena
    /// slot.
    fn eq(&self, other: &Self) -> bool {
        self.id == other.id
    }
}

impl vstd::std_specs::cmp::PartialEqSpecImpl for Place {
    open spec fn obeys_eq_spec() -> bool {
        true
    }

    open spec fn eq_spec(&self, other: &Place) -> bool {
        self.id == other.id
    }
}

impl Eq for Place {

}

} // verus!
