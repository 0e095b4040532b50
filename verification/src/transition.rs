use vstd::prelude::*;

use crate::Connectable;

verus! {

/// A transition of the net: an arena slot holding a human-readable name. Its
/// identity is its arena index `id` in the owning net. Firing it consumes
/// tokens over its input connections and propagates tokens over its output
/// connections.
#[derive(Debug)]
pub struct Transition {
    pub id: usize,
    pub name: String,
}

impl Transition {
    /// Creates a new transition with the given arena index and name.
    pub fn new(id: usize, name: &str) -> (t: Transition)
        ensures
            t.id == id,
            t.name@ == name@,
    {
        Transition { id, name: name.to_owned() }
    }

    pub fn name(&self) -> (n: &str)
        ensures
            n@ == self.name@,
    {
        self.name.as_str()
    }

    pub fn id(&self) -> (i: usize)
        ensures
            i == self.id,
    {
        self.id
    }
}

impl Connectable for Transition {
    fn connection_title(&self) -> &str {
        self.name.as_str()
    }
}

impl PartialEq for Transition {
    /// Two transitions are the same node exactly when they are the same arena
    /// slot.
    fn eq(&self, other: &Self) -> bool {
        self.id == other.id
    }
}

impl vstd::std_specs::cmp::PartialEqSpecImpl for Transition {
    open spec fn obeys_eq_spec() -> bool {
        true
    }

    open spec fn eq_spec(&self, other: &Transition) -> bool {
        self.id == other.id
    }
}

impl Eq for Transition {

}

} // verus!
