use vstd::prelude::*;

use crate::connection::{Connection, ConnectionType, InputFrom};
use crate::place::Place;
use crate::transition::Transition;

verus! {

/// A construction error: a connection referenced a place or a transition that
/// does not exist in the net.
#[derive(Clone, Copy, Debug, PartialEq, Eq, Structural)]
pub enum NetError {
    PlaceNotFound,
    TransitionNotFound,
}

/// The finalized collection of places, transitions and connections. Places
/// and transitions live in arenas and are referenced by their indices;
/// connections store those indices. After construction only token counts
/// change, and only through the engine (or explicit seeding).
#[derive(Debug)]
pub struct PetriNet {
    pub places: Vec<Place>,
    pub transitions: Vec<Transition>,
    pub connections: Vec<Connection>,
}

impl PetriNet {
    /// Every arena slot knows its own index, and every connection's endpoints
    /// exist in the net and its weight is positive.
    pub open spec fn wf(self) -> bool {
        &&& forall|i: int| 0 <= i < self.places.len() ==> (#[trigger] self.places[i].id) == i
        &&& forall|i: int|
            0 <= i < self.transitions.len() ==> (#[trigger] self.transitions[i].id) == i
        &&& forall|i: int|
            0 <= i < self.connections.len() ==> {
                let c = #[trigger] self.connections[i];
                &&& c.place < self.places.len()
                &&& c.transition < self.transitions.len()
                &&& c.weight >= 1
            }
    }

    /// Creates an empty Petri net.
    pub fn new() -> (n: PetriNet)
        ensures
            n.wf(),
            n.places.len() == 0,
            n.transitions.len() == 0,
            n.connections.len() == 0,
    {
        PetriNet { places: Vec::new(), transitions: Vec::new(), connections: Vec::new() }
    }

    /// Adds a place named `name` with no tokens and returns its index.
    pub fn add_place(&mut self, name: &str) -> (id: usize)
        requires
            old(self).wf(),
        ensures
            final(self).wf(),
            id == old(self).places.len(),
            final(self).places.len() == old(self).places.len() + 1,
            forall|j: int|
                0 <= j < old(self).places.len() ==> final(self).places[j] == old(self).places[j],
            final(self).places[id as int].id == id,
            final(self).places[id as int].name@ == name@,
            final(self).places[id as int].tokens == 0,
            final(self).transitions == old(self).transitions,
            final(self).connections == old(self).connections,
    {
        let id = self.places.len();
        self.places.push(Place::new(id, name));
        id
    }

    /// Adds a transition named `name` and returns its index.
    pub fn add_transition(&mut self, name: &str) -> (id: usize)
        requires
            old(self).wf(),
        ensures
            final(self).wf(),
            id == old(self).transitions.len(),
            final(self).transitions.len() == old(self).transitions.len() + 1,
            forall|j: int|
                0 <= j < old(self).transitions.len() ==> final(self).transitions[j] == old(
                    self,
                ).transitions[j],
            final(self).transitions[id as int].id == id,
            final(self).transitions[id as int].name@ == name@,
            final(self).places == old(self).places,
            final(self).connections == old(self).connections,
    {
        let id = self.transitions.len();
        self.transitions.push(Transition::new(id, name));
        id
    }

    /// Adds a connection between the place `place` and the transition
    /// `transition`. Fails exactly when one of the two indices does not name
    /// an existing node; the place is checked first.
    pub fn add_connection(
        &mut self,
        place: usize,
        transition: usize,
        weight: i32,
        input_from: InputFrom,
        con_type: ConnectionType,
    ) -> (r: Result<(), NetError>)
        requires
            old(self).wf(),
            weight >= 1,
        ensures
            final(self).wf(),
            final(self).places == old(self).places,
            final(self).transitions == old(self).transitions,
            r is Ok <==> (place < old(self).places.len() && transition < old(
                self,
            ).transitions.len()),
            match r {
                Ok(()) => final(self).connections@ == old(self).connections@.push(
                    (Connection { place, transition, weight, input_from, con_type }),
                ),
                Err(e) => {
                    &&& final(self).connections == old(self).connections
                    &&& (e == NetError::PlaceNotFound <==> place >= old(self).places.len())
                    &&& (e == NetError::TransitionNotFound <==> (place < old(self).places.len()
                        && transition >= old(self).transitions.len()))
                },
            },
    {
        if place >= self.places.len() {
            return Err(NetError::PlaceNotFound);
        }
        if transition >= self.transitions.len() {
            return Err(NetError::TransitionNotFound);
        }
        self.connections.push(Connection::new(place, transition, weight, input_from, con_type));
        Ok(())
    }

    /// Adds `amount` tokens to the place at index `place`, seeding the
    /// marking before a run. Token mutation goes through the arena.
    pub fn add_tokens(&mut self, place: usize, amount: i32)
        requires
            place < old(self).places.len(),
            i32::MIN <= old(self).places[place as int].tokens + amount <= i32::MAX,
        ensures
            old(self).wf() ==> final(self).wf(),
            final(self).places.len() == old(self).places.len(),
            forall|j: int|
                0 <= j < old(self).places.len() && j != place ==> final(self).places[j] == old(
                    self,
                ).places[j],
            final(self).places[place as int].id == old(self).places[place as int].id,
            final(self).places[place as int].name == old(self).places[place as int].name,
            final(self).places[place as int].tokens == old(self).places[place as int].tokens
                + amount,
            final(self).transitions == old(self).transitions,
            final(self).connections == old(self).connections,
    {
        self.places[place].add_tokens(amount);
    }

    /// Returns a reference to the places arena.
    pub fn places(&self) -> (r: &Vec<Place>)
        ensures
            r == &self.places,
    {
        &self.places
    }

    /// Returns a reference to the transitions arena.
    pub fn transitions(&self) -> (r: &Vec<Transition>)
        ensures
            r == &self.transitions,
    {
        &self.transitions
    }

    /// Returns a reference to the connections.
    pub fn connections(&self) -> (r: &Vec<Connection>)
        ensures
            r == &self.connections,
    {
        &self.connections
    }

    /// Returns the index of the first place named `name`, or None if no place
    /// carries that name.
    pub fn place_with_name(&self, name: &str) -> (r: Option<usize>)
        ensures
            match r {
                Some(i) => {
                    &&& i < self.places.len()
                    &&& self.places[i as int].name@ == name@
                    &&& forall|j: int| 0 <= j < i ==> (#[trigger] self.places[j].name@) != name@
                },
                None => forall|j: int|
                    0 <= j < self.places.len() ==> (#[trigger] self.places[j].name@) != name@,
            },
    {
        let target: String = name.to_owned();
        let mut i: usize = 0;
        while i < self.places.len()
            invariant
                i <= self.places.len(),
                target@ == name@,
                forall|j: int| 0 <= j < i ==> (#[trigger] self.places[j].name@) != name@,
            decreases self.places.len() - i,
        {
            if self.places[i].name == target {
                return Some(i);
            }
            i = i + 1;
        }
        None
    }

    /// Returns the index of the first transition named `name`, or None if no
    /// transition carries that name.
    pub fn transition_with_name(&self, name: &str) -> (r: Option<usize>)
        ensures
            match r {
                Some(i) => {
                    &&& i < self.transitions.len()
                    &&& self.transitions[i as int].name@ == name@
                    &&& forall|j: int|
                        0 <= j < i ==> (#[trigger] self.transitions[j].name@) != name@
                },
                None => forall|j: int|
                    0 <= j < self.transitions.len() ==> (#[trigger] self.transitions[j].name@)
                        != name@,
            },
    {
        let target: String = name.to_owned();
        let mut i: usize = 0;
        while i < self.transitions.len()
            invariant
                i <= self.transitions.len(),
                target@ == name@,
                forall|j: int| 0 <= j < i ==> (#[trigger] self.transitions[j].name@) != name@,
            decreases self.transitions.len() - i,
        {
            if self.transitions[i].name == target {
                return Some(i);
            }
            i = i + 1;
        }
        None
    }
}

impl Default for PetriNet {
    /// The default net is the empty net.
    fn default() -> (n: PetriNet)
        ensures
            n.wf(),
            n.places.len() == 0,
            n.transitions.len() == 0,
            n.connections.len() == 0,
    {
        PetriNet::new()
    }
}

} // verus!
