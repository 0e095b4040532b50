use vstd::prelude::*;

verus! {

/// How a connection's guard gates its transition and how firing the
/// transition affects the place's tokens.
#[derive(Clone, Copy, Debug, PartialEq, Eq, Structural)]
pub enum ConnectionType {
    NORMAL,
    INHIBITOR,
    RESET,
}

/// Which endpoint feeds the other: a place into a transition (an input of the
/// transition) or a transition into a place (an output of the transition).
#[derive(Clone, Copy, Debug, PartialEq, Eq, Structural)]
pub enum InputFrom {
    PLACE,
    TRANSITION,
}

/// One endpoint of a connection: the arena index of a place or of a
/// transition in the owning net.
#[derive(Clone, Copy, Debug, PartialEq, Eq, Structural)]
pub enum Endpoint {
    Place(usize),
    Transition(usize),
}

/// A directed, weighted, typed edge between one place and one transition,
/// both held as arena indices into the owning net.
#[derive(Clone, Debug)]
pub struct Connection {
    pub place: usize,
    pub transition: usize,
    pub weight: i32,
    pub input_from: InputFrom,
    pub con_type: ConnectionType,
}

/// Whether a single input connection's guard is satisfied by `tokens`, the
/// token count of its place: a NORMAL edge asks for at least `weight` tokens,
/// an INHIBITOR edge for fewer than `weight`, and a RESET edge asks nothing.
pub open spec fn guard_sat(kind: ConnectionType, weight: int, tokens: int) -> bool {
    match kind {
        ConnectionType::NORMAL => tokens >= weight,
        ConnectionType::INHIBITOR => tokens < weight,
        ConnectionType::RESET => true,
    }
}

impl Connection {
    /// Creates a new connection between the place `place` and the transition
    /// `transition` of the net that will own it.
    pub fn new(
        place: usize,
        transition: usize,
        weight: i32,
        input_from: InputFrom,
        con_type: ConnectionType,
    ) -> (c: Connection)
        ensures
            c.place == place,
            c.transition == transition,
            c.weight == weight,
            c.input_from == input_from,
            c.con_type == con_type,
    {
        Connection { place, transition, weight, input_from, con_type }
    }

    pub fn weight(&self) -> (w: i32)
        ensures
            w == self.weight,
    {
        self.weight
    }

    pub fn connection_type(&self) -> (t: ConnectionType)
        ensures
            t == self.con_type,
    {
        self.con_type
    }

    pub fn place(&self) -> (p: usize)
        ensures
            p == self.place,
    {
        self.place
    }

    pub fn transition(&self) -> (t: usize)
        ensures
            t == self.transition,
    {
        self.transition
    }

    pub fn input_from(&self) -> (d: InputFrom)
        ensures
            d == self.input_from,
    {
        self.input_from
    }

    /// The endpoint that feeds the connection: its place for an input edge,
    /// its transition for an output edge.
    pub fn input(&self) -> (e: Endpoint)
        ensures
            e == (match self.input_from {
                InputFrom::PLACE => Endpoint::Place(self.place),
                InputFrom::TRANSITION => Endpoint::Transition(self.transition),
            }),
    {
        match self.input_from {
            InputFrom::PLACE => Endpoint::Place(self.place),
            InputFrom::TRANSITION => Endpoint::Transition(self.transition),
        }
    }

    /// The endpoint that the connection feeds: the opposite of `input`.
    pub fn output(&self) -> (e: Endpoint)
        ensures
            e == (match self.input_from {
                InputFrom::PLACE => Endpoint::Transition(self.transition),
                InputFrom::TRANSITION => Endpoint::Place(self.place),
            }),
    {
        match self.input_from {
            InputFrom::PLACE => Endpoint::Transition(self.transition),
            InputFrom::TRANSITION => Endpoint::Place(self.place),
        }
    }
}

} // verus!
