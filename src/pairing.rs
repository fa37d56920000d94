use vstd::prelude::*;

verus! {

/// The part a WebSocket connection plays in a paired session.
#[derive(Clone, Copy, Debug, PartialEq, Eq, Structural)]
pub enum Role {
    /// Carries RTSP text both ways.
    Control,
    /// Carries media datagrams to the browser.
    Data,
}

/// What becomes of a connection that arrives for a session id.
#[derive(Clone, Copy, Debug, PartialEq, Eq, Structural)]
pub enum PairStep {
    /// Nothing waits under that id: this connection waits for its partner.
    Wait,
    /// The partner waits: the two form a session.
    Pair,
    /// A connection of the same role already waits: this one is refused.
    Duplicate,
}

/// Decides the arrival of a connection of role `arriving` for a session id
/// under which `waiting` is registered, if anything.
pub fn pair_step(waiting: Option<Role>, arriving: Role) -> (r: PairStep)
    ensures
        match waiting {
            None => r == PairStep::Wait,
            Some(w) => if w == arriving {
                r == PairStep::Duplicate
            } else {
                r == PairStep::Pair
            },
        },
{
    match waiting {
        None => PairStep::Wait,
        Some(w) => if w == arriving {
            PairStep::Duplicate
        } else {
            PairStep::Pair
        },
    }
}

} // verus!
