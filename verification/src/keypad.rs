use vstd::prelude::*;

verus! {

/// What the host loop should do next, decided from one poll of the host's
/// input events.
#[derive(Clone, Copy, Debug, PartialEq, Eq, Structural)]
pub enum State {
    Exit,
    Continue,
    Increase,
    Decrease,
    Debug,
    Reset,
}

} // verus!
