use vstd::prelude::*;

verus! {

/// Direction of a window movement over a log stream: `Left` extends or shifts
/// toward the start of the data, `Right` toward its end.
#[derive(Debug, Eq, PartialEq, Copy, Clone, Structural)]
pub enum ShiftDirection {
    Left,
    Right,
}

} // verus!
