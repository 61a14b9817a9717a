//! Key events exchanged between the pipeline stages.

use vstd::prelude::*;

verus! {

/// A confirmed key transition at a matrix coordinate `(row, column)`.
///
/// Events are produced by the debouncer, mapped to board-global
/// coordinates by the transform, carried across the split link by the
/// codec, and consumed by the layout engine.
#[derive(Clone, Copy, PartialEq, Eq, Structural, Debug)]
pub enum Event {
    Press(u8, u8),
    Release(u8, u8),
}

impl Event {
    /// The row of the coordinate the event speaks of.
    pub open spec fn spec_row(self) -> u8 {
        match self {
            Event::Press(i, _) => i,
            Event::Release(i, _) => i,
        }
    }

    /// The column of the coordinate the event speaks of.
    pub open spec fn spec_col(self) -> u8 {
        match self {
            Event::Press(_, j) => j,
            Event::Release(_, j) => j,
        }
    }

    /// Whether this is a press (as opposed to a release).
    pub open spec fn spec_is_press(self) -> bool {
        match self {
            Event::Press(_, _) => true,
            Event::Release(_, _) => false,
        }
    }

    /// The row of the coordinate the event speaks of.
    pub fn row(self) -> (r: u8)
        ensures
            r == self.spec_row(),
    {
        match self {
            Event::Press(i, _) => i,
            Event::Release(i, _) => i,
        }
    }

    /// The column of the coordinate the event speaks of.
    pub fn col(self) -> (r: u8)
        ensures
            r == self.spec_col(),
    {
        match self {
            Event::Press(_, j) => j,
            Event::Release(_, j) => j,
        }
    }

    /// Whether this is a press (as opposed to a release).
    pub fn is_press(self) -> (r: bool)
        ensures
            r == self.spec_is_press(),
    {
        match self {
            Event::Press(_, _) => true,
            Event::Release(_, _) => false,
        }
    }
}

} // verus!
