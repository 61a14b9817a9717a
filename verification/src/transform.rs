//! Coordinate transform: half-local to board-global coordinates.
//!
//! Each firmware instance is fixed at boot as the primary or the
//! secondary half. The primary half's coordinates are already global;
//! the secondary half mirrors its column index so that both halves
//! speak one unified coordinate space before any cross-half merge.

use vstd::prelude::*;
use crate::event::Event;

verus! {

/// The boot-time identity of one half and the board's global width.
///
/// `is_primary` selects the identity transform; otherwise column `j`
/// maps to `total_cols - 1 - j` with the row unchanged.
#[derive(Clone, Copy, PartialEq, Eq, Structural, Debug)]
pub struct HalfConfig {
    pub is_primary: bool,
    pub total_cols: u8,
}

impl HalfConfig {
    /// A half-local coordinate is one whose column lies on the board.
    pub open spec fn spec_local(self, e: Event) -> bool {
        e.spec_col() < self.total_cols
    }

    /// The board-global event a half-local event maps to.
    pub open spec fn spec_transform(self, e: Event) -> Event {
        if self.is_primary {
            e
        } else {
            match e {
                Event::Press(i, j) => Event::Press(i, (self.total_cols - 1 - j) as u8),
                Event::Release(i, j) => Event::Release(i, (self.total_cols - 1 - j) as u8),
            }
        }
    }

    /// Map a half-local event to board-global coordinates.
    pub fn transform(&self, e: Event) -> (r: Event)
        requires
            self.spec_local(e),
        ensures
            r == self.spec_transform(e),
    {
        if self.is_primary {
            e
        } else {
            match e {
                Event::Press(i, j) => Event::Press(i, self.total_cols - 1 - j),
                Event::Release(i, j) => Event::Release(i, self.total_cols - 1 - j),
            }
        }
    }
}

/// On the primary half the transform is the identity.
pub proof fn lemma_transform_identity_on_primary(c: HalfConfig, e: Event)
    requires
        c.is_primary,
    ensures
        c.spec_transform(e) == e,
{
}

/// The column mirroring is self-inverse: applying the secondary half's
/// transform twice gives back the original event, so the transform and
/// its inverse use one and the same formula.
pub proof fn lemma_transform_involution(c: HalfConfig, e: Event)
    requires
        c.spec_local(e),
    ensures
        c.spec_transform(c.spec_transform(e)) == e,
{
}

} // verus!
