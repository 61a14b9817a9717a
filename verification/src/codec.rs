//! Split-link codec: the 4-byte wire frame exchanged between the halves.
//!
//! A frame is `[tag, row, column, terminator]` with tag `b'P'` for a
//! press, `b'R'` for a release, and a fixed terminator byte. This is the
//! one must-match-bit-exactly protocol of the system: any two devices
//! framing events this way interoperate on the same physical transport.

use vstd::prelude::*;
use crate::event::Event;

verus! {

/// Frame tag marking a press event.
pub const PRESS_TAG: u8 = 80;

/// Frame tag marking a release event.
pub const RELEASE_TAG: u8 = 82;

/// Fixed sentinel byte closing every frame.
pub const TERMINATOR: u8 = 10;

/// A received frame that does not match `[P|R, _, _, terminator]`.
///
/// Recovered locally: the receiver discards its window and
/// resynchronizes on the next terminator. Never fatal.
#[derive(Clone, Copy, PartialEq, Eq, Structural, Debug)]
pub struct FormatError;

/// The wire bytes of an event.
pub open spec fn spec_encode(e: Event) -> Seq<u8> {
    match e {
        Event::Press(i, j) => seq![PRESS_TAG, i, j, TERMINATOR],
        Event::Release(i, j) => seq![RELEASE_TAG, i, j, TERMINATOR],
    }
}

/// The event a 4-byte window decodes to, or `None` on a malformed frame.
pub open spec fn spec_decode(b: Seq<u8>) -> Option<Event> {
    if b.len() == 4 && b[3] == TERMINATOR && b[0] == PRESS_TAG {
        Some(Event::Press(b[1], b[2]))
    } else if b.len() == 4 && b[3] == TERMINATOR && b[0] == RELEASE_TAG {
        Some(Event::Release(b[1], b[2]))
    } else {
        None
    }
}

/// Serialize an event to its 4-byte frame.
pub fn encode(e: Event) -> (r: [u8; 4])
    ensures
        r@ == spec_encode(e),
{
    let r = match e {
        Event::Press(i, j) => [PRESS_TAG, i, j, TERMINATOR],
        Event::Release(i, j) => [RELEASE_TAG, i, j, TERMINATOR],
    };
    proof {
        assert(r@ =~= spec_encode(e));
    }
    r
}

/// Deserialize a 4-byte frame back to the event it carries.
///
/// Fails with `FormatError` exactly when the tag is neither press nor
/// release or the terminator byte mismatches.
pub fn decode(b: &[u8; 4]) -> (r: Result<Event, FormatError>)
    ensures
        match r {
            Ok(e) => spec_decode(b@) == Some(e),
            Err(_) => spec_decode(b@) is None,
        },
{
    if b[3] == TERMINATOR && b[0] == PRESS_TAG {
        Ok(Event::Press(b[1], b[2]))
    } else if b[3] == TERMINATOR && b[0] == RELEASE_TAG {
        Ok(Event::Release(b[1], b[2]))
    } else {
        Err(FormatError)
    }
}

/// Codec round trip: every event survives encoding and decoding intact.
pub proof fn lemma_codec_round_trip(e: Event)
    ensures
        spec_decode(spec_encode(e)) == Some(e),
{
}

/// Frames of distinct events are distinct: the wire never confuses two
/// events.
pub proof fn lemma_encode_injective(e1: Event, e2: Event)
    requires
        spec_encode(e1) == spec_encode(e2),
    ensures
        e1 == e2,
{
    lemma_codec_round_trip(e1);
    lemma_codec_round_trip(e2);
}

} // verus!
