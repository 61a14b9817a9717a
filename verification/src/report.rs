//! Output-report assembly: active key codes to the host wire format.
//!
//! The report is a fixed byte record: a modifier bitmask, a reserved
//! byte, and six key slots filled in activation order, oldest first.
//! When more than six non-modifier keys are active at once, every slot
//! carries the phantom rollover code instead of a subset of the real
//! codes - the conventional keyboard overflow signal.

use vstd::prelude::*;

verus! {

/// First modifier usage code (left control).
pub const FIRST_MODIFIER: u8 = 224;

/// Last modifier usage code (right gui).
pub const LAST_MODIFIER: u8 = 231;

/// Phantom code reported in every slot on rollover.
pub const ROLLOVER_CODE: u8 = 1;

/// Number of non-modifier key slots in a report.
pub const REPORT_SLOTS: usize = 6;

/// Whether a key code is one of the eight modifiers.
pub open spec fn spec_is_modifier(kc: u8) -> bool {
    FIRST_MODIFIER <= kc && kc <= LAST_MODIFIER
}

/// Whether a key code is one of the eight modifiers.
pub fn is_modifier(kc: u8) -> (r: bool)
    ensures
        r == spec_is_modifier(kc),
{
    FIRST_MODIFIER <= kc && kc <= LAST_MODIFIER
}

/// The modifier bitmask of an active code sequence: one bit per
/// modifier, bit position `code - FIRST_MODIFIER`.
pub open spec fn modifier_mask(codes: Seq<u8>) -> u8
    decreases codes.len(),
{
    if codes.len() == 0 {
        0u8
    } else {
        let rest = modifier_mask(codes.drop_last());
        if spec_is_modifier(codes.last()) {
            rest | (1u8 << ((codes.last() - FIRST_MODIFIER) as u8))
        } else {
            rest
        }
    }
}

/// The non-modifier codes of an active code sequence, order kept.
pub open spec fn nonmod_codes(codes: Seq<u8>) -> Seq<u8>
    decreases codes.len(),
{
    if codes.len() == 0 {
        Seq::empty()
    } else {
        let rest = nonmod_codes(codes.drop_last());
        if spec_is_modifier(codes.last()) {
            rest
        } else {
            rest.push(codes.last())
        }
    }
}

/// When no code of the sequence is a modifier, the non-modifier
/// extraction keeps the sequence as it is.
pub proof fn lemma_nonmod_codes_all(codes: Seq<u8>)
    requires
        forall|k: int| 0 <= k < codes.len() ==> !spec_is_modifier(codes[k]),
    ensures
        nonmod_codes(codes) == codes,
    decreases codes.len(),
{
    if codes.len() > 0 {
        lemma_nonmod_codes_all(codes.drop_last());
        assert(nonmod_codes(codes) =~= codes);
    } else {
        assert(nonmod_codes(codes) =~= codes);
    }
}

/// The six key slots of the report for an active code sequence: the
/// non-modifier codes in activation order padded with zeros, or six
/// phantom codes on rollover.
pub open spec fn spec_slots(codes: Seq<u8>) -> Seq<u8> {
    let nm = nonmod_codes(codes);
    if nm.len() <= REPORT_SLOTS {
        nm + Seq::new((REPORT_SLOTS - nm.len()) as nat, |s: int| 0u8)
    } else {
        Seq::new(REPORT_SLOTS as nat, |s: int| ROLLOVER_CODE)
    }
}

/// The full 8-byte wire record for an active code sequence.
pub open spec fn spec_report_bytes(codes: Seq<u8>) -> Seq<u8> {
    seq![modifier_mask(codes), 0u8] + spec_slots(codes)
}

/// Report rollover: with more than six non-modifier codes active at
/// once, every slot of the report carries the phantom code - never a
/// six-element subset of the real codes.
pub proof fn lemma_report_rollover(codes: Seq<u8>)
    requires
        nonmod_codes(codes).len() > REPORT_SLOTS,
    ensures
        forall|s: int| 0 <= s < REPORT_SLOTS ==> spec_slots(codes)[s] == ROLLOVER_CODE,
{
}

/// One host keyboard report: modifier bitmask plus six key slots.
pub struct Report {
    pub modifiers: u8,
    pub keys: Vec<u8>,
}

impl Report {
    /// Structural invariant: a report always has exactly six slots.
    pub open spec fn well_formed(self) -> bool {
        self.keys@.len() == REPORT_SLOTS
    }
}

/// Build the host report for the active code sequence (activation
/// order, oldest first). Modifiers fold into the bitmask; up to six
/// non-modifier codes fill the slots in order, zero padded; more than
/// six set every slot to the phantom rollover code.
pub fn build_report(codes: &Vec<u8>) -> (r: Report)
    ensures
        r.well_formed(),
        r.modifiers == modifier_mask(codes@),
        r.keys@ == spec_slots(codes@),
{
    let mut mask: u8 = 0;
    let mut slots: Vec<u8> = Vec::new();
    let mut k: usize = 0;
    while k < codes.len()
        invariant
            k <= codes@.len(),
            mask == modifier_mask(codes@.subrange(0, k as int)),
            slots@ == nonmod_codes(codes@.subrange(0, k as int)),
        decreases codes@.len() - k,
    {
        let kc = codes[k];
        proof {
            assert(codes@.subrange(0, k + 1 as int).drop_last() =~= codes@.subrange(0, k as int));
            assert(codes@.subrange(0, k + 1 as int).last() == codes@[k as int]);
        }
        if is_modifier(kc) {
            mask = mask | (1u8 << (kc - FIRST_MODIFIER));
        } else {
            slots.push(kc);
        }
        k = k + 1;
    }
    proof {
        assert(codes@.subrange(0, codes@.len() as int) =~= codes@);
    }
    let mut keys: Vec<u8> = Vec::new();
    if slots.len() <= REPORT_SLOTS {
        let mut s: usize = 0;
        while s < slots.len()
            invariant
                s <= slots@.len(),
                slots@.len() <= REPORT_SLOTS,
                keys@.len() == s,
                forall|t: int| 0 <= t < s ==> keys@[t] == slots@[t],
            decreases slots@.len() - s,
        {
            keys.push(slots[s]);
            s = s + 1;
        }
        while s < REPORT_SLOTS
            invariant
                slots@.len() <= s <= REPORT_SLOTS,
                keys@.len() == s,
                forall|t: int| 0 <= t < slots@.len() ==> keys@[t] == slots@[t],
                forall|t: int| slots@.len() <= t < s ==> keys@[t] == 0,
            decreases REPORT_SLOTS - s,
        {
            keys.push(0);
            s = s + 1;
        }
    } else {
        let mut s: usize = 0;
        while s < REPORT_SLOTS
            invariant
                s <= REPORT_SLOTS,
                keys@.len() == s,
                forall|t: int| 0 <= t < s ==> keys@[t] == ROLLOVER_CODE,
            decreases REPORT_SLOTS - s,
        {
            keys.push(ROLLOVER_CODE);
            s = s + 1;
        }
    }
    proof {
        assert(keys@ =~= spec_slots(codes@));
    }
    Report { modifiers: mask, keys }
}

impl Report {
    /// The 8-byte wire form: bitmask, reserved zero, six key slots.
    pub fn to_bytes(&self) -> (b: Vec<u8>)
        requires
            self.well_formed(),
        ensures
            b@ == seq![self.modifiers, 0u8] + self.keys@,
    {
        let mut b: Vec<u8> = Vec::new();
        b.push(self.modifiers);
        b.push(0);
        let mut s: usize = 0;
        while s < REPORT_SLOTS
            invariant
                s <= REPORT_SLOTS,
                self.well_formed(),
                b@.len() == 2 + s,
                b@[0] == self.modifiers,
                b@[1] == 0,
                forall|t: int| 0 <= t < s ==> b@[2 + t] == self.keys@[t],
            decreases REPORT_SLOTS - s,
        {
            let kc = self.keys[s];
            b.push(kc);
            s = s + 1;
        }
        proof {
            assert(b@ =~= seq![self.modifiers, 0u8] + self.keys@);
        }
        b
    }
}

} // verus!
