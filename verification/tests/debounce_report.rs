use split_kb_core::debounce::Debouncer;
use split_kb_core::event::Event;
use split_kb_core::report::{build_report, ROLLOVER_CODE};

fn grid_2x2(a: bool, b: bool, c: bool, d: bool) -> Vec<bool> {
    vec![a, b, c, d]
}

#[test]
fn debounce_suppresses_fast_oscillation() {
    // Period-2 bounce at (0,0), well below depth 5: no event ever.
    let mut deb = Debouncer::new(2, 2, 5);
    for t in 0..40 {
        let level = t % 2 == 0;
        let evs = deb.events(&grid_2x2(level, false, false, false));
        assert!(evs.is_empty());
    }
}

#[test]
fn debounce_confirms_after_depth_ticks() {
    let mut deb = Debouncer::new(2, 2, 5);
    // Four contradicting samples: still quiet.
    for _ in 0..4 {
        let evs = deb.events(&grid_2x2(true, false, false, false));
        assert!(evs.is_empty());
    }
    // The fifth confirms: exactly one press.
    let evs = deb.events(&grid_2x2(true, false, false, false));
    assert_eq!(evs, vec![Event::Press(0, 0)]);
    // Held beyond the depth: no further event.
    for _ in 0..10 {
        let evs = deb.events(&grid_2x2(true, false, false, false));
        assert!(evs.is_empty());
    }
    // Release needs the same confirmation.
    for _ in 0..4 {
        let evs = deb.events(&grid_2x2(false, false, false, false));
        assert!(evs.is_empty());
    }
    let evs = deb.events(&grid_2x2(false, false, false, false));
    assert_eq!(evs, vec![Event::Release(0, 0)]);
}

#[test]
fn debounce_reset_by_agreeing_sample() {
    let mut deb = Debouncer::new(1, 1, 3);
    // Two contradicting samples, one agreeing, then three more: the
    // counter restarts, so the event comes only after the full run.
    assert!(deb.events(&vec![true]).is_empty());
    assert!(deb.events(&vec![true]).is_empty());
    assert!(deb.events(&vec![false]).is_empty());
    assert!(deb.events(&vec![true]).is_empty());
    assert!(deb.events(&vec![true]).is_empty());
    assert_eq!(deb.events(&vec![true]), vec![Event::Press(0, 0)]);
}

#[test]
fn debounce_emits_row_major_order() {
    let mut deb = Debouncer::new(2, 2, 2);
    // (1,1), (0,1) and (1,0) stabilize in the same tick.
    let grid = grid_2x2(false, true, true, true);
    assert!(deb.events(&grid).is_empty());
    let evs = deb.events(&grid);
    assert_eq!(
        evs,
        vec![Event::Press(0, 1), Event::Press(1, 0), Event::Press(1, 1)]
    );
}

#[test]
fn report_plain_keys_in_activation_order() {
    // Q = 20, A = 4, Z = 29.
    let report = build_report(&vec![20u8, 4u8, 29u8]);
    assert_eq!(report.modifiers, 0);
    assert_eq!(report.keys, vec![20u8, 4u8, 29u8, 0u8, 0u8, 0u8]);
}

#[test]
fn report_modifier_bitmask() {
    // Left control (224) -> bit 0, left shift (225) -> bit 1,
    // right gui (231) -> bit 7.
    let report = build_report(&vec![224u8, 225u8, 231u8]);
    assert_eq!(report.modifiers, 0b1000_0011);
    assert_eq!(report.keys, vec![0u8; 6]);
}

#[test]
fn report_six_keys_fill_all_slots() {
    let report = build_report(&vec![4u8, 5, 6, 7, 8, 9]);
    assert_eq!(report.keys, vec![4u8, 5, 6, 7, 8, 9]);
}

#[test]
fn report_rollover_on_seven_keys() {
    // Seven distinct non-modifier keys: every slot phantoms, none of
    // the real codes is reported.
    let report = build_report(&vec![4u8, 5, 6, 7, 8, 9, 10]);
    assert_eq!(report.keys, vec![ROLLOVER_CODE; 6]);
    assert_eq!(report.modifiers, 0);
}

#[test]
fn report_rollover_keeps_modifiers() {
    let report = build_report(&vec![225u8, 4, 5, 6, 7, 8, 9, 10]);
    assert_eq!(report.keys, vec![ROLLOVER_CODE; 6]);
    assert_eq!(report.modifiers, 0b10);
}

#[test]
fn report_wire_bytes() {
    let report = build_report(&vec![225u8, 20u8]);
    let bytes = report.to_bytes();
    assert_eq!(bytes, vec![0b10u8, 0, 20, 0, 0, 0, 0, 0]);
}
