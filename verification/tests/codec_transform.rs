use split_kb_core::codec::{decode, encode, FormatError, PRESS_TAG, RELEASE_TAG, TERMINATOR};
use split_kb_core::event::Event;
use split_kb_core::scheduler::LinkReceiver;
use split_kb_core::transform::HalfConfig;

#[test]
fn encode_press_frame() {
    let frame = encode(Event::Press(2, 3));
    assert_eq!(frame, [PRESS_TAG, 2, 3, TERMINATOR]);
    assert_eq!(frame, [b'P', 2, 3, b'\n']);
}

#[test]
fn encode_release_frame() {
    let frame = encode(Event::Release(1, 9));
    assert_eq!(frame, [RELEASE_TAG, 1, 9, TERMINATOR]);
    assert_eq!(frame, [b'R', 1, 9, b'\n']);
}

#[test]
fn decode_round_trip_all_coordinates() {
    for i in 0..4u8 {
        for j in 0..10u8 {
            let press = Event::Press(i, j);
            let release = Event::Release(i, j);
            assert_eq!(decode(&encode(press)), Ok(press));
            assert_eq!(decode(&encode(release)), Ok(release));
        }
    }
}

#[test]
fn decode_rejects_bad_tag() {
    assert_eq!(decode(&[b'X', 0, 0, b'\n']), Err(FormatError));
    assert_eq!(decode(&[0, 0, 0, b'\n']), Err(FormatError));
}

#[test]
fn decode_rejects_bad_terminator() {
    assert_eq!(decode(&[b'P', 0, 0, b'\r']), Err(FormatError));
    assert_eq!(decode(&[b'R', 3, 4, 0]), Err(FormatError));
}

#[test]
fn event_accessors() {
    let press = Event::Press(2, 7);
    assert_eq!(press.row(), 2);
    assert_eq!(press.col(), 7);
    assert!(press.is_press());
    let release = Event::Release(3, 1);
    assert_eq!(release.row(), 3);
    assert_eq!(release.col(), 1);
    assert!(!release.is_press());
}

#[test]
fn transform_identity_on_primary() {
    let half = HalfConfig { is_primary: true, total_cols: 10 };
    assert_eq!(half.transform(Event::Press(2, 0)), Event::Press(2, 0));
    assert_eq!(half.transform(Event::Release(3, 9)), Event::Release(3, 9));
}

#[test]
fn transform_mirrors_secondary_columns() {
    let half = HalfConfig { is_primary: false, total_cols: 10 };
    assert_eq!(half.transform(Event::Press(2, 0)), Event::Press(2, 9));
    assert_eq!(half.transform(Event::Press(1, 4)), Event::Press(1, 5));
    assert_eq!(half.transform(Event::Release(0, 9)), Event::Release(0, 0));
}

#[test]
fn transform_mirror_is_self_inverse() {
    let half = HalfConfig { is_primary: false, total_cols: 10 };
    for i in 0..4u8 {
        for j in 0..10u8 {
            let e = Event::Press(i, j);
            assert_eq!(half.transform(half.transform(e)), e);
        }
    }
}

#[test]
fn link_receiver_accepts_clean_frame() {
    let mut rx = LinkReceiver::new();
    assert_eq!(rx.push_byte(b'P'), None);
    assert_eq!(rx.push_byte(2), None);
    assert_eq!(rx.push_byte(3), None);
    assert_eq!(rx.push_byte(b'\n'), Some(Event::Press(2, 3)));
}

#[test]
fn link_receiver_resynchronizes_after_garbage() {
    let mut rx = LinkReceiver::new();
    // Half a corrupted frame, then a clean one.
    assert_eq!(rx.push_byte(0x55), None);
    assert_eq!(rx.push_byte(b'\n'), None);
    assert_eq!(rx.push_byte(b'R'), None);
    assert_eq!(rx.push_byte(1), None);
    assert_eq!(rx.push_byte(7), None);
    assert_eq!(rx.push_byte(b'\n'), Some(Event::Release(1, 7)));
}
