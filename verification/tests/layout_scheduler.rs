use split_kb_core::debounce::Debouncer;
use split_kb_core::event::Event;
use split_kb_core::layout::{Action, Layout};
use split_kb_core::scheduler::{EventQueue, KeyboardCore};
use split_kb_core::transform::HalfConfig;

const Q: u8 = 20;
const A: u8 = 4;
const Z: u8 = 29;
const KB1: u8 = 30;
const DELETE: u8 = 76;
const LSHIFT: u8 = 225;

fn ht(timeout: u16, hold: Action, tap: Action) -> Action {
    Action::HoldTap { timeout, hold: Box::new(hold), tap: Box::new(tap) }
}

#[test]
fn plain_key_press_release() {
    let mut layout = Layout::new(1, 2, vec![vec![Action::Key(Q), Action::Key(A)]]);
    layout.on_event(Event::Press(0, 0));
    assert_eq!(layout.active_codes(), vec![Q]);
    layout.on_event(Event::Press(0, 1));
    assert_eq!(layout.active_codes(), vec![Q, A]);
    layout.on_event(Event::Release(0, 0));
    assert_eq!(layout.active_codes(), vec![A]);
    layout.on_event(Event::Release(0, 1));
    assert!(layout.active_codes().is_empty());
}

#[test]
fn transparent_layer_falls_through() {
    // Layer 2 is transparent over Q at layer 0; layer 1 stays inactive.
    let layers = vec![
        vec![Action::Key(Q), Action::LayerHold(2)],
        vec![Action::Key(A), Action::NoOp],
        vec![Action::Trans, Action::NoOp],
    ];
    let mut layout = Layout::new(1, 2, layers);
    layout.on_event(Event::Press(0, 1));
    assert!(layout.active_codes().is_empty());
    layout.on_event(Event::Press(0, 0));
    assert_eq!(layout.active_codes(), vec![Q]);
}

#[test]
fn transparent_base_fails_closed() {
    let mut layout = Layout::new(1, 1, vec![vec![Action::Trans]]);
    layout.on_event(Event::Press(0, 0));
    assert!(layout.active_codes().is_empty());
    layout.on_event(Event::Release(0, 0));
    assert!(layout.active_codes().is_empty());
}

#[test]
fn holdtap_quick_release_taps() {
    let layers = vec![vec![
        ht(140, Action::Key(LSHIFT), Action::Key(Z)),
        Action::Key(Q),
    ]];
    let mut layout = Layout::new(1, 2, layers);
    layout.on_event(Event::Press(0, 0));
    for _ in 0..139 {
        layout.on_tick();
        assert!(layout.active_codes().is_empty());
    }
    // Released before the 140-tick timeout: the tap code flashes.
    layout.on_event(Event::Release(0, 0));
    assert_eq!(layout.active_codes(), vec![Z]);
    layout.on_tick();
    assert!(layout.active_codes().is_empty());
}

#[test]
fn holdtap_timeout_holds() {
    let layers = vec![vec![
        ht(140, Action::Key(LSHIFT), Action::Key(Z)),
        Action::Key(Q),
    ]];
    let mut layout = Layout::new(1, 2, layers);
    layout.on_event(Event::Press(0, 0));
    for _ in 0..139 {
        layout.on_tick();
        assert!(layout.active_codes().is_empty());
    }
    // The 140th tick reaches the timeout: the hold code stays active
    // until the key's own release, and no tap code ever shows.
    layout.on_tick();
    assert_eq!(layout.active_codes(), vec![LSHIFT]);
    for _ in 0..60 {
        layout.on_tick();
        assert_eq!(layout.active_codes(), vec![LSHIFT]);
    }
    layout.on_event(Event::Release(0, 0));
    assert!(layout.active_codes().is_empty());
}

#[test]
fn holdtap_interrupting_press_holds_early() {
    let layers = vec![vec![
        ht(140, Action::Key(LSHIFT), Action::Key(Z)),
        Action::Key(Q),
    ]];
    let mut layout = Layout::new(1, 2, layers);
    layout.on_event(Event::Press(0, 0));
    for _ in 0..10 {
        layout.on_tick();
    }
    // Another key long before the timeout: the pending hold-tap
    // resolves to its hold at once, and the new key lands after it.
    layout.on_event(Event::Press(0, 1));
    assert_eq!(layout.active_codes(), vec![LSHIFT, Q]);
    layout.on_event(Event::Release(0, 1));
    layout.on_event(Event::Release(0, 0));
    assert!(layout.active_codes().is_empty());
}

#[test]
fn holdtap_layer_hold_shifts_lookup() {
    let layers = vec![
        vec![
            ht(140, Action::LayerHold(1), Action::Key(DELETE)),
            Action::Key(Q),
        ],
        vec![Action::NoOp, Action::Key(KB1)],
    ];
    let mut layout = Layout::new(1, 2, layers);
    layout.on_event(Event::Press(0, 0));
    // The interrupting press both resolves the hold (layer 1 on) and
    // is itself looked up on layer 1.
    layout.on_event(Event::Press(0, 1));
    assert_eq!(layout.active_codes(), vec![KB1]);
    layout.on_event(Event::Release(0, 1));
    layout.on_event(Event::Release(0, 0));
    // Layer 1 is gone again: the same key now gives the base action.
    layout.on_event(Event::Press(0, 1));
    assert_eq!(layout.active_codes(), vec![Q]);
}

#[test]
fn most_recent_overlay_wins() {
    let layers = vec![
        vec![Action::LayerHold(1), Action::LayerHold(2), Action::Key(Q)],
        vec![Action::Trans, Action::Trans, Action::Key(A)],
        vec![Action::Trans, Action::Trans, Action::Key(KB1)],
    ];
    let mut layout = Layout::new(1, 3, layers);
    layout.on_event(Event::Press(0, 0));
    layout.on_event(Event::Press(0, 1));
    // Both overlays are active: the most recently activated wins.
    layout.on_event(Event::Press(0, 2));
    assert_eq!(layout.active_codes(), vec![KB1]);
    layout.on_event(Event::Release(0, 2));
    // With layer 2 released, layer 1 takes over.
    layout.on_event(Event::Release(0, 1));
    layout.on_event(Event::Press(0, 2));
    assert_eq!(layout.active_codes(), vec![A]);
    layout.on_event(Event::Release(0, 2));
    layout.on_event(Event::Release(0, 0));
    layout.on_event(Event::Press(0, 2));
    assert_eq!(layout.active_codes(), vec![Q]);
}

#[test]
fn transparent_overlay_falls_to_lower_overlay() {
    let layers = vec![
        vec![Action::LayerHold(1), Action::LayerHold(2), Action::Key(Q)],
        vec![Action::Trans, Action::Trans, Action::Key(A)],
        vec![Action::Trans, Action::Trans, Action::Trans],
    ];
    let mut layout = Layout::new(1, 3, layers);
    layout.on_event(Event::Press(0, 0));
    layout.on_event(Event::Press(0, 1));
    // The top overlay is transparent here: the lookup falls through
    // to the next active overlay, not straight to the base.
    layout.on_event(Event::Press(0, 2));
    assert_eq!(layout.active_codes(), vec![A]);
}

#[test]
fn queue_drops_oldest_tick_first() {
    let mut q = EventQueue::new(2);
    assert!(q.push(None));
    assert!(q.push(Some(Event::Press(0, 0))));
    // Full: the new event displaces the queued tick notification.
    assert!(q.push(Some(Event::Press(0, 1))));
    assert_eq!(q.pop(), Some(Some(Event::Press(0, 0))));
    assert_eq!(q.pop(), Some(Some(Event::Press(0, 1))));
    assert_eq!(q.pop(), None);
}

#[test]
fn queue_full_of_events_rejects() {
    let mut q = EventQueue::new(2);
    assert!(q.push(Some(Event::Press(0, 0))));
    assert!(q.push(Some(Event::Press(0, 1))));
    // No tick notification to drop: the new item is rejected and the
    // queued events survive.
    assert!(!q.push(Some(Event::Press(0, 2))));
    assert!(!q.push(None));
    assert_eq!(q.pop(), Some(Some(Event::Press(0, 0))));
    assert_eq!(q.pop(), Some(Some(Event::Press(0, 1))));
}

fn reference_core() -> KeyboardCore {
    // Primary half of the reference board: local 4x5 matrix, global
    // 4x10 layout, debounce depth 5; (2,0) is shift-or-Z with the
    // reference 140-tick timeout.
    let rows = 4u8;
    let global_cols = 10u8;
    let mut layer0: Vec<Action> = Vec::new();
    for c in 0..(rows as usize) * (global_cols as usize) {
        if c == 2 * (global_cols as usize) {
            layer0.push(ht(140, Action::Key(LSHIFT), Action::Key(Z)));
        } else {
            layer0.push(Action::NoOp);
        }
    }
    let layout = Layout::new(rows, global_cols, vec![layer0]);
    let debouncer = Debouncer::new(rows, 5, 5);
    let half = HalfConfig { is_primary: true, total_cols: global_cols };
    KeyboardCore::new(half, debouncer, layout, 8)
}

fn run_cycle(core: &mut KeyboardCore, raw: &Vec<bool>) -> (Vec<[u8; 4]>, Vec<Vec<u8>>) {
    let frames = core.on_timer_tick(raw);
    let mut sent = Vec::new();
    while !core.queue.items.is_empty() {
        if let Some(bytes) = core.process_one(true) {
            sent.push(bytes);
        }
    }
    (frames, sent)
}

#[test]
fn end_to_end_holdtap_scenario() {
    let mut core = reference_core();
    let mut pressed = vec![false; 20];
    pressed[2 * 5] = true;  // local (2,0)
    let released = vec![false; 20];

    let mut shift_on_at: Option<usize> = None;
    let mut z_ever = false;
    let mut frames_seen: Vec<[u8; 4]> = Vec::new();
    for t in 0..200 {
        let (frames, sent) = run_cycle(&mut core, &pressed);
        frames_seen.extend(frames);
        for bytes in &sent {
            if bytes[0] & 0b10 != 0 && shift_on_at.is_none() {
                shift_on_at = Some(t);
            }
            if bytes[2..8].contains(&Z) {
                z_ever = true;
            }
        }
    }
    // The press is confirmed after 5 scan ticks and forwarded over the
    // link in the transformed (identity) coordinates.
    assert_eq!(frames_seen, vec![[b'P', 2, 0, b'\n']]);
    // Left shift turns on once the 140-tick hold timeout has elapsed,
    // and never before 140 ticks of physical hold.
    assert!(shift_on_at.is_some());
    let at = shift_on_at.unwrap();
    assert!(at >= 140, "shift appeared at cycle {}", at);
    assert!(at <= 150, "shift appeared only at cycle {}", at);
    // No tap Z is ever emitted.
    assert!(!z_ever);

    // Release: after debounce confirmation the report clears.
    let mut final_reports: Vec<Vec<u8>> = Vec::new();
    for _ in 0..10 {
        let (frames, sent) = run_cycle(&mut core, &released);
        for f in &frames {
            assert_eq!(f[0], b'R');
        }
        final_reports.extend(sent);
    }
    assert_eq!(final_reports.last().unwrap(), &vec![0u8; 8]);
    assert!(!final_reports.iter().any(|r| r[2..8].contains(&Z)));
}

#[test]
fn link_bytes_feed_secondary_half() {
    // The secondary half's events arrive over the link, already in
    // global coordinates, and drive the same layout.
    let mut core = reference_core();
    for &b in &[b'P', 2, 0, b'\n'] {
        core.on_link_byte(b);
    }
    assert_eq!(core.queue.items.len(), 1);
    // The queued press starts the hold-tap pending; nothing is active
    // yet, so the first report is the all-zero one.
    assert_eq!(core.process_one(true), Some(vec![0u8; 8]));
    assert!(core.queue.items.is_empty());
}

#[test]
fn report_not_resent_when_unchanged() {
    let mut core = reference_core();
    let idle = vec![false; 20];
    // Idle cycles produce the all-zero report once, then stay silent.
    let (_, first) = run_cycle(&mut core, &idle);
    assert_eq!(first, vec![vec![0u8; 8]]);
    for _ in 0..5 {
        let (_, sent) = run_cycle(&mut core, &idle);
        assert!(sent.is_empty());
    }
}

#[test]
fn report_dropped_when_transport_not_ready() {
    let mut core = reference_core();
    let idle = vec![false; 20];
    core.on_timer_tick(&idle);
    // The transport is not configured: the report is dropped, not
    // queued, and an identical later report is not sent either.
    while !core.queue.items.is_empty() {
        assert!(core.process_one(false).is_none());
    }
    core.on_timer_tick(&idle);
    while !core.queue.items.is_empty() {
        assert!(core.process_one(true).is_none());
    }
}
