//! Layout engine: layered action resolution with hold-tap timing.
//!
//! A layer table maps every board-global coordinate to an action per
//! layer; layer 0 is always active as the base, higher layers overlay
//! it while momentarily activated. Each key coordinate carries its own
//! state machine: idle, held as a key or a layer activation, pending
//! hold-tap disambiguation, or flashing a just-resolved tap. The engine
//! consumes press/release events and periodic ticks and maintains the
//! set of currently active output key codes in activation order.
//!
//! Every transition is a pure function of the previous state and the
//! input, so a fixed sequence of events and ticks always reproduces
//! the same sequence of active key sets.

use vstd::prelude::*;
use vstd::arithmetic::mul::lemma_mul_upper_bound;
use crate::event::Event;

verus! {

/// What a key binds to in one layer of the table.
///
/// `Trans` falls through to the next lower active layer. `HoldTap`
/// resolves to its hold action when held past `timeout` ticks or when
/// another key is pressed meanwhile, and to its tap action when
/// released earlier.
pub enum Action {
    NoOp,
    Trans,
    Key(u8),
    LayerHold(u8),
    HoldTap { timeout: u16, hold: Box<Action>, tap: Box<Action> },
}

/// The immediate effect of a resolved hold or tap action: nothing, an
/// output key code, or a momentary overlay layer.
#[derive(Clone, Copy, PartialEq, Eq, Structural, Debug)]
pub enum KeyEffect {
    Nothing,
    EmitKey(u8),
    ActivateLayer(u8),
}

/// What a pressed key was resolved to by the layer lookup.
#[derive(Clone, Copy, PartialEq, Eq, Structural, Debug)]
pub enum Binding {
    Silent,
    Emit(u8),
    Overlay(u8),
    Deferred(u16, KeyEffect, KeyEffect),
}

/// The per-coordinate key state machine.
#[derive(Clone, Copy, PartialEq, Eq, Structural, Debug)]
pub enum KeyState {
    /// Key up, or down with no effect.
    Idle,
    /// Key down, holding one output key code.
    HeldKey(u8),
    /// Key down, holding one overlay layer active.
    HeldLayer(u8),
    /// Hold-tap pressed, not yet disambiguated.
    Pending { elapsed: u16, timeout: u16, hold: KeyEffect, tap: KeyEffect },
    /// Tap resolved on release: its code stays active until the next
    /// tick.
    TapFlash(u8),
}

/// The effect an action has when applied directly (as a resolved hold
/// or tap). A nested hold-tap or a transparent entry has none.
pub open spec fn spec_effect_of(a: Action) -> KeyEffect {
    match a {
        Action::Key(kc) => KeyEffect::EmitKey(kc),
        Action::LayerHold(l) => KeyEffect::ActivateLayer(l),
        _ => KeyEffect::Nothing,
    }
}

/// The effect an action has when applied directly.
pub fn effect_of(a: &Action) -> (r: KeyEffect)
    ensures
        r == spec_effect_of(*a),
{
    match a {
        Action::Key(kc) => KeyEffect::EmitKey(*kc),
        Action::LayerHold(l) => KeyEffect::ActivateLayer(*l),
        _ => KeyEffect::Nothing,
    }
}

/// The binding a press of an action resolves to.
pub open spec fn spec_binding_of(a: Action) -> Binding {
    match a {
        Action::NoOp => Binding::Silent,
        Action::Trans => Binding::Silent,
        Action::Key(kc) => Binding::Emit(kc),
        Action::LayerHold(l) => Binding::Overlay(l),
        Action::HoldTap { timeout, hold, tap } => Binding::Deferred(
            timeout,
            spec_effect_of(*hold),
            spec_effect_of(*tap),
        ),
    }
}

/// The binding a press of an action resolves to.
pub fn binding_of(a: &Action) -> (r: Binding)
    ensures
        r == spec_binding_of(*a),
{
    match a {
        Action::NoOp => Binding::Silent,
        Action::Trans => Binding::Silent,
        Action::Key(kc) => Binding::Emit(*kc),
        Action::LayerHold(l) => Binding::Overlay(*l),
        Action::HoldTap { timeout, hold, tap } => Binding::Deferred(
            *timeout,
            effect_of(&**hold),
            effect_of(&**tap),
        ),
    }
}

/// The mathematical state of the layout engine.
#[verifier::ext_equal]
pub struct LayoutModel {
    pub rows: u8,
    pub cols: u8,
    pub layers: Seq<Seq<Action>>,
    pub overlays: Seq<u8>,
    pub key_states: Seq<KeyState>,
    pub active_keys: Seq<u8>,
}

impl LayoutModel {
    /// Number of board coordinates.
    pub open spec fn n(self) -> int {
        self.rows as int * self.cols as int
    }

    /// Structural invariant of the engine state.
    pub open spec fn wf(self) -> bool {
        &&& 1 <= self.layers.len() <= 256
        &&& forall|l: int| 0 <= l < self.layers.len() ==> (#[trigger] self.layers[l]).len()
            == self.n()
        &&& self.key_states.len() == self.n()
        &&& forall|t: int|
            0 <= t < self.overlays.len() ==> (#[trigger] self.overlays[t]) < self.layers.len()
        &&& forall|c: int|
            0 <= c < self.key_states.len() ==> match #[trigger] self.key_states[c] {
                KeyState::Pending { elapsed, timeout, .. } => elapsed == 0 || elapsed < timeout,
                _ => true,
            }
    }
}

/// The action a coordinate resolves to under an overlay stack: scan
/// overlays from the most recently activated downward, skipping
/// transparent entries; layer 0 is the fallback, and a transparent
/// base entry fails closed to no operation.
pub open spec fn spec_lookup(layers: Seq<Seq<Action>>, overlays: Seq<u8>, c: int) -> Action
    decreases overlays.len(),
{
    if overlays.len() == 0 {
        if layers[0][c] is Trans {
            Action::NoOp
        } else {
            layers[0][c]
        }
    } else {
        if layers[overlays.last() as int][c] is Trans {
            spec_lookup(layers, overlays.drop_last(), c)
        } else {
            layers[overlays.last() as int][c]
        }
    }
}

/// Layer transparency: when every active overlay is transparent at a
/// coordinate, the lookup falls through to the base layer.
pub proof fn lemma_transparent_overlays_fall_through(
    layers: Seq<Seq<Action>>,
    overlays: Seq<u8>,
    c: int,
)
    requires
        forall|t: int|
            0 <= t < overlays.len() ==> layers[#[trigger] overlays[t] as int][c] is Trans,
    ensures
        spec_lookup(layers, overlays, c) == spec_lookup(layers, Seq::<u8>::empty(), c),
    decreases overlays.len(),
{
    if overlays.len() > 0 {
        lemma_transparent_overlays_fall_through(layers, overlays.drop_last(), c);
    }
}

/// The active key list with the first occurrence of `kc` taken out.
pub open spec fn remove_first_code(keys: Seq<u8>, kc: u8) -> Seq<u8>
    decreases keys.len(),
{
    if keys.len() == 0 {
        keys
    } else if keys[0] == kc {
        keys.drop_first()
    } else {
        seq![keys[0]] + remove_first_code(keys.drop_first(), kc)
    }
}

/// The overlay stack with the most recent activation of `l` taken out.
pub open spec fn remove_last_overlay(overlays: Seq<u8>, l: u8) -> Seq<u8>
    decreases overlays.len(),
{
    if overlays.len() == 0 {
        overlays
    } else if overlays.last() == l {
        overlays.drop_last()
    } else {
        remove_last_overlay(overlays.drop_last(), l).push(overlays.last())
    }
}

/// Resolve the pending hold-tap at coordinate `c` to its hold effect:
/// emit its key code, or activate its layer (an out-of-range layer id
/// fails closed to nothing). Any other state is left as it is.
pub open spec fn apply_hold(m: LayoutModel, c: int) -> LayoutModel {
    match m.key_states[c] {
        KeyState::Pending { hold, .. } => match hold {
            KeyEffect::Nothing => LayoutModel {
                key_states: m.key_states.update(c, KeyState::Idle),
                ..m
            },
            KeyEffect::EmitKey(kc) => LayoutModel {
                key_states: m.key_states.update(c, KeyState::HeldKey(kc)),
                active_keys: m.active_keys.push(kc),
                ..m
            },
            KeyEffect::ActivateLayer(l) => if l < m.layers.len() {
                LayoutModel {
                    key_states: m.key_states.update(c, KeyState::HeldLayer(l)),
                    overlays: m.overlays.push(l),
                    ..m
                }
            } else {
                LayoutModel { key_states: m.key_states.update(c, KeyState::Idle), ..m }
            },
        },
        _ => m,
    }
}

/// Resolve every pending hold-tap among the first `k` coordinates,
/// except the one at `skip`, to its hold effect, in row-major order.
/// This is the interrupt rule: any other key's press disambiguates
/// every pending hold-tap as a hold.
pub open spec fn resolve_pendings_upto(m: LayoutModel, skip: int, k: int) -> LayoutModel
    decreases k,
{
    if k <= 0 {
        m
    } else {
        let prev = resolve_pendings_upto(m, skip, k - 1);
        if k - 1 == skip {
            prev
        } else {
            apply_hold(prev, k - 1)
        }
    }
}

/// The engine state after a press at board coordinate `(i, j)`.
///
/// Every other pending hold-tap first resolves as a hold; then, if the
/// coordinate is idle, its action is looked up under the then-active
/// overlays and applied: a key code joins the active set, a layer
/// activation joins the overlay stack (out-of-range ids fail closed),
/// a hold-tap starts pending. An out-of-range coordinate is ignored.
pub open spec fn spec_press(m: LayoutModel, i: u8, j: u8) -> LayoutModel {
    if i < m.rows && j < m.cols {
        let c = i as int * m.cols as int + j as int;
        let m1 = resolve_pendings_upto(m, c, m.n());
        if m1.key_states[c] is Idle {
            match spec_binding_of(spec_lookup(m1.layers, m1.overlays, c)) {
                Binding::Silent => m1,
                Binding::Emit(kc) => LayoutModel {
                    key_states: m1.key_states.update(c, KeyState::HeldKey(kc)),
                    active_keys: m1.active_keys.push(kc),
                    ..m1
                },
                Binding::Overlay(l) => if l < m1.layers.len() {
                    LayoutModel {
                        key_states: m1.key_states.update(c, KeyState::HeldLayer(l)),
                        overlays: m1.overlays.push(l),
                        ..m1
                    }
                } else {
                    m1
                },
                Binding::Deferred(timeout, hold, tap) => LayoutModel {
                    key_states: m1.key_states.update(
                        c,
                        KeyState::Pending { elapsed: 0, timeout, hold, tap },
                    ),
                    ..m1
                },
            }
        } else {
            m1
        }
    } else {
        m
    }
}

/// The engine state after a release at board coordinate `(i, j)`.
///
/// A held key code leaves the active set; a held layer leaves the
/// overlay stack; a pending hold-tap resolves as a tap, whose key code
/// flashes active until the next tick. Anything else is ignored.
pub open spec fn spec_release(m: LayoutModel, i: u8, j: u8) -> LayoutModel {
    if i < m.rows && j < m.cols {
        let c = i as int * m.cols as int + j as int;
        match m.key_states[c] {
            KeyState::HeldKey(kc) => LayoutModel {
                key_states: m.key_states.update(c, KeyState::Idle),
                active_keys: remove_first_code(m.active_keys, kc),
                ..m
            },
            KeyState::HeldLayer(l) => LayoutModel {
                key_states: m.key_states.update(c, KeyState::Idle),
                overlays: remove_last_overlay(m.overlays, l),
                ..m
            },
            KeyState::Pending { tap, .. } => match tap {
                KeyEffect::EmitKey(kc) => LayoutModel {
                    key_states: m.key_states.update(c, KeyState::TapFlash(kc)),
                    active_keys: m.active_keys.push(kc),
                    ..m
                },
                _ => LayoutModel { key_states: m.key_states.update(c, KeyState::Idle), ..m },
            },
            _ => m,
        }
    } else {
        m
    }
}

/// One tick at one coordinate: a tap flash clears, and a pending
/// hold-tap advances by one tick, resolving to its hold effect when
/// the timeout is reached.
pub open spec fn tick_cell(m: LayoutModel, c: int) -> LayoutModel {
    match m.key_states[c] {
        KeyState::TapFlash(kc) => LayoutModel {
            key_states: m.key_states.update(c, KeyState::Idle),
            active_keys: remove_first_code(m.active_keys, kc),
            ..m
        },
        KeyState::Pending { elapsed, timeout, hold, tap } => if elapsed + 1 >= timeout {
            apply_hold(m, c)
        } else {
            LayoutModel {
                key_states: m.key_states.update(
                    c,
                    KeyState::Pending { elapsed: (elapsed + 1) as u16, timeout, hold, tap },
                ),
                ..m
            }
        },
        _ => m,
    }
}

/// One tick over the first `k` coordinates in row-major order.
pub open spec fn tick_cells_upto(m: LayoutModel, k: int) -> LayoutModel
    decreases k,
{
    if k <= 0 {
        m
    } else {
        tick_cell(tick_cells_upto(m, k - 1), k - 1)
    }
}

/// The engine state after one timer tick with no event.
pub open spec fn spec_tick(m: LayoutModel) -> LayoutModel {
    tick_cells_upto(m, m.n())
}

/// The engine state after consuming one event.
pub open spec fn spec_on_event(m: LayoutModel, e: Event) -> LayoutModel {
    match e {
        Event::Press(i, j) => spec_press(m, i, j),
        Event::Release(i, j) => spec_release(m, i, j),
    }
}

/// The key state a coordinate reaches when its pending hold-tap is
/// resolved as a hold, given the number of layers of the table.
pub open spec fn hold_resolution(st: KeyState, nlayers: int) -> KeyState {
    match st {
        KeyState::Pending { hold, .. } => match hold {
            KeyEffect::Nothing => KeyState::Idle,
            KeyEffect::EmitKey(kc) => KeyState::HeldKey(kc),
            KeyEffect::ActivateLayer(l) => if l < nlayers {
                KeyState::HeldLayer(l)
            } else {
                KeyState::Idle
            },
        },
        _ => st,
    }
}

/// Hold-tap, tap rule: a release that arrives while the hold-tap is
/// still pending resolves it as a tap - its tap key code joins the
/// active set at once, and the coordinate flashes until the next
/// tick.
pub proof fn lemma_holdtap_tap_on_release(m: LayoutModel, i: u8, j: u8, kc: u8)
    requires
        m.wf(),
        i < m.rows,
        j < m.cols,
        m.key_states[i as int * m.cols as int + j as int] matches KeyState::Pending {
            tap: KeyEffect::EmitKey(t),
            ..
        } && t == kc,
    ensures
        spec_release(m, i, j).active_keys == m.active_keys.push(kc),
        spec_release(m, i, j).key_states[i as int * m.cols as int + j as int]
            == KeyState::TapFlash(kc),
{
    lemma_cell_index_bound(m.rows as int, m.cols as int, i as int, j as int);
}

/// Hold-tap, timeout rule: the tick that reaches a pending hold-tap's
/// timeout resolves it as a hold - its hold key code joins the active
/// set and stays held by the coordinate.
pub proof fn lemma_holdtap_hold_on_deadline(m: LayoutModel, c: int, kc: u8)
    requires
        0 <= c < m.key_states.len(),
        m.key_states[c] matches KeyState::Pending { elapsed, timeout, hold, .. } && hold
            == KeyEffect::EmitKey(kc) && elapsed + 1 >= timeout,
    ensures
        tick_cell(m, c).active_keys == m.active_keys.push(kc),
        tick_cell(m, c).key_states[c] == KeyState::HeldKey(kc),
{
}

/// The key state one tick leaves a coordinate in: a tap flash clears,
/// a pending hold-tap advances or resolves at its timeout, anything
/// else stays.
pub open spec fn tick_state(st: KeyState, nlayers: int) -> KeyState {
    match st {
        KeyState::TapFlash(_) => KeyState::Idle,
        KeyState::Pending { elapsed, timeout, hold, tap } => if elapsed + 1 >= timeout {
            hold_resolution(st, nlayers)
        } else {
            KeyState::Pending { elapsed: (elapsed + 1) as u16, timeout, hold, tap }
        },
        _ => st,
    }
}

proof fn lemma_tick_cells_frame(m: LayoutModel, k: int)
    requires
        k <= m.key_states.len(),
    ensures
        tick_cells_upto(m, k).rows == m.rows,
        tick_cells_upto(m, k).cols == m.cols,
        tick_cells_upto(m, k).layers == m.layers,
        tick_cells_upto(m, k).key_states.len() == m.key_states.len(),
        forall|c: int|
            k <= c < m.key_states.len() ==> tick_cells_upto(m, k).key_states[c]
                == m.key_states[c],
    decreases k,
{
    if k > 0 {
        lemma_tick_cells_frame(m, k - 1);
    }
}

proof fn lemma_tick_cells_cell(m: LayoutModel, k: int, c: int)
    requires
        0 <= c < k <= m.key_states.len(),
    ensures
        tick_cells_upto(m, k).key_states[c] == tick_state(
            m.key_states[c],
            m.layers.len() as int,
        ),
    decreases k,
{
    lemma_tick_cells_frame(m, k - 1);
    if c == k - 1 {
        lemma_tick_cells_frame(m, k);
    } else {
        lemma_tick_cells_cell(m, k - 1, c);
    }
}

/// Hold-tap, timeout rule over a whole tick: the tick that reaches a
/// pending hold-tap's timeout leaves its coordinate holding the hold
/// key code.
pub proof fn lemma_tick_resolves_hold_at_timeout(m: LayoutModel, c: int, kc: u8)
    requires
        m.wf(),
        0 <= c < m.key_states.len(),
        m.key_states[c] matches KeyState::Pending { elapsed, timeout, hold, .. } && hold
            == KeyEffect::EmitKey(kc) && elapsed + 1 >= timeout,
    ensures
        spec_tick(m).key_states[c] == KeyState::HeldKey(kc),
{
    lemma_tick_cells_cell(m, m.n(), c);
}

/// A tap flash clears on the very next tick: the tapped code leaves
/// the active set and the coordinate returns to idle.
pub proof fn lemma_tapflash_clears_on_tick(m: LayoutModel, c: int, kc: u8)
    requires
        0 <= c < m.key_states.len(),
        m.key_states[c] == KeyState::TapFlash(kc),
    ensures
        tick_cell(m, c).active_keys == remove_first_code(m.active_keys, kc),
        tick_cell(m, c).key_states[c] == KeyState::Idle,
{
}

proof fn lemma_resolve_pendings_frame(m: LayoutModel, skip: int, k: int)
    requires
        k <= m.key_states.len(),
    ensures
        resolve_pendings_upto(m, skip, k).rows == m.rows,
        resolve_pendings_upto(m, skip, k).cols == m.cols,
        resolve_pendings_upto(m, skip, k).layers == m.layers,
        resolve_pendings_upto(m, skip, k).key_states.len() == m.key_states.len(),
        forall|c: int|
            0 <= c < m.key_states.len() && (c >= k || c == skip) ==> resolve_pendings_upto(
                m,
                skip,
                k,
            ).key_states[c] == m.key_states[c],
        m.active_keys.is_prefix_of(resolve_pendings_upto(m, skip, k).active_keys),
        m.overlays.is_prefix_of(resolve_pendings_upto(m, skip, k).overlays),
    decreases k,
{
    if k <= 0 {
        assert(m.active_keys.is_prefix_of(m.active_keys));
        assert(m.overlays.is_prefix_of(m.overlays));
    } else {
        lemma_resolve_pendings_frame(m, skip, k - 1);
        let prev = resolve_pendings_upto(m, skip, k - 1);
        let cur = resolve_pendings_upto(m, skip, k);
        assert(prev.active_keys.is_prefix_of(cur.active_keys));
        assert(m.active_keys.is_prefix_of(cur.active_keys));
        assert(m.overlays.is_prefix_of(cur.overlays));
    }
}

proof fn lemma_resolve_pendings_resolves(m: LayoutModel, skip: int, k: int, c: int)
    requires
        0 <= c < k,
        c != skip,
        k <= m.key_states.len(),
    ensures
        resolve_pendings_upto(m, skip, k).key_states[c] == hold_resolution(
            m.key_states[c],
            m.layers.len() as int,
        ),
        m.key_states[c] matches KeyState::Pending { hold: KeyEffect::EmitKey(kc), .. }
            ==> resolve_pendings_upto(m, skip, k).active_keys.contains(kc),
    decreases k,
{
    lemma_resolve_pendings_frame(m, skip, k - 1);
    lemma_resolve_pendings_frame(m, skip, k);
    let prev = resolve_pendings_upto(m, skip, k - 1);
    let cur = resolve_pendings_upto(m, skip, k);
    if c == k - 1 {
        assert(prev.key_states[c] == m.key_states[c]);
        match m.key_states[c] {
            KeyState::Pending { hold: KeyEffect::EmitKey(kc), .. } => {
                assert(cur.active_keys == prev.active_keys.push(kc));
                assert(cur.active_keys[cur.active_keys.len() - 1] == kc);
                assert(cur.active_keys.contains(kc));
            },
            _ => {},
        }
    } else {
        lemma_resolve_pendings_resolves(m, skip, k - 1, c);
        match m.key_states[c] {
            KeyState::Pending { hold: KeyEffect::EmitKey(kc), .. } => {
                assert(prev.active_keys.contains(kc));
                let t = choose|t: int|
                    0 <= t < prev.active_keys.len() && prev.active_keys[t] == kc;
                assert(prev.active_keys.is_prefix_of(cur.active_keys)) by {
                    if k - 1 != skip {
                        assert(cur == apply_hold(prev, k - 1));
                    }
                }
                assert(cur.active_keys[t] == kc);
                assert(cur.active_keys.contains(kc));
            },
            _ => {},
        }
    }
}

/// Hold-tap, interrupt rule: pressing any other key while a hold-tap
/// is pending resolves the pending key as a hold at once, before its
/// timeout - its hold key code joins the active set and stays held by
/// the pending coordinate.
pub proof fn lemma_holdtap_hold_on_interrupt(m: LayoutModel, i: u8, j: u8, c: int, kc: u8)
    requires
        m.wf(),
        i < m.rows,
        j < m.cols,
        0 <= c < m.key_states.len(),
        c != i as int * m.cols as int + j as int,
        m.key_states[c] matches KeyState::Pending { hold, .. } && hold == KeyEffect::EmitKey(kc),
    ensures
        spec_press(m, i, j).key_states[c] == KeyState::HeldKey(kc),
        spec_press(m, i, j).active_keys.contains(kc),
{
    let c2 = i as int * m.cols as int + j as int;
    lemma_cell_index_bound(m.rows as int, m.cols as int, i as int, j as int);
    lemma_resolve_pendings_frame(m, c2, m.n());
    lemma_resolve_pendings_resolves(m, c2, m.n(), c);
    let m1 = resolve_pendings_upto(m, c2, m.n());
    let fin = spec_press(m, i, j);
    assert(m1.key_states[c] == KeyState::HeldKey(kc));
    assert(fin.key_states[c] == KeyState::HeldKey(kc));
    let t = choose|t: int| 0 <= t < m1.active_keys.len() && m1.active_keys[t] == kc;
    assert(fin.active_keys[t] == kc);
    assert(fin.active_keys.contains(kc));
}

proof fn lemma_cell_index_bound(rows: int, cols: int, i: int, j: int)
    requires
        0 <= i < rows,
        0 <= j < cols,
    ensures
        0 <= i * cols + j < rows * cols,
{
    assert(0 <= i * cols + j < rows * cols) by (nonlinear_arith)
        requires
            0 <= i < rows,
            0 <= j < cols,
    ;
}

proof fn lemma_remove_first_code_at(s: Seq<u8>, kc: u8, idx: int)
    requires
        0 <= idx < s.len(),
        s[idx] == kc,
        forall|t: int| 0 <= t < idx ==> s[t] != kc,
    ensures
        remove_first_code(s, kc) == s.remove(idx),
    decreases idx,
{
    if idx == 0 {
        assert(s.remove(0) =~= s.drop_first());
    } else {
        lemma_remove_first_code_at(s.drop_first(), kc, idx - 1);
        assert(seq![s[0]] + s.drop_first().remove(idx - 1) =~= s.remove(idx));
    }
}

proof fn lemma_remove_first_code_absent(s: Seq<u8>, kc: u8)
    requires
        forall|t: int| 0 <= t < s.len() ==> s[t] != kc,
    ensures
        remove_first_code(s, kc) == s,
    decreases s.len(),
{
    if s.len() > 0 {
        lemma_remove_first_code_absent(s.drop_first(), kc);
        assert(seq![s[0]] + s.drop_first() =~= s);
    }
}

proof fn lemma_remove_last_overlay_at(s: Seq<u8>, l: u8, idx: int)
    requires
        0 <= idx < s.len(),
        s[idx] == l,
        forall|t: int| idx < t < s.len() ==> s[t] != l,
    ensures
        remove_last_overlay(s, l) == s.remove(idx),
    decreases s.len(),
{
    if idx == s.len() - 1 {
        assert(s.remove(idx) =~= s.drop_last());
    } else {
        lemma_remove_last_overlay_at(s.drop_last(), l, idx);
        assert(s.drop_last().remove(idx).push(s.last()) =~= s.remove(idx));
    }
}

proof fn lemma_remove_last_overlay_absent(s: Seq<u8>, l: u8)
    requires
        forall|t: int| 0 <= t < s.len() ==> s[t] != l,
    ensures
        remove_last_overlay(s, l) == s,
    decreases s.len(),
{
    if s.len() > 0 {
        lemma_remove_last_overlay_absent(s.drop_last(), l);
        assert(s.drop_last().push(s.last()) =~= s);
    }
}

proof fn lemma_remove_last_overlay_bound(s: Seq<u8>, l: u8, bound: int)
    requires
        forall|t: int| 0 <= t < s.len() ==> s[t] < bound,
    ensures
        forall|t: int|
            0 <= t < remove_last_overlay(s, l).len() ==> remove_last_overlay(s, l)[t] < bound,
        remove_last_overlay(s, l).len() <= s.len(),
    decreases s.len(),
{
    if s.len() > 0 && s.last() != l {
        lemma_remove_last_overlay_bound(s.drop_last(), l, bound);
    }
}

/// Take the first occurrence of `kc` out of the active key list; no
/// occurrence leaves the list unchanged.
fn remove_first_key(keys: &mut Vec<u8>, kc: u8)
    ensures
        final(keys)@ == remove_first_code(old(keys)@, kc),
{
    let mut k: usize = 0;
    while k < keys.len()
        invariant
            k <= keys@.len(),
            keys@ == old(keys)@,
            forall|t: int| 0 <= t < k ==> keys@[t] != kc,
        decreases keys@.len() - k,
    {
        if keys[k] == kc {
            keys.remove(k);
            proof {
                lemma_remove_first_code_at(old(keys)@, kc, k as int);
            }
            return;
        }
        k = k + 1;
    }
    proof {
        lemma_remove_first_code_absent(keys@, kc);
    }
}

/// Take the most recent activation of `l` out of the overlay stack;
/// no occurrence leaves the stack unchanged.
fn remove_last_layer(overlays: &mut Vec<u8>, l: u8)
    ensures
        final(overlays)@ == remove_last_overlay(old(overlays)@, l),
{
    let mut t: usize = overlays.len();
    while t > 0
        invariant
            t <= overlays@.len(),
            overlays@ == old(overlays)@,
            forall|u: int| t <= u < overlays@.len() ==> overlays@[u] != l,
        decreases t,
    {
        t = t - 1;
        if overlays[t] == l {
            overlays.remove(t);
            proof {
                lemma_remove_last_overlay_at(old(overlays)@, l, t as int);
            }
            return;
        }
    }
    proof {
        lemma_remove_last_overlay_absent(overlays@, l);
    }
}

/// The layout engine: layer table, overlay stack, per-coordinate key
/// states, and the active output key codes, all over a `rows x cols`
/// board flattened row-major.
pub struct Layout {
    pub rows: u8,
    pub cols: u8,
    pub layers: Vec<Vec<Action>>,
    pub overlays: Vec<u8>,
    pub key_states: Vec<KeyState>,
    pub active_keys: Vec<u8>,
}

impl View for Layout {
    type V = LayoutModel;

    open spec fn view(&self) -> LayoutModel {
        LayoutModel {
            rows: self.rows,
            cols: self.cols,
            layers: Seq::new(self.layers@.len(), |l: int| self.layers@[l]@),
            overlays: self.overlays@,
            key_states: self.key_states@,
            active_keys: self.active_keys@,
        }
    }
}

impl Layout {
    /// A fresh engine over the given layer table: no overlay active,
    /// every key idle, no active key code.
    pub fn new(rows: u8, cols: u8, layers: Vec<Vec<Action>>) -> (l: Layout)
        requires
            1 <= layers@.len() <= 256,
            forall|t: int|
                0 <= t < layers@.len() ==> (#[trigger] layers@[t])@.len() == rows as int
                    * cols as int,
        ensures
            l@.wf(),
            l.rows == rows,
            l.cols == cols,
            l.layers == layers,
            l@.overlays == Seq::<u8>::empty(),
            l@.active_keys == Seq::<u8>::empty(),
            l@.key_states.len() == l@.n(),
            forall|c: int| 0 <= c < l@.n() ==> l@.key_states[c] is Idle,
    {
        proof {
            lemma_mul_upper_bound(rows as int, 255, cols as int, 255);
        }
        let n = (rows as usize) * (cols as usize);
        let mut key_states: Vec<KeyState> = Vec::new();
        let mut k: usize = 0;
        while k < n
            invariant
                k <= n,
                key_states@.len() == k,
                forall|c: int| 0 <= c < k ==> key_states@[c] is Idle,
            decreases n - k,
        {
            key_states.push(KeyState::Idle);
            k = k + 1;
        }
        Layout {
            rows,
            cols,
            layers,
            overlays: Vec::new(),
            key_states,
            active_keys: Vec::new(),
        }
    }

    /// The binding the layer table yields for coordinate `c` under the
    /// currently active overlays.
    fn lookup_binding(&self, c: usize) -> (b: Binding)
        requires
            self@.wf(),
            c < self@.n(),
        ensures
            b == spec_binding_of(spec_lookup(self@.layers, self@.overlays, c as int)),
    {
        let mut t: usize = self.overlays.len();
        proof {
            assert(self@.overlays.subrange(0, self.overlays@.len() as int) =~= self@.overlays);
        }
        while t > 0
            invariant
                t <= self.overlays@.len(),
                self@.wf(),
                c < self@.n(),
                spec_lookup(self@.layers, self@.overlays, c as int) == spec_lookup(
                    self@.layers,
                    self@.overlays.subrange(0, t as int),
                    c as int,
                ),
            decreases t,
        {
            t = t - 1;
            let l = self.overlays[t];
            proof {
                assert(self@.overlays.subrange(0, t as int + 1).drop_last() =~= self@
                    .overlays.subrange(0, t as int));
                assert(self@.overlays.subrange(0, t as int + 1).last() == self@.overlays[t as int]);
            }
            let a = &self.layers[l as usize][c];
            if !(matches!(a, Action::Trans)) {
                return binding_of(a);
            }
        }
        proof {
            assert(self@.overlays.subrange(0, 0) =~= Seq::<u8>::empty());
        }
        let a = &self.layers[0][c];
        if matches!(a, Action::Trans) {
            Binding::Silent
        } else {
            binding_of(a)
        }
    }

    /// Resolve the pending hold-tap at coordinate `c`, if any, to its
    /// hold effect.
    fn apply_hold_at(&mut self, c: usize)
        requires
            old(self)@.wf(),
            c < old(self)@.n(),
        ensures
            final(self)@ == apply_hold(old(self)@, c as int),
            final(self)@.wf(),
            final(self).rows == old(self).rows,
            final(self).cols == old(self).cols,
            final(self).layers == old(self).layers,
    {
        let st = self.key_states[c];
        match st {
            KeyState::Pending { hold, .. } => {
                match hold {
                    KeyEffect::Nothing => {
                        self.key_states[c] = KeyState::Idle;
                    },
                    KeyEffect::EmitKey(kc) => {
                        self.key_states[c] = KeyState::HeldKey(kc);
                        self.active_keys.push(kc);
                    },
                    KeyEffect::ActivateLayer(l) => {
                        if (l as usize) < self.layers.len() {
                            self.key_states[c] = KeyState::HeldLayer(l);
                            self.overlays.push(l);
                        } else {
                            self.key_states[c] = KeyState::Idle;
                        }
                    },
                }
            },
            _ => {},
        }
        proof {
            assert(self@ =~= apply_hold(old(self)@, c as int));
        }
    }

    /// Consume one event: a press resolves every other pending
    /// hold-tap as a hold and then applies the pressed coordinate's
    /// binding; a release undoes what the coordinate holds, resolving
    /// a pending hold-tap as a tap.
    pub fn on_event(&mut self, e: Event)
        requires
            old(self)@.wf(),
        ensures
            final(self)@.wf(),
            final(self)@ == spec_on_event(old(self)@, e),
            final(self).rows == old(self).rows,
            final(self).cols == old(self).cols,
            final(self).layers == old(self).layers,
    {
        match e {
            Event::Press(i, j) => self.press(i, j),
            Event::Release(i, j) => self.release(i, j),
        }
    }

    fn press(&mut self, i: u8, j: u8)
        requires
            old(self)@.wf(),
        ensures
            final(self)@.wf(),
            final(self)@ == spec_press(old(self)@, i, j),
            final(self).rows == old(self).rows,
            final(self).cols == old(self).cols,
            final(self).layers == old(self).layers,
    {
        if i >= self.rows || j >= self.cols {
            return;
        }
        proof {
            lemma_cell_index_bound(self.rows as int, self.cols as int, i as int, j as int);
            lemma_mul_upper_bound(i as int, 255, self.cols as int, 255);
            lemma_mul_upper_bound(self.rows as int, 255, self.cols as int, 255);
        }
        let cols = self.cols as usize;
        let c = (i as usize) * cols + (j as usize);
        let n = (self.rows as usize) * cols;
        let mut k: usize = 0;
        while k < n
            invariant
                k <= n,
                n == old(self)@.n(),
                c < n,
                c == i as int * old(self).cols as int + j as int,
                self@ == resolve_pendings_upto(old(self)@, c as int, k as int),
                self@.wf(),
                self.rows == old(self).rows,
                self.cols == old(self).cols,
                self.layers == old(self).layers,
            decreases n - k,
        {
            if k != c {
                let st = self.key_states[k];
                if matches!(st, KeyState::Pending { .. }) {
                    self.apply_hold_at(k);
                } else {
                    proof {
                        assert(apply_hold(self@, k as int) == self@);
                    }
                }
            }
            k = k + 1;
        }
        if matches!(self.key_states[c], KeyState::Idle) {
            let b = self.lookup_binding(c);
            match b {
                Binding::Silent => {},
                Binding::Emit(kc) => {
                    self.key_states[c] = KeyState::HeldKey(kc);
                    self.active_keys.push(kc);
                },
                Binding::Overlay(l) => {
                    if (l as usize) < self.layers.len() {
                        self.key_states[c] = KeyState::HeldLayer(l);
                        self.overlays.push(l);
                    }
                },
                Binding::Deferred(timeout, hold, tap) => {
                    self.key_states[c] = KeyState::Pending { elapsed: 0, timeout, hold, tap };
                },
            }
        }
        proof {
            assert(self@ =~= spec_press(old(self)@, i, j));
        }
    }

    fn release(&mut self, i: u8, j: u8)
        requires
            old(self)@.wf(),
        ensures
            final(self)@.wf(),
            final(self)@ == spec_release(old(self)@, i, j),
            final(self).rows == old(self).rows,
            final(self).cols == old(self).cols,
            final(self).layers == old(self).layers,
    {
        if i >= self.rows || j >= self.cols {
            return;
        }
        proof {
            lemma_cell_index_bound(self.rows as int, self.cols as int, i as int, j as int);
            lemma_mul_upper_bound(i as int, 255, self.cols as int, 255);
        }
        let cols = self.cols as usize;
        let c = (i as usize) * cols + (j as usize);
        let st = self.key_states[c];
        match st {
            KeyState::HeldKey(kc) => {
                self.key_states[c] = KeyState::Idle;
                remove_first_key(&mut self.active_keys, kc);
            },
            KeyState::HeldLayer(l) => {
                self.key_states[c] = KeyState::Idle;
                remove_last_layer(&mut self.overlays, l);
                proof {
                    lemma_remove_last_overlay_bound(
                        old(self)@.overlays,
                        l,
                        old(self)@.layers.len() as int,
                    );
                }
            },
            KeyState::Pending { tap, .. } => {
                match tap {
                    KeyEffect::EmitKey(kc) => {
                        self.key_states[c] = KeyState::TapFlash(kc);
                        self.active_keys.push(kc);
                    },
                    _ => {
                        self.key_states[c] = KeyState::Idle;
                    },
                }
            },
            _ => {},
        }
        proof {
            assert(self@ =~= spec_release(old(self)@, i, j));
        }
    }

    /// One timer tick with no event: every tap flash clears and every
    /// pending hold-tap advances, resolving to its hold effect when
    /// its timeout is reached, in row-major order.
    pub fn on_tick(&mut self)
        requires
            old(self)@.wf(),
        ensures
            final(self)@.wf(),
            final(self)@ == spec_tick(old(self)@),
            final(self).rows == old(self).rows,
            final(self).cols == old(self).cols,
            final(self).layers == old(self).layers,
    {
        proof {
            lemma_mul_upper_bound(self.rows as int, 255, self.cols as int, 255);
        }
        let n = (self.rows as usize) * (self.cols as usize);
        let mut k: usize = 0;
        while k < n
            invariant
                k <= n,
                n == old(self)@.n(),
                self@ == tick_cells_upto(old(self)@, k as int),
                self@.wf(),
                self.rows == old(self).rows,
                self.cols == old(self).cols,
                self.layers == old(self).layers,
            decreases n - k,
        {
            let ghost pre = self@;
            let st = self.key_states[k];
            match st {
                KeyState::TapFlash(kc) => {
                    self.key_states[k] = KeyState::Idle;
                    remove_first_key(&mut self.active_keys, kc);
                    proof {
                        assert(self@ =~= tick_cell(pre, k as int));
                    }
                },
                KeyState::Pending { elapsed, timeout, hold, tap } => {
                    if elapsed + 1 >= timeout {
                        self.apply_hold_at(k);
                        proof {
                            assert(self@ =~= tick_cell(pre, k as int));
                        }
                    } else {
                        self.key_states[k] = KeyState::Pending {
                            elapsed: elapsed + 1,
                            timeout,
                            hold,
                            tap,
                        };
                        proof {
                            assert(self@ =~= tick_cell(pre, k as int));
                        }
                    }
                },
                _ => {
                    proof {
                        assert(self@ =~= tick_cell(pre, k as int));
                    }
                },
            }
            k = k + 1;
        }
    }

    /// The active output key codes, in activation order, oldest first.
    pub fn active_codes(&self) -> (v: Vec<u8>)
        ensures
            v@ == self@.active_keys,
    {
        let mut v: Vec<u8> = Vec::new();
        let mut k: usize = 0;
        while k < self.active_keys.len()
            invariant
                k <= self.active_keys@.len(),
                v@ == self.active_keys@.subrange(0, k as int),
            decreases self.active_keys@.len() - k,
        {
            v.push(self.active_keys[k]);
            proof {
                assert(v@ =~= self.active_keys@.subrange(0, k as int + 1));
            }
            k = k + 1;
        }
        proof {
            assert(self.active_keys@.subrange(0, self.active_keys@.len() as int) =~= self
                .active_keys@);
        }
        v
    }
}

} // verus!
