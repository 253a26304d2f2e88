use vstd::prelude::*;

use crate::action::Action;
use crate::action::CustomActions;
use crate::action::HoldTapDef;
use crate::action::SimpleAction;
use crate::action::TieBreak;
use crate::action::action_wf;
use crate::action::simple_wf;
use crate::event::KeyEvent;

verus! {

// The layered state machine at the centre of the pipeline. Each physical
// position is Idle, pressed with its action resolved, or pressed with a
// hold-tap decision pending; momentary and toggled layers live on a stack
// above the permanent base layer. Per tick the engine consumes the tick's
// key events, advances hold-tap timers, and exposes the current keycode set
// plus at most one board-level custom event.

/// One active layer above the base layer.
#[derive(Clone, Copy, PartialEq, Eq, Structural, Debug)]
pub enum LayerEntry {
    /// Pushed by a momentary layer key at `pos`; removed when it releases.
    Momentary { pos: usize, layer: usize },
    /// Toggled persistently; removed by the next toggle press.
    Toggled { layer: usize },
}

/// A pressed hold-tap key whose decision is still pending.
#[derive(Clone, Copy, PartialEq, Eq, Debug)]
pub struct PendingKey {
    pub def: HoldTapDef,
    /// Whole ticks this key has been pending.
    pub elapsed: u16,
}

/// The per-position state of the engine.
#[derive(Clone, Copy, PartialEq, Eq, Debug)]
pub enum KeyState {
    /// Not pressed.
    Idle,
    /// Pressed, resolved, contributing its simple action until release.
    Held(SimpleAction),
    /// Pressed and resolved, but with nothing to contribute (no-op, toggle
    /// and custom keys while held).
    HeldInert,
    /// Pressed, hold-tap decision pending.
    Pending(PendingKey),
    /// Released hold-tap key that resolved to tap: its tap action is
    /// asserted for exactly this tick.
    TapPulse(SimpleAction),
}

/// Rejections of a layer table at construction.
#[derive(Clone, Copy, PartialEq, Eq, Structural, Debug)]
pub enum ConfigError {
    /// No layers, zero or oversized matrix dimensions, or a layer grid whose
    /// size does not match the matrix.
    BadDimensions,
    /// The base layer contains a Transparent entry, so a lookup could fall
    /// through the bottom of the stack.
    TransparentBase,
    /// An entry activates a layer the table does not have, or carries an
    /// invalid hold-tap definition.
    BadEntry,
}

pub open spec fn entry_layer(e: LayerEntry) -> int {
    match e {
        LayerEntry::Momentary { pos: _, layer } => layer as int,
        LayerEntry::Toggled { layer } => layer as int,
    }
}

pub open spec fn entry_wf(e: LayerEntry, nlayers: int, npos: int) -> bool {
    match e {
        LayerEntry::Momentary { pos, layer } => layer < nlayers && pos < npos,
        LayerEntry::Toggled { layer } => layer < nlayers,
    }
}

pub open spec fn state_wf(st: KeyState, nlayers: int) -> bool {
    match st {
        KeyState::Idle => true,
        KeyState::Held(s) => simple_wf(s, nlayers),
        KeyState::HeldInert => true,
        KeyState::Pending(p) => simple_wf(p.def.hold, nlayers) && simple_wf(p.def.tap, nlayers)
            && p.def.timeout >= 1 && p.elapsed < p.def.timeout,
        KeyState::TapPulse(s) => simple_wf(s, nlayers),
    }
}

/// Looks an action up through the top `i` stack entries, falling through
/// Transparent entries to the next-lower active layer and finally to the
/// base layer. Total: anything out of bounds reads as a no-op.
pub open spec fn lookup_idx(
    layers: Seq<Vec<Action>>,
    stack: Seq<LayerEntry>,
    pos: int,
    i: int,
) -> Action
    decreases i,
{
    if i <= 0 {
        if 0 < layers.len() && 0 <= pos < layers[0]@.len() && !(layers[0]@[pos] is Trans) {
            layers[0]@[pos]
        } else {
            Action::NoOp
        }
    } else {
        let l = entry_layer(stack[i - 1]);
        let a = if 0 <= l < layers.len() && 0 <= pos < layers[l]@.len() {
            layers[l]@[pos]
        } else {
            Action::Trans
        };
        if a is Trans {
            lookup_idx(layers, stack, pos, i - 1)
        } else {
            a
        }
    }
}

/// The action currently bound to a position: lookup through the full stack.
pub open spec fn lookup_action(layers: Seq<Vec<Action>>, stack: Seq<LayerEntry>, pos: int) -> Action {
    lookup_idx(layers, stack, pos, stack.len() as int)
}

/// A layer action takes effect by pushing onto the stack; everything else
/// leaves the stack alone.
pub open spec fn push_if_layer(stack: Seq<LayerEntry>, s: SimpleAction, pos: int) -> Seq<
    LayerEntry,
> {
    match s {
        SimpleAction::Layer(l) => stack.push(LayerEntry::Momentary { pos: pos as usize, layer: l }),
        _ => stack,
    }
}

/// Removing a toggled layer keeps every entry but the toggles of `l`;
/// entries are kept in order.
pub open spec fn remove_toggled_upto(stack: Seq<LayerEntry>, l: int, i: int) -> Seq<LayerEntry>
    decreases i,
{
    if i <= 0 {
        Seq::empty()
    } else {
        let prev = remove_toggled_upto(stack, l, i - 1);
        let e = stack[i - 1];
        if e == (LayerEntry::Toggled { layer: l as usize }) {
            prev
        } else {
            prev.push(e)
        }
    }
}

/// A toggle press: removes the layer if it is toggled on, else toggles it
/// on by pushing it.
pub open spec fn toggle_layer(stack: Seq<LayerEntry>, l: int) -> Seq<LayerEntry> {
    if stack.contains(LayerEntry::Toggled { layer: l as usize }) {
        remove_toggled_upto(stack, l, stack.len() as int)
    } else {
        stack.push(LayerEntry::Toggled { layer: l as usize })
    }
}

/// Releasing a momentary layer key removes exactly the entries it pushed,
/// in order.
pub open spec fn remove_momentary_upto(stack: Seq<LayerEntry>, pos: int, i: int) -> Seq<LayerEntry>
    decreases i,
{
    if i <= 0 {
        Seq::empty()
    } else {
        let prev = remove_momentary_upto(stack, pos, i - 1);
        let e = stack[i - 1];
        match e {
            LayerEntry::Momentary { pos: p, layer: _ } => if p == pos {
                prev
            } else {
                prev.push(e)
            },
            LayerEntry::Toggled { layer: _ } => prev.push(e),
        }
    }
}

/// A press at `pos_pressed` is watched by every other pending hold-tap
/// key: one watch entry (pending position, pressed coordinate) per pending,
/// in position order. The permissive-hold tie-break fires on the release of
/// any watched coordinate.
pub open spec fn add_watches_upto(
    states: Seq<KeyState>,
    watches: Seq<(usize, (u8, u8))>,
    coord: (u8, u8),
    pos_pressed: int,
    q_end: int,
) -> Seq<(usize, (u8, u8))>
    decreases q_end,
{
    if q_end <= 0 {
        watches
    } else {
        let prev = add_watches_upto(states, watches, coord, pos_pressed, q_end - 1);
        let q = q_end - 1;
        if q != pos_pressed && states[q] is Pending {
            prev.push((q as usize, coord))
        } else {
            prev
        }
    }
}

/// After a release at `pos` of `coord`, the watch entries that mention
/// either are spent: the released key's press-release cycle is over, and a
/// pending at `pos` is pending no more.
pub open spec fn prune_watches_upto(
    watches: Seq<(usize, (u8, u8))>,
    pos: int,
    coord: (u8, u8),
    i: int,
) -> Seq<(usize, (u8, u8))>
    decreases i,
{
    if i <= 0 {
        Seq::empty()
    } else {
        let prev = prune_watches_upto(watches, pos, coord, i - 1);
        let e = watches[i - 1];
        if e.0 == pos || e.1 == coord {
            prev
        } else {
            prev.push(e)
        }
    }
}

/// Applies the looked-up action of a fresh press at `pos`.
pub open spec fn apply_press(
    layers: Seq<Vec<Action>>,
    states: Seq<KeyState>,
    stack: Seq<LayerEntry>,
    pos: int,
) -> (Seq<KeyState>, Seq<LayerEntry>, Option<CustomActions>) {
    let a = lookup_action(layers, stack, pos);
    match a {
        Action::NoOp => (states.update(pos, KeyState::HeldInert), stack, None),
        Action::Trans => (states.update(pos, KeyState::HeldInert), stack, None),
        Action::Simple(s) => (
            states.update(pos, KeyState::Held(s)),
            push_if_layer(stack, s, pos),
            None,
        ),
        Action::HoldTap(d) => (
            states.update(pos, KeyState::Pending(PendingKey { def: d, elapsed: 0 })),
            stack,
            None,
        ),
        Action::ToggleLayer(l) => (
            states.update(pos, KeyState::HeldInert),
            toggle_layer(stack, l as int),
            None,
        ),
        Action::Custom(ca) => (states.update(pos, KeyState::HeldInert), stack, Some(ca)),
    }
}

/// The permissive-hold tie-break: when the key at `coord` releases, every
/// pending permissive hold-tap that watched `coord` being pressed while it
/// waited resolves to hold, in position order.
pub open spec fn resolve_permissive_upto(
    states: Seq<KeyState>,
    stack: Seq<LayerEntry>,
    watches: Seq<(usize, (u8, u8))>,
    coord: (u8, u8),
    q_end: int,
) -> (Seq<KeyState>, Seq<LayerEntry>)
    decreases q_end,
{
    if q_end <= 0 {
        (states, stack)
    } else {
        let r = resolve_permissive_upto(states, stack, watches, coord, q_end - 1);
        let st1 = r.0;
        let sk1 = r.1;
        let q = q_end - 1;
        match st1[q] {
            KeyState::Pending(p) => if p.def.policy == TieBreak::PermissiveHold
                && watches.contains((q as usize, coord)) {
                (st1.update(q, KeyState::Held(p.def.hold)), push_if_layer(sk1, p.def.hold, q))
            } else {
                (st1, sk1)
            },
            _ => (st1, sk1),
        }
    }
}

/// Applies a release at `pos`: a resolved key undoes its effect, a pending
/// hold-tap resolves to tap and pulses its tap action for this tick.
pub open spec fn apply_release(
    states: Seq<KeyState>,
    stack: Seq<LayerEntry>,
    pos: int,
) -> (Seq<KeyState>, Seq<LayerEntry>) {
    match states[pos] {
        KeyState::Idle => (states, stack),
        KeyState::HeldInert => (states.update(pos, KeyState::Idle), stack),
        KeyState::Held(s) => match s {
            SimpleAction::Layer(_) => (
                states.update(pos, KeyState::Idle),
                remove_momentary_upto(stack, pos, stack.len() as int),
            ),
            _ => (states.update(pos, KeyState::Idle), stack),
        },
        KeyState::Pending(p) => (states.update(pos, KeyState::TapPulse(p.def.tap)), stack),
        KeyState::TapPulse(_) => (states, stack),
    }
}

/// One key event. Events at coordinates outside the matrix are ignored; a
/// press is acted on only from Idle, a stray release of an idle key does
/// nothing.
pub open spec fn step_event(
    layers: Seq<Vec<Action>>,
    rows: int,
    cols: int,
    states: Seq<KeyState>,
    stack: Seq<LayerEntry>,
    watches: Seq<(usize, (u8, u8))>,
    e: KeyEvent,
) -> (Seq<KeyState>, Seq<LayerEntry>, Seq<(usize, (u8, u8))>, Option<CustomActions>) {
    let coord = e.coord_spec();
    let pos = coord.0 * cols + coord.1;
    if coord.0 < rows && coord.1 < cols {
        if e.is_press() {
            if states[pos] is Idle {
                let w1 = add_watches_upto(states, watches, coord, pos, states.len() as int);
                let r = apply_press(layers, states, stack, pos);
                (r.0, r.1, w1, r.2)
            } else {
                (states, stack, watches, None)
            }
        } else {
            let r = resolve_permissive_upto(states, stack, watches, coord, states.len() as int);
            let w1 = prune_watches_upto(watches, pos, coord, watches.len() as int);
            let rel = apply_release(r.0, r.1, pos);
            (rel.0, rel.1, w1, None)
        }
    } else {
        (states, stack, watches, None)
    }
}

/// All events of one tick, in order. When several presses fire custom
/// actions in one tick, the last one processed is the one reported.
pub open spec fn process_events(
    layers: Seq<Vec<Action>>,
    rows: int,
    cols: int,
    states: Seq<KeyState>,
    stack: Seq<LayerEntry>,
    watches: Seq<(usize, (u8, u8))>,
    events: Seq<KeyEvent>,
) -> (Seq<KeyState>, Seq<LayerEntry>, Seq<(usize, (u8, u8))>, Option<CustomActions>)
    decreases events.len(),
{
    if events.len() == 0 {
        (states, stack, watches, None)
    } else {
        let r1 = process_events(layers, rows, cols, states, stack, watches, events.drop_last());
        let r2 = step_event(layers, rows, cols, r1.0, r1.1, r1.2, events.last());
        (r2.0, r2.1, r2.2, if r2.3 is Some {
            r2.3
        } else {
            r1.3
        })
    }
}

/// Advances the hold-tap timers of positions [0, q_end) by one tick: a
/// pending key whose timeout elapses resolves to hold.
pub open spec fn advance_timers_upto(
    states: Seq<KeyState>,
    stack: Seq<LayerEntry>,
    q_end: int,
) -> (Seq<KeyState>, Seq<LayerEntry>)
    decreases q_end,
{
    if q_end <= 0 {
        (states, stack)
    } else {
        let r = advance_timers_upto(states, stack, q_end - 1);
        let st1 = r.0;
        let sk1 = r.1;
        let q = q_end - 1;
        match st1[q] {
            KeyState::Pending(p) => if p.elapsed + 1 >= p.def.timeout {
                (st1.update(q, KeyState::Held(p.def.hold)), push_if_layer(sk1, p.def.hold, q))
            } else {
                (
                    st1.update(
                        q,
                        KeyState::Pending(PendingKey { def: p.def, elapsed: (p.elapsed + 1) as u16 }),
                    ),
                    sk1,
                )
            },
            _ => (st1, sk1),
        }
    }
}

/// The previous tick's tap pulses have had their one tick: back to Idle.
pub open spec fn clear_pulses(states: Seq<KeyState>) -> Seq<KeyState> {
    states.map(
        |q: int, st: KeyState|
            match st {
                KeyState::TapPulse(_) => KeyState::Idle,
                _ => st,
            },
    )
}

/// The keycodes a position currently contributes.
pub open spec fn state_keycodes(st: KeyState) -> Seq<u8> {
    match st {
        KeyState::Held(s) => s.keycodes_spec(),
        KeyState::TapPulse(s) => s.keycodes_spec(),
        _ => Seq::empty(),
    }
}

/// The engine's current keycodes: contributions of positions [0, p_end) in
/// position order, duplicates included (the report deduplicates).
pub open spec fn keycodes_upto(states: Seq<KeyState>, p_end: int) -> Seq<u8>
    decreases p_end,
{
    if p_end <= 0 {
        Seq::empty()
    } else {
        keycodes_upto(states, p_end - 1) + state_keycodes(states[p_end - 1])
    }
}

/// Acceptable matrix dimensions and layer grids.
pub open spec fn dims_ok(rows: int, cols: int, layers: Seq<Vec<Action>>) -> bool {
    &&& 1 <= rows <= 256
    &&& 1 <= cols <= 256
    &&& 1 <= layers.len()
    &&& forall|l: int| 0 <= l < layers.len() ==> (#[trigger] layers[l]@.len()) == rows * cols
}

/// The base layer has no Transparent entries.
pub open spec fn base_ok(layers: Seq<Vec<Action>>, npos: int) -> bool {
    forall|p: int| 0 <= p < npos ==> !((#[trigger] layers[0]@[p]) is Trans)
}

/// Every entry is valid against the table.
pub open spec fn entries_ok(layers: Seq<Vec<Action>>, npos: int) -> bool {
    forall|l: int, p: int|
        0 <= l < layers.len() && 0 <= p < npos ==> action_wf(
            #[trigger] layers[l]@[p],
            layers.len() as int,
        )
}

/// A layer table the engine accepts.
pub open spec fn config_ok(rows: int, cols: int, layers: Seq<Vec<Action>>) -> bool {
    &&& dims_ok(rows, cols, layers)
    &&& base_ok(layers, rows * cols)
    &&& entries_ok(layers, rows * cols)
}

proof fn lemma_pos_bound(rows: int, cols: int)
    requires
        0 <= rows <= 256,
        0 <= cols <= 256,
    ensures
        rows * cols <= 65536,
{
    assert(rows * cols <= 65536) by (nonlinear_arith)
        requires
            0 <= rows <= 256,
            0 <= cols <= 256,
    ;
}

proof fn lemma_coord_pos(r: int, c: int, rows: int, cols: int)
    requires
        0 <= r < rows,
        0 <= c < cols,
    ensures
        0 <= r * cols + c < rows * cols,
{
    assert(0 <= r * cols + c < rows * cols) by (nonlinear_arith)
        requires
            0 <= r < rows,
            0 <= c < cols,
    ;
}

/// Whether a keymap entry is valid for a table of `nlayers` layers.
fn action_ok(a: &Action, nlayers: usize) -> (r: bool)
    ensures
        r == action_wf(*a, nlayers as int),
{
    match a {
        Action::NoOp => true,
        Action::Trans => true,
        Action::Simple(s) => simple_ok(s, nlayers),
        Action::HoldTap(d) => simple_ok(&d.hold, nlayers) && simple_ok(&d.tap, nlayers)
            && d.timeout >= 1,
        Action::ToggleLayer(l) => *l < nlayers,
        Action::Custom(_) => true,
    }
}

/// Whether a simple action is valid for a table of `nlayers` layers.
fn simple_ok(a: &SimpleAction, nlayers: usize) -> (r: bool)
    ensures
        r == simple_wf(*a, nlayers as int),
{
    match a {
        SimpleAction::Key(_) => true,
        SimpleAction::MultipleKeys(ks) => ks.count <= 6,
        SimpleAction::Layer(l) => *l < nlayers,
    }
}

/// A state set with no pending hold-tap decisions and no tap pulses: the
/// engine at rest between gestures.
pub open spec fn quiescent(states: Seq<KeyState>) -> bool {
    forall|p: int|
        0 <= p < states.len() ==> !((#[trigger] states[p]) is Pending) && !(states[p] is TapPulse)
}

/// A keycode is down exactly when some position contributes it.
pub proof fn lemma_keycodes_contains(states: Seq<KeyState>, p_end: int, kc: u8)
    requires
        0 <= p_end <= states.len(),
    ensures
        keycodes_upto(states, p_end).contains(kc) <==> (exists|p: int|
            0 <= p < p_end && state_keycodes(#[trigger] states[p]).contains(kc)),
    decreases p_end,
{
    if p_end > 0 {
        lemma_keycodes_contains(states, p_end - 1, kc);
        let a = keycodes_upto(states, p_end - 1);
        let b = state_keycodes(states[p_end - 1]);
        if (a + b).contains(kc) {
            let i = choose|i: int| 0 <= i < (a + b).len() && (a + b)[i] == kc;
            if i < a.len() {
                assert(a[i] == kc);
            } else {
                assert(b[i - a.len()] == kc);
            }
        }
        if a.contains(kc) {
            let i = choose|i: int| 0 <= i < a.len() && a[i] == kc;
            assert((a + b)[i] == kc);
        }
        if b.contains(kc) {
            let i = choose|i: int| 0 <= i < b.len() && b[i] == kc;
            assert((a + b)[a.len() + i] == kc);
        }
    }
}

/// With no tap pulses, clearing pulses changes nothing.
proof fn lemma_clear_pulses_nop(states: Seq<KeyState>)
    requires
        forall|p: int| 0 <= p < states.len() ==> !((#[trigger] states[p]) is TapPulse),
    ensures
        clear_pulses(states) == states,
{
    assert(clear_pulses(states) =~= states);
}

/// With no pending keys, a press adds no watch entries.
proof fn lemma_add_watches_nop(
    states: Seq<KeyState>,
    watches: Seq<(usize, (u8, u8))>,
    coord: (u8, u8),
    pos: int,
    q_end: int,
)
    requires
        forall|p: int| 0 <= p < states.len() ==> !((#[trigger] states[p]) is Pending),
        q_end <= states.len(),
    ensures
        add_watches_upto(states, watches, coord, pos, q_end) == watches,
    decreases q_end,
{
    if q_end > 0 {
        lemma_add_watches_nop(states, watches, coord, pos, q_end - 1);
    }
}

/// With a lone pending key, a press adds exactly its watch entry.
proof fn lemma_add_watches_single(
    states: Seq<KeyState>,
    watches: Seq<(usize, (u8, u8))>,
    coord: (u8, u8),
    pos_pressed: int,
    pos_p: int,
    q_end: int,
)
    requires
        0 <= pos_p < states.len(),
        states[pos_p] is Pending,
        pos_p != pos_pressed,
        forall|q: int| 0 <= q < states.len() && q != pos_p ==> !((#[trigger] states[q]) is Pending),
        q_end <= states.len(),
    ensures
        add_watches_upto(states, watches, coord, pos_pressed, q_end) == (if pos_p < q_end {
            watches.push((pos_p as usize, coord))
        } else {
            watches
        }),
    decreases q_end,
{
    if q_end > 0 {
        lemma_add_watches_single(states, watches, coord, pos_pressed, pos_p, q_end - 1);
    }
}

/// A lone pending at `pos_p` watching `coord` resolves alone; everything
/// else stays.
proof fn lemma_resolve_single(
    states: Seq<KeyState>,
    stack: Seq<LayerEntry>,
    watches: Seq<(usize, (u8, u8))>,
    coord: (u8, u8),
    pos_p: int,
    pk: PendingKey,
    q_end: int,
)
    requires
        0 <= pos_p < states.len(),
        states[pos_p] == KeyState::Pending(pk),
        pk.def.policy == TieBreak::PermissiveHold,
        watches.contains((pos_p as usize, coord)),
        forall|q: int| 0 <= q < states.len() && q != pos_p ==> !((#[trigger] states[q]) is Pending),
        q_end <= states.len(),
    ensures
        pos_p >= q_end ==> resolve_permissive_upto(states, stack, watches, coord, q_end) == (
            states,
            stack,
        ),
        pos_p < q_end ==> resolve_permissive_upto(states, stack, watches, coord, q_end) == (
            states.update(pos_p, KeyState::Held(pk.def.hold)),
            push_if_layer(stack, pk.def.hold, pos_p),
        ),
    decreases q_end,
{
    if q_end > 0 {
        lemma_resolve_single(states, stack, watches, coord, pos_p, pk, q_end - 1);
    }
}

/// With no pending keys, advancing the timers changes nothing.
proof fn lemma_advance_nop(states: Seq<KeyState>, stack: Seq<LayerEntry>, q_end: int)
    requires
        forall|p: int| 0 <= p < states.len() ==> !((#[trigger] states[p]) is Pending),
        q_end <= states.len(),
    ensures
        advance_timers_upto(states, stack, q_end) == (states, stack),
    decreases q_end,
{
    if q_end > 0 {
        lemma_advance_nop(states, stack, q_end - 1);
    }
}

/// When no pending key is a permissive hold watching this coordinate, a
/// release resolves nothing.
proof fn lemma_resolve_nop(
    states: Seq<KeyState>,
    stack: Seq<LayerEntry>,
    watches: Seq<(usize, (u8, u8))>,
    coord: (u8, u8),
    q_end: int,
)
    requires
        forall|p: int|
            0 <= p < states.len() ==> match #[trigger] states[p] {
                KeyState::Pending(pk) => !(pk.def.policy == TieBreak::PermissiveHold
                    && watches.contains((p as usize, coord))),
                _ => true,
            },
        q_end <= states.len(),
    ensures
        resolve_permissive_upto(states, stack, watches, coord, q_end) == (states, stack),
    decreases q_end,
{
    if q_end > 0 {
        lemma_resolve_nop(states, stack, watches, coord, q_end - 1);
    }
}

/// The engine after `m` ticks with no key events at all.
pub open spec fn run_empty_ticks(
    layers: Seq<Vec<Action>>,
    rows: int,
    cols: int,
    states: Seq<KeyState>,
    stack: Seq<LayerEntry>,
    watches: Seq<(usize, (u8, u8))>,
    m: int,
) -> (Seq<KeyState>, Seq<LayerEntry>, Seq<(usize, (u8, u8))>)
    decreases m,
{
    if m <= 0 {
        (states, stack, watches)
    } else {
        let prev = run_empty_ticks(layers, rows, cols, states, stack, watches, m - 1);
        let t = spec_tick_parts(layers, rows, cols, prev.0, prev.1, prev.2, Seq::empty());
        (t.0, t.1, t.2)
    }
}

/// Advancing the timers when exactly one position is pending: only that
/// position moves, to a higher count or to its hold resolution.
proof fn lemma_advance_single(
    states: Seq<KeyState>,
    stack: Seq<LayerEntry>,
    pos: int,
    pk: PendingKey,
    q_end: int,
)
    requires
        0 <= pos < states.len(),
        states[pos] == KeyState::Pending(pk),
        forall|q: int| 0 <= q < states.len() && q != pos ==> !((#[trigger] states[q]) is Pending),
        q_end <= states.len(),
    ensures
        pos >= q_end ==> advance_timers_upto(states, stack, q_end) == (states, stack),
        pos < q_end && pk.elapsed + 1 < pk.def.timeout ==> advance_timers_upto(states, stack, q_end)
            == (
            states.update(
                pos,
                KeyState::Pending(PendingKey { def: pk.def, elapsed: (pk.elapsed + 1) as u16 }),
            ),
            stack,
        ),
        pos < q_end && pk.elapsed + 1 >= pk.def.timeout ==> advance_timers_upto(
            states,
            stack,
            q_end,
        ) == (states.update(pos, KeyState::Held(pk.def.hold)), push_if_layer(stack, pk.def.hold, pos)),
    decreases q_end,
{
    if q_end > 0 {
        lemma_advance_single(states, stack, pos, pk, q_end - 1);
    }
}

/// A lone pending key just counts while empty ticks pass, as long as its
/// timeout has not elapsed; the watch entries wait with it.
proof fn lemma_pending_wait(
    layers: Seq<Vec<Action>>,
    rows: int,
    cols: int,
    states: Seq<KeyState>,
    stack: Seq<LayerEntry>,
    watches: Seq<(usize, (u8, u8))>,
    pos: int,
    pk: PendingKey,
    m: int,
)
    requires
        0 <= pos < states.len(),
        states[pos] == KeyState::Pending(pk),
        forall|q: int|
            0 <= q < states.len() && q != pos ==> !((#[trigger] states[q]) is Pending) && !(
            states[q] is TapPulse),
        0 <= m,
        pk.elapsed + m < pk.def.timeout,
    ensures
        run_empty_ticks(layers, rows, cols, states, stack, watches, m) == (
            states.update(
                pos,
                KeyState::Pending(PendingKey { def: pk.def, elapsed: (pk.elapsed + m) as u16 }),
            ),
            stack,
            watches,
        ),
    decreases m,
{
    if m == 0 {
        assert(states.update(
            pos,
            KeyState::Pending(PendingKey { def: pk.def, elapsed: (pk.elapsed + 0) as u16 }),
        ) =~= states);
    } else {
        lemma_pending_wait(layers, rows, cols, states, stack, watches, pos, pk, m - 1);
        let pk_prev = PendingKey { def: pk.def, elapsed: (pk.elapsed + m - 1) as u16 };
        let prev_states = states.update(pos, KeyState::Pending(pk_prev));
        assert(forall|q: int| 0 <= q < prev_states.len() ==> !((#[trigger] prev_states[q])
            is TapPulse));
        lemma_clear_pulses_nop(prev_states);
        lemma_advance_single(prev_states, stack, pos, pk_prev, prev_states.len() as int);
        let pk_next = PendingKey { def: pk.def, elapsed: (pk.elapsed + m) as u16 };
        assert(prev_states.update(pos, KeyState::Pending(pk_next)) =~= states.update(
            pos,
            KeyState::Pending(pk_next),
        ));
    }
}

/// Two sequences that agree below `i` remove momentary entries alike.
proof fn lemma_remove_momentary_prefix(a: Seq<LayerEntry>, b: Seq<LayerEntry>, pos: int, i: int)
    requires
        i <= a.len(),
        i <= b.len(),
        forall|j: int| 0 <= j < i ==> a[j] == b[j],
    ensures
        remove_momentary_upto(a, pos, i) == remove_momentary_upto(b, pos, i),
    decreases i,
{
    if i > 0 {
        lemma_remove_momentary_prefix(a, b, pos, i - 1);
    }
}

/// Removing a position's momentary entries from a stack that has none of
/// them leaves the prefix as it was.
proof fn lemma_remove_momentary_nomatch(stack: Seq<LayerEntry>, pos: int, i: int)
    requires
        0 <= i <= stack.len(),
        forall|j: int|
            0 <= j < i ==> match #[trigger] stack[j] {
                LayerEntry::Momentary { pos: p2, layer: _ } => p2 != pos,
                LayerEntry::Toggled { layer: _ } => true,
            },
    ensures
        remove_momentary_upto(stack, pos, i) == stack.take(i),
    decreases i,
{
    if i > 0 {
        lemma_remove_momentary_nomatch(stack, pos, i - 1);
        assert(stack.take(i) =~= stack.take(i - 1).push(stack[i - 1]));
    }
}

/// The layered state machine.
pub struct Layout {
    pub rows: usize,
    pub cols: usize,
    /// The static keymap: one action grid per layer, layer 0 the base.
    pub layers: Vec<Vec<Action>>,
    /// Per-position run-time state, position = row * cols + column.
    pub states: Vec<KeyState>,
    /// Active layers above the base, bottom to top.
    pub stack: Vec<LayerEntry>,
    /// Watch entries of the permissive-hold tie-break: (pending position,
    /// coordinate pressed while it was pending). The release of a watched
    /// coordinate resolves that pending key to hold.
    pub watches: Vec<(usize, (u8, u8))>,
    /// This tick's events, waiting for `tick`.
    pub queued: Vec<KeyEvent>,
}

/// What one whole tick does to the engine's state, given the events queued
/// for it: clear the previous tick's tap pulses, process the events in
/// order, then advance the hold-tap timers.
pub open spec fn spec_tick_parts(
    layers: Seq<Vec<Action>>,
    rows: int,
    cols: int,
    states: Seq<KeyState>,
    stack: Seq<LayerEntry>,
    watches: Seq<(usize, (u8, u8))>,
    queued: Seq<KeyEvent>,
) -> (Seq<KeyState>, Seq<LayerEntry>, Seq<(usize, (u8, u8))>, Option<CustomActions>) {
    let st0 = clear_pulses(states);
    let r1 = process_events(layers, rows, cols, st0, stack, watches, queued);
    let r2 = advance_timers_upto(r1.0, r1.1, r1.0.len() as int);
    (r2.0, r2.1, r1.2, r1.3)
}

/// `spec_tick_parts` applied to an engine value.
pub open spec fn spec_tick(lo: Layout) -> (
    Seq<KeyState>,
    Seq<LayerEntry>,
    Seq<(usize, (u8, u8))>,
    Option<CustomActions>,
) {
    spec_tick_parts(
        lo.layers@,
        lo.rows as int,
        lo.cols as int,
        lo.states@,
        lo.stack@,
        lo.watches@,
        lo.queued@,
    )
}

impl Layout {
    pub open spec fn npos(self) -> int {
        self.rows * self.cols
    }

    pub open spec fn wf(self) -> bool {
        &&& 1 <= self.rows <= 256
        &&& 1 <= self.cols <= 256
        &&& 1 <= self.layers@.len()
        &&& self.states@.len() == self.npos()
        &&& forall|l: int| 0 <= l < self.layers@.len() ==> (#[trigger] self.layers@[l]@.len())
            == self.npos()
        &&& forall|l: int, p: int|
            0 <= l < self.layers@.len() && 0 <= p < self.npos() ==> action_wf(
                #[trigger] self.layers@[l]@[p],
                self.layers@.len() as int,
            )
        &&& forall|p: int| 0 <= p < self.npos() ==> !((#[trigger] self.layers@[0]@[p]) is Trans)
        &&& forall|i: int| 0 <= i < self.stack@.len() ==> entry_wf(
            #[trigger] self.stack@[i],
            self.layers@.len() as int,
            self.npos(),
        )
        &&& forall|p: int| 0 <= p < self.states@.len() ==> state_wf(
            #[trigger] self.states@[p],
            self.layers@.len() as int,
        )
    }

    /// Builds the engine from its static configuration, validating it:
    /// every layer grid must match the matrix, the base layer must not be
    /// transparent, and every entry must refer to an existing layer. All
    /// positions start Idle, the stack empty, the queue empty.
    pub fn new(rows: usize, cols: usize, layers: Vec<Vec<Action>>) -> (r: Result<
        Layout,
        ConfigError,
    >)
        ensures
            r is Ok <==> config_ok(rows as int, cols as int, layers@),
            r == Err::<Layout, ConfigError>(ConfigError::BadDimensions) <==> !dims_ok(
                rows as int,
                cols as int,
                layers@,
            ),
            r == Err::<Layout, ConfigError>(ConfigError::TransparentBase) <==> (dims_ok(
                rows as int,
                cols as int,
                layers@,
            ) && !base_ok(layers@, rows as int * cols as int)),
            r is Ok ==> {
                let lo = r->Ok_0;
                &&& lo.wf()
                &&& lo.rows == rows
                &&& lo.cols == cols
                &&& lo.layers == layers
                &&& lo.stack@.len() == 0
                &&& lo.watches@.len() == 0
                &&& lo.queued@.len() == 0
                &&& forall|p: int| 0 <= p < lo.states@.len() ==> lo.states@[p] == KeyState::Idle
            },
    {
        if rows < 1 || rows > 256 || cols < 1 || cols > 256 || layers.len() < 1 {
            return Err(ConfigError::BadDimensions);
        }
        proof {
            lemma_pos_bound(rows as int, cols as int);
        }
        let npos = rows * cols;
        let nlayers = layers.len();
        let mut l: usize = 0;
        while l < nlayers
            invariant
                nlayers == layers@.len(),
                npos == rows * cols,
                1 <= rows <= 256,
                1 <= cols <= 256,
                1 <= nlayers,
                l <= nlayers,
                forall|k: int| 0 <= k < l ==> (#[trigger] layers@[k]@.len()) == rows * cols,
            decreases nlayers - l,
        {
            if layers[l].len() != npos {
                proof {
                    assert(layers@[l as int]@.len() != rows * cols);
                }
                return Err(ConfigError::BadDimensions);
            }
            l = l + 1;
        }
        proof {
            assert(dims_ok(rows as int, cols as int, layers@));
        }
        let mut p: usize = 0;
        while p < npos
            invariant
                npos == rows * cols,
                dims_ok(rows as int, cols as int, layers@),
                layers@[0]@.len() == npos,
                p <= npos,
                forall|q: int| 0 <= q < p ==> !((#[trigger] layers@[0]@[q]) is Trans),
            decreases npos - p,
        {
            if matches!(layers[0][p], Action::Trans) {
                proof {
                    assert((layers@[0]@[p as int]) is Trans);
                }
                return Err(ConfigError::TransparentBase);
            }
            p = p + 1;
        }
        proof {
            assert(base_ok(layers@, rows as int * cols as int));
        }
        let mut l: usize = 0;
        while l < nlayers
            invariant
                nlayers == layers@.len(),
                npos == rows * cols,
                dims_ok(rows as int, cols as int, layers@),
                base_ok(layers@, npos as int),
                forall|k: int| 0 <= k < nlayers ==> (#[trigger] layers@[k]@.len()) == npos,
                l <= nlayers,
                forall|k: int, q: int|
                    0 <= k < l && 0 <= q < npos ==> action_wf(
                        #[trigger] layers@[k]@[q],
                        nlayers as int,
                    ),
            decreases nlayers - l,
        {
            let mut p: usize = 0;
            while p < npos
                invariant
                    nlayers == layers@.len(),
                    npos == rows * cols,
                    dims_ok(rows as int, cols as int, layers@),
                    base_ok(layers@, npos as int),
                    l < nlayers,
                    layers@[l as int]@.len() == npos,
                    p <= npos,
                    forall|q: int| 0 <= q < p ==> action_wf(
                        #[trigger] layers@[l as int]@[q],
                        nlayers as int,
                    ),
                decreases npos - p,
            {
                if !action_ok(&layers[l][p], nlayers) {
                    proof {
                        assert(!action_wf(layers@[l as int]@[p as int], nlayers as int));
                    }
                    return Err(ConfigError::BadEntry);
                }
                p = p + 1;
            }
            l = l + 1;
        }
        let mut states: Vec<KeyState> = Vec::new();
        let mut p: usize = 0;
        while p < npos
            invariant
                states@.len() == p,
                p <= npos,
                forall|q: int| 0 <= q < p ==> states@[q] == KeyState::Idle,
            decreases npos - p,
        {
            states.push(KeyState::Idle);
            p = p + 1;
        }
        Ok(
            Layout {
                rows,
                cols,
                layers,
                states,
                stack: Vec::new(),
                watches: Vec::new(),
                queued: Vec::new(),
            },
        )
    }

    /// Queues one key event for this tick's `tick` call.
    pub fn event(&mut self, e: KeyEvent)
        ensures
            final(self).queued@ == old(self).queued@.push(e),
            final(self).rows == old(self).rows,
            final(self).cols == old(self).cols,
            final(self).layers == old(self).layers,
            final(self).states == old(self).states,
            final(self).stack == old(self).stack,
            final(self).watches == old(self).watches,
    {
        self.queued.push(e);
    }

    /// The action currently bound to a position, resolved through the layer
    /// stack and Transparent entries.
    fn lookup(&self, pos: usize) -> (a: Action)
        requires
            self.wf(),
            (pos as int) < self.npos(),
        ensures
            a == lookup_action(self.layers@, self.stack@, pos as int),
            action_wf(a, self.layers@.len() as int),
    {
        let mut i: usize = self.stack.len();
        while i > 0
            invariant
                self.wf(),
                (pos as int) < self.npos(),
                i <= self.stack@.len(),
                lookup_idx(self.layers@, self.stack@, pos as int, i as int) == lookup_action(
                    self.layers@,
                    self.stack@,
                    pos as int,
                ),
            decreases i,
        {
            let e = self.stack[i - 1];
            let l = match e {
                LayerEntry::Momentary { pos: _, layer } => layer,
                LayerEntry::Toggled { layer } => layer,
            };
            proof {
                assert(entry_wf(self.stack@[i - 1], self.layers@.len() as int, self.npos()));
                assert(self.layers@[l as int]@.len() == self.npos());
            }
            let a = self.layers[l][pos];
            if !matches!(a, Action::Trans) {
                proof {
                    assert(a == lookup_idx(self.layers@, self.stack@, pos as int, i as int));
                    assert(action_wf(self.layers@[l as int]@[pos as int], self.layers@.len() as int));
                }
                return a;
            }
            i = i - 1;
        }
        proof {
            assert(self.layers@[0]@.len() == self.npos());
        }
        let a = self.layers[0][pos];
        proof {
            assert(!((self.layers@[0]@[pos as int]) is Trans));
            assert(action_wf(self.layers@[0]@[pos as int], self.layers@.len() as int));
        }
        a
    }

    /// The set of keycodes currently down: every resolved key's and tap
    /// pulse's contribution, in position order. May contain duplicates; the
    /// report builder deduplicates.
    pub fn keycodes(&self) -> (ks: Vec<u8>)
        requires
            self.wf(),
        ensures
            ks@ == keycodes_upto(self.states@, self.states@.len() as int),
    {
        let mut ks: Vec<u8> = Vec::new();
        let n = self.states.len();
        let mut p: usize = 0;
        while p < n
            invariant
                self.wf(),
                n == self.states@.len(),
                p <= n,
                ks@ == keycodes_upto(self.states@, p as int),
            decreases n - p,
        {
            let st = self.states[p];
            match st {
                KeyState::Held(s) => push_simple_keycodes(&mut ks, &s),
                KeyState::TapPulse(s) => push_simple_keycodes(&mut ks, &s),
                _ => {
                    proof {
                        assert(ks@ =~= keycodes_upto(self.states@, p as int) + state_keycodes(
                            self.states@[p as int],
                        ));
                    }
                },
            }
            p += 1;
        }
        ks
    }

    /// Handles one press event at (rr, cc), already known to be in range.
    fn do_press(&mut self, rr: u8, cc: u8) -> (ca: Option<CustomActions>)
        requires
            old(self).wf(),
            (rr as int) < old(self).rows,
            (cc as int) < old(self).cols,
        ensures
            final(self).wf(),
            final(self).rows == old(self).rows,
            final(self).cols == old(self).cols,
            final(self).layers == old(self).layers,
            final(self).queued == old(self).queued,
            final(self).states@.len() == old(self).states@.len(),
            ({
                let r = step_event(
                    old(self).layers@,
                    old(self).rows as int,
                    old(self).cols as int,
                    old(self).states@,
                    old(self).stack@,
                    old(self).watches@,
                    KeyEvent::Press(rr, cc),
                );
                final(self).states@ == r.0 && final(self).stack@ == r.1 && final(self).watches@
                    == r.2 && ca == r.3
            }),
    {
        proof {
            lemma_coord_pos(rr as int, cc as int, self.rows as int, self.cols as int);
            lemma_pos_bound(self.rows as int, self.cols as int);
        }
        let pos = (rr as usize) * self.cols + (cc as usize);
        let st0 = self.states[pos];
        if !matches!(st0, KeyState::Idle) {
            return None;
        }
        let ghost states0 = self.states@;
        let ghost watches0 = self.watches@;
        let n = self.states.len();
        let mut q: usize = 0;
        while q < n
            invariant
                n == self.states@.len(),
                states0 == self.states@,
                q <= n,
                pos < n,
                self.rows == old(self).rows,
                self.cols == old(self).cols,
                self.layers == old(self).layers,
                self.states == old(self).states,
                self.stack == old(self).stack,
                self.queued == old(self).queued,
                old(self).wf(),
                self.watches@ == add_watches_upto(states0, watches0, (rr, cc), pos as int, q as int),
            decreases n - q,
        {
            if q != pos {
                let st = self.states[q];
                if matches!(st, KeyState::Pending(_)) {
                    self.watches.push((q, (rr, cc)));
                }
            }
            q += 1;
        }
        proof {
            assert(self.wf());
        }
        let a = self.lookup(pos);
        match a {
            Action::NoOp => {
                self.states[pos] = KeyState::HeldInert;
                None
            },
            Action::Trans => {
                self.states[pos] = KeyState::HeldInert;
                None
            },
            Action::Simple(s) => {
                self.states[pos] = KeyState::Held(s);
                match s {
                    SimpleAction::Layer(l) => {
                        self.stack.push(LayerEntry::Momentary { pos, layer: l });
                    },
                    _ => {},
                }
                None
            },
            Action::HoldTap(d) => {
                self.states[pos] = KeyState::Pending(PendingKey { def: d, elapsed: 0 });
                None
            },
            Action::ToggleLayer(l) => {
                self.states[pos] = KeyState::HeldInert;
                self.toggle(l);
                None
            },
            Action::Custom(c) => {
                self.states[pos] = KeyState::HeldInert;
                Some(c)
            },
        }
    }

    /// Handles one release event at (rr, cc), already known to be in range.
    fn do_release(&mut self, rr: u8, cc: u8)
        requires
            old(self).wf(),
            (rr as int) < old(self).rows,
            (cc as int) < old(self).cols,
        ensures
            final(self).wf(),
            final(self).rows == old(self).rows,
            final(self).cols == old(self).cols,
            final(self).layers == old(self).layers,
            final(self).queued == old(self).queued,
            final(self).states@.len() == old(self).states@.len(),
            ({
                let r = step_event(
                    old(self).layers@,
                    old(self).rows as int,
                    old(self).cols as int,
                    old(self).states@,
                    old(self).stack@,
                    old(self).watches@,
                    KeyEvent::Release(rr, cc),
                );
                final(self).states@ == r.0 && final(self).stack@ == r.1 && final(self).watches@
                    == r.2
            }),
    {
        proof {
            lemma_coord_pos(rr as int, cc as int, self.rows as int, self.cols as int);
            lemma_pos_bound(self.rows as int, self.cols as int);
        }
        let pos = (rr as usize) * self.cols + (cc as usize);
        let ghost states0 = self.states@;
        let ghost stack0 = self.stack@;
        let ghost watches0 = self.watches@;
        let n = self.states.len();
        let mut q: usize = 0;
        while q < n
            invariant
                n == self.states@.len(),
                states0.len() == n,
                q <= n,
                pos < n,
                self.rows == old(self).rows,
                self.cols == old(self).cols,
                self.layers == old(self).layers,
                self.queued == old(self).queued,
                self.watches == old(self).watches,
                watches0 == self.watches@,
                old(self).wf(),
                self.wf(),
                self.states@ == resolve_permissive_upto(
                    states0,
                    stack0,
                    watches0,
                    (rr, cc),
                    q as int,
                ).0,
                self.stack@ == resolve_permissive_upto(
                    states0,
                    stack0,
                    watches0,
                    (rr, cc),
                    q as int,
                ).1,
            decreases n - q,
        {
            let st = self.states[q];
            match st {
                KeyState::Pending(p) => {
                    let is_perm = matches!(p.def.policy, TieBreak::PermissiveHold);
                    if is_perm && contains_watch(&self.watches, q, rr, cc) {
                        self.states[q] = KeyState::Held(p.def.hold);
                        match p.def.hold {
                            SimpleAction::Layer(l) => {
                                self.stack.push(LayerEntry::Momentary { pos: q, layer: l });
                            },
                            _ => {},
                        }
                    }
                },
                _ => {},
            }
            q += 1;
        }
        let mw = self.watches.len();
        let mut new_watches: Vec<(usize, (u8, u8))> = Vec::new();
        let mut i: usize = 0;
        while i < mw
            invariant
                mw == watches0.len(),
                watches0 == self.watches@,
                i <= mw,
                new_watches@ == prune_watches_upto(watches0, pos as int, (rr, cc), i as int),
            decreases mw - i,
        {
            let e = self.watches[i];
            if !(e.0 == pos || (e.1.0 == rr && e.1.1 == cc)) {
                new_watches.push(e);
            }
            i += 1;
        }
        self.watches = new_watches;
        let st = self.states[pos];
        match st {
            KeyState::Idle => {},
            KeyState::TapPulse(_) => {},
            KeyState::HeldInert => {
                self.states[pos] = KeyState::Idle;
            },
            KeyState::Held(s) => {
                self.states[pos] = KeyState::Idle;
                match s {
                    SimpleAction::Layer(_) => {
                        let ghost stack1 = self.stack@;
                        let m = self.stack.len();
                        let mut new_stack: Vec<LayerEntry> = Vec::new();
                        let mut i: usize = 0;
                        while i < m
                            invariant
                                m == stack1.len(),
                                stack1 == self.stack@,
                                i <= m,
                                new_stack@ == remove_momentary_upto(stack1, pos as int, i as int),
                                forall|j: int| 0 <= j < new_stack@.len() ==> entry_wf(
                                    #[trigger] new_stack@[j],
                                    self.layers@.len() as int,
                                    self.npos(),
                                ),
                                self.wf(),
                                pos < self.npos(),
                            decreases m - i,
                        {
                            let e = self.stack[i];
                            let keep = match e {
                                LayerEntry::Momentary { pos: p2, layer: _ } => p2 != pos,
                                LayerEntry::Toggled { layer: _ } => true,
                            };
                            if keep {
                                new_stack.push(e);
                            }
                            i += 1;
                        }
                        self.stack = new_stack;
                    },
                    _ => {},
                }
            },
            KeyState::Pending(p) => {
                self.states[pos] = KeyState::TapPulse(p.def.tap);
            },
        }
    }

    /// One scan tick: the previous tick's tap pulses end, this tick's queued
    /// events are consumed in order, and the hold-tap timers advance. The
    /// result is this tick's custom-action event, if a Custom key was
    /// pressed; the new keycode set is read with `keycodes`.
    pub fn tick(&mut self) -> (ca: Option<CustomActions>)
        requires
            old(self).wf(),
        ensures
            final(self).wf(),
            final(self).rows == old(self).rows,
            final(self).cols == old(self).cols,
            final(self).layers == old(self).layers,
            final(self).queued@.len() == 0,
            ({
                let r = spec_tick(*old(self));
                final(self).states@ == r.0 && final(self).stack@ == r.1 && final(self).watches@
                    == r.2 && ca == r.3
            }),
    {
        let n = self.states.len();
        let ghost states_init = self.states@;
        let mut p: usize = 0;
        while p < n
            invariant
                n == self.states@.len(),
                states_init.len() == n,
                p <= n,
                self.rows == old(self).rows,
                self.cols == old(self).cols,
                self.layers == old(self).layers,
                self.stack == old(self).stack,
                self.watches == old(self).watches,
                self.queued == old(self).queued,
                old(self).wf(),
                forall|j: int| 0 <= j < n ==> state_wf(
                    #[trigger] self.states@[j],
                    self.layers@.len() as int,
                ),
                forall|j: int| 0 <= j < p ==> self.states@[j] == clear_pulses(states_init)[j],
                forall|j: int| p <= j < n ==> self.states@[j] == states_init[j],
            decreases n - p,
        {
            let st = self.states[p];
            if matches!(st, KeyState::TapPulse(_)) {
                self.states[p] = KeyState::Idle;
            }
            p += 1;
        }
        proof {
            assert(self.states@ =~= clear_pulses(states_init));
            assert(self.wf());
        }
        let ghost st0 = self.states@;
        let ghost sk0 = self.stack@;
        let ghost w0 = self.watches@;
        let ghost evs = self.queued@;
        let n_ev = self.queued.len();
        let mut ca: Option<CustomActions> = None;
        let mut i: usize = 0;
        while i < n_ev
            invariant
                self.wf(),
                n_ev == self.queued@.len(),
                evs == self.queued@,
                i <= n_ev,
                self.rows == old(self).rows,
                self.cols == old(self).cols,
                self.layers == old(self).layers,
                st0.len() == self.states@.len(),
                ({
                    let r = process_events(
                        self.layers@,
                        self.rows as int,
                        self.cols as int,
                        st0,
                        sk0,
                        w0,
                        evs.take(i as int),
                    );
                    self.states@ == r.0 && self.stack@ == r.1 && self.watches@ == r.2 && ca == r.3
                }),
            decreases n_ev - i,
        {
            proof {
                assert(evs.take(i + 1).drop_last() =~= evs.take(i as int));
                assert(evs.take(i + 1).last() == evs[i as int]);
            }
            let e = self.queued[i];
            match e {
                KeyEvent::Press(er, ec) => {
                    if (er as usize) < self.rows && (ec as usize) < self.cols {
                        let ca2 = self.do_press(er, ec);
                        match ca2 {
                            Some(c) => {
                                ca = Some(c);
                            },
                            None => {},
                        }
                    }
                },
                KeyEvent::Release(er, ec) => {
                    if (er as usize) < self.rows && (ec as usize) < self.cols {
                        self.do_release(er, ec);
                    }
                },
            }
            i += 1;
        }
        proof {
            assert(evs.take(n_ev as int) =~= evs);
        }
        self.queued.clear();
        let ghost st1 = self.states@;
        let ghost sk1 = self.stack@;
        let ghost w1 = self.watches@;
        let mut q: usize = 0;
        while q < n
            invariant
                self.wf(),
                n == self.states@.len(),
                st1.len() == n,
                q <= n,
                self.rows == old(self).rows,
                self.cols == old(self).cols,
                self.layers == old(self).layers,
                self.queued@.len() == 0,
                self.watches@ == w1,
                self.states@ == advance_timers_upto(st1, sk1, q as int).0,
                self.stack@ == advance_timers_upto(st1, sk1, q as int).1,
            decreases n - q,
        {
            let st = self.states[q];
            match st {
                KeyState::Pending(pk) => {
                    if pk.elapsed + 1 >= pk.def.timeout {
                        self.states[q] = KeyState::Held(pk.def.hold);
                        match pk.def.hold {
                            SimpleAction::Layer(l) => {
                                self.stack.push(LayerEntry::Momentary { pos: q, layer: l });
                            },
                            _ => {},
                        }
                    } else {
                        self.states[q] = KeyState::Pending(
                            PendingKey { def: pk.def, elapsed: pk.elapsed + 1 },
                        );
                    }
                },
                _ => {},
            }
            q += 1;
        }
        ca
    }

    /// Toggles layer `l`: removes it if toggled on, else pushes it.
    fn toggle(&mut self, l: usize)
        requires
            old(self).wf(),
            (l as int) < old(self).layers@.len(),
        ensures
            final(self).wf(),
            final(self).rows == old(self).rows,
            final(self).cols == old(self).cols,
            final(self).layers == old(self).layers,
            final(self).states == old(self).states,
            final(self).watches == old(self).watches,
            final(self).queued == old(self).queued,
            final(self).stack@ == toggle_layer(old(self).stack@, l as int),
    {
        let n = self.stack.len();
        let mut found = false;
        let mut i: usize = 0;
        while i < n
            invariant
                self.wf(),
                n == self.stack@.len(),
                i <= n,
                found == self.stack@.take(i as int).contains(LayerEntry::Toggled { layer: l }),
            decreases n - i,
        {
            proof {
                assert(self.stack@.take(i + 1).drop_last() =~= self.stack@.take(i as int));
                assert(self.stack@.take(i + 1).last() == self.stack@[i as int]);
            }
            if self.stack[i] == (LayerEntry::Toggled { layer: l }) {
                found = true;
            }
            proof {
                if found {
                    if self.stack@[i as int] == (LayerEntry::Toggled { layer: l }) {
                        assert(self.stack@.take(i + 1)[i as int] == (LayerEntry::Toggled {
                            layer: l,
                        }));
                        assert(self.stack@.take(i + 1).contains(LayerEntry::Toggled { layer: l }));
                    } else {
                        let ghost j = choose|j: int|
                            0 <= j < i && self.stack@.take(i as int)[j] == (LayerEntry::Toggled {
                                layer: l,
                            });
                        assert(self.stack@.take(i + 1)[j] == (LayerEntry::Toggled { layer: l }));
                        assert(self.stack@.take(i + 1).contains(LayerEntry::Toggled { layer: l }));
                    }
                }
            }
            i += 1;
        }
        proof {
            assert(self.stack@.take(n as int) =~= self.stack@);
        }
        if found {
            let mut new_stack: Vec<LayerEntry> = Vec::new();
            let mut i: usize = 0;
            while i < n
                invariant
                    self.wf(),
                    n == self.stack@.len(),
                    i <= n,
                    new_stack@ == remove_toggled_upto(self.stack@, l as int, i as int),
                    forall|j: int| 0 <= j < new_stack@.len() ==> entry_wf(
                        #[trigger] new_stack@[j],
                        self.layers@.len() as int,
                        self.npos(),
                    ),
                decreases n - i,
            {
                let e = self.stack[i];
                if !(e == (LayerEntry::Toggled { layer: l })) {
                    new_stack.push(e);
                }
                i += 1;
            }
            self.stack = new_stack;
        } else {
            self.stack.push(LayerEntry::Toggled { layer: l });
        }
    }
}

/// Whether the watch list holds the entry (q, (rr, cc)).
fn contains_watch(v: &Vec<(usize, (u8, u8))>, q: usize, rr: u8, cc: u8) -> (r: bool)
    ensures
        r == v@.contains((q, (rr, cc))),
{
    let n = v.len();
    let mut i: usize = 0;
    while i < n
        invariant
            n == v@.len(),
            i <= n,
            forall|j: int| 0 <= j < i ==> v@[j] != (q, (rr, cc)),
        decreases n - i,
    {
        let e = v[i];
        if e.0 == q && e.1.0 == rr && e.1.1 == cc {
            proof {
                assert(v@[i as int] == (q, (rr, cc)));
            }
            return true;
        }
        i += 1;
    }
    false
}

/// Appends a simple action's keycodes to `out`.
fn push_simple_keycodes(out: &mut Vec<u8>, s: &SimpleAction)
    requires
        match *s {
            SimpleAction::MultipleKeys(ks) => ks.wf(),
            _ => true,
        },
    ensures
        final(out)@ == old(out)@ + s.keycodes_spec(),
{
    let ghost out0 = out@;
    match s {
        SimpleAction::Key(k) => {
            out.push(*k);
            proof {
                assert(out@ =~= out0 + s.keycodes_spec());
            }
        },
        SimpleAction::MultipleKeys(ks) => {
            let count = ks.count;
            let mut j: u8 = 0;
            while j < count
                invariant
                    count == ks.count,
                    ks.wf(),
                    j <= count,
                    out@ == out0 + ks.keys@.take(j as int),
                decreases count - j,
            {
                out.push(ks.keys[j as usize]);
                proof {
                    assert(ks.keys@.take(j + 1) =~= ks.keys@.take(j as int).push(
                        ks.keys@[j as int],
                    ));
                    assert(out@ =~= out0 + ks.keys@.take(j + 1));
                }
                j += 1;
            }
            proof {
                assert(out@ == out0 + ks.seq());
            }
        },
        SimpleAction::Layer(_) => {
            proof {
                assert(out@ =~= out0 + s.keycodes_spec());
            }
        },
    }
}


/// Processing a single event is stepping it once.
proof fn lemma_process_single(
    layers: Seq<Vec<Action>>,
    rows: int,
    cols: int,
    states: Seq<KeyState>,
    stack: Seq<LayerEntry>,
    watches: Seq<(usize, (u8, u8))>,
    e: KeyEvent,
)
    ensures
        process_events(layers, rows, cols, states, stack, watches, seq![e]) == step_event(
            layers,
            rows,
            cols,
            states,
            stack,
            watches,
            e,
        ),
{
    reveal_with_fuel(process_events, 2);
    assert(seq![e].drop_last() =~= Seq::<KeyEvent>::empty());
    assert(seq![e].last() == e);
    let r = step_event(layers, rows, cols, states, stack, watches, e);
    if r.3 is Some {
    } else {
    }
}

/// Pressing then releasing a plain keycode key adds exactly that keycode to
/// the report set and then removes it, leaving every other keycode, the
/// whole state set and the layer stack exactly as they were.
pub proof fn lemma_plain_key_round_trip(lo: Layout, rr: u8, cc: u8, k: u8)
    requires
        lo.wf(),
        quiescent(lo.states@),
        lo.watches@.len() == 0,
        (rr as int) < lo.rows,
        (cc as int) < lo.cols,
        lo.states@[rr as int * lo.cols + cc as int] is Idle,
        lookup_action(lo.layers@, lo.stack@, rr as int * lo.cols + cc as int) == Action::Simple(
            SimpleAction::Key(k),
        ),
        forall|p: int|
            0 <= p < lo.states@.len() && p != rr as int * lo.cols + cc as int
                ==> !state_keycodes(#[trigger] lo.states@[p]).contains(k),
    ensures
        ({
            let n = lo.states@.len() as int;
            let rows = lo.rows as int;
            let cols = lo.cols as int;
            let t1 = spec_tick_parts(
                lo.layers@,
                rows,
                cols,
                lo.states@,
                lo.stack@,
                lo.watches@,
                seq![KeyEvent::Press(rr, cc)],
            );
            let t2 = spec_tick_parts(
                lo.layers@,
                rows,
                cols,
                t1.0,
                t1.1,
                t1.2,
                seq![KeyEvent::Release(rr, cc)],
            );
            &&& keycodes_upto(t1.0, n).contains(k)
            &&& t1.1 == lo.stack@
            &&& t1.2.len() == 0
            &&& t1.3 is None
            &&& forall|kc: u8|
                kc != k ==> (keycodes_upto(t1.0, n).contains(kc) == keycodes_upto(
                    lo.states@,
                    n,
                ).contains(kc))
            &&& t2.0 == lo.states@
            &&& t2.1 == lo.stack@
            &&& t2.2.len() == 0
            &&& t2.3 is None
            &&& !keycodes_upto(t2.0, n).contains(k)
        }),
{
    let n = lo.states@.len() as int;
    let rows = lo.rows as int;
    let cols = lo.cols as int;
    let pos = rr as int * cols + cc as int;
    lemma_coord_pos(rr as int, cc as int, rows, cols);
    let states0 = lo.states@;
    let stack0 = lo.stack@;
    let ev1 = seq![KeyEvent::Press(rr, cc)];
    let ev2 = seq![KeyEvent::Release(rr, cc)];

    // Press tick.
    lemma_clear_pulses_nop(states0);
    assert(ev1.drop_last() =~= Seq::<KeyEvent>::empty());
    assert(ev1.last() == KeyEvent::Press(rr, cc));
    let watches0 = lo.watches@;
    lemma_add_watches_nop(states0, watches0, (rr, cc), pos, n);
    let states1 = states0.update(pos, KeyState::Held(SimpleAction::Key(k)));
    lemma_process_single(lo.layers@, rows, cols, states0, stack0, watches0, KeyEvent::Press(rr, cc));
    let r1 = process_events(lo.layers@, rows, cols, states0, stack0, watches0, ev1);
    assert(r1.0 == states1 && r1.1 == stack0 && r1.2 == watches0 && r1.3 is None);
    assert(forall|p: int| 0 <= p < n ==> !((#[trigger] states1[p]) is Pending));
    lemma_advance_nop(states1, stack0, n);
    let t1 = spec_tick_parts(lo.layers@, rows, cols, states0, stack0, watches0, ev1);
    assert(t1.0 == states1 && t1.1 == stack0 && t1.2 == watches0 && t1.3 is None);

    // The key is now down, and nothing else moved.
    lemma_keycodes_contains(states1, n, k);
    assert(state_keycodes(states1[pos]).contains(k)) by {
        assert(state_keycodes(states1[pos]) == seq![k]);
        assert(seq![k][0] == k);
    }
    assert forall|kc: u8| kc != k implies (keycodes_upto(states1, n).contains(kc) == keycodes_upto(
        states0,
        n,
    ).contains(kc)) by {
        lemma_keycodes_contains(states1, n, kc);
        lemma_keycodes_contains(states0, n, kc);
        assert(state_keycodes(states1[pos]) == seq![k]);
        assert(!state_keycodes(states1[pos]).contains(kc)) by {
            if state_keycodes(states1[pos]).contains(kc) {
                let i = choose|i: int| 0 <= i < seq![k].len() && seq![k][i] == kc;
                assert(seq![k][0] == k);
            }
        }
        assert(!state_keycodes(states0[pos]).contains(kc));
        if keycodes_upto(states1, n).contains(kc) {
            let p = choose|p: int|
                0 <= p < n && state_keycodes(#[trigger] states1[p]).contains(kc);
            assert(p != pos);
            assert(states0[p] == states1[p]);
            assert(keycodes_upto(states0, n).contains(kc));
        }
        if keycodes_upto(states0, n).contains(kc) {
            let p = choose|p: int|
                0 <= p < n && state_keycodes(#[trigger] states0[p]).contains(kc);
            assert(p != pos);
            assert(states1[p] == states0[p]);
            assert(keycodes_upto(states1, n).contains(kc));
        }
    }

    // Release tick.
    assert(forall|p: int| 0 <= p < n ==> !((#[trigger] states1[p]) is TapPulse));
    lemma_clear_pulses_nop(states1);
    assert(ev2.drop_last() =~= Seq::<KeyEvent>::empty());
    assert(ev2.last() == KeyEvent::Release(rr, cc));
    lemma_resolve_nop(states1, stack0, watches0, (rr, cc), n);
    lemma_process_single(lo.layers@, rows, cols, states1, stack0, watches0, KeyEvent::Release(rr, cc));
    let states2 = states1.update(pos, KeyState::Idle);
    let r2 = process_events(lo.layers@, rows, cols, states1, stack0, watches0, ev2);
    assert(prune_watches_upto(watches0, pos, (rr, cc), watches0.len() as int)
        =~= Seq::<(usize, (u8, u8))>::empty());
    assert(r2.0 == states2 && r2.1 == stack0 && r2.2.len() == 0 && r2.3 is None);
    assert(forall|p: int| 0 <= p < n ==> !((#[trigger] states2[p]) is Pending));
    lemma_advance_nop(states2, stack0, n);
    assert(states2 =~= states0);
    lemma_keycodes_contains(states0, n, k);
    assert(!state_keycodes(states0[pos]).contains(k));
}

/// A Custom key fires its board-level effect exactly once per press: on the
/// tick that processes the press, not again while it is held, and never on
/// its release.
pub proof fn lemma_custom_fires_once(lo: Layout, rr: u8, cc: u8, a: CustomActions)
    requires
        lo.wf(),
        quiescent(lo.states@),
        (rr as int) < lo.rows,
        (cc as int) < lo.cols,
        lo.states@[rr as int * lo.cols + cc as int] is Idle,
        lo.watches@.len() == 0,
        lookup_action(lo.layers@, lo.stack@, rr as int * lo.cols + cc as int) == Action::Custom(a),
    ensures
        ({
            let rows = lo.rows as int;
            let cols = lo.cols as int;
            let t1 = spec_tick_parts(
                lo.layers@,
                rows,
                cols,
                lo.states@,
                lo.stack@,
                lo.watches@,
                seq![KeyEvent::Press(rr, cc)],
            );
            let t2 = spec_tick_parts(
                lo.layers@,
                rows,
                cols,
                t1.0,
                t1.1,
                t1.2,
                Seq::<KeyEvent>::empty(),
            );
            let t3 = spec_tick_parts(
                lo.layers@,
                rows,
                cols,
                t2.0,
                t2.1,
                t2.2,
                seq![KeyEvent::Release(rr, cc)],
            );
            &&& t1.3 == Some(a)
            &&& t2.3 is None
            &&& t2.0 == t1.0 && t2.1 == t1.1 && t2.2 == t1.2
            &&& t3.3 is None
            &&& t3.0 == lo.states@ && t3.1 == lo.stack@ && t3.2.len() == 0
        }),
{
    let n = lo.states@.len() as int;
    let rows = lo.rows as int;
    let cols = lo.cols as int;
    let pos = rr as int * cols + cc as int;
    lemma_coord_pos(rr as int, cc as int, rows, cols);
    let states0 = lo.states@;
    let stack0 = lo.stack@;
    let ev1 = seq![KeyEvent::Press(rr, cc)];
    let ev3 = seq![KeyEvent::Release(rr, cc)];

    // Press tick: the effect fires, the key parks as inert.
    lemma_clear_pulses_nop(states0);
    assert(ev1.drop_last() =~= Seq::<KeyEvent>::empty());
    assert(ev1.last() == KeyEvent::Press(rr, cc));
    let watches0 = lo.watches@;
    lemma_add_watches_nop(states0, watches0, (rr, cc), pos, n);
    lemma_process_single(lo.layers@, rows, cols, states0, stack0, watches0, KeyEvent::Press(rr, cc));
    let states1 = states0.update(pos, KeyState::HeldInert);
    let r1 = process_events(lo.layers@, rows, cols, states0, stack0, watches0, ev1);
    assert(r1.0 == states1 && r1.1 == stack0 && r1.2 == watches0 && r1.3 == Some(a));
    assert(forall|p: int| 0 <= p < n ==> !((#[trigger] states1[p]) is Pending));
    lemma_advance_nop(states1, stack0, n);

    // Held tick: no events, nothing fires.
    assert(forall|p: int| 0 <= p < n ==> !((#[trigger] states1[p]) is TapPulse));
    lemma_clear_pulses_nop(states1);
    lemma_advance_nop(states1, stack0, n);

    // Release tick: the key returns to Idle, nothing fires.
    assert(ev3.drop_last() =~= Seq::<KeyEvent>::empty());
    assert(ev3.last() == KeyEvent::Release(rr, cc));
    lemma_resolve_nop(states1, stack0, watches0, (rr, cc), n);
    lemma_process_single(lo.layers@, rows, cols, states1, stack0, watches0, KeyEvent::Release(rr, cc));
    let states3 = states1.update(pos, KeyState::Idle);
    let r3 = process_events(lo.layers@, rows, cols, states1, stack0, watches0, ev3);
    assert(prune_watches_upto(watches0, pos, (rr, cc), watches0.len() as int)
        =~= Seq::<(usize, (u8, u8))>::empty());
    assert(r3.0 == states3 && r3.1 == stack0 && r3.2.len() == 0 && r3.3 is None);
    assert(forall|p: int| 0 <= p < n ==> !((#[trigger] states3[p]) is Pending));
    lemma_advance_nop(states3, stack0, n);
    assert(states3 =~= states0);
}


/// Hold-tap, tap side: pressing a hold-tap key and releasing it before the
/// timeout (with no other key event in between) asserts the tap keycode for
/// exactly one tick. While the decision is pending the tap keycode is never
/// down; on the release tick it is down; one tick later it is gone and the
/// whole engine state is exactly as before the press. The press is counted
/// from its own tick: `j` is the number of empty ticks between press and
/// release, and the release comes before the timeout while `j` is at most
/// `d.timeout - 2`.
pub proof fn lemma_holdtap_tap(lo: Layout, rr: u8, cc: u8, d: HoldTapDef, tk: u8, j: int)
    requires
        lo.wf(),
        quiescent(lo.states@),
        lo.watches@.len() == 0,
        (rr as int) < lo.rows,
        (cc as int) < lo.cols,
        lo.states@[rr as int * lo.cols + cc as int] is Idle,
        lookup_action(lo.layers@, lo.stack@, rr as int * lo.cols + cc as int) == Action::HoldTap(d),
        d.tap == SimpleAction::Key(tk),
        d.timeout >= 2,
        0 <= j <= d.timeout - 2,
        forall|p: int|
            0 <= p < lo.states@.len() && p != rr as int * lo.cols + cc as int
                ==> !state_keycodes(#[trigger] lo.states@[p]).contains(tk),
    ensures
        ({
            let n = lo.states@.len() as int;
            let rows = lo.rows as int;
            let cols = lo.cols as int;
            let t1 = spec_tick_parts(
                lo.layers@,
                rows,
                cols,
                lo.states@,
                lo.stack@,
                lo.watches@,
                seq![KeyEvent::Press(rr, cc)],
            );
            let w = run_empty_ticks(lo.layers@, rows, cols, t1.0, t1.1, t1.2, j);
            let tr = spec_tick_parts(
                lo.layers@,
                rows,
                cols,
                w.0,
                w.1,
                w.2,
                seq![KeyEvent::Release(rr, cc)],
            );
            let tn = spec_tick_parts(
                lo.layers@,
                rows,
                cols,
                tr.0,
                tr.1,
                tr.2,
                Seq::<KeyEvent>::empty(),
            );
            &&& t1.3 is None
            &&& t1.2.len() == 0
            &&& forall|m: int|
                0 <= m <= j ==> !keycodes_upto(
                    run_empty_ticks(lo.layers@, rows, cols, t1.0, t1.1, t1.2, m).0,
                    n,
                ).contains(tk)
            &&& keycodes_upto(tr.0, n).contains(tk)
            &&& forall|kc: u8|
                kc != tk ==> (keycodes_upto(tr.0, n).contains(kc) == keycodes_upto(
                    lo.states@,
                    n,
                ).contains(kc))
            &&& tr.1 == lo.stack@
            &&& tr.2.len() == 0
            &&& tr.3 is None
            &&& !keycodes_upto(tn.0, n).contains(tk)
            &&& tn.0 == lo.states@ && tn.1 == lo.stack@ && tn.2.len() == 0
        }),
{
    let n = lo.states@.len() as int;
    let rows = lo.rows as int;
    let cols = lo.cols as int;
    let pos = rr as int * cols + cc as int;
    lemma_coord_pos(rr as int, cc as int, rows, cols);
    let states0 = lo.states@;
    let stack0 = lo.stack@;
    let watches0 = lo.watches@;

    // Press tick: the key parks as pending, its timer starts.
    lemma_clear_pulses_nop(states0);
    lemma_add_watches_nop(states0, watches0, (rr, cc), pos, n);
    lemma_process_single(lo.layers@, rows, cols, states0, stack0, watches0, KeyEvent::Press(rr, cc));
    let pk0 = PendingKey { def: d, elapsed: 0 };
    let sp = states0.update(pos, KeyState::Pending(pk0));
    let r1 = process_events(
        lo.layers@,
        rows,
        cols,
        states0,
        stack0,
        watches0,
        seq![KeyEvent::Press(rr, cc)],
    );
    assert(r1.0 == sp && r1.1 == stack0 && r1.2 == watches0 && r1.3 is None);
    lemma_advance_single(sp, stack0, pos, pk0, n);
    let pk1 = PendingKey { def: d, elapsed: 1 };
    let t1 = spec_tick_parts(
        lo.layers@,
        rows,
        cols,
        states0,
        stack0,
        watches0,
        seq![KeyEvent::Press(rr, cc)],
    );
    assert(sp.update(pos, KeyState::Pending(pk1)) =~= states0.update(pos, KeyState::Pending(pk1)));
    let s1 = states0.update(pos, KeyState::Pending(pk1));
    assert(t1.0 == s1 && t1.1 == stack0 && t1.2 == watches0 && t1.3 is None);

    // While pending, the tap keycode is never down.
    assert forall|m: int| 0 <= m <= j implies !keycodes_upto(
        run_empty_ticks(lo.layers@, rows, cols, t1.0, t1.1, t1.2, m).0,
        n,
    ).contains(tk) by {
        lemma_pending_wait(lo.layers@, rows, cols, s1, stack0, watches0, pos, pk1, m);
        let pkm = PendingKey { def: d, elapsed: (1 + m) as u16 };
        let sm = states0.update(pos, KeyState::Pending(pkm));
        assert(s1.update(pos, KeyState::Pending(pkm)) =~= sm);
        assert(run_empty_ticks(lo.layers@, rows, cols, t1.0, t1.1, t1.2, m).0 == sm);
        lemma_keycodes_contains(sm, n, tk);
        if keycodes_upto(sm, n).contains(tk) {
            let p = choose|p: int| 0 <= p < n && state_keycodes(#[trigger] sm[p]).contains(tk);
            assert(p != pos);
            assert(sm[p] == states0[p]);
        }
    }

    // The waited state.
    lemma_pending_wait(lo.layers@, rows, cols, s1, stack0, watches0, pos, pk1, j);
    let pkj = PendingKey { def: d, elapsed: (1 + j) as u16 };
    let sj = states0.update(pos, KeyState::Pending(pkj));
    assert(s1.update(pos, KeyState::Pending(pkj)) =~= sj);
    let w = run_empty_ticks(lo.layers@, rows, cols, t1.0, t1.1, t1.2, j);
    assert(w.0 == sj && w.1 == stack0 && w.2 == watches0);

    // Release tick: the pending key resolves to tap and pulses, since no
    // watch entry exists for it.
    assert(forall|p: int| 0 <= p < n ==> !((#[trigger] sj[p]) is TapPulse));
    lemma_clear_pulses_nop(sj);
    lemma_resolve_nop(sj, stack0, watches0, (rr, cc), n);
    lemma_process_single(lo.layers@, rows, cols, sj, stack0, watches0, KeyEvent::Release(rr, cc));
    let spl = sj.update(pos, KeyState::TapPulse(d.tap));
    let sr = states0.update(pos, KeyState::TapPulse(SimpleAction::Key(tk)));
    assert(spl =~= sr);
    assert(forall|p: int| 0 <= p < n ==> !((#[trigger] sr[p]) is Pending));
    lemma_advance_nop(sr, stack0, n);
    assert(prune_watches_upto(watches0, pos, (rr, cc), watches0.len() as int)
        =~= Seq::<(usize, (u8, u8))>::empty());
    let tr = spec_tick_parts(
        lo.layers@,
        rows,
        cols,
        w.0,
        w.1,
        w.2,
        seq![KeyEvent::Release(rr, cc)],
    );
    assert(tr.0 == sr && tr.1 == stack0 && tr.2.len() == 0 && tr.3 is None);
    lemma_keycodes_contains(sr, n, tk);
    assert(state_keycodes(sr[pos]).contains(tk)) by {
        assert(state_keycodes(sr[pos]) == seq![tk]);
        assert(seq![tk][0] == tk);
    }
    assert forall|kc: u8| kc != tk implies (keycodes_upto(sr, n).contains(kc) == keycodes_upto(
        states0,
        n,
    ).contains(kc)) by {
        lemma_keycodes_contains(sr, n, kc);
        lemma_keycodes_contains(states0, n, kc);
        assert(state_keycodes(sr[pos]) == seq![tk]);
        assert(!state_keycodes(sr[pos]).contains(kc)) by {
            if state_keycodes(sr[pos]).contains(kc) {
                let i = choose|i: int| 0 <= i < seq![tk].len() && seq![tk][i] == kc;
                assert(seq![tk][0] == tk);
            }
        }
        assert(!state_keycodes(states0[pos]).contains(kc));
        if keycodes_upto(sr, n).contains(kc) {
            let p = choose|p: int| 0 <= p < n && state_keycodes(#[trigger] sr[p]).contains(kc);
            assert(p != pos);
            assert(states0[p] == sr[p]);
        }
        if keycodes_upto(states0, n).contains(kc) {
            let p = choose|p: int| 0 <= p < n && state_keycodes(#[trigger] states0[p]).contains(kc);
            assert(p != pos);
            assert(sr[p] == states0[p]);
        }
    }

    // One tick later the pulse is over and everything is as it began.
    assert(clear_pulses(sr) =~= states0);
    assert(forall|p: int| 0 <= p < n ==> !((#[trigger] states0[p]) is Pending));
    lemma_advance_nop(states0, stack0, n);
    let tn = spec_tick_parts(lo.layers@, rows, cols, tr.0, tr.1, tr.2, Seq::<KeyEvent>::empty());
    assert(tn.0 == states0 && tn.1 == stack0 && tn.2.len() == 0);
    lemma_keycodes_contains(states0, n, tk);
    if keycodes_upto(states0, n).contains(tk) {
        let p = choose|p: int| 0 <= p < n && state_keycodes(#[trigger] states0[p]).contains(tk);
        assert(p != pos);
    }
}

/// Hold-tap, hold side: holding a hold-tap key past its timeout resolves it
/// to the hold action, whose effect (a layer activation, say) persists until
/// the release, and the tap keycode is never asserted at any point. The
/// release undoes the hold exactly.
pub proof fn lemma_holdtap_hold(lo: Layout, rr: u8, cc: u8, d: HoldTapDef, tk: u8)
    requires
        lo.wf(),
        quiescent(lo.states@),
        lo.watches@.len() == 0,
        (rr as int) < lo.rows,
        (cc as int) < lo.cols,
        lo.states@[rr as int * lo.cols + cc as int] is Idle,
        lookup_action(lo.layers@, lo.stack@, rr as int * lo.cols + cc as int) == Action::HoldTap(d),
        d.tap == SimpleAction::Key(tk),
        d.timeout >= 2,
        !d.hold.keycodes_spec().contains(tk),
        forall|p: int|
            0 <= p < lo.states@.len() && p != rr as int * lo.cols + cc as int
                ==> !state_keycodes(#[trigger] lo.states@[p]).contains(tk),
        forall|i: int|
            0 <= i < lo.stack@.len() ==> match #[trigger] lo.stack@[i] {
                LayerEntry::Momentary { pos: p2, layer: _ } => p2 != rr as int * lo.cols
                    + cc as int,
                LayerEntry::Toggled { layer: _ } => true,
            },
    ensures
        ({
            let n = lo.states@.len() as int;
            let rows = lo.rows as int;
            let cols = lo.cols as int;
            let pos = rr as int * lo.cols + cc as int;
            let t1 = spec_tick_parts(
                lo.layers@,
                rows,
                cols,
                lo.states@,
                lo.stack@,
                lo.watches@,
                seq![KeyEvent::Press(rr, cc)],
            );
            let w = run_empty_ticks(lo.layers@, rows, cols, t1.0, t1.1, t1.2, d.timeout - 1);
            let tr = spec_tick_parts(
                lo.layers@,
                rows,
                cols,
                w.0,
                w.1,
                w.2,
                seq![KeyEvent::Release(rr, cc)],
            );
            &&& t1.3 is None
            &&& w.0 == lo.states@.update(pos, KeyState::Held(d.hold))
            &&& w.1 == push_if_layer(lo.stack@, d.hold, pos)
            &&& w.2.len() == 0
            &&& forall|m: int|
                0 <= m <= d.timeout - 1 ==> !keycodes_upto(
                    run_empty_ticks(lo.layers@, rows, cols, t1.0, t1.1, t1.2, m).0,
                    n,
                ).contains(tk)
            &&& tr.0 == lo.states@ && tr.1 == lo.stack@ && tr.2.len() == 0
            &&& tr.3 is None
        }),
{
    let n = lo.states@.len() as int;
    let rows = lo.rows as int;
    let cols = lo.cols as int;
    let pos = rr as int * cols + cc as int;
    lemma_coord_pos(rr as int, cc as int, rows, cols);
    let states0 = lo.states@;
    let stack0 = lo.stack@;
    let watches0 = lo.watches@;

    // Press tick.
    lemma_clear_pulses_nop(states0);
    lemma_add_watches_nop(states0, watches0, (rr, cc), pos, n);
    lemma_process_single(lo.layers@, rows, cols, states0, stack0, watches0, KeyEvent::Press(rr, cc));
    let pk0 = PendingKey { def: d, elapsed: 0 };
    let sp = states0.update(pos, KeyState::Pending(pk0));
    lemma_advance_single(sp, stack0, pos, pk0, n);
    let pk1 = PendingKey { def: d, elapsed: 1 };
    assert(sp.update(pos, KeyState::Pending(pk1)) =~= states0.update(pos, KeyState::Pending(pk1)));
    let s1 = states0.update(pos, KeyState::Pending(pk1));
    let t1 = spec_tick_parts(
        lo.layers@,
        rows,
        cols,
        states0,
        stack0,
        watches0,
        seq![KeyEvent::Press(rr, cc)],
    );
    assert(t1.0 == s1 && t1.1 == stack0 && t1.2 == watches0 && t1.3 is None);

    let shold = states0.update(pos, KeyState::Held(d.hold));
    let stackh = push_if_layer(stack0, d.hold, pos);

    // The pending key survives the first timeout - 2 empty ticks, then the
    // last one resolves it to hold.
    lemma_pending_wait(lo.layers@, rows, cols, s1, stack0, watches0, pos, pk1, d.timeout - 2);
    let pkl = PendingKey { def: d, elapsed: (d.timeout - 1) as u16 };
    let sl = states0.update(pos, KeyState::Pending(pkl));
    assert(s1.update(pos, KeyState::Pending(pkl)) =~= sl);
    let wl = run_empty_ticks(lo.layers@, rows, cols, t1.0, t1.1, t1.2, d.timeout - 2);
    assert(wl.0 == sl && wl.1 == stack0 && wl.2 == watches0);
    assert(forall|p: int| 0 <= p < n ==> !((#[trigger] sl[p]) is TapPulse));
    lemma_clear_pulses_nop(sl);
    lemma_advance_single(sl, stack0, pos, pkl, n);
    assert(sl.update(pos, KeyState::Held(d.hold)) =~= shold);
    let w = run_empty_ticks(lo.layers@, rows, cols, t1.0, t1.1, t1.2, d.timeout - 1);
    assert(w.0 == shold && w.1 == stackh && w.2 == watches0);

    // The tap keycode is never down, pending or held.
    assert forall|m: int| 0 <= m <= d.timeout - 1 implies !keycodes_upto(
        run_empty_ticks(lo.layers@, rows, cols, t1.0, t1.1, t1.2, m).0,
        n,
    ).contains(tk) by {
        if m <= d.timeout - 2 {
            lemma_pending_wait(lo.layers@, rows, cols, s1, stack0, watches0, pos, pk1, m);
            let pkm = PendingKey { def: d, elapsed: (1 + m) as u16 };
            let sm = states0.update(pos, KeyState::Pending(pkm));
            assert(s1.update(pos, KeyState::Pending(pkm)) =~= sm);
            assert(run_empty_ticks(lo.layers@, rows, cols, t1.0, t1.1, t1.2, m).0 == sm);
            lemma_keycodes_contains(sm, n, tk);
            if keycodes_upto(sm, n).contains(tk) {
                let p = choose|p: int| 0 <= p < n && state_keycodes(#[trigger] sm[p]).contains(tk);
                assert(p != pos);
                assert(sm[p] == states0[p]);
            }
        } else {
            assert(run_empty_ticks(lo.layers@, rows, cols, t1.0, t1.1, t1.2, m).0 == shold);
            lemma_keycodes_contains(shold, n, tk);
            if keycodes_upto(shold, n).contains(tk) {
                let p = choose|p: int|
                    0 <= p < n && state_keycodes(#[trigger] shold[p]).contains(tk);
                if p == pos {
                    assert(state_keycodes(shold[pos]) == d.hold.keycodes_spec());
                } else {
                    assert(shold[p] == states0[p]);
                }
            }
        }
    }

    // Release tick: the hold's effect is undone exactly.
    assert(forall|p: int| 0 <= p < n ==> !((#[trigger] shold[p]) is TapPulse) && !(shold[p]
        is Pending));
    lemma_clear_pulses_nop(shold);
    lemma_resolve_nop(shold, stackh, watches0, (rr, cc), n);
    lemma_process_single(lo.layers@, rows, cols, shold, stackh, watches0, KeyEvent::Release(rr, cc));
    let sback = shold.update(pos, KeyState::Idle);
    assert(sback =~= states0);
    match d.hold {
        SimpleAction::Layer(l) => {
            lemma_pos_bound(rows, cols);
            assert(pos as usize as int == pos);
            assert(stackh == stack0.push(LayerEntry::Momentary { pos: pos as usize, layer: l }));
            lemma_remove_momentary_nomatch(stack0, pos, stack0.len() as int);
            assert(stack0.take(stack0.len() as int) =~= stack0);
            lemma_remove_momentary_prefix(stackh, stack0, pos, stack0.len() as int);
            assert(stackh.len() == stack0.len() + 1);
            assert(stackh[stack0.len() as int] == (LayerEntry::Momentary {
                pos: pos as usize,
                layer: l,
            }));
            assert(remove_momentary_upto(stackh, pos, stackh.len() as int)
                == remove_momentary_upto(stackh, pos, stack0.len() as int));
            assert(remove_momentary_upto(stackh, pos, stackh.len() as int) == stack0);
        },
        _ => {
            assert(stackh == stack0);
        },
    }
    let r3 = process_events(
        lo.layers@,
        rows,
        cols,
        shold,
        stackh,
        watches0,
        seq![KeyEvent::Release(rr, cc)],
    );
    assert(prune_watches_upto(watches0, pos, (rr, cc), watches0.len() as int)
        =~= Seq::<(usize, (u8, u8))>::empty());
    assert(r3.0 == states0 && r3.1 == stack0 && r3.2.len() == 0 && r3.3 is None);
    assert(forall|p: int| 0 <= p < n ==> !((#[trigger] states0[p]) is Pending));
    lemma_advance_nop(states0, stack0, n);
}

/// Hold-tap, permissive side: another key pressed and then released while
/// the hold-tap key is still held resolves it to hold at once, before the
/// timeout, and the tap keycode is never asserted. The hold persists until
/// the hold-tap key's own release, which undoes it exactly. The other key
/// behaves as itself throughout: its keycode is down from its press to its
/// release.
pub proof fn lemma_holdtap_permissive(
    lo: Layout,
    rr: u8,
    cc: u8,
    d: HoldTapDef,
    tk: u8,
    br: u8,
    bc: u8,
    kb: u8,
)
    requires
        lo.wf(),
        quiescent(lo.states@),
        lo.watches@.len() == 0,
        (rr as int) < lo.rows,
        (cc as int) < lo.cols,
        (br as int) < lo.rows,
        (bc as int) < lo.cols,
        !(rr == br && cc == bc),
        lo.states@[rr as int * lo.cols + cc as int] is Idle,
        lo.states@[br as int * lo.cols + bc as int] is Idle,
        lookup_action(lo.layers@, lo.stack@, rr as int * lo.cols + cc as int) == Action::HoldTap(d),
        lookup_action(lo.layers@, lo.stack@, br as int * lo.cols + bc as int) == Action::Simple(
            SimpleAction::Key(kb),
        ),
        d.policy == TieBreak::PermissiveHold,
        d.tap == SimpleAction::Key(tk),
        d.timeout >= 3,
        kb != tk,
        !d.hold.keycodes_spec().contains(tk),
        forall|p: int|
            0 <= p < lo.states@.len() && p != rr as int * lo.cols + cc as int && p != br as int
                * lo.cols + bc as int ==> !state_keycodes(#[trigger] lo.states@[p]).contains(tk),
        forall|i: int|
            0 <= i < lo.stack@.len() ==> match #[trigger] lo.stack@[i] {
                LayerEntry::Momentary { pos: p2, layer: _ } => p2 != rr as int * lo.cols
                    + cc as int,
                LayerEntry::Toggled { layer: _ } => true,
            },
    ensures
        ({
            let n = lo.states@.len() as int;
            let rows = lo.rows as int;
            let cols = lo.cols as int;
            let pos = rr as int * lo.cols + cc as int;
            let t1 = spec_tick_parts(
                lo.layers@,
                rows,
                cols,
                lo.states@,
                lo.stack@,
                lo.watches@,
                seq![KeyEvent::Press(rr, cc)],
            );
            let t2 = spec_tick_parts(
                lo.layers@,
                rows,
                cols,
                t1.0,
                t1.1,
                t1.2,
                seq![KeyEvent::Press(br, bc)],
            );
            let t3 = spec_tick_parts(
                lo.layers@,
                rows,
                cols,
                t2.0,
                t2.1,
                t2.2,
                seq![KeyEvent::Release(br, bc)],
            );
            let t4 = spec_tick_parts(
                lo.layers@,
                rows,
                cols,
                t3.0,
                t3.1,
                t3.2,
                seq![KeyEvent::Release(rr, cc)],
            );
            &&& t1.3 is None && t2.3 is None && t3.3 is None && t4.3 is None
            &&& !keycodes_upto(t1.0, n).contains(tk)
            &&& !keycodes_upto(t2.0, n).contains(tk)
            &&& keycodes_upto(t2.0, n).contains(kb)
            &&& t3.0 == lo.states@.update(pos, KeyState::Held(d.hold))
            &&& t3.1 == push_if_layer(lo.stack@, d.hold, pos)
            &&& t3.2.len() == 0
            &&& !keycodes_upto(t3.0, n).contains(tk)
            &&& (d.hold matches SimpleAction::Key(hk) ==> keycodes_upto(t3.0, n).contains(hk))
            &&& t4.0 == lo.states@ && t4.1 == lo.stack@ && t4.2.len() == 0
            &&& !keycodes_upto(t4.0, n).contains(tk)
        }),
{
    let n = lo.states@.len() as int;
    let rows = lo.rows as int;
    let cols = lo.cols as int;
    let pos = rr as int * cols + cc as int;
    let posb = br as int * cols + bc as int;
    lemma_coord_pos(rr as int, cc as int, rows, cols);
    lemma_coord_pos(br as int, bc as int, rows, cols);
    lemma_pos_bound(rows, cols);
    assert(pos != posb) by {
        if pos == posb {
            assert(rr as int * cols + cc as int == br as int * cols + bc as int);
            assert(rr == br && cc == bc) by (nonlinear_arith)
                requires
                    rr as int * cols + cc as int == br as int * cols + bc as int,
                    0 <= (cc as int),
                    (cc as int) < cols,
                    0 <= (bc as int),
                    (bc as int) < cols,
            ;
        }
    }
    let states0 = lo.states@;
    let stack0 = lo.stack@;
    let watches0 = lo.watches@;

    // Tick 1: the hold-tap key parks as pending.
    lemma_clear_pulses_nop(states0);
    lemma_add_watches_nop(states0, watches0, (rr, cc), pos, n);
    lemma_process_single(lo.layers@, rows, cols, states0, stack0, watches0, KeyEvent::Press(rr, cc));
    let pk0 = PendingKey { def: d, elapsed: 0 };
    let sp = states0.update(pos, KeyState::Pending(pk0));
    lemma_advance_single(sp, stack0, pos, pk0, n);
    let pk1 = PendingKey { def: d, elapsed: 1 };
    assert(sp.update(pos, KeyState::Pending(pk1)) =~= states0.update(pos, KeyState::Pending(pk1)));
    let s1 = states0.update(pos, KeyState::Pending(pk1));
    let t1 = spec_tick_parts(
        lo.layers@,
        rows,
        cols,
        states0,
        stack0,
        watches0,
        seq![KeyEvent::Press(rr, cc)],
    );
    assert(t1.0 == s1 && t1.1 == stack0 && t1.2 == watches0 && t1.3 is None);
    lemma_keycodes_contains(s1, n, tk);
    assert(!keycodes_upto(s1, n).contains(tk)) by {
        if keycodes_upto(s1, n).contains(tk) {
            let p = choose|p: int| 0 <= p < n && state_keycodes(#[trigger] s1[p]).contains(tk);
            assert(p != pos);
            assert(s1[p] == states0[p]);
        }
    }

    // Tick 2: the other key goes down; the pending key now watches it.
    assert(forall|p: int| 0 <= p < n ==> !((#[trigger] s1[p]) is TapPulse));
    lemma_clear_pulses_nop(s1);
    lemma_add_watches_single(s1, watches0, (br, bc), posb, pos, n);
    let watches1 = watches0.push((pos as usize, (br, bc)));
    lemma_process_single(lo.layers@, rows, cols, s1, stack0, watches0, KeyEvent::Press(br, bc));
    assert(s1[posb] is Idle);
    let s2m = s1.update(posb, KeyState::Held(SimpleAction::Key(kb)));
    lemma_advance_single(s2m, stack0, pos, pk1, n);
    let pk2 = PendingKey { def: d, elapsed: 2 };
    let s2 = states0.update(pos, KeyState::Pending(pk2)).update(
        posb,
        KeyState::Held(SimpleAction::Key(kb)),
    );
    assert(s2m.update(pos, KeyState::Pending(pk2)) =~= s2);
    let t2 = spec_tick_parts(lo.layers@, rows, cols, t1.0, t1.1, t1.2, seq![KeyEvent::Press(br, bc)]);
    assert(t2.0 == s2 && t2.1 == stack0 && t2.2 == watches1 && t2.3 is None);
    lemma_keycodes_contains(s2, n, tk);
    assert(!keycodes_upto(s2, n).contains(tk)) by {
        if keycodes_upto(s2, n).contains(tk) {
            let p = choose|p: int| 0 <= p < n && state_keycodes(#[trigger] s2[p]).contains(tk);
            assert(p != pos);
            if p == posb {
                assert(state_keycodes(s2[posb]) == seq![kb]);
                let i = choose|i: int| 0 <= i < seq![kb].len() && seq![kb][i] == tk;
                assert(seq![kb][0] == kb);
            } else {
                assert(s2[p] == states0[p]);
            }
        }
    }
    lemma_keycodes_contains(s2, n, kb);
    assert(keycodes_upto(s2, n).contains(kb)) by {
        assert(state_keycodes(s2[posb]) == seq![kb]);
        assert(seq![kb][0] == kb);
    }

    // Tick 3: the other key's release, while the hold-tap is still held,
    // resolves the pending key to hold.
    assert(forall|p: int| 0 <= p < n ==> !((#[trigger] s2[p]) is TapPulse));
    lemma_clear_pulses_nop(s2);
    assert(watches1.contains((pos as usize, (br, bc)))) by {
        assert(watches1[watches0.len() as int] == (pos as usize, (br, bc)));
    }
    assert(s2[pos] == KeyState::Pending(pk2));
    lemma_resolve_single(s2, stack0, watches1, (br, bc), pos, pk2, n);
    let shold = states0.update(pos, KeyState::Held(d.hold));
    let s3m = s2.update(pos, KeyState::Held(d.hold));
    let stackh = push_if_layer(stack0, d.hold, pos);
    lemma_process_single(lo.layers@, rows, cols, s2, stack0, watches1, KeyEvent::Release(br, bc));
    assert(s3m[posb] == KeyState::Held(SimpleAction::Key(kb)));
    let s3 = s3m.update(posb, KeyState::Idle);
    assert(s3 =~= shold);
    assert(prune_watches_upto(watches1, posb, (br, bc), watches1.len() as int)
        =~= Seq::<(usize, (u8, u8))>::empty()) by {
        assert(watches1[0] == (pos as usize, (br, bc)));
        assert(prune_watches_upto(watches1, posb, (br, bc), 0)
            =~= Seq::<(usize, (u8, u8))>::empty());
    }
    assert(forall|p: int| 0 <= p < n ==> !((#[trigger] shold[p]) is Pending));
    lemma_advance_nop(shold, stackh, n);
    let t3 = spec_tick_parts(
        lo.layers@,
        rows,
        cols,
        t2.0,
        t2.1,
        t2.2,
        seq![KeyEvent::Release(br, bc)],
    );
    assert(t3.0 == shold && t3.1 == stackh && t3.2.len() == 0 && t3.3 is None);
    lemma_keycodes_contains(shold, n, tk);
    assert(!keycodes_upto(shold, n).contains(tk)) by {
        if keycodes_upto(shold, n).contains(tk) {
            let p = choose|p: int| 0 <= p < n && state_keycodes(#[trigger] shold[p]).contains(tk);
            if p == pos {
                assert(state_keycodes(shold[pos]) == d.hold.keycodes_spec());
            } else {
                assert(shold[p] == states0[p]);
            }
        }
    }
    if let SimpleAction::Key(hk) = d.hold {
        lemma_keycodes_contains(shold, n, hk);
        assert(state_keycodes(shold[pos]) == seq![hk]);
        assert(seq![hk][0] == hk);
    }

    // Tick 4: the hold-tap key's own release undoes the hold exactly.
    assert(forall|p: int| 0 <= p < n ==> !((#[trigger] shold[p]) is TapPulse));
    lemma_clear_pulses_nop(shold);
    let wempty = t3.2;
    lemma_resolve_nop(shold, stackh, wempty, (rr, cc), n);
    lemma_process_single(lo.layers@, rows, cols, shold, stackh, wempty, KeyEvent::Release(rr, cc));
    let sback = shold.update(pos, KeyState::Idle);
    assert(sback =~= states0);
    match d.hold {
        SimpleAction::Layer(l) => {
            assert(pos as usize as int == pos);
            assert(stackh == stack0.push(LayerEntry::Momentary { pos: pos as usize, layer: l }));
            lemma_remove_momentary_nomatch(stack0, pos, stack0.len() as int);
            assert(stack0.take(stack0.len() as int) =~= stack0);
            lemma_remove_momentary_prefix(stackh, stack0, pos, stack0.len() as int);
            assert(stackh.len() == stack0.len() + 1);
            assert(stackh[stack0.len() as int] == (LayerEntry::Momentary {
                pos: pos as usize,
                layer: l,
            }));
            assert(remove_momentary_upto(stackh, pos, stackh.len() as int)
                == remove_momentary_upto(stackh, pos, stack0.len() as int));
            assert(remove_momentary_upto(stackh, pos, stackh.len() as int) == stack0);
        },
        _ => {
            assert(stackh == stack0);
        },
    }
    assert(prune_watches_upto(wempty, pos, (rr, cc), wempty.len() as int)
        =~= Seq::<(usize, (u8, u8))>::empty());
    assert(forall|p: int| 0 <= p < n ==> !((#[trigger] states0[p]) is Pending));
    lemma_advance_nop(states0, stack0, n);
    let t4 = spec_tick_parts(
        lo.layers@,
        rows,
        cols,
        t3.0,
        t3.1,
        t3.2,
        seq![KeyEvent::Release(rr, cc)],
    );
    assert(t4.0 == states0 && t4.1 == stack0 && t4.2.len() == 0 && t4.3 is None);
    lemma_keycodes_contains(states0, n, tk);
    assert(!keycodes_upto(states0, n).contains(tk)) by {
        if keycodes_upto(states0, n).contains(tk) {
            let p = choose|p: int| 0 <= p < n && state_keycodes(#[trigger] states0[p]).contains(tk);
            assert(p != pos && p != posb);
        }
    }
}

} // verus!
