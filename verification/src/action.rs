use vstd::prelude::*;

verus! {

// The keymap's per-key semantics. A static layer table assigns one Action to
// every (layer, position) pair; the layout engine interprets them at run
// time. Keycodes are HID usage ids carried as plain bytes. All of these are
// plain Copy data: the keymap is fixed configuration, nothing here allocates.

/// A board-level effect, fired by a Custom action's press and performed
/// outside this crate: both jump away from the firmware and never return.
#[derive(Clone, Copy, PartialEq, Eq, Structural, Debug)]
pub enum CustomActions {
    Bootload,
    Reset,
}

/// A fixed set of up to six keycodes, sent together as one key (for example
/// a ctrl-tab pair). The first `count` entries of `keys` are meaningful.
#[derive(Clone, Copy, PartialEq, Eq, Debug)]
pub struct KeySet {
    pub count: u8,
    pub keys: [u8; 6],
}

impl KeySet {
    /// The meaningful keycodes, in order.
    pub open spec fn seq(self) -> Seq<u8> {
        self.keys@.take(self.count as int)
    }

    pub open spec fn wf(self) -> bool {
        self.count <= 6
    }
}

/// An action with an immediate, self-contained effect: the possible
/// resolutions of a hold-tap key, and the payload of plain keymap entries.
#[derive(Clone, Copy, PartialEq, Eq, Debug)]
pub enum SimpleAction {
    /// One keycode held down while the key is held.
    Key(u8),
    /// A fixed set of keycodes all held down together.
    MultipleKeys(KeySet),
    /// A momentary layer: active from press to release.
    Layer(usize),
}

/// The tie-break policy of a hold-tap key while its decision is pending.
#[derive(Clone, Copy, PartialEq, Eq, Structural, Debug)]
pub enum TieBreak {
    /// Only the timeout forces the hold resolution.
    TimeoutOnly,
    /// Another key pressed and then released while this key is still held
    /// also forces the hold resolution, signalling deliberate chording.
    PermissiveHold,
}

/// A key whose effect depends on whether it is held past a timeout (hold)
/// or released before it (tap). The timeout is counted in scan ticks.
#[derive(Clone, Copy, PartialEq, Eq, Debug)]
pub struct HoldTapDef {
    pub timeout: u16,
    pub policy: TieBreak,
    pub hold: SimpleAction,
    pub tap: SimpleAction,
}

/// One keymap entry.
#[derive(Clone, Copy, PartialEq, Eq, Debug)]
pub enum Action {
    /// Pressing does nothing.
    NoOp,
    /// Transparent: inherit the entry of the next-lower active layer.
    Trans,
    /// A plain entry: its simple action applies from press to release.
    Simple(SimpleAction),
    /// A hold-tap key.
    HoldTap(HoldTapDef),
    /// Toggles a layer persistently: one press adds it, the next removes it;
    /// releases are ignored.
    ToggleLayer(usize),
    /// Fires a board-level effect on press; release is a no-op.
    Custom(CustomActions),
}

/// Validity of a simple action against the number of layers in the table.
pub open spec fn simple_wf(a: SimpleAction, nlayers: int) -> bool {
    match a {
        SimpleAction::Key(_) => true,
        SimpleAction::MultipleKeys(ks) => ks.wf(),
        SimpleAction::Layer(l) => l < nlayers,
    }
}

/// Validity of a keymap entry against the number of layers: every layer it
/// can activate must exist, and a hold-tap needs a positive timeout.
pub open spec fn action_wf(a: Action, nlayers: int) -> bool {
    match a {
        Action::NoOp => true,
        Action::Trans => true,
        Action::Simple(s) => simple_wf(s, nlayers),
        Action::HoldTap(d) => simple_wf(d.hold, nlayers) && simple_wf(d.tap, nlayers)
            && d.timeout >= 1,
        Action::ToggleLayer(l) => l < nlayers,
        Action::Custom(_) => true,
    }
}

impl SimpleAction {
    /// The keycodes this action keeps down while it is in effect; a layer
    /// contributes through the layer stack, not through keycodes.
    pub open spec fn keycodes_spec(self) -> Seq<u8> {
        match self {
            SimpleAction::Key(k) => seq![k],
            SimpleAction::MultipleKeys(ks) => ks.seq(),
            SimpleAction::Layer(_) => Seq::empty(),
        }
    }
}

} // verus!
