use keycore::action::{Action, CustomActions, HoldTapDef, KeySet, SimpleAction, TieBreak};
use keycore::chord::{ChordDef, Chording};
use keycore::debounce::Debouncer;
use keycore::event::KeyEvent;
use keycore::keyboard::Keyboard;
use keycore::layout::{ConfigError, Layout};

const KC_A: u8 = 0x04;
const KC_B: u8 = 0x05;
const KC_C: u8 = 0x06;
const KC_D: u8 = 0x07;
const KC_TAB: u8 = 0x2B;
const KC_LCTRL: u8 = 0xE0;
const KC_LSHIFT: u8 = 0xE1;

fn key(k: u8) -> Action {
    Action::Simple(SimpleAction::Key(k))
}

#[test]
fn layout_rejects_bad_dimensions() {
    let r = Layout::new(0, 2, vec![vec![key(KC_A), key(KC_B)]]);
    assert!(matches!(r, Err(ConfigError::BadDimensions)));
    let r = Layout::new(1, 2, vec![vec![key(KC_A)]]);
    assert!(matches!(r, Err(ConfigError::BadDimensions)));
    let r = Layout::new(1, 2, vec![]);
    assert!(matches!(r, Err(ConfigError::BadDimensions)));
}

#[test]
fn layout_rejects_transparent_base() {
    let r = Layout::new(1, 2, vec![vec![key(KC_A), Action::Trans]]);
    assert!(matches!(r, Err(ConfigError::TransparentBase)));
}

#[test]
fn layout_rejects_dangling_layer_reference() {
    let r = Layout::new(1, 2, vec![vec![key(KC_A), Action::Simple(SimpleAction::Layer(5))]]);
    assert!(matches!(r, Err(ConfigError::BadEntry)));
}

#[test]
fn plain_key_round_trip_affects_only_its_keycode() {
    let mut lo = Layout::new(1, 2, vec![vec![key(KC_A), key(KC_B)]]).unwrap();
    lo.event(KeyEvent::Press(0, 1));
    assert!(lo.tick().is_none());
    assert_eq!(lo.keycodes(), vec![KC_B]);
    lo.event(KeyEvent::Press(0, 0));
    lo.tick();
    assert_eq!(lo.keycodes(), vec![KC_A, KC_B]);
    lo.event(KeyEvent::Release(0, 1));
    lo.tick();
    assert_eq!(lo.keycodes(), vec![KC_A]);
    lo.event(KeyEvent::Release(0, 0));
    lo.tick();
    assert!(lo.keycodes().is_empty());
}

#[test]
fn momentary_layer_switches_while_held() {
    let layers = vec![
        vec![Action::Simple(SimpleAction::Layer(1)), key(KC_A)],
        vec![Action::Trans, key(KC_C)],
    ];
    let mut lo = Layout::new(1, 2, layers).unwrap();
    lo.event(KeyEvent::Press(0, 0));
    lo.tick();
    lo.event(KeyEvent::Press(0, 1));
    lo.tick();
    assert_eq!(lo.keycodes(), vec![KC_C]);
    lo.event(KeyEvent::Release(0, 1));
    lo.tick();
    lo.event(KeyEvent::Release(0, 0));
    lo.tick();
    // Layer popped: the same position now gives the base entry.
    lo.event(KeyEvent::Press(0, 1));
    lo.tick();
    assert_eq!(lo.keycodes(), vec![KC_A]);
}

#[test]
fn toggled_layer_persists_until_next_toggle() {
    let layers = vec![
        vec![Action::ToggleLayer(1), key(KC_A)],
        vec![Action::Trans, key(KC_C)],
    ];
    let mut lo = Layout::new(1, 2, layers).unwrap();
    lo.event(KeyEvent::Press(0, 0));
    lo.tick();
    lo.event(KeyEvent::Release(0, 0));
    lo.tick();
    lo.event(KeyEvent::Press(0, 1));
    lo.tick();
    assert_eq!(lo.keycodes(), vec![KC_C]);
    lo.event(KeyEvent::Release(0, 1));
    lo.tick();
    lo.event(KeyEvent::Press(0, 0));
    lo.tick();
    lo.event(KeyEvent::Release(0, 0));
    lo.tick();
    lo.event(KeyEvent::Press(0, 1));
    lo.tick();
    assert_eq!(lo.keycodes(), vec![KC_A]);
}

#[test]
fn multiple_keys_send_their_whole_set() {
    let ct = Action::Simple(SimpleAction::MultipleKeys(KeySet {
        count: 2,
        keys: [KC_LCTRL, KC_TAB, 0, 0, 0, 0],
    }));
    let mut lo = Layout::new(1, 1, vec![vec![ct]]).unwrap();
    lo.event(KeyEvent::Press(0, 0));
    lo.tick();
    assert_eq!(lo.keycodes(), vec![KC_LCTRL, KC_TAB]);
    lo.event(KeyEvent::Release(0, 0));
    lo.tick();
    assert!(lo.keycodes().is_empty());
}

fn holdtap(policy: TieBreak, timeout: u16) -> Action {
    Action::HoldTap(HoldTapDef {
        timeout,
        policy,
        hold: SimpleAction::Key(KC_LSHIFT),
        tap: SimpleAction::Key(KC_A),
    })
}

#[test]
fn holdtap_quick_release_taps_for_one_tick() {
    let layers = vec![vec![holdtap(TieBreak::TimeoutOnly, 200), key(KC_B)]];
    let mut lo = Layout::new(1, 2, layers).unwrap();
    lo.event(KeyEvent::Press(0, 0));
    lo.tick();
    // Pending: nothing asserted yet.
    assert!(lo.keycodes().is_empty());
    lo.event(KeyEvent::Release(0, 0));
    lo.tick();
    // The tap pulse: exactly one tick with the tap keycode.
    assert_eq!(lo.keycodes(), vec![KC_A]);
    lo.tick();
    assert!(lo.keycodes().is_empty());
}

#[test]
fn holdtap_past_timeout_holds_and_never_taps() {
    let layers = vec![vec![holdtap(TieBreak::TimeoutOnly, 5), key(KC_B)]];
    let mut lo = Layout::new(1, 2, layers).unwrap();
    lo.event(KeyEvent::Press(0, 0));
    lo.tick();
    for _ in 0..3 {
        lo.tick();
        assert!(lo.keycodes().is_empty());
    }
    // The timeout elapses: the hold keycode appears and persists.
    lo.tick();
    assert_eq!(lo.keycodes(), vec![KC_LSHIFT]);
    lo.tick();
    assert_eq!(lo.keycodes(), vec![KC_LSHIFT]);
    lo.event(KeyEvent::Release(0, 0));
    lo.tick();
    assert!(lo.keycodes().is_empty());
}

#[test]
fn holdtap_permissive_hold_resolves_on_interleaved_tap() {
    let layers = vec![vec![holdtap(TieBreak::PermissiveHold, 200), key(KC_B)]];
    let mut lo = Layout::new(1, 2, layers).unwrap();
    lo.event(KeyEvent::Press(0, 0));
    lo.tick();
    lo.event(KeyEvent::Press(0, 1));
    lo.tick();
    assert_eq!(lo.keycodes(), vec![KC_B]);
    // The other key is pressed and released while the hold-tap is down:
    // deliberate chording, so the hold resolves at once.
    lo.event(KeyEvent::Release(0, 1));
    lo.tick();
    assert_eq!(lo.keycodes(), vec![KC_LSHIFT]);
    lo.event(KeyEvent::Release(0, 0));
    lo.tick();
    assert!(lo.keycodes().is_empty());
}

#[test]
fn holdtap_permissive_hold_tracks_every_interleaved_press() {
    // Press the hold-tap, then B, then C, and release B while the hold-tap
    // is still down: B was pressed and released while it was held, so the
    // hold must fire even though C was pressed in between.
    let layers = vec![vec![holdtap(TieBreak::PermissiveHold, 200), key(KC_B), key(KC_C)]];
    let mut lo = Layout::new(1, 3, layers).unwrap();
    lo.event(KeyEvent::Press(0, 0));
    lo.tick();
    lo.event(KeyEvent::Press(0, 1));
    lo.tick();
    lo.event(KeyEvent::Press(0, 2));
    lo.tick();
    assert_eq!(lo.keycodes(), vec![KC_B, KC_C]);
    lo.event(KeyEvent::Release(0, 1));
    lo.tick();
    // The hold resolved: shift is down, B is up, C is still down, and the
    // tap keycode never appeared.
    assert_eq!(lo.keycodes(), vec![KC_LSHIFT, KC_C]);
    lo.event(KeyEvent::Release(0, 2));
    lo.tick();
    assert_eq!(lo.keycodes(), vec![KC_LSHIFT]);
    lo.event(KeyEvent::Release(0, 0));
    lo.tick();
    assert!(lo.keycodes().is_empty());
}

#[test]
fn holdtap_permissive_ignores_keys_pressed_before_it() {
    // B goes down before the hold-tap: B's release is not an interleaved
    // press-and-release, so a quick release of the hold-tap still taps.
    let layers = vec![vec![holdtap(TieBreak::PermissiveHold, 200), key(KC_B)]];
    let mut lo = Layout::new(1, 2, layers).unwrap();
    lo.event(KeyEvent::Press(0, 1));
    lo.tick();
    lo.event(KeyEvent::Press(0, 0));
    lo.tick();
    lo.event(KeyEvent::Release(0, 1));
    lo.tick();
    assert_eq!(lo.keycodes(), vec![]);
    lo.event(KeyEvent::Release(0, 0));
    lo.tick();
    assert_eq!(lo.keycodes(), vec![KC_A]);
    lo.tick();
    assert!(lo.keycodes().is_empty());
}

#[test]
fn holdtap_default_policy_taps_despite_interleaved_press() {
    let layers = vec![vec![holdtap(TieBreak::TimeoutOnly, 200), key(KC_B)]];
    let mut lo = Layout::new(1, 2, layers).unwrap();
    lo.event(KeyEvent::Press(0, 0));
    lo.tick();
    lo.event(KeyEvent::Press(0, 1));
    lo.tick();
    lo.event(KeyEvent::Release(0, 1));
    lo.tick();
    // TimeoutOnly: nothing forced a hold decision, so a quick release taps.
    lo.event(KeyEvent::Release(0, 0));
    lo.tick();
    assert_eq!(lo.keycodes(), vec![KC_A]);
}

#[test]
fn custom_action_fires_once_per_press_never_on_release() {
    let layers = vec![vec![Action::Custom(CustomActions::Bootload), key(KC_B)]];
    let mut lo = Layout::new(1, 2, layers).unwrap();
    let mut bootloads = 0u32;
    lo.event(KeyEvent::Press(0, 0));
    if lo.tick() == Some(CustomActions::Bootload) {
        bootloads += 1;
    }
    for _ in 0..5 {
        if lo.tick().is_some() {
            bootloads += 1;
        }
    }
    lo.event(KeyEvent::Release(0, 0));
    if lo.tick().is_some() {
        bootloads += 1;
    }
    assert_eq!(bootloads, 1);
}

fn small_keyboard() -> Keyboard {
    // A 2 x 2 board: one chord over the top row producing the bottom-right
    // key, debounced over 2 scans.
    let debouncer = Debouncer::new(2, 2, 2).unwrap();
    let chording = Chording::new(
        vec![ChordDef { target: (1, 1), sources: vec![(0, 0), (0, 1)] }],
        4,
    );
    let layers = vec![vec![key(KC_A), key(KC_B), key(KC_C), key(KC_D)]];
    let layout = Layout::new(2, 2, layers).unwrap();
    Keyboard::new(debouncer, chording, layout)
}

fn raw(pressed: &[(usize, usize)]) -> Vec<bool> {
    let mut v = vec![false; 4];
    for &(r, c) in pressed {
        v[r * 2 + c] = true;
    }
    v
}

#[test]
fn pipeline_reports_single_key_and_skips_unchanged_writes() {
    let mut kb = small_keyboard();
    let down = raw(&[(1, 0)]);
    let out = kb.scan_tick(&down);
    assert!(!out.changed);
    let out = kb.scan_tick(&down);
    assert!(out.changed);
    assert_eq!(out.report, vec![0, 0, KC_C, 0, 0, 0, 0, 0]);
    // Same state next tick: no new write.
    let out = kb.scan_tick(&down);
    assert!(!out.changed);
    assert!(out.custom.is_none());
    let up = raw(&[]);
    kb.scan_tick(&up);
    let out = kb.scan_tick(&up);
    assert!(out.changed);
    assert_eq!(out.report, vec![0; 8]);
}

#[test]
fn pipeline_reports_chord_target_never_its_sources() {
    let mut kb = small_keyboard();
    let down = raw(&[(0, 0), (0, 1)]);
    let mut saw_target = false;
    for _ in 0..6 {
        let out = kb.scan_tick(&down);
        assert!(!out.report.contains(&KC_A));
        assert!(!out.report.contains(&KC_B));
        if out.report.contains(&KC_D) {
            saw_target = true;
        }
    }
    assert!(saw_target);
    let up = raw(&[]);
    for _ in 0..6 {
        let out = kb.scan_tick(&up);
        assert!(!out.report.contains(&KC_A));
        assert!(!out.report.contains(&KC_B));
    }
    let out = kb.scan_tick(&up);
    assert_eq!(out.report, vec![0; 8]);
    assert!(!out.changed);
}
