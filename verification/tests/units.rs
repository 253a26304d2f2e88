use keycore::chord::{ChordDef, Chording};
use keycore::debounce::Debouncer;
use keycore::event::KeyEvent;
use keycore::report::{should_retry_write, HidReport, ReportEmitter};
use keycore::scan::pressed_from_levels;
use keycore::watchdog::WatchdogModel;

fn all_raw(rows: usize, cols: usize, pressed: &[(u8, u8)]) -> Vec<bool> {
    let mut v = vec![false; rows * cols];
    for &(r, c) in pressed {
        v[r as usize * cols + c as usize] = true;
    }
    v
}

#[test]
fn scanner_inverts_pull_up_levels() {
    let levels = vec![true, false, true, false];
    let pressed = pressed_from_levels(&levels);
    assert_eq!(pressed, vec![false, true, false, true]);
}

#[test]
fn debounce_short_bounce_emits_nothing() {
    // A transition held for fewer scans than the window leaves no trace.
    let mut d = Debouncer::new(1, 1, 5).unwrap();
    for _ in 0..4 {
        assert!(d.events(&vec![true]).is_empty());
    }
    // The line settles back: still nothing, ever.
    for _ in 0..10 {
        assert!(d.events(&vec![false]).is_empty());
    }
}

#[test]
fn debounce_exact_window_emits_once_on_completion() {
    let mut d = Debouncer::new(2, 3, 5).unwrap();
    let raw = all_raw(2, 3, &[(1, 2)]);
    for _ in 0..4 {
        assert!(d.events(&raw).is_empty());
    }
    let evs = d.events(&raw);
    assert_eq!(evs, vec![KeyEvent::Press(1, 2)]);
    // Held steady afterwards: silent.
    assert!(d.events(&raw).is_empty());
}

#[test]
fn debounce_release_needs_its_own_window() {
    let mut d = Debouncer::new(1, 1, 3).unwrap();
    for _ in 0..2 {
        assert!(d.events(&vec![true]).is_empty());
    }
    assert_eq!(d.events(&vec![true]), vec![KeyEvent::Press(0, 0)]);
    for _ in 0..2 {
        assert!(d.events(&vec![false]).is_empty());
    }
    assert_eq!(d.events(&vec![false]), vec![KeyEvent::Release(0, 0)]);
}

#[test]
fn debouncer_rejects_bad_parameters() {
    assert!(Debouncer::new(1, 1, 0).is_none());
    assert!(Debouncer::new(257, 1, 5).is_none());
    assert!(Debouncer::new(1, 257, 5).is_none());
    assert!(Debouncer::new(256, 256, 1).is_some());
}

fn chord_table() -> Vec<ChordDef> {
    vec![ChordDef { target: (3, 4), sources: vec![(0, 6), (1, 6)] }]
}

#[test]
fn chord_same_tick_substitutes_target() {
    let mut ch = Chording::new(chord_table(), 8);
    let out = ch.tick(&vec![KeyEvent::Press(0, 6), KeyEvent::Press(1, 6)]);
    assert_eq!(out, vec![KeyEvent::Press(3, 4)]);
    let out = ch.tick(&vec![KeyEvent::Release(0, 6), KeyEvent::Release(1, 6)]);
    assert_eq!(out, vec![KeyEvent::Release(3, 4)]);
}

#[test]
fn chord_within_window_substitutes_target() {
    let mut ch = Chording::new(chord_table(), 8);
    assert!(ch.tick(&vec![KeyEvent::Press(0, 6)]).is_empty());
    for _ in 0..3 {
        assert!(ch.tick(&vec![]).is_empty());
    }
    let out = ch.tick(&vec![KeyEvent::Press(1, 6)]);
    assert_eq!(out, vec![KeyEvent::Press(3, 4)]);
}

#[test]
fn chord_window_expiry_flushes_held_press() {
    let mut ch = Chording::new(chord_table(), 2);
    assert!(ch.tick(&vec![KeyEvent::Press(0, 6)]).is_empty());
    // age 1 after the press tick; ages 2 then expires on the next tick.
    assert!(ch.tick(&vec![]).is_empty());
    let out = ch.tick(&vec![]);
    assert_eq!(out, vec![KeyEvent::Press(0, 6)]);
}

#[test]
fn chord_source_released_early_is_replayed() {
    let mut ch = Chording::new(chord_table(), 8);
    assert!(ch.tick(&vec![KeyEvent::Press(0, 6)]).is_empty());
    let out = ch.tick(&vec![KeyEvent::Release(0, 6)]);
    assert_eq!(out, vec![KeyEvent::Press(0, 6), KeyEvent::Release(0, 6)]);
}

#[test]
fn chord_passes_other_keys_through() {
    let mut ch = Chording::new(chord_table(), 8);
    let out = ch.tick(&vec![KeyEvent::Press(2, 2), KeyEvent::Release(2, 2)]);
    assert_eq!(out, vec![KeyEvent::Press(2, 2), KeyEvent::Release(2, 2)]);
}

#[test]
fn report_packs_modifiers_and_keys() {
    // LCtrl (0xE0) becomes bit 0, LShift (0xE1) bit 1; plain keys fill slots.
    let rep = HidReport::from_keycodes(&vec![0xE0, 0x04, 0xE1, 0x05]);
    assert_eq!(rep.modifiers, 0b0000_0011);
    assert_eq!(rep.keys, vec![0x04, 0x05]);
    assert_eq!(rep.as_bytes(), vec![0b0000_0011, 0, 0x04, 0x05, 0, 0, 0, 0]);
}

#[test]
fn report_deduplicates_keycodes() {
    let rep = HidReport::from_keycodes(&vec![0x04, 0x04, 0x05, 0x04]);
    assert_eq!(rep.keys, vec![0x04, 0x05]);
}

#[test]
fn report_truncates_deterministically_after_six() {
    let rep = HidReport::from_keycodes(&vec![4, 5, 6, 7, 8, 9, 10, 11]);
    assert_eq!(rep.keys, vec![4, 5, 6, 7, 8, 9]);
}

#[test]
fn emitter_skips_unchanged_reports() {
    let mut em = ReportEmitter::new();
    let idle = vec![0u8; 8];
    // The very first report equals the idle report: no write needed.
    assert!(!em.set_report(&idle));
    let rep = vec![0, 0, 4, 0, 0, 0, 0, 0];
    assert!(em.set_report(&rep));
    // Unchanged keycode set: no duplicate write.
    assert!(!em.set_report(&rep));
    assert!(em.set_report(&idle));
}

#[test]
fn emitter_retries_stale_report_after_failed_write() {
    let mut em = ReportEmitter::new();
    let rep = vec![0, 0, 4, 0, 0, 0, 0, 0];
    assert!(em.set_report(&rep));
    // The transport refused the write: the emitter forgets the report, so
    // the unchanged state next tick still asks for a write.
    em.write_failed();
    assert!(em.set_report(&rep));
    assert!(!em.set_report(&rep));
}

#[test]
fn write_retry_policy_retries_only_on_zero_bytes_accepted() {
    assert!(should_retry_write(true, 0));
    assert!(!should_retry_write(true, 8));
    assert!(!should_retry_write(true, 1));
    assert!(!should_retry_write(false, 0));
}

#[test]
fn watchdog_fires_when_starved_past_period() {
    let mut w = WatchdogModel::new(10);
    w.elapse(10);
    assert!(!w.fired);
    w.elapse(1);
    assert!(w.fired);
    // A late feed cannot un-fire it.
    w.feed();
    assert!(w.fired);
}

#[test]
fn watchdog_stays_quiet_when_fed_each_period() {
    let mut w = WatchdogModel::new(10);
    let mut feeds = 0u32;
    for _ in 0..100 {
        w.elapse(10);
        w.feed();
        feeds += 1;
    }
    assert_eq!(feeds, 100);
    assert!(!w.fired);
}
