//! Real-time decoding core of a mechanical-keyboard firmware: raw, bouncy
//! switch states in, clean USB HID keyboard reports out.
//!
//! The pipeline runs once per scan tick: a raw matrix snapshot is debounced
//! into confirmed key events, chord definitions rewrite simultaneous presses
//! into synthetic keys, the layout engine resolves layers, hold-tap keys and
//! custom actions, and the report emitter decides whether a new HID report
//! must be written. A watchdog model captures the liveness contract of the
//! scan loop. Board bring-up, GPIO, USB transport and interrupt plumbing are
//! external collaborators and live outside this crate.

pub mod action;
pub mod chord;
pub mod debounce;
pub mod event;
pub mod keyboard;
pub mod layout;
pub mod report;
pub mod scan;
pub mod watchdog;
