use vstd::prelude::*;

use crate::action::CustomActions;
use crate::chord::Chording;
use crate::chord::chord_tick_spec;
use crate::debounce::Debouncer;
use crate::debounce::deb_events_seq;
use crate::debounce::deb_next_confirmed_seq;
use crate::debounce::deb_next_count_seq;
use crate::layout::Layout;
use crate::layout::keycodes_upto;
use crate::layout::spec_tick_parts;
use crate::report::HidReport;
use crate::report::ReportEmitter;
use crate::report::idle_report_bytes;
use crate::report::report_bytes_for;

verus! {

// The full per-tick pipeline, as the periodic scan interrupt drives it:
// debounce the raw snapshot, rewrite chords, run the layout engine, and
// decide whether a new HID report must go out. The caller performs the
// outside work around it: sampling the matrix pins, feeding the hardware
// watchdog, writing the report to the USB transport, and carrying out the
// custom action, which never returns.

/// What one scan tick asks of the board.
pub struct TickOutput {
    /// The board-level effect fired this tick, if a Custom key was pressed.
    pub custom: Option<CustomActions>,
    /// The eight wire bytes of this tick's HID report.
    pub report: Vec<u8>,
    /// Whether the report differs from the previous tick's: only then must
    /// it be written to the transport.
    pub changed: bool,
}

/// The decoding core: debouncer, chord detector, layout engine and report
/// emitter, advanced together once per scan tick.
pub struct Keyboard {
    pub debouncer: Debouncer,
    pub chording: Chording,
    pub layout: Layout,
    pub emitter: ReportEmitter,
}

impl Keyboard {
    pub open spec fn wf(self) -> bool {
        &&& self.debouncer.wf()
        &&& self.chording.wf()
        &&& self.layout.wf()
        &&& self.debouncer.rows == self.layout.rows
        &&& self.debouncer.cols == self.layout.cols
    }

    /// Assembles the pipeline. The debouncer and the layout engine must
    /// agree on the matrix dimensions.
    pub fn new(debouncer: Debouncer, chording: Chording, layout: Layout) -> (kb: Keyboard)
        requires
            debouncer.wf(),
            chording.wf(),
            layout.wf(),
            debouncer.rows == layout.rows,
            debouncer.cols == layout.cols,
        ensures
            kb.wf(),
            kb.debouncer == debouncer,
            kb.chording == chording,
            kb.layout == layout,
            kb.emitter.last@ == idle_report_bytes(),
    {
        Keyboard { debouncer, chording, layout, emitter: ReportEmitter::new() }
    }

    /// One full scan tick over a raw matrix snapshot: the debouncer's
    /// confirmed transitions run through the chord detector into the layout
    /// engine, and the engine's keycode set becomes this tick's report,
    /// flagged for writing only when it differs from the previous one.
    pub fn scan_tick(&mut self, raw: &Vec<bool>) -> (out: TickOutput)
        requires
            old(self).wf(),
            raw@.len() == old(self).debouncer.rows * old(self).debouncer.cols,
        ensures
            final(self).wf(),
            final(self).debouncer.rows == old(self).debouncer.rows,
            final(self).debouncer.cols == old(self).debouncer.cols,
            final(self).debouncer.window == old(self).debouncer.window,
            final(self).chording.defs == old(self).chording.defs,
            final(self).chording.window == old(self).chording.window,
            final(self).layout.rows == old(self).layout.rows,
            final(self).layout.cols == old(self).layout.cols,
            final(self).layout.layers == old(self).layout.layers,
            final(self).layout.queued@.len() == 0,
            final(self).debouncer.confirmed@ == deb_next_confirmed_seq(
                old(self).debouncer.confirmed@,
                old(self).debouncer.counts@,
                raw@,
                old(self).debouncer.window,
            ),
            final(self).debouncer.counts@ == deb_next_count_seq(
                old(self).debouncer.confirmed@,
                old(self).debouncer.counts@,
                raw@,
                old(self).debouncer.window,
            ),
            ({
                let evs = deb_events_seq(
                    old(self).debouncer.confirmed@,
                    old(self).debouncer.counts@,
                    raw@,
                    old(self).debouncer.window,
                    old(self).debouncer.rows as int,
                    old(self).debouncer.cols as int,
                );
                let ch = chord_tick_spec(old(self).chording, evs);
                let lt = spec_tick_parts(
                    old(self).layout.layers@,
                    old(self).layout.rows as int,
                    old(self).layout.cols as int,
                    old(self).layout.states@,
                    old(self).layout.stack@,
                    old(self).layout.watches@,
                    old(self).layout.queued@ + ch.3,
                );
                let kcs = keycodes_upto(lt.0, lt.0.len() as int);
                let bytes = report_bytes_for(kcs);
                &&& final(self).chording.held@ == ch.0
                &&& final(self).chording.active@ == ch.1
                &&& final(self).chording.age == ch.2
                &&& final(self).layout.states@ == lt.0
                &&& final(self).layout.stack@ == lt.1
                &&& final(self).layout.watches@ == lt.2
                &&& out.custom == lt.3
                &&& out.report@ == bytes
                &&& out.changed == (bytes != old(self).emitter.last@)
                &&& final(self).emitter.last@ == bytes
            }),
    {
        let evs = self.debouncer.events(raw);
        let chevs = self.chording.tick(&evs);
        let ghost deb1 = self.debouncer;
        let ghost ch1 = self.chording;
        let ghost em0 = self.emitter;
        let ghost lay1 = self.layout;
        let n = chevs.len();
        let mut i: usize = 0;
        while i < n
            invariant
                n == chevs@.len(),
                i <= n,
                self.debouncer == deb1,
                self.chording == ch1,
                self.emitter == em0,
                self.layout.rows == lay1.rows,
                self.layout.cols == lay1.cols,
                self.layout.layers == lay1.layers,
                self.layout.states == lay1.states,
                self.layout.stack == lay1.stack,
                self.layout.watches == lay1.watches,
                self.layout.wf(),
                self.layout.queued@ == lay1.queued@ + chevs@.take(i as int),
            decreases n - i,
        {
            proof {
                assert(chevs@.take(i + 1) =~= chevs@.take(i as int).push(chevs@[i as int]));
            }
            self.layout.event(chevs[i]);
            proof {
                assert(self.layout.queued@ =~= lay1.queued@ + chevs@.take(i + 1));
            }
            i += 1;
        }
        proof {
            assert(chevs@.take(n as int) =~= chevs@);
        }
        let custom = self.layout.tick();
        let kcs = self.layout.keycodes();
        let rep = HidReport::from_keycodes(&kcs);
        let bytes = rep.as_bytes();
        let changed = self.emitter.set_report(&bytes);
        TickOutput { custom, report: bytes, changed }
    }
}

} // verus!
