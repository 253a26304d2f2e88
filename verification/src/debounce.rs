use vstd::prelude::*;

use crate::event::KeyEvent;

verus! {

// Per-coordinate debounce step. Each coordinate carries a confirmed state and
// a counter of consecutive scans on which the raw state has disagreed with
// it. A disagreement that persists for a full window of scans flips the
// confirmed state and emits one event; any agreement resets the counter, so
// shorter bursts of electrical bounce are absorbed without a trace.

/// Confirmed state of one coordinate after one scan.
pub open spec fn deb_next_confirmed(confirmed: bool, count: u16, raw: bool, window: u16) -> bool {
    if raw != confirmed && count + 1 >= window {
        raw
    } else {
        confirmed
    }
}

/// Disagreement counter of one coordinate after one scan.
pub open spec fn deb_next_count(confirmed: bool, count: u16, raw: bool, window: u16) -> u16 {
    if raw == confirmed {
        0
    } else if count + 1 >= window {
        0
    } else {
        (count + 1) as u16
    }
}

/// Whether this scan confirms a transition (and so emits one event).
pub open spec fn deb_emits(confirmed: bool, count: u16, raw: bool, window: u16) -> bool {
    raw != confirmed && count + 1 >= window
}

/// The event emitted for a confirmed transition at (r, c): the new confirmed
/// state decides between press and release.
pub open spec fn deb_event_for(raw: bool, r: int, c: int) -> KeyEvent {
    if raw {
        KeyEvent::Press(r as u8, c as u8)
    } else {
        KeyEvent::Release(r as u8, c as u8)
    }
}

/// Events emitted this scan for row r, columns [0, c_end), in column order.
pub open spec fn deb_row_events(
    confirmed: Seq<bool>,
    counts: Seq<u16>,
    raw: Seq<bool>,
    window: u16,
    cols: int,
    r: int,
    c_end: int,
) -> Seq<KeyEvent>
    decreases c_end,
{
    if c_end <= 0 {
        Seq::empty()
    } else {
        let c = c_end - 1;
        let i = r * cols + c;
        let prev = deb_row_events(confirmed, counts, raw, window, cols, r, c);
        if 0 <= i < confirmed.len() && 0 <= i < counts.len() && 0 <= i < raw.len()
            && deb_emits(confirmed[i], counts[i], raw[i], window) {
            prev.push(deb_event_for(raw[i], r, c))
        } else {
            prev
        }
    }
}

/// Events emitted this scan for rows [0, r_end), in row-major coordinate
/// order. This is the fixed iteration order of the scan, not time order.
pub open spec fn deb_events_upto(
    confirmed: Seq<bool>,
    counts: Seq<u16>,
    raw: Seq<bool>,
    window: u16,
    cols: int,
    r_end: int,
) -> Seq<KeyEvent>
    decreases r_end,
{
    if r_end <= 0 {
        Seq::empty()
    } else {
        deb_events_upto(confirmed, counts, raw, window, cols, r_end - 1)
            + deb_row_events(confirmed, counts, raw, window, cols, r_end - 1, cols)
    }
}

/// The whole grid's confirmed states after one scan.
pub open spec fn deb_next_confirmed_seq(
    confirmed: Seq<bool>,
    counts: Seq<u16>,
    raw: Seq<bool>,
    window: u16,
) -> Seq<bool> {
    Seq::new(confirmed.len(), |i: int| deb_next_confirmed(confirmed[i], counts[i], raw[i], window))
}

/// The whole grid's counters after one scan.
pub open spec fn deb_next_count_seq(
    confirmed: Seq<bool>,
    counts: Seq<u16>,
    raw: Seq<bool>,
    window: u16,
) -> Seq<u16> {
    Seq::new(counts.len(), |i: int| deb_next_count(confirmed[i], counts[i], raw[i], window))
}

/// All events emitted for one scan of a rows x cols grid.
pub open spec fn deb_events_seq(
    confirmed: Seq<bool>,
    counts: Seq<u16>,
    raw: Seq<bool>,
    window: u16,
    rows: int,
    cols: int,
) -> Seq<KeyEvent> {
    deb_events_upto(confirmed, counts, raw, window, cols, rows)
}

proof fn lemma_grid_size_bound(rows: int, cols: int)
    requires
        0 <= rows <= 256,
        0 <= cols <= 256,
    ensures
        rows * cols <= 65536,
{
    assert(rows * cols <= 65536) by (nonlinear_arith)
        requires
            0 <= rows <= 256,
            0 <= cols <= 256,
    ;
}

proof fn lemma_rowcol_bound(r: int, c: int, rows: int, cols: int)
    requires
        0 <= r < rows,
        0 <= c < cols,
    ensures
        0 <= r * cols + c < rows * cols,
{
    assert(0 <= r * cols + c < rows * cols) by (nonlinear_arith)
        requires
            0 <= r < rows,
            0 <= c < cols,
    ;
}

/// Smooths raw matrix snapshots over a window of consecutive scans, emitting
/// only confirmed press/release transitions. Grids are stored flat in
/// row-major order: position (r, c) lives at index r * cols + c.
pub struct Debouncer {
    pub rows: usize,
    pub cols: usize,
    pub window: u16,
    pub confirmed: Vec<bool>,
    pub counts: Vec<u16>,
}

impl Debouncer {
    pub open spec fn wf(self) -> bool {
        &&& 1 <= self.window
        &&& self.rows <= 256
        &&& self.cols <= 256
        &&& self.confirmed@.len() == self.rows * self.cols
        &&& self.counts@.len() == self.rows * self.cols
        &&& forall|i: int| 0 <= i < self.counts@.len() ==> self.counts@[i] < self.window
    }

    /// A debouncer for a rows x cols matrix, all positions initially
    /// released, confirming a transition after `window` agreeing scans.
    /// Rejected: a zero window (nothing would ever debounce) and dimensions
    /// that do not fit the 8-bit coordinates of key events.
    pub fn new(rows: usize, cols: usize, window: u16) -> (r: Option<Debouncer>)
        ensures
            r is Some <==> (1 <= window && rows <= 256 && cols <= 256),
            r is Some ==> {
                let d = r->Some_0;
                &&& d.wf()
                &&& d.rows == rows
                &&& d.cols == cols
                &&& d.window == window
                &&& forall|i: int| 0 <= i < d.confirmed@.len() ==> d.confirmed@[i] == false
                &&& forall|i: int| 0 <= i < d.counts@.len() ==> d.counts@[i] == 0u16
            },
    {
        if window < 1 || rows > 256 || cols > 256 {
            return None;
        }
        proof {
            lemma_grid_size_bound(rows as int, cols as int);
        }
        let n = rows * cols;
        let mut confirmed: Vec<bool> = Vec::new();
        let mut counts: Vec<u16> = Vec::new();
        for i in 0..n
            invariant
                confirmed@.len() == i,
                counts@.len() == i,
                forall|j: int| 0 <= j < i ==> confirmed@[j] == false,
                forall|j: int| 0 <= j < i ==> counts@[j] == 0u16,
        {
            confirmed.push(false);
            counts.push(0);
        }
        Some(Debouncer { rows, cols, window, confirmed, counts })
    }

    /// One scan: updates every coordinate by the per-coordinate step and
    /// returns exactly the transitions confirmed this scan, in row-major
    /// coordinate order.
    pub fn events(&mut self, raw: &Vec<bool>) -> (evs: Vec<KeyEvent>)
        requires
            old(self).wf(),
            raw@.len() == old(self).rows * old(self).cols,
        ensures
            final(self).wf(),
            final(self).rows == old(self).rows,
            final(self).cols == old(self).cols,
            final(self).window == old(self).window,
            final(self).confirmed@.len() == old(self).confirmed@.len(),
            final(self).counts@.len() == old(self).counts@.len(),
            forall|i: int| 0 <= i < old(self).confirmed@.len() ==> final(self).confirmed@[i]
                == deb_next_confirmed(
                    old(self).confirmed@[i],
                    old(self).counts@[i],
                    raw@[i],
                    old(self).window,
                ),
            forall|i: int| 0 <= i < old(self).counts@.len() ==> final(self).counts@[i]
                == deb_next_count(
                    old(self).confirmed@[i],
                    old(self).counts@[i],
                    raw@[i],
                    old(self).window,
                ),
            evs@ == deb_events_seq(
                old(self).confirmed@,
                old(self).counts@,
                raw@,
                old(self).window,
                old(self).rows as int,
                old(self).cols as int,
            ),
            final(self).confirmed@ == deb_next_confirmed_seq(
                old(self).confirmed@,
                old(self).counts@,
                raw@,
                old(self).window,
            ),
            final(self).counts@ == deb_next_count_seq(
                old(self).confirmed@,
                old(self).counts@,
                raw@,
                old(self).window,
            ),
    {
        let rows = self.rows;
        let cols = self.cols;
        let window = self.window;
        let ghost conf0 = self.confirmed@;
        let ghost cnts0 = self.counts@;
        let mut evs: Vec<KeyEvent> = Vec::new();
        let mut new_conf: Vec<bool> = Vec::new();
        let mut new_counts: Vec<u16> = Vec::new();
        let mut idx: usize = 0;
        proof {
            lemma_grid_size_bound(rows as int, cols as int);
        }
        let mut r: usize = 0;
        while r < rows
            invariant
                rows == self.rows,
                cols == self.cols,
                window == self.window,
                self.wf(),
                conf0 == self.confirmed@,
                cnts0 == self.counts@,
                raw@.len() == rows * cols,
                rows * cols <= 65536,
                r <= rows,
                idx == r * cols,
                idx <= rows * cols,
                new_conf@.len() == idx,
                new_counts@.len() == idx,
                forall|j: int| 0 <= j < idx ==> new_conf@[j]
                    == deb_next_confirmed(conf0[j], cnts0[j], raw@[j], window),
                forall|j: int| 0 <= j < idx ==> new_counts@[j]
                    == deb_next_count(conf0[j], cnts0[j], raw@[j], window),
                evs@ == deb_events_upto(conf0, cnts0, raw@, window, cols as int, r as int),
            decreases rows - r,
        {
            let mut c: usize = 0;
            while c < cols
                invariant
                    rows == self.rows,
                    cols == self.cols,
                    window == self.window,
                    self.wf(),
                    conf0 == self.confirmed@,
                    cnts0 == self.counts@,
                    raw@.len() == rows * cols,
                    rows * cols <= 65536,
                    r < rows,
                    c <= cols,
                    idx == r * cols + c,
                    new_conf@.len() == idx,
                    new_counts@.len() == idx,
                    forall|j: int| 0 <= j < idx ==> new_conf@[j]
                        == deb_next_confirmed(conf0[j], cnts0[j], raw@[j], window),
                    forall|j: int| 0 <= j < idx ==> new_counts@[j]
                        == deb_next_count(conf0[j], cnts0[j], raw@[j], window),
                    evs@ == deb_events_upto(conf0, cnts0, raw@, window, cols as int, r as int)
                        + deb_row_events(conf0, cnts0, raw@, window, cols as int, r as int, c as int),
                decreases cols - c,
            {
                proof {
                    lemma_rowcol_bound(r as int, c as int, rows as int, cols as int);
                }
                let conf = self.confirmed[idx];
                let cnt = self.counts[idx];
                let rw = raw[idx];
                if rw != conf {
                    if cnt + 1 >= window {
                        // Transition confirmed: flip and emit.
                        new_conf.push(rw);
                        new_counts.push(0);
                        if rw {
                            evs.push(KeyEvent::Press(r as u8, c as u8));
                        } else {
                            evs.push(KeyEvent::Release(r as u8, c as u8));
                        }
                    } else {
                        new_conf.push(conf);
                        new_counts.push(cnt + 1);
                    }
                } else {
                    new_conf.push(conf);
                    new_counts.push(0);
                }
                idx += 1;
                c += 1;
            }
            proof {
                let ri = r as int;
                let rowsi = rows as int;
                let colsi = cols as int;
                assert((ri + 1) * colsi == ri * colsi + colsi && (ri + 1) * colsi <= rowsi * colsi)
                    by (nonlinear_arith)
                    requires
                        0 <= ri,
                        ri < rowsi,
                        0 <= colsi,
                ;
            }
            r += 1;
        }
        self.confirmed = new_conf;
        self.counts = new_counts;
        proof {
            assert(self.confirmed@ =~= deb_next_confirmed_seq(conf0, cnts0, raw@, window));
            assert(self.counts@ =~= deb_next_count_seq(conf0, cnts0, raw@, window));
        }
        evs
    }
}

// Multi-scan behaviour of one coordinate, used to state the debounce laws:
// feed a sequence of raw samples through the per-coordinate step.

/// Confirmed state after feeding `raws` one scan at a time.
pub open spec fn deb_run_confirmed(confirmed: bool, count: u16, raws: Seq<bool>, window: u16) -> bool
    decreases raws.len(),
{
    if raws.len() == 0 {
        confirmed
    } else {
        deb_run_confirmed(
            deb_next_confirmed(confirmed, count, raws[0], window),
            deb_next_count(confirmed, count, raws[0], window),
            raws.drop_first(),
            window,
        )
    }
}

/// Counter after feeding `raws` one scan at a time.
pub open spec fn deb_run_count(confirmed: bool, count: u16, raws: Seq<bool>, window: u16) -> u16
    decreases raws.len(),
{
    if raws.len() == 0 {
        count
    } else {
        deb_run_count(
            deb_next_confirmed(confirmed, count, raws[0], window),
            deb_next_count(confirmed, count, raws[0], window),
            raws.drop_first(),
            window,
        )
    }
}

/// How many events the coordinate emits over the whole run.
pub open spec fn deb_run_emit_count(confirmed: bool, count: u16, raws: Seq<bool>, window: u16) -> nat
    decreases raws.len(),
{
    if raws.len() == 0 {
        0
    } else {
        (if deb_emits(confirmed, count, raws[0], window) {
            1nat
        } else {
            0nat
        }) + deb_run_emit_count(
            deb_next_confirmed(confirmed, count, raws[0], window),
            deb_next_count(confirmed, count, raws[0], window),
            raws.drop_first(),
            window,
        )
    }
}

/// While the raw state keeps disagreeing with the confirmed state but the
/// counter cannot reach the window, nothing is emitted and the counter only
/// climbs. The workhorse behind the two debounce laws.
proof fn lemma_deb_run_disagree(confirmed: bool, count: u16, raws: Seq<bool>, window: u16)
    requires
        count + raws.len() < window,
        forall|i: int| 0 <= i < raws.len() ==> raws[i] == !confirmed,
    ensures
        deb_run_emit_count(confirmed, count, raws, window) == 0,
        deb_run_confirmed(confirmed, count, raws, window) == confirmed,
        deb_run_count(confirmed, count, raws, window) == count + raws.len(),
    decreases raws.len(),
{
    if raws.len() > 0 {
        assert(raws[0] == !confirmed);
        assert(!deb_emits(confirmed, count, raws[0], window));
        assert(deb_next_confirmed(confirmed, count, raws[0], window) == confirmed);
        assert(deb_next_count(confirmed, count, raws[0], window) == count + 1);
        lemma_deb_run_disagree(confirmed, (count + 1) as u16, raws.drop_first(), window);
    }
}

/// A transition held for fewer scans than the debounce window leaves no
/// trace: no event is emitted for the coordinate, the confirmed state does
/// not change, and a scan agreeing with the confirmed state afterwards
/// resets the counter.
pub proof fn lemma_debounce_short_bounce(confirmed: bool, raws: Seq<bool>, window: u16)
    requires
        1 <= window,
        raws.len() < window,
        forall|i: int| 0 <= i < raws.len() ==> raws[i] == !confirmed,
    ensures
        deb_run_emit_count(confirmed, 0, raws, window) == 0,
        deb_run_confirmed(confirmed, 0, raws, window) == confirmed,
        deb_next_count(
            deb_run_confirmed(confirmed, 0, raws, window),
            deb_run_count(confirmed, 0, raws, window),
            confirmed,
            window,
        ) == 0,
{
    lemma_deb_run_disagree(confirmed, 0, raws, window);
}

/// A transition held for exactly the debounce window emits exactly one
/// event, on the scan that completes the window, and flips the confirmed
/// state. No proper prefix of the run emits anything.
pub proof fn lemma_debounce_exact_window(confirmed: bool, raws: Seq<bool>, window: u16)
    requires
        1 <= window,
        raws.len() == window,
        forall|i: int| 0 <= i < raws.len() ==> raws[i] == !confirmed,
    ensures
        deb_run_emit_count(confirmed, 0, raws, window) == 1,
        deb_run_emit_count(confirmed, 0, raws.drop_last(), window) == 0,
        deb_emits(
            deb_run_confirmed(confirmed, 0, raws.drop_last(), window),
            deb_run_count(confirmed, 0, raws.drop_last(), window),
            raws.last(),
            window,
        ),
        deb_run_confirmed(confirmed, 0, raws, window) == !confirmed,
        deb_run_count(confirmed, 0, raws, window) == 0,
{
    lemma_deb_run_disagree(confirmed, 0, raws.drop_last(), window);
    let s1 = deb_run_confirmed(confirmed, 0, raws.drop_last(), window);
    let c1 = deb_run_count(confirmed, 0, raws.drop_last(), window);
    assert(s1 == confirmed && c1 == window - 1);
    assert(deb_emits(s1, c1, raws.last(), window));
    lemma_deb_run_completes(confirmed, 0, raws, window);
}

/// A disagreeing run whose length tops the counter up to exactly the window
/// emits once, at its last scan, and flips the confirmed state.
proof fn lemma_deb_run_completes(confirmed: bool, count: u16, raws: Seq<bool>, window: u16)
    requires
        1 <= raws.len(),
        count + raws.len() == window,
        forall|i: int| 0 <= i < raws.len() ==> raws[i] == !confirmed,
    ensures
        deb_run_emit_count(confirmed, count, raws, window) == 1,
        deb_run_confirmed(confirmed, count, raws, window) == !confirmed,
        deb_run_count(confirmed, count, raws, window) == 0,
    decreases raws.len(),
{
    assert(raws[0] == !confirmed);
    let s1 = deb_next_confirmed(confirmed, count, raws[0], window);
    let c1 = deb_next_count(confirmed, count, raws[0], window);
    if raws.len() == 1 {
        assert(deb_emits(confirmed, count, raws[0], window));
        assert(s1 == !confirmed && c1 == 0);
        assert(raws.drop_first().len() == 0);
        assert(deb_run_emit_count(s1, c1, raws.drop_first(), window) == 0);
        assert(deb_run_confirmed(s1, c1, raws.drop_first(), window) == !confirmed);
        assert(deb_run_count(s1, c1, raws.drop_first(), window) == 0);
    } else {
        assert(!deb_emits(confirmed, count, raws[0], window));
        assert(s1 == confirmed && c1 == count + 1);
        assert(forall|i: int| 0 <= i < raws.drop_first().len()
            ==> raws.drop_first()[i] == raws[i + 1]);
        lemma_deb_run_completes(confirmed, (count + 1) as u16, raws.drop_first(), window);
    }
}

/// Once a coordinate's raw state agrees with its confirmed state, scans
/// emit nothing and the counter stays at zero: a steady key is silent.
pub proof fn lemma_debounce_steady(confirmed: bool, raws: Seq<bool>, window: u16)
    requires
        1 <= window,
        forall|i: int| 0 <= i < raws.len() ==> raws[i] == confirmed,
    ensures
        deb_run_emit_count(confirmed, 0, raws, window) == 0,
        deb_run_confirmed(confirmed, 0, raws, window) == confirmed,
        deb_run_count(confirmed, 0, raws, window) == 0,
    decreases raws.len(),
{
    if raws.len() > 0 {
        assert(raws[0] == confirmed);
        lemma_debounce_steady(confirmed, raws.drop_first(), window);
    }
}

} // verus!
