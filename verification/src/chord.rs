use vstd::prelude::*;

use crate::event::KeyEvent;

verus! {

// The chord detector sits between the debouncer and the layout engine. It
// watches the confirmed-event stream for configured simultaneous-key
// combinations: presses of chord-source keys are held back for a bounded
// number of scan ticks; when a definition's full source set is down
// together, the individual presses are swallowed and a single synthetic
// press of the target coordinate is substituted. A source press that never
// completes a chord is flushed as a normal press when the window expires, or
// replayed as a press-release pair when the key releases first: chording
// never indefinitely delays a single key.

/// One chord: when all `sources` are pressed together within the window,
/// the detector emits a press of `target` instead.
pub struct ChordDef {
    pub target: (u8, u8),
    pub sources: Vec<(u8, u8)>,
}

/// Whether a coordinate is a source of any chord definition.
pub open spec fn is_source(defs: Seq<ChordDef>, c: (u8, u8)) -> bool {
    exists|d: int| 0 <= d < defs.len() && (#[trigger] defs[d]).sources@.contains(c)
}

/// A held-back source press: kept if it is a source and not already held,
/// passed through otherwise.
pub open spec fn chord_press(defs: Seq<ChordDef>, held: Seq<(u8, u8)>, c: (u8, u8)) -> (
    Seq<(u8, u8)>,
    Seq<KeyEvent>,
) {
    if is_source(defs, c) {
        if held.contains(c) {
            (held, Seq::empty())
        } else {
            (held.push(c), Seq::empty())
        }
    } else {
        (held, seq![KeyEvent::Press(c.0, c.1)])
    }
}

/// The first fired chord (in firing order) whose definition has `c` among
/// its sources and which still counts keys down, searching from `i`; -1 if
/// none.
pub open spec fn first_active_for(
    defs: Seq<ChordDef>,
    active: Seq<(usize, usize)>,
    c: (u8, u8),
    i: int,
) -> int
    decreases active.len() - i,
{
    if i < 0 || i >= active.len() {
        -1
    } else if active[i].0 < defs.len() && defs[active[i].0 as int].sources@.contains(c)
        && active[i].1 > 0 {
        i
    } else {
        first_active_for(defs, active, c, i + 1)
    }
}

/// `held` without every coordinate equal to `c`, order kept.
pub open spec fn held_remove_upto(held: Seq<(u8, u8)>, c: (u8, u8), i: int) -> Seq<(u8, u8)>
    decreases i,
{
    if i <= 0 {
        Seq::empty()
    } else {
        let prev = held_remove_upto(held, c, i - 1);
        if held[i - 1] == c {
            prev
        } else {
            prev.push(held[i - 1])
        }
    }
}

/// A release: a source of a fired chord counts its chord down, and the last
/// one out releases the target; a release of a still-held-back press
/// replays the key as a normal press-release pair; anything else passes
/// through.
pub open spec fn chord_release(
    defs: Seq<ChordDef>,
    held: Seq<(u8, u8)>,
    active: Seq<(usize, usize)>,
    c: (u8, u8),
) -> (Seq<(u8, u8)>, Seq<(usize, usize)>, Seq<KeyEvent>) {
    let j = first_active_for(defs, active, c, 0);
    if j >= 0 {
        let d = active[j].0;
        let k = active[j].1;
        if k == 1 {
            let t = defs[d as int].target;
            (held, active.remove(j), seq![KeyEvent::Release(t.0, t.1)])
        } else {
            (held, active.update(j, (d, (k - 1) as usize)), Seq::empty())
        }
    } else if held.contains(c) {
        (
            held_remove_upto(held, c, held.len() as int),
            active,
            seq![KeyEvent::Press(c.0, c.1), KeyEvent::Release(c.0, c.1)],
        )
    } else {
        (held, active, seq![KeyEvent::Release(c.0, c.1)])
    }
}

/// All of one tick's incoming events, in order.
pub open spec fn chord_consume(
    defs: Seq<ChordDef>,
    held: Seq<(u8, u8)>,
    active: Seq<(usize, usize)>,
    events: Seq<KeyEvent>,
) -> (Seq<(u8, u8)>, Seq<(usize, usize)>, Seq<KeyEvent>)
    decreases events.len(),
{
    if events.len() == 0 {
        (held, active, Seq::empty())
    } else {
        let r1 = chord_consume(defs, held, active, events.drop_last());
        let e = events.last();
        let c = e.coord_spec();
        if e.is_press() {
            let r2 = chord_press(defs, r1.0, c);
            (r2.0, r1.1, r1.2 + r2.1)
        } else {
            let r2 = chord_release(defs, r1.0, r1.1, c);
            (r2.0, r2.1, r1.2 + r2.2)
        }
    }
}

/// Whether every source is currently held back.
pub open spec fn sources_in_held(sources: Seq<(u8, u8)>, held: Seq<(u8, u8)>) -> bool {
    forall|i: int| 0 <= i < sources.len() ==> held.contains(#[trigger] sources[i])
}

/// `held` without the fired chord's sources, order kept.
pub open spec fn remove_sources_upto(
    held: Seq<(u8, u8)>,
    sources: Seq<(u8, u8)>,
    i: int,
) -> Seq<(u8, u8)>
    decreases i,
{
    if i <= 0 {
        Seq::empty()
    } else {
        let prev = remove_sources_upto(held, sources, i - 1);
        if sources.contains(held[i - 1]) {
            prev
        } else {
            prev.push(held[i - 1])
        }
    }
}

/// The firing pass over definitions [0, d_end), in definition order: each
/// definition whose full source set is held back fires, swallows its
/// sources, and emits the synthetic target press. Definition order breaks
/// ties between overlapping chords: the first match wins the shared keys.
pub open spec fn chord_fire_upto(
    defs: Seq<ChordDef>,
    held: Seq<(u8, u8)>,
    active: Seq<(usize, usize)>,
    d_end: int,
) -> (Seq<(u8, u8)>, Seq<(usize, usize)>, Seq<KeyEvent>)
    decreases d_end,
{
    if d_end <= 0 {
        (held, active, Seq::empty())
    } else {
        let r1 = chord_fire_upto(defs, held, active, d_end - 1);
        let d = d_end - 1;
        let def = defs[d];
        if def.sources@.len() > 0 && sources_in_held(def.sources@, r1.0) {
            (
                remove_sources_upto(r1.0, def.sources@, r1.0.len() as int),
                r1.1.push((d as usize, def.sources@.len() as usize)),
                r1.2.push(KeyEvent::Press(def.target.0, def.target.1)),
            )
        } else {
            r1
        }
    }
}

/// The held-back presses as plain press events, in arrival order.
pub open spec fn held_presses_upto(held: Seq<(u8, u8)>, i: int) -> Seq<KeyEvent>
    decreases i,
{
    if i <= 0 {
        Seq::empty()
    } else {
        held_presses_upto(held, i - 1).push(
            KeyEvent::Press(held[i - 1].0, held[i - 1].1),
        )
    }
}

/// The aging pass: with nothing held back the clock rests; when the window
/// expires, every held-back press is flushed as a normal press, in arrival
/// order; otherwise the clock ticks on.
pub open spec fn chord_age(held: Seq<(u8, u8)>, age: u16, window: u16) -> (
    Seq<(u8, u8)>,
    u16,
    Seq<KeyEvent>,
) {
    if held.len() == 0 {
        (held, 0u16, Seq::empty())
    } else if age >= window {
        (Seq::empty(), 0u16, held_presses_upto(held, held.len() as int))
    } else {
        (held, (age + 1) as u16, Seq::empty())
    }
}

/// Consumes the tick's confirmed events and either passes them through or
/// rewrites completed chords into synthetic target events.
pub struct Chording {
    /// The chord table, fixed at construction.
    pub defs: Vec<ChordDef>,
    /// How many scan ticks a source press may be held back.
    pub window: u16,
    /// Source presses currently held back, in arrival order.
    pub held: Vec<(u8, u8)>,
    /// Ticks since the oldest held-back press arrived.
    pub age: u16,
    /// Fired chords whose sources are still down: definition index and how
    /// many of its sources have not yet released.
    pub active: Vec<(usize, usize)>,
}

/// What one tick does to the chord detector: consume the events, fire the
/// completed chords, then age the held-back presses. The fourth component
/// is everything handed on to the layout engine this tick.
pub open spec fn chord_tick_parts(
    defs: Seq<ChordDef>,
    window: u16,
    held: Seq<(u8, u8)>,
    age: u16,
    active: Seq<(usize, usize)>,
    events: Seq<KeyEvent>,
) -> (Seq<(u8, u8)>, Seq<(usize, usize)>, u16, Seq<KeyEvent>) {
    let r1 = chord_consume(defs, held, active, events);
    let r2 = chord_fire_upto(defs, r1.0, r1.1, defs.len() as int);
    let r3 = chord_age(r2.0, age, window);
    (r3.0, r2.1, r3.1, r1.2 + r2.2 + r3.2)
}

/// `chord_tick_parts` applied to a detector value.
pub open spec fn chord_tick_spec(ch: Chording, events: Seq<KeyEvent>) -> (
    Seq<(u8, u8)>,
    Seq<(usize, usize)>,
    u16,
    Seq<KeyEvent>,
) {
    chord_tick_parts(ch.defs@, ch.window, ch.held@, ch.age, ch.active@, events)
}

impl Chording {
    pub open spec fn wf(self) -> bool {
        &&& self.age <= self.window
        &&& forall|j: int| 0 <= j < self.active@.len() ==> (#[trigger] self.active@[j]).0
            < self.defs@.len()
    }

    /// A chord detector over the given table, holding source presses back
    /// for at most `window` scan ticks.
    pub fn new(defs: Vec<ChordDef>, window: u16) -> (ch: Chording)
        ensures
            ch.wf(),
            ch.defs == defs,
            ch.window == window,
            ch.held@.len() == 0,
            ch.age == 0,
            ch.active@.len() == 0,
    {
        Chording { defs, window, held: Vec::new(), age: 0, active: Vec::new() }
    }

    /// One tick: rewrites the tick's confirmed events, emitting passed-
    /// through events, flushed press-release pairs and synthetic chord
    /// events, in that order.
    pub fn tick(&mut self, events: &Vec<KeyEvent>) -> (out: Vec<KeyEvent>)
        requires
            old(self).wf(),
        ensures
            final(self).wf(),
            final(self).defs == old(self).defs,
            final(self).window == old(self).window,
            ({
                let r = chord_tick_spec(*old(self), events@);
                &&& final(self).held@ == r.0
                &&& final(self).active@ == r.1
                &&& final(self).age == r.2
                &&& out@ == r.3
            }),
    {
        let ghost held0 = self.held@;
        let ghost active0 = self.active@;
        let mut out: Vec<KeyEvent> = Vec::new();
        let n_ev = events.len();
        let mut i: usize = 0;
        while i < n_ev
            invariant
                old(self).wf(),
                self.defs == old(self).defs,
                self.window == old(self).window,
                self.age == old(self).age,
                n_ev == events@.len(),
                i <= n_ev,
                forall|j: int| 0 <= j < self.active@.len() ==> (#[trigger] self.active@[j]).0
                    < self.defs@.len(),
                ({
                    let r = chord_consume(self.defs@, held0, active0, events@.take(i as int));
                    self.held@ == r.0 && self.active@ == r.1 && out@ == r.2
                }),
            decreases n_ev - i,
        {
            proof {
                assert(events@.take(i + 1).drop_last() =~= events@.take(i as int));
                assert(events@.take(i + 1).last() == events@[i as int]);
            }
            let e = events[i];
            match e {
                KeyEvent::Press(er, ec) => {
                    if self.find_source(er, ec) {
                        if !contains_coord(&self.held, er, ec) {
                            self.held.push((er, ec));
                        }
                    } else {
                        out.push(KeyEvent::Press(er, ec));
                    }
                },
                KeyEvent::Release(er, ec) => {
                    match self.find_active(er, ec) {
                        Some(j) => {
                            let d = self.active[j].0;
                            let k = self.active[j].1;
                            if k == 1 {
                                let t = self.defs[d].target;
                                out.push(KeyEvent::Release(t.0, t.1));
                                self.active.remove(j);
                            } else {
                                self.active[j] = (d, k - 1);
                            }
                        },
                        None => {
                            if contains_coord(&self.held, er, ec) {
                                let ghost held_b = self.held@;
                                let m = self.held.len();
                                let mut new_held: Vec<(u8, u8)> = Vec::new();
                                let mut h: usize = 0;
                                while h < m
                                    invariant
                                        m == held_b.len(),
                                        held_b == self.held@,
                                        h <= m,
                                        new_held@ == held_remove_upto(held_b, (er, ec), h as int),
                                    decreases m - h,
                                {
                                    let hc = self.held[h];
                                    if !(hc.0 == er && hc.1 == ec) {
                                        new_held.push(hc);
                                    }
                                    h += 1;
                                }
                                self.held = new_held;
                                out.push(KeyEvent::Press(er, ec));
                                out.push(KeyEvent::Release(er, ec));
                            } else {
                                out.push(KeyEvent::Release(er, ec));
                            }
                        },
                    }
                },
            }
            i += 1;
        }
        proof {
            assert(events@.take(n_ev as int) =~= events@);
        }
        let ghost held1 = self.held@;
        let ghost active1 = self.active@;
        let ghost out1 = out@;
        let n_defs = self.defs.len();
        let mut d: usize = 0;
        while d < n_defs
            invariant
                old(self).wf(),
                self.defs == old(self).defs,
                self.window == old(self).window,
                self.age == old(self).age,
                n_defs == self.defs@.len(),
                d <= n_defs,
                forall|j: int| 0 <= j < self.active@.len() ==> (#[trigger] self.active@[j]).0
                    < self.defs@.len(),
                ({
                    let r = chord_fire_upto(self.defs@, held1, active1, d as int);
                    self.held@ == r.0 && self.active@ == r.1 && out@ == out1 + r.2
                }),
            decreases n_defs - d,
        {
            let n_src = self.defs[d].sources.len();
            let fires = n_src > 0 && self.all_sources_held(d);
            if fires {
                let ghost held_b = self.held@;
                let m = self.held.len();
                let mut new_held: Vec<(u8, u8)> = Vec::new();
                let mut h: usize = 0;
                while h < m
                    invariant
                        m == held_b.len(),
                        held_b == self.held@,
                        h <= m,
                        d < self.defs@.len(),
                        new_held@ == remove_sources_upto(held_b, self.defs@[d as int].sources@, h as int),
                    decreases m - h,
                {
                    let hc = self.held[h];
                    if !contains_coord(&self.defs[d].sources, hc.0, hc.1) {
                        new_held.push(hc);
                    }
                    h += 1;
                }
                self.held = new_held;
                self.active.push((d, n_src));
                let t = self.defs[d].target;
                out.push(KeyEvent::Press(t.0, t.1));
            }
            d += 1;
        }
        if self.held.len() > 0 {
            if self.age >= self.window {
                let ghost held2 = self.held@;
                let ghost out2 = out@;
                let m = self.held.len();
                let mut h: usize = 0;
                while h < m
                    invariant
                        m == held2.len(),
                        held2 == self.held@,
                        h <= m,
                        out@ == out2 + held_presses_upto(held2, h as int),
                    decreases m - h,
                {
                    let hc = self.held[h];
                    out.push(KeyEvent::Press(hc.0, hc.1));
                    h += 1;
                }
                self.held.clear();
                self.age = 0;
            } else {
                self.age = self.age + 1;
            }
        } else {
            self.age = 0;
        }
        out
    }

    /// Whether (er, ec) is a source of any definition.
    fn find_source(&self, er: u8, ec: u8) -> (r: bool)
        ensures
            r == is_source(self.defs@, (er, ec)),
    {
        let n = self.defs.len();
        let mut d: usize = 0;
        while d < n
            invariant
                n == self.defs@.len(),
                d <= n,
                forall|k: int| 0 <= k < d ==> !(#[trigger] self.defs@[k]).sources@.contains(
                    (er, ec),
                ),
            decreases n - d,
        {
            if contains_coord(&self.defs[d].sources, er, ec) {
                return true;
            }
            d += 1;
        }
        false
    }

    /// The first active chord still counting (er, ec) down, if any.
    fn find_active(&self, er: u8, ec: u8) -> (r: Option<usize>)
        requires
            self.wf(),
        ensures
            match r {
                Some(j) => first_active_for(self.defs@, self.active@, (er, ec), 0) == j && j
                    < self.active@.len() && self.active@[j as int].1 > 0,
                None => first_active_for(self.defs@, self.active@, (er, ec), 0) == -1,
            },
    {
        let n = self.active.len();
        let mut j: usize = 0;
        while j < n
            invariant
                self.wf(),
                n == self.active@.len(),
                j <= n,
                first_active_for(self.defs@, self.active@, (er, ec), 0) == first_active_for(
                    self.defs@,
                    self.active@,
                    (er, ec),
                    j as int,
                ),
            decreases n - j,
        {
            let de = self.active[j].0;
            let k = self.active[j].1;
            if k > 0 && contains_coord(&self.defs[de].sources, er, ec) {
                return Some(j);
            }
            j += 1;
        }
        None
    }

    /// Whether every source of definition `d` is currently held back.
    fn all_sources_held(&self, d: usize) -> (r: bool)
        requires
            (d as int) < self.defs@.len(),
        ensures
            r == sources_in_held(self.defs@[d as int].sources@, self.held@),
    {
        let n = self.defs[d].sources.len();
        let mut i: usize = 0;
        while i < n
            invariant
                (d as int) < self.defs@.len(),
                n == self.defs@[d as int].sources@.len(),
                i <= n,
                forall|k: int| 0 <= k < i ==> self.held@.contains(
                    #[trigger] self.defs@[d as int].sources@[k],
                ),
            decreases n - i,
        {
            let s = self.defs[d].sources[i];
            if !contains_coord(&self.held, s.0, s.1) {
                return false;
            }
            i += 1;
        }
        true
    }
}

/// Whether the coordinate list contains (er, ec).
fn contains_coord(v: &Vec<(u8, u8)>, er: u8, ec: u8) -> (r: bool)
    ensures
        r == v@.contains((er, ec)),
{
    let n = v.len();
    let mut i: usize = 0;
    while i < n
        invariant
            n == v@.len(),
            i <= n,
            forall|j: int| 0 <= j < i ==> v@[j] != (er, ec),
        decreases n - i,
    {
        let c = v[i];
        if c.0 == er && c.1 == ec {
            proof {
                assert(v@[i as int] == (er, ec));
            }
            return true;
        }
        i += 1;
    }
    false
}


/// When no definition's full source set is held back, the firing pass does
/// nothing.
proof fn lemma_fire_nop(
    defs: Seq<ChordDef>,
    held: Seq<(u8, u8)>,
    active: Seq<(usize, usize)>,
    d_end: int,
)
    requires
        forall|d2: int|
            0 <= d2 < d_end ==> !((#[trigger] defs[d2]).sources@.len() > 0 && sources_in_held(
                defs[d2].sources@,
                held,
            )),
    ensures
        chord_fire_upto(defs, held, active, d_end) == (held, active, Seq::<KeyEvent>::empty()),
    decreases d_end,
{
    if d_end > 0 {
        lemma_fire_nop(defs, held, active, d_end - 1);
    }
}

/// When exactly one definition's source set is held back and firing it
/// empties the held list, the firing pass fires it alone.
proof fn lemma_fire_single(
    defs: Seq<ChordDef>,
    held: Seq<(u8, u8)>,
    active: Seq<(usize, usize)>,
    d: int,
    d_end: int,
)
    requires
        0 <= d < d_end <= defs.len(),
        defs[d].sources@.len() > 0,
        sources_in_held(defs[d].sources@, held),
        remove_sources_upto(held, defs[d].sources@, held.len() as int).len() == 0,
        forall|d2: int|
            0 <= d2 < d_end && d2 != d ==> (#[trigger] defs[d2]).sources@.len() > 0
                && !sources_in_held(defs[d2].sources@, held),
    ensures
        chord_fire_upto(defs, held, active, d_end) == (
            remove_sources_upto(held, defs[d].sources@, held.len() as int),
            active.push((d as usize, defs[d].sources@.len() as usize)),
            Seq::<KeyEvent>::empty().push(KeyEvent::Press(defs[d].target.0, defs[d].target.1)),
        ),
    decreases d_end,
{
    if d_end == d + 1 {
        lemma_fire_nop(defs, held, active, d);
    } else {
        lemma_fire_single(defs, held, active, d, d_end - 1);
        let fired = remove_sources_upto(held, defs[d].sources@, held.len() as int);
        assert(!sources_in_held(defs[d_end - 1].sources@, fired)) by {
            assert(fired.len() == 0);
            if sources_in_held(defs[d_end - 1].sources@, fired) {
                assert(fired.contains(defs[d_end - 1].sources@[0]));
            }
        }
    }
}

/// Pressing one source key of a chord holds it back: nothing reaches the
/// layout engine, and the window clock starts (or keeps) running.
pub proof fn lemma_chord_press_held(
    defs: Seq<ChordDef>,
    window: u16,
    age: u16,
    active: Seq<(usize, usize)>,
    s: (u8, u8),
)
    requires
        is_source(defs, s),
        age < window,
        forall|d2: int|
            0 <= d2 < defs.len() ==> (#[trigger] defs[d2]).sources@.len() > 0 && !sources_in_held(
                defs[d2].sources@,
                seq![s],
            ),
    ensures
        chord_tick_parts(defs, window, Seq::empty(), age, active, seq![KeyEvent::Press(s.0, s.1)])
            == (seq![s], active, (age + 1) as u16, Seq::<KeyEvent>::empty()),
{
    let ev = seq![KeyEvent::Press(s.0, s.1)];
    assert(ev.drop_last() =~= Seq::<KeyEvent>::empty());
    assert(ev.last() == KeyEvent::Press(s.0, s.1));
    reveal_with_fuel(chord_consume, 2);
    let r1 = chord_consume(defs, Seq::empty(), active, ev);
    assert(Seq::<(u8, u8)>::empty().push(s) =~= seq![s]);
    assert(r1.0 == seq![s] && r1.1 == active && r1.2 == Seq::<KeyEvent>::empty());
    lemma_fire_nop(defs, seq![s], active, defs.len() as int);
    assert(seq![s].len() == 1);
    assert((Seq::<KeyEvent>::empty() + Seq::<KeyEvent>::empty()) + Seq::<KeyEvent>::empty()
        =~= Seq::<KeyEvent>::empty());
}

/// A tick with no events leaves held-back presses waiting, one tick older,
/// as long as the window has not expired and no chord can fire.
pub proof fn lemma_chord_wait_tick(
    defs: Seq<ChordDef>,
    window: u16,
    held: Seq<(u8, u8)>,
    age: u16,
    active: Seq<(usize, usize)>,
)
    requires
        held.len() > 0,
        age < window,
        forall|d2: int|
            0 <= d2 < defs.len() ==> !((#[trigger] defs[d2]).sources@.len() > 0
                && sources_in_held(defs[d2].sources@, held)),
    ensures
        chord_tick_parts(defs, window, held, age, active, Seq::<KeyEvent>::empty()) == (
            held,
            active,
            (age + 1) as u16,
            Seq::<KeyEvent>::empty(),
        ),
{
    lemma_fire_nop(defs, held, active, defs.len() as int);
    assert((Seq::<KeyEvent>::empty() + Seq::<KeyEvent>::empty()) + Seq::<KeyEvent>::empty()
        =~= Seq::<KeyEvent>::empty());
}

/// The chord law, pressing side: when the two source keys of a chord go
/// down in the same tick, the detector emits exactly the synthetic press of
/// the chord's target, and neither source press ever reaches the layout
/// engine.
pub proof fn lemma_chord_pair_fires(ch: Chording, d: int, s1: (u8, u8), s2: (u8, u8))
    requires
        ch.held@.len() == 0,
        ch.active@.len() == 0,
        0 <= d < ch.defs@.len(),
        ch.defs@[d].sources@ == seq![s1, s2],
        s1 != s2,
        forall|d2: int|
            0 <= d2 < ch.defs@.len() && d2 != d ==> !(#[trigger] ch.defs@[d2]).sources@.contains(
                s1,
            ) && !ch.defs@[d2].sources@.contains(s2),
        forall|d2: int| 0 <= d2 < ch.defs@.len() ==> (#[trigger] ch.defs@[d2]).sources@.len() > 0,
    ensures
        ({
            let t = chord_tick_spec(
                ch,
                seq![KeyEvent::Press(s1.0, s1.1), KeyEvent::Press(s2.0, s2.1)],
            );
            &&& t.3 == seq![KeyEvent::Press(ch.defs@[d].target.0, ch.defs@[d].target.1)]
            &&& t.0.len() == 0
            &&& t.1 == seq![(d as usize, 2usize)]
            &&& t.2 == 0
        }),
{
    let defs = ch.defs@;
    let srcs = defs[d].sources@;
    let ev = seq![KeyEvent::Press(s1.0, s1.1), KeyEvent::Press(s2.0, s2.1)];
    assert(ev.drop_last() =~= seq![KeyEvent::Press(s1.0, s1.1)]);
    assert(seq![KeyEvent::Press(s1.0, s1.1)].drop_last() =~= Seq::<KeyEvent>::empty());
    assert(ev.last() == KeyEvent::Press(s2.0, s2.1));
    assert(seq![KeyEvent::Press(s1.0, s1.1)].last() == KeyEvent::Press(s1.0, s1.1));
    reveal_with_fuel(chord_consume, 3);
    assert(srcs[0] == s1 && srcs[1] == s2);
    assert(is_source(defs, s1));
    assert(is_source(defs, s2));
    let h1 = Seq::<(u8, u8)>::empty().push(s1);
    assert(h1 =~= seq![s1]);
    assert(!seq![s1].contains(s2)) by {
        if seq![s1].contains(s2) {
            let i = choose|i: int| 0 <= i < 1 && seq![s1][i] == s2;
        }
    }
    let h2 = seq![s1].push(s2);
    assert(h2 =~= seq![s1, s2]);
    let r1 = chord_consume(defs, ch.held@, ch.active@, ev);
    assert(ch.held@ =~= Seq::<(u8, u8)>::empty());
    assert(ch.active@ =~= Seq::<(usize, usize)>::empty());
    assert(r1.0 == seq![s1, s2] && r1.1 == ch.active@ && r1.2 =~= Seq::<KeyEvent>::empty());

    // Only definition d can fire from {s1, s2}.
    let held2 = seq![s1, s2];
    assert(sources_in_held(srcs, held2)) by {
        assert(held2[0] == s1 && held2[1] == s2);
        assert(held2.contains(s1));
        assert(held2.contains(s2));
        assert(forall|i: int| 0 <= i < srcs.len() ==> held2.contains(#[trigger] srcs[i])) by {
            assert(srcs.len() == 2);
            assert(srcs[0] == s1 && srcs[1] == s2);
        }
    }
    assert(remove_sources_upto(held2, srcs, 2).len() == 0) by {
        reveal_with_fuel(remove_sources_upto, 3);
        assert(srcs.contains(held2[0])) by {
            assert(srcs[0] == s1);
        }
        assert(srcs.contains(held2[1])) by {
            assert(srcs[1] == s2);
        }
    }
    assert(forall|d2: int|
        0 <= d2 < defs.len() && d2 != d ==> (#[trigger] defs[d2]).sources@.len() > 0
            && !sources_in_held(defs[d2].sources@, held2)) by {
        assert forall|d2: int| 0 <= d2 < defs.len() && d2 != d implies (#[trigger] defs[d2]).sources@.len()
            > 0 && !sources_in_held(defs[d2].sources@, held2) by {
            if sources_in_held(defs[d2].sources@, held2) {
                assert(held2.contains(defs[d2].sources@[0]));
                let i = choose|i: int| 0 <= i < held2.len() && held2[i] == defs[d2].sources@[0];
                assert(defs[d2].sources@[0] == s1 || defs[d2].sources@[0] == s2);
                assert(defs[d2].sources@.contains(defs[d2].sources@[0]));
            }
        }
    }
    lemma_fire_single(defs, held2, ch.active@, d, defs.len() as int);
    let fired = remove_sources_upto(held2, srcs, 2);
    assert(held2.len() == 2);
    let outfire = Seq::<KeyEvent>::empty().push(KeyEvent::Press(defs[d].target.0, defs[d].target.1));
    assert(outfire =~= seq![KeyEvent::Press(defs[d].target.0, defs[d].target.1)]);
    assert(ch.active@.push((d as usize, 2usize)) =~= seq![(d as usize, 2usize)]);
    assert((r1.2 + outfire) + Seq::<KeyEvent>::empty() =~= seq![
        KeyEvent::Press(defs[d].target.0, defs[d].target.1),
    ]);
}

/// The chord law, waiting side: a second source key pressed while the
/// first is still held back (the window not yet expired) completes the
/// chord, and only the synthetic target press comes out.
pub proof fn lemma_chord_completes_later(
    defs: Seq<ChordDef>,
    window: u16,
    age: u16,
    d: int,
    s1: (u8, u8),
    s2: (u8, u8),
)
    requires
        0 <= d < defs.len(),
        defs[d].sources@ == seq![s1, s2],
        s1 != s2,
        forall|d2: int|
            0 <= d2 < defs.len() && d2 != d ==> !(#[trigger] defs[d2]).sources@.contains(s1)
                && !defs[d2].sources@.contains(s2),
        forall|d2: int| 0 <= d2 < defs.len() ==> (#[trigger] defs[d2]).sources@.len() > 0,
    ensures
        ({
            let t = chord_tick_parts(
                defs,
                window,
                seq![s1],
                age,
                Seq::empty(),
                seq![KeyEvent::Press(s2.0, s2.1)],
            );
            &&& t.3 == seq![KeyEvent::Press(defs[d].target.0, defs[d].target.1)]
            &&& t.0.len() == 0
            &&& t.1 == seq![(d as usize, 2usize)]
            &&& t.2 == 0
        }),
{
    let srcs = defs[d].sources@;
    let ev = seq![KeyEvent::Press(s2.0, s2.1)];
    assert(ev.drop_last() =~= Seq::<KeyEvent>::empty());
    assert(ev.last() == KeyEvent::Press(s2.0, s2.1));
    reveal_with_fuel(chord_consume, 2);
    assert(srcs[0] == s1 && srcs[1] == s2);
    assert(is_source(defs, s2));
    assert(!seq![s1].contains(s2)) by {
        if seq![s1].contains(s2) {
            let i = choose|i: int| 0 <= i < 1 && seq![s1][i] == s2;
        }
    }
    let held2 = seq![s1].push(s2);
    assert(held2 =~= seq![s1, s2]);
    let active0 = Seq::<(usize, usize)>::empty();
    let r1 = chord_consume(defs, seq![s1], active0, ev);
    assert(r1.0 == seq![s1, s2] && r1.1 == active0 && r1.2 =~= Seq::<KeyEvent>::empty());
    let heldc = seq![s1, s2];
    assert(sources_in_held(srcs, heldc)) by {
        assert(heldc[0] == s1 && heldc[1] == s2);
        assert(heldc.contains(s1));
        assert(heldc.contains(s2));
        assert(forall|i: int| 0 <= i < srcs.len() ==> heldc.contains(#[trigger] srcs[i])) by {
            assert(srcs.len() == 2);
            assert(srcs[0] == s1 && srcs[1] == s2);
        }
    }
    assert(remove_sources_upto(heldc, srcs, 2).len() == 0) by {
        reveal_with_fuel(remove_sources_upto, 3);
        assert(srcs.contains(heldc[0])) by {
            assert(srcs[0] == s1);
        }
        assert(srcs.contains(heldc[1])) by {
            assert(srcs[1] == s2);
        }
    }
    assert(forall|d2: int|
        0 <= d2 < defs.len() && d2 != d ==> (#[trigger] defs[d2]).sources@.len() > 0
            && !sources_in_held(defs[d2].sources@, heldc)) by {
        assert forall|d2: int| 0 <= d2 < defs.len() && d2 != d implies (#[trigger] defs[d2]).sources@.len()
            > 0 && !sources_in_held(defs[d2].sources@, heldc) by {
            if sources_in_held(defs[d2].sources@, heldc) {
                assert(heldc.contains(defs[d2].sources@[0]));
                let i = choose|i: int| 0 <= i < heldc.len() && heldc[i] == defs[d2].sources@[0];
                assert(defs[d2].sources@[0] == s1 || defs[d2].sources@[0] == s2);
                assert(defs[d2].sources@.contains(defs[d2].sources@[0]));
            }
        }
    }
    lemma_fire_single(defs, heldc, active0, d, defs.len() as int);
    let outfire = Seq::<KeyEvent>::empty().push(KeyEvent::Press(defs[d].target.0, defs[d].target.1));
    assert(outfire =~= seq![KeyEvent::Press(defs[d].target.0, defs[d].target.1)]);
    assert(active0.push((d as usize, 2usize)) =~= seq![(d as usize, 2usize)]);
    assert((r1.2 + outfire) + Seq::<KeyEvent>::empty() =~= seq![
        KeyEvent::Press(defs[d].target.0, defs[d].target.1),
    ]);
}

/// The chord law, releasing side: when both source keys of a fired chord go
/// up in the same tick, the detector emits exactly the synthetic release of
/// the chord's target.
pub proof fn lemma_chord_pair_releases(
    defs: Seq<ChordDef>,
    window: u16,
    age: u16,
    d: int,
    s1: (u8, u8),
    s2: (u8, u8),
)
    requires
        0 <= d < defs.len(),
        d <= usize::MAX,
        defs[d].sources@ == seq![s1, s2],
        forall|d2: int| 0 <= d2 < defs.len() ==> (#[trigger] defs[d2]).sources@.len() > 0,
    ensures
        ({
            let t = chord_tick_parts(
                defs,
                window,
                Seq::empty(),
                age,
                seq![(d as usize, 2usize)],
                seq![KeyEvent::Release(s1.0, s1.1), KeyEvent::Release(s2.0, s2.1)],
            );
            &&& t.3 == seq![KeyEvent::Release(defs[d].target.0, defs[d].target.1)]
            &&& t.0.len() == 0
            &&& t.1.len() == 0
            &&& t.2 == 0
        }),
{
    let active0 = seq![(d as usize, 2usize)];
    let ev = seq![KeyEvent::Release(s1.0, s1.1), KeyEvent::Release(s2.0, s2.1)];
    assert(ev.drop_last() =~= seq![KeyEvent::Release(s1.0, s1.1)]);
    assert(seq![KeyEvent::Release(s1.0, s1.1)].drop_last() =~= Seq::<KeyEvent>::empty());
    assert(ev.last() == KeyEvent::Release(s2.0, s2.1));
    assert(seq![KeyEvent::Release(s1.0, s1.1)].last() == KeyEvent::Release(s1.0, s1.1));
    reveal_with_fuel(chord_consume, 3);
    let srcs = defs[d].sources@;
    assert(srcs[0] == s1 && srcs[1] == s2);
    assert(srcs.contains(s1));
    assert(srcs.contains(s2));
    assert(d as usize as int == d);
    assert(active0[0].0 == d as usize && active0[0].1 == 2usize);
    assert(active0[0].0 < defs.len());
    assert(defs[active0[0].0 as int].sources@.contains(s1));
    assert(first_active_for(defs, active0, s1, 0) == 0);
    let active1 = active0.update(0, (d as usize, 1usize));
    assert(active1[0].0 == d as usize && active1[0].1 == 1usize);
    assert(defs[active1[0].0 as int].sources@.contains(s2));
    assert(first_active_for(defs, active1, s2, 0) == 0);
    let r1 = chord_consume(defs, Seq::empty(), active0, ev);
    assert(active1.remove(0) =~= Seq::<(usize, usize)>::empty());
    assert(r1.0 =~= Seq::<(u8, u8)>::empty());
    assert(r1.1 =~= Seq::<(usize, usize)>::empty());
    assert(r1.2 =~= seq![KeyEvent::Release(defs[d].target.0, defs[d].target.1)]);
    assert(forall|d2: int|
        0 <= d2 < defs.len() ==> !((#[trigger] defs[d2]).sources@.len() > 0 && sources_in_held(
            defs[d2].sources@,
            r1.0,
        ))) by {
        assert forall|d2: int| 0 <= d2 < defs.len() implies !((#[trigger] defs[d2]).sources@.len()
            > 0 && sources_in_held(defs[d2].sources@, r1.0)) by {
            if defs[d2].sources@.len() > 0 && sources_in_held(defs[d2].sources@, r1.0) {
                assert(r1.0.contains(defs[d2].sources@[0]));
            }
        }
    }
    lemma_fire_nop(defs, r1.0, r1.1, defs.len() as int);
    assert((r1.2 + Seq::<KeyEvent>::empty()) + Seq::<KeyEvent>::empty() =~= r1.2);
}

} // verus!
