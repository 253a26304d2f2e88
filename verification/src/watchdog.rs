use vstd::prelude::*;

verus! {

// Liveness heartbeat of the scan loop. The hardware watchdog resets the
// device when the periodic tick handler stops feeding it; this model captures
// that rule so it can be reasoned about and exercised against a mock. Time is
// counted in scan ticks, matching every other timeout in the pipeline.

/// A watchdog with a fixed period. `since_feed` counts the ticks elapsed
/// since the last feed; once the counter passes the period the reset fires,
/// and a fired watchdog stays fired: the reset is fatal, not recoverable.
pub struct WatchdogModel {
    pub period: u32,
    pub since_feed: u32,
    pub fired: bool,
}

impl WatchdogModel {
    /// A freshly started watchdog: just fed, not fired.
    pub fn new(period: u32) -> (w: WatchdogModel)
        ensures
            w.period == period,
            w.since_feed == 0,
            !w.fired,
    {
        WatchdogModel { period, since_feed: 0, fired: false }
    }

    /// The heartbeat, called once per scan tick. Feeding restarts the
    /// countdown but can never un-fire a fired watchdog.
    pub fn feed(&mut self)
        ensures
            final(self).period == old(self).period,
            final(self).since_feed == 0,
            final(self).fired == old(self).fired,
    {
        self.since_feed = 0;
    }

    /// Lets `ticks` scan periods pass without a feed. The reset fires
    /// exactly when the total starvation exceeds the period.
    pub fn elapse(&mut self, ticks: u32)
        ensures
            final(self).period == old(self).period,
            final(self).fired == (old(self).fired || old(self).since_feed + ticks
                > old(self).period),
            final(self).since_feed == (if old(self).since_feed + ticks <= u32::MAX {
                old(self).since_feed + ticks
            } else {
                u32::MAX as int
            }),
    {
        match self.since_feed.checked_add(ticks) {
            Some(s) => {
                self.since_feed = s;
                if s > self.period {
                    self.fired = true;
                }
            },
            None => {
                self.since_feed = u32::MAX;
                self.fired = true;
            },
        }
    }
}

/// A watchdog run as the scan loop drives it: in each cycle some ticks
/// elapse, then the handler runs and feeds. The run is healthy when no cycle
/// starves the watchdog past its period.
pub open spec fn wd_run(w: WatchdogModel, gaps: Seq<u32>) -> WatchdogModel
    decreases gaps.len(),
{
    if gaps.len() == 0 {
        w
    } else {
        let after = WatchdogModel {
            period: w.period,
            since_feed: 0,
            fired: w.fired || w.since_feed + gaps[0] > w.period,
        };
        wd_run(after, gaps.drop_first())
    }
}

/// A scan loop that never lets more than the period pass between feeds never
/// sees the reset fire, from any freshly fed state.
pub proof fn lemma_watchdog_healthy(w: WatchdogModel, gaps: Seq<u32>)
    requires
        !w.fired,
        w.since_feed == 0,
        forall|i: int| 0 <= i < gaps.len() ==> gaps[i] <= w.period,
    ensures
        !wd_run(w, gaps).fired,
        wd_run(w, gaps).since_feed == 0 || gaps.len() == 0,
    decreases gaps.len(),
{
    if gaps.len() > 0 {
        assert(gaps[0] <= w.period);
        let after = WatchdogModel { period: w.period, since_feed: 0, fired: false };
        assert(wd_run(w, gaps) == wd_run(after, gaps.drop_first()));
        lemma_watchdog_healthy(after, gaps.drop_first());
    }
}

/// Starving the handler for longer than the period in any one cycle makes
/// the reset fire, and it stays fired for the rest of the run.
pub proof fn lemma_watchdog_starved(w: WatchdogModel, gaps: Seq<u32>, i: int)
    requires
        0 <= i < gaps.len(),
        wd_run(w, gaps.take(i)).since_feed + gaps[i] > w.period,
    ensures
        wd_run(w, gaps).fired,
    decreases gaps.len(),
{
    assert(wd_run(w, gaps.take(i)).period == w.period) by {
        lemma_wd_run_period(w, gaps.take(i));
    }
    if i == 0 {
        assert(gaps.take(0) =~= Seq::<u32>::empty());
        let after = WatchdogModel {
            period: w.period,
            since_feed: 0,
            fired: w.fired || w.since_feed + gaps[0] > w.period,
        };
        assert(after.fired);
        lemma_wd_run_fired_stays(after, gaps.drop_first());
    } else {
        let after = WatchdogModel {
            period: w.period,
            since_feed: 0,
            fired: w.fired || w.since_feed + gaps[0] > w.period,
        };
        assert(gaps.take(i).drop_first() =~= gaps.drop_first().take(i - 1));
        assert(gaps.take(i)[0] == gaps[0]);
        assert(wd_run(w, gaps.take(i)) == wd_run(after, gaps.drop_first().take(i - 1)));
        assert(gaps.drop_first()[i - 1] == gaps[i]);
        lemma_watchdog_starved(after, gaps.drop_first(), i - 1);
    }
}

/// The period is configuration: no run changes it.
proof fn lemma_wd_run_period(w: WatchdogModel, gaps: Seq<u32>)
    ensures
        wd_run(w, gaps).period == w.period,
    decreases gaps.len(),
{
    if gaps.len() > 0 {
        let after = WatchdogModel {
            period: w.period,
            since_feed: 0,
            fired: w.fired || w.since_feed + gaps[0] > w.period,
        };
        lemma_wd_run_period(after, gaps.drop_first());
    }
}

/// A fired watchdog stays fired.
proof fn lemma_wd_run_fired_stays(w: WatchdogModel, gaps: Seq<u32>)
    requires
        w.fired,
    ensures
        wd_run(w, gaps).fired,
    decreases gaps.len(),
{
    if gaps.len() > 0 {
        let after = WatchdogModel {
            period: w.period,
            since_feed: 0,
            fired: w.fired || w.since_feed + gaps[0] > w.period,
        };
        lemma_wd_run_fired_stays(after, gaps.drop_first());
    }
}

} // verus!
