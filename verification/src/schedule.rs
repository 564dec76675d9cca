//! The cadence of the service: on every tick the database is updated, and on
//! every so many ticks the ranked view is shown after the update.

use vstd::prelude::*;
use vstd::arithmetic::div_mod::{lemma_fundamental_div_mod, lemma_fundamental_div_mod_converse};

verus! {

/// Seconds from one tick to the next.
pub const TICK_SECONDS: u64 = 60;

/// Ticks from one showing of the ranked view to the next.
pub const TICKS_PER_REPORT: u32 = 60;

/// How many recent matches are asked of the feed on each tick.
pub const BATCH_SIZE: usize = 30;

/// How many players the ranked view shows.
pub const TOP_SHOWN: usize = 100;

/// The phase after one more tick: ticks since the last report, which is due
/// when the phase comes back to 0.
pub open spec fn advance(phase: nat, period: nat) -> nat {
    if phase + 1 == period {
        0
    } else {
        phase + 1
    }
}

/// The phase after `ticks` more ticks.
pub open spec fn after(phase: nat, period: nat, ticks: nat) -> nat
    decreases ticks,
{
    if ticks == 0 {
        phase
    } else {
        advance(after(phase, period, (ticks - 1) as nat), period)
    }
}

/// Counts the ticks between two reports.
pub struct Scheduler {
    period: u32,
    phase: u32,
}

impl Scheduler {
    pub closed spec fn wf(&self) -> bool {
        self.phase < self.period
    }

    /// Ticks from one report to the next.
    pub closed spec fn period(&self) -> nat {
        self.period as nat
    }

    /// Ticks since the last report.
    pub closed spec fn phase(&self) -> nat {
        self.phase as nat
    }

    /// A scheduler that asks for a report on every `report_every`-th tick;
    /// none for a cadence of no ticks.
    pub fn new(report_every: u32) -> (made: Option<Scheduler>)
        ensures
            made is None <==> report_every == 0,
            made matches Some(s) ==> s.wf() && s.period() == report_every && s.phase() == 0,
    {
        if report_every == 0 {
            None
        } else {
            Some(Scheduler { period: report_every, phase: 0 })
        }
    }

    /// Notes that a tick has come and its update is done. Tells whether the
    /// report is due now.
    pub fn tick(&mut self) -> (report: bool)
        requires
            old(self).wf(),
        ensures
            final(self).wf(),
            final(self).period() == old(self).period(),
            final(self).phase() == advance(old(self).phase(), old(self).period()),
            report == (final(self).phase() == 0),
    {
        if self.phase + 1 == self.period {
            self.phase = 0;
            true
        } else {
            self.phase = self.phase + 1;
            false
        }
    }
}

/// Counted from a report, the report is due again on each tick whose number
/// is a multiple of the period, and on no other.
pub proof fn lemma_report_cadence(period: nat, ticks: nat)
    requires
        period > 0,
    ensures
        after(0, period, ticks) == ticks % period,
    decreases ticks,
{
    if ticks == 0 {
        lemma_fundamental_div_mod_converse(0, period as int, 0, 0);
    } else {
        let earlier = (ticks - 1) as nat;
        lemma_report_cadence(period, earlier);
        lemma_fundamental_div_mod(earlier as int, period as int);
        let q = earlier as int / period as int;
        let r = earlier as int % period as int;
        assert(0 <= r < period) by (nonlinear_arith)
            requires
                r == earlier as int % period as int,
                period > 0,
        ;
        assert(q * period == period * q) by (nonlinear_arith);
        if r + 1 == period {
            assert(ticks == (q + 1) * period) by (nonlinear_arith)
                requires
                    ticks == earlier + 1,
                    earlier == period * q + r,
                    r + 1 == period,
            ;
            lemma_fundamental_div_mod_converse(ticks as int, period as int, q + 1, 0);
        } else {
            lemma_fundamental_div_mod_converse(ticks as int, period as int, q, r + 1);
        }
    }
}

} // verus!
