//! Progress of a simulation as a whole percentage, reported only when it changes.

use vstd::prelude::*;

verus! {

/// The units of work of a simulation: one per trial and hand, at least 1, and
/// the largest number that 64 bits hold where the product is larger.
pub open spec fn work_units(hands: nat, trials: nat) -> u64 {
    if hands * trials == 0 {
        1u64
    } else if hands * trials > u64::MAX {
        u64::MAX
    } else {
        (hands * trials) as u64
    }
}

/// The whole percentage that `done` units are of `total`, capped at 100. The
/// hundredfold of `done` is capped at what 64 bits hold, and of the quotient
/// the low 32 bits count.
pub open spec fn percent_done(done: u64, total: u64) -> u32
    recommends
        total > 0,
{
    let scaled: int = if done * 100 > u64::MAX {
        u64::MAX as int
    } else {
        done * 100
    };
    let quotient = (scaled / (total as int)) % 0x1_0000_0000;
    if quotient > 100 {
        100u32
    } else {
        quotient as u32
    }
}

/// The percentage never goes down as work is done.
pub proof fn lemma_percent_monotone(earlier: u64, later: u64, total: u64)
    requires
        total > 0,
        earlier <= later <= total,
    ensures
        percent_done(earlier, total) <= percent_done(later, total) <= 100,
{
    let a: int = if earlier * 100 > u64::MAX {
        u64::MAX as int
    } else {
        earlier * 100
    };
    let b: int = if later * 100 > u64::MAX {
        u64::MAX as int
    } else {
        later * 100
    };
    assert(a <= b <= total * 100);
    lemma_quotient_monotone(a, b, total as int);
    lemma_quotient_monotone(b, total * 100, total as int);
    assert((total * 100) / (total as int) == 100) by (nonlinear_arith)
        requires
            total > 0,
    ;
    assert(0 <= a / (total as int)) by (nonlinear_arith)
        requires
            a >= 0,
            total > 0,
    ;
}

/// Of two numbers the greater has no smaller a quotient.
proof fn lemma_quotient_monotone(a: int, b: int, d: int)
    requires
        0 <= a <= b,
        d > 0,
    ensures
        a / d <= b / d,
{
    vstd::arithmetic::div_mod::lemma_div_is_ordered(a, b, d);
}

/// Nothing done is 0 percent; all done is 100 percent, where the hundredfold
/// of the total fits in 64 bits.
pub proof fn lemma_percent_ends(total: u64)
    requires
        total > 0,
    ensures
        percent_done(0, total) == 0,
        total * 100 <= u64::MAX ==> percent_done(total, total) == 100,
{
    assert(0int / (total as int) == 0) by (nonlinear_arith)
        requires
            total > 0,
    ;
    assert((total * 100) / (total as int) == 100) by (nonlinear_arith)
        requires
            total > 0,
    ;
}

/// The product of two numbers, or the largest number that 64 bits hold where
/// the product is larger.
pub fn capped_product(a: u64, b: u64) -> (p: u64)
    ensures
        p == if a * b > u64::MAX {
            u64::MAX as int
        } else {
            a * b
        },
{
    match a.checked_mul(b) {
        Some(v) => v,
        None => u64::MAX,
    }
}

/// Keeps the percentage that was reported last.
#[derive(Clone, Copy, Debug)]
pub struct Progress {
    total: u64,
    last: Option<u32>,
}

impl Progress {
    /// The units of work that make 100 percent.
    pub closed spec fn total(&self) -> u64 {
        self.total
    }

    /// The percentage reported last, if any was.
    pub closed spec fn last(&self) -> Option<u32> {
        self.last
    }

    /// A tracker for `hands` times `trials` units of work, with nothing reported yet.
    pub fn new(hands: usize, trials: u32) -> (p: Progress)
        ensures
            p.total() == work_units(hands as nat, trials as nat),
            p.total() > 0,
            p.last() is None,
    {
        let product = capped_product(hands as u64, trials as u64);
        assert(hands as u64 * trials as u64 == (hands as nat) * (trials as nat)) by (nonlinear_arith);
        let total = if product == 0 {
            1
        } else {
            product
        };
        Progress { total, last: None }
    }

    /// The units of work that make 100 percent.
    pub fn units(&self) -> (total: u64)
        ensures
            total == self.total(),
    {
        self.total
    }

    /// Takes note that `done` units are done. Returns the percentage to
    /// report, where it differs from the one reported last.
    pub fn update(&mut self, done: u64) -> (report: Option<u32>)
        requires
            old(self).total() > 0,
        ensures
            final(self).total() == old(self).total(),
            final(self).last() == Some(percent_done(done, old(self).total())),
            report == if old(self).last() == Some(percent_done(done, old(self).total())) {
                None
            } else {
                Some(percent_done(done, old(self).total()))
            },
            report matches Some(p) ==> p <= 100,
    {
        let scaled = capped_product(done, 100);
        let q: u64 = scaled / self.total;
        assert(q as u32 == q % 0x1_0000_0000) by (bit_vector);
        let pct = #[verifier::truncate] (q as u32);
        let clamped = if pct > 100 {
            100
        } else {
            pct
        };
        let changed = match self.last {
            Some(p) => p != clamped,
            None => true,
        };
        self.last = Some(clamped);
        if changed {
            Some(clamped)
        } else {
            None
        }
    }
}


/// What takes the percentages of a simulation as they are reached.
pub trait Reporter {
    /// The percentages taken so far, in their order.
    spec fn reported(&self) -> Seq<u32>;

    /// The reporter can take a percentage.
    spec fn ready(&self) -> bool;

    /// Takes a percentage.
    fn report(&mut self, percent: u32)
        requires
            old(self).ready(),
            percent <= 100,
        ensures
            final(self).ready(),
            final(self).reported() == old(self).reported().push(percent),
    ;
}

/// A reporter that hands each percentage to a callback, where there is one.
pub struct Callback<F: FnMut(u32)> {
    pub call: Option<F>,
    pub log: Ghost<Seq<u32>>,
}

/// A callback that takes every percentage.
pub open spec fn takes_percent<F: FnMut(u32)>(progress: Option<F>) -> bool {
    progress matches Some(f) ==> forall|p: u32| p <= 100 ==> call_requires(f, (p,))
}

impl<F: FnMut(u32)> Callback<F> {
    /// A reporter for a callback, with nothing reported yet.
    pub fn new(call: Option<F>) -> (c: Self)
        requires
            takes_percent(call),
        ensures
            c.ready(),
            c.reported() == Seq::<u32>::empty(),
    {
        Callback { call, log: Ghost(Seq::empty()) }
    }
}

impl<F: FnMut(u32)> Reporter for Callback<F> {
    open spec fn reported(&self) -> Seq<u32> {
        self.log@
    }

    open spec fn ready(&self) -> bool {
        takes_percent(self.call)
    }

    fn report(&mut self, percent: u32) {
        match &mut self.call {
            Some(f) => {
                f(percent);
            },
            None => {},
        }
        self.log = Ghost(self.log@.push(percent));
    }
}

/// A reporter that lets every percentage pass.
pub struct Silent {
    pub log: Ghost<Seq<u32>>,
}

impl Silent {
    /// A silent reporter, with nothing reported yet.
    pub fn new() -> (s: Self)
        ensures
            s.ready(),
            s.reported() == Seq::<u32>::empty(),
    {
        Silent { log: Ghost(Seq::empty()) }
    }
}

impl Reporter for Silent {
    open spec fn reported(&self) -> Seq<u32> {
        self.log@
    }

    open spec fn ready(&self) -> bool {
        true
    }

    fn report(&mut self, percent: u32) {
        self.log = Ghost(self.log@.push(percent));
    }
}

/// The units that count as done after `steps` units of work: a count that
/// stays at the largest number that 64 bits hold once it has reached it.
pub open spec fn done_after(steps: nat) -> u64 {
    if steps > u64::MAX {
        u64::MAX
    } else {
        steps as u64
    }
}

/// The percentages reported up to and including the step `steps`: the
/// percentage of nothing done, then after each step the new percentage where
/// it differs from the one before.
pub open spec fn reports_after(total: u64, steps: nat) -> Seq<u32>
    decreases steps,
{
    if steps == 0 {
        seq![percent_done(0, total)]
    } else {
        let before = reports_after(total, (steps - 1) as nat);
        let now = percent_done(done_after(steps), total);
        if now == percent_done(done_after((steps - 1) as nat), total) {
            before
        } else {
            before.push(now)
        }
    }
}

/// The percentages reported over a whole run of `steps` steps: those of the
/// steps, then the percentage of all done where it is a new one.
pub open spec fn reports_of_run(total: u64, steps: nat) -> Seq<u32> {
    let during = reports_after(total, steps);
    if percent_done(total, total) == percent_done(done_after(steps), total) {
        during
    } else {
        during.push(percent_done(total, total))
    }
}

/// The reports of the steps start with 0 and end with the percentage of
/// the last step; while no more is done than there is to do they rise from
/// each to the next and stay within 100.
pub proof fn lemma_reports_rise(total: u64, steps: nat)
    requires
        total > 0,
    ensures
        reports_after(total, steps).len() >= 1,
        reports_after(total, steps)[0] == 0,
        reports_after(total, steps).last() == percent_done(done_after(steps), total),
        done_after(steps) <= total ==> forall|a: int, b: int|
            0 <= a < b < reports_after(total, steps).len() ==> #[trigger] reports_after(total, steps)[a]
                < #[trigger] reports_after(total, steps)[b] <= 100,
    decreases steps,
{
    lemma_percent_ends(total);
    if steps > 0 {
        let fewer = (steps - 1) as nat;
        lemma_reports_rise(total, fewer);
        let before = reports_after(total, fewer);
        let all = reports_after(total, steps);
        if done_after(steps) <= total {
            lemma_percent_monotone(done_after(fewer), done_after(steps), total);
            assert forall|a: int, b: int| 0 <= a < b < all.len() implies #[trigger] all[a]
                < #[trigger] all[b] <= 100 by {
                if b < before.len() {
                    assert(before[a] < before[b]);
                } else {
                    if a < before.len() - 1 {
                        assert(before[a] < before[before.len() - 1]);
                    }
                }
            }
        }
    }
}

/// A simulation of `hands` times `trials` units of work reports 0 first,
/// then each percentage that is reached, rising, and nothing new once the
/// last unit is done; it ends with 100 where the hundredfold of the work
/// fits in 64 bits.
pub proof fn lemma_run_reports(hands: nat, trials: nat)
    requires
        hands * trials > 0,
    ensures
        ({
            let total = work_units(hands, trials);
            let r = reports_of_run(total, hands * trials);
            &&& r == reports_after(total, hands * trials)
            &&& r.len() >= 1
            &&& r[0] == 0
            &&& forall|a: int, b: int| 0 <= a < b < r.len() ==> #[trigger] r[a] < #[trigger] r[b] <= 100
            &&& hands * trials * 100 <= u64::MAX ==> r.last() == 100
        }),
{
    let total = work_units(hands, trials);
    lemma_reports_rise(total, hands * trials);
    lemma_percent_ends(total);
}

/// The progress of one simulation: what there is to do, what is done, and
/// what has been reported.
pub struct Run {
    tracker: Progress,
    completed: u64,
    steps: Ghost<nat>,
    base: Ghost<Seq<u32>>,
}

impl Run {
    /// The units of work that make 100 percent.
    pub closed spec fn total(&self) -> u64 {
        self.tracker.total
    }

    /// The units of work done.
    pub closed spec fn steps(&self) -> nat {
        self.steps@
    }

    /// What the reporter had taken before the simulation.
    pub closed spec fn base(&self) -> Seq<u32> {
        self.base@
    }

    /// The run has reported what is due for the work done.
    pub closed spec fn wf(&self) -> bool {
        &&& self.tracker.total > 0
        &&& self.completed == done_after(self.steps@)
        &&& self.tracker.last == Some(percent_done(self.completed, self.tracker.total))
    }

    /// The reporter has taken, since the simulation began, the reports of the steps done.
    pub open spec fn follows<R: Reporter>(&self, sink: &R) -> bool {
        &&& self.wf()
        &&& sink.ready()
        &&& sink.reported() == self.base() + reports_after(self.total(), self.steps())
    }

    /// Begins a run of `hands` times `trials` units of work and reports that nothing is done.
    pub fn start<R: Reporter>(hands: usize, trials: u32, sink: &mut R) -> (run: Run)
        requires
            old(sink).ready(),
        ensures
            run.follows(final(sink)),
            run.steps() == 0,
            run.base() == old(sink).reported(),
            run.total() == work_units(hands as nat, trials as nat),
    {
        let mut tracker = Progress::new(hands, trials);
        let first = tracker.update(0);
        match first {
            Some(p) => {
                sink.report(p);
            },
            None => {},
        }
        let run = Run {
            tracker,
            completed: 0,
            steps: Ghost(0),
            base: Ghost(old(sink).reported()),
        };
        proof {
            assert(sink.reported() =~= run.base() + reports_after(run.total(), 0));
        }
        run
    }

    /// Takes note of one more unit of work and reports the percentage where it is a new one.
    pub fn step<R: Reporter>(&mut self, sink: &mut R)
        requires
            old(self).follows(old(sink)),
        ensures
            final(self).follows(final(sink)),
            final(self).steps() == old(self).steps() + 1,
            final(self).base() == old(self).base(),
            final(self).total() == old(self).total(),
    {
        self.completed = self.completed.saturating_add(1);
        let report = self.tracker.update(self.completed);
        match report {
            Some(p) => {
                sink.report(p);
            },
            None => {},
        }
        proof {
            self.steps = Ghost(self.steps@ + 1);
            assert(sink.reported() =~= self.base() + reports_after(self.total(), self.steps()));
        }
    }

    /// Reports that all is done, where that is a new percentage.
    pub fn finish<R: Reporter>(&mut self, sink: &mut R)
        requires
            old(self).follows(old(sink)),
        ensures
            final(sink).ready(),
            final(sink).reported() == old(self).base() + reports_of_run(
                old(self).total(),
                old(self).steps(),
            ),
    {
        let report = self.tracker.update(self.tracker.units());
        match report {
            Some(p) => {
                sink.report(p);
            },
            None => {},
        }
        proof {
            assert(sink.reported() =~= old(self).base() + reports_of_run(
                old(self).total(),
                old(self).steps(),
            ));
        }
    }
}

} // verus!
