//! The watcher: the per-sample decision that enforces the two heuristics.

use vstd::prelude::*;

use crate::config::Config;

verus! {

/// The safety policy that a supervised program broke.
#[derive(Debug, Clone, Copy, PartialEq, Eq, Structural)]
pub enum Violation {
    /// Resident memory exceeded the absolute ceiling.
    AbsoluteLimit,
    /// Resident memory grew faster than the velocity threshold.
    Velocity,
}

/// The reason shown to the user for a violation.
pub open spec fn violation_reason(v: Violation) -> Seq<char> {
    match v {
        Violation::AbsoluteLimit => "Absolute Memory Limit Exceeded"@,
        Violation::Velocity => "Explosive Growth Velocity Detected"@,
    }
}

impl Violation {
    /// A human-readable name of the violated policy.
    pub fn reason(self) -> (r: &'static str)
        ensures
            r@ == violation_reason(self),
    {
        match self {
            Violation::AbsoluteLimit => "Absolute Memory Limit Exceeded",
            Violation::Velocity => "Explosive Growth Velocity Detected",
        }
    }
}

/// How a supervised program ended, as plain values.
#[derive(Debug, Clone, Copy, PartialEq, Eq, Structural)]
pub struct ExitInfo {
    /// The exit code, if the program exited by itself.
    pub code: Option<i32>,
    /// The signal that ended the program, if one did.
    pub signal: Option<i32>,
}

/// The end of a supervision.
#[derive(Debug, Clone, Copy, PartialEq, Eq, Structural)]
pub enum Outcome {
    /// The program ended by itself (or was ended by someone else).
    Exited(ExitInfo),
    /// MemoryKnight ended the program for breaking a policy.
    Killed(Violation),
}

/// What the watcher measured over a run.
#[derive(Debug, Clone, Copy, PartialEq, Eq, Structural)]
pub struct RunStats {
    /// The highest resident memory seen, in bytes.
    pub peak_rss: u64,
    /// The fastest growth seen between two samples, in bytes per second,
    /// rounded down (and held to `u64::MAX`).
    pub peak_velocity: u64,
    /// The length of the run, in nanoseconds.
    pub duration_ns: u64,
}

impl Default for RunStats {
    fn default() -> (s: Self)
        ensures
            s == (RunStats { peak_rss: 0, peak_velocity: 0, duration_ns: 0 }),
    {
        RunStats { peak_rss: 0, peak_velocity: 0, duration_ns: 0 }
    }
}

/// The outcome of a supervision with its measurements.
#[derive(Debug, Clone, Copy, PartialEq, Eq, Structural)]
pub struct Supervision {
    pub outcome: Outcome,
    pub stats: RunStats,
}

/// One reading of the child's resident memory.
#[derive(Debug, Clone, Copy, PartialEq, Eq, Structural)]
pub struct Sample {
    /// When the reading was taken, in nanoseconds since the child started.
    pub at_ns: u64,
    /// The child's resident memory, in bytes.
    pub rss: u64,
}

/// What the watcher decides about one sample.
#[derive(Debug, Clone, Copy, PartialEq, Eq, Structural)]
pub enum Verdict {
    /// Nothing to act on.
    Continue,
    /// A policy was broken in report-only mode, for the first time: say so.
    Warn(Violation),
    /// A policy was broken: end the child and stop watching.
    Kill(Violation),
}

/// The decision for one sample, and whether a live status line is due.
#[derive(Debug, Clone, Copy, PartialEq, Eq, Structural)]
pub struct Step {
    pub verdict: Verdict,
    /// A live status line (rss, peak rss, peak velocity) is due now.
    pub show_status: bool,
}

/// Nanoseconds in a second.
pub const NANOS_PER_SEC: u64 = 1_000_000_000;

/// The least time between two live status lines, in nanoseconds (250 ms).
pub const STATUS_PERIOD_NS: u64 = 250_000_000;

/// The growth from the previous sample to `s`, as (bytes, nanoseconds), when
/// time has passed and memory grew.
pub open spec fn growth(last: Option<Sample>, s: Sample) -> Option<(nat, nat)> {
    match last {
        Some(p) => if s.at_ns > p.at_ns && s.rss > p.rss {
            Some(((s.rss - p.rss) as nat, (s.at_ns - p.at_ns) as nat))
        } else {
            None
        },
        None => None,
    }
}

/// Whether a growth is faster than `max_velocity` bytes per second.
///
/// The rate is compared exactly, as `bytes * 10^9 > max_velocity * nanos`,
/// in whole numbers: no `f64` division comes between the sample and the
/// verdict. A floating-point quotient `bytes as f64 / secs` can land on the
/// other side of the threshold only when the two differ by less than the
/// quotient's own rounding error.
pub open spec fn too_fast(g: Option<(nat, nat)>, max_velocity: u64) -> bool {
    match g {
        Some((bytes, nanos)) => bytes * NANOS_PER_SEC > max_velocity * nanos,
        None => false,
    }
}

/// A growth in bytes per second, rounded down and held to `u64::MAX`
/// (`0` when memory did not grow).
pub open spec fn rate_of(g: Option<(nat, nat)>) -> u64 {
    match g {
        Some((bytes, nanos)) => {
            let r = bytes * NANOS_PER_SEC / (nanos as int);
            if r > u64::MAX {
                u64::MAX
            } else {
                r as u64
            }
        },
        None => 0,
    }
}

/// The policy that a sample breaks, if any: the absolute ceiling first, then
/// the growth velocity.
pub open spec fn violation_of(cfg: &Config, last: Option<Sample>, s: Sample) -> Option<Violation> {
    if s.rss > cfg.max_ram {
        Some(Violation::AbsoluteLimit)
    } else if too_fast(growth(last, s), cfg.max_velocity) {
        Some(Violation::Velocity)
    } else {
        None
    }
}

/// The larger of two counts.
pub open spec fn larger(a: u64, b: u64) -> u64 {
    if b > a {
        b
    } else {
        a
    }
}

/// The verdict on a sample: kill on a violation, or, in report-only mode,
/// warn about the first violation and stay quiet about later ones.
pub open spec fn verdict_of(cfg: &Config, w: Watch, s: Sample) -> Verdict {
    match violation_of(cfg, w.last_sample, s) {
        None => Verdict::Continue,
        Some(v) => if !cfg.report_only {
            Verdict::Kill(v)
        } else if !w.warned {
            Verdict::Warn(v)
        } else {
            Verdict::Continue
        },
    }
}

/// The watcher after a sample, and the step it takes.
pub open spec fn observe_spec(cfg: &Config, w: Watch, s: Sample) -> (Watch, Step) {
    let verdict = verdict_of(cfg, w, s);
    let show = !(verdict is Kill) && s.at_ns >= w.last_status_ns && s.at_ns - w.last_status_ns
        >= STATUS_PERIOD_NS;
    (
        Watch {
            stats: RunStats {
                peak_rss: larger(w.stats.peak_rss, s.rss),
                peak_velocity: larger(w.stats.peak_velocity, rate_of(growth(w.last_sample, s))),
                duration_ns: w.stats.duration_ns,
            },
            last_sample: Some(s),
            last_status_ns: if show {
                s.at_ns
            } else {
                w.last_status_ns
            },
            warned: w.warned || verdict is Warn,
        },
        Step { verdict, show_status: show },
    )
}

/// The watcher's memory between samples.
#[derive(Debug, Clone, Copy, PartialEq, Eq, Structural)]
pub struct Watch {
    /// The measurements so far.
    pub stats: RunStats,
    /// The previous sample, if any.
    pub last_sample: Option<Sample>,
    /// When the last live status line was due, in nanoseconds since start.
    pub last_status_ns: u64,
    /// Whether a report-only warning has been given.
    pub warned: bool,
}

impl Watch {
    /// A watcher that has seen nothing yet.
    pub fn new() -> (w: Self)
        ensures
            w.stats == (RunStats { peak_rss: 0, peak_velocity: 0, duration_ns: 0 }),
            w.last_sample is None,
            w.last_status_ns == 0,
            !w.warned,
    {
        Watch { stats: RunStats::default(), last_sample: None, last_status_ns: 0, warned: false }
    }

    /// Takes one sample of the child's memory and decides what to do.
    ///
    /// The growth since the previous sample is measured exactly in whole
    /// bytes and nanoseconds: the velocity test is [`too_fast`], an integer
    /// comparison, and the peak velocity kept is the exact rate rounded
    /// down to a whole byte per second ([`rate_of`]), not an `f64` quotient.
    pub fn observe(&mut self, cfg: &Config, s: Sample) -> (step: Step)
        ensures
            (*final(self), step) == observe_spec(cfg, *old(self), s),
    {
        if s.rss > self.stats.peak_rss {
            self.stats.peak_rss = s.rss;
        }
        let mut fast = false;
        let mut rate: u64 = 0;
        if let Some(p) = self.last_sample {
            if s.at_ns > p.at_ns && s.rss > p.rss {
                let bytes = (s.rss - p.rss) as u128;
                let nanos = (s.at_ns - p.at_ns) as u128;
                proof {
                    assert(bytes * 1_000_000_000 <= 0xffff_ffff_ffff_ffff * 1_000_000_000)
                        by (nonlinear_arith)
                        requires
                            bytes <= 0xffff_ffff_ffff_ffffu128,
                    ;
                    assert(cfg.max_velocity * nanos <= 0xffff_ffff_ffff_ffff
                        * 0xffff_ffff_ffff_ffff) by (nonlinear_arith)
                        requires
                            cfg.max_velocity <= 0xffff_ffff_ffff_ffffu64,
                            nanos <= 0xffff_ffff_ffff_ffffu128,
                    ;
                }
                let scaled = bytes * (NANOS_PER_SEC as u128);
                fast = scaled > (cfg.max_velocity as u128) * nanos;
                let r = scaled / nanos;
                rate = if r > u64::MAX as u128 {
                    u64::MAX
                } else {
                    r as u64
                };
            }
        }
        if rate > self.stats.peak_velocity {
            self.stats.peak_velocity = rate;
        }
        self.last_sample = Some(s);
        let violation = if s.rss > cfg.max_ram {
            Some(Violation::AbsoluteLimit)
        } else if fast {
            Some(Violation::Velocity)
        } else {
            None
        };
        let verdict = match violation {
            None => Verdict::Continue,
            Some(v) => if !cfg.report_only {
                Verdict::Kill(v)
            } else if !self.warned {
                self.warned = true;
                Verdict::Warn(v)
            } else {
                Verdict::Continue
            },
        };
        let show_status = match verdict {
            Verdict::Kill(_) => false,
            _ => s.at_ns >= self.last_status_ns && s.at_ns - self.last_status_ns
                >= STATUS_PERIOD_NS,
        };
        if show_status {
            self.last_status_ns = s.at_ns;
        }
        Step { verdict, show_status }
    }
}

/// The watcher after a run of samples, one after another.
pub open spec fn observe_all(cfg: &Config, w: Watch, samples: Seq<Sample>) -> Watch
    decreases samples.len(),
{
    if samples.len() == 0 {
        w
    } else {
        observe_spec(cfg, observe_all(cfg, w, samples.drop_last()), samples.last()).0
    }
}

/// The verdicts on a run of samples, one per sample.
pub open spec fn verdicts(cfg: &Config, w: Watch, samples: Seq<Sample>) -> Seq<Verdict>
    decreases samples.len(),
{
    if samples.len() == 0 {
        Seq::empty()
    } else {
        verdicts(cfg, w, samples.drop_last()).push(
            observe_spec(cfg, observe_all(cfg, w, samples.drop_last()), samples.last()).1.verdict,
        )
    }
}

/// Report-only mode never kills the child.
pub proof fn law_report_only_never_kills(cfg: &Config, w: Watch, s: Sample)
    requires
        cfg.report_only,
    ensures
        !(observe_spec(cfg, w, s).1.verdict is Kill),
{
}

/// A sample above the absolute ceiling kills the child, whatever its growth,
/// unless in report-only mode.
pub proof fn law_ceiling_kills(cfg: &Config, w: Watch, s: Sample)
    requires
        !cfg.report_only,
        s.rss > cfg.max_ram,
    ensures
        observe_spec(cfg, w, s).1.verdict == Verdict::Kill(Violation::AbsoluteLimit),
{
}

/// Growth faster than the velocity threshold kills the child, unless in
/// report-only mode.
pub proof fn law_velocity_kills(cfg: &Config, w: Watch, s: Sample)
    requires
        !cfg.report_only,
        s.rss <= cfg.max_ram,
        too_fast(growth(w.last_sample, s), cfg.max_velocity),
    ensures
        observe_spec(cfg, w, s).1.verdict == Verdict::Kill(Violation::Velocity),
{
}

/// A sample within the ceiling and the velocity threshold is let through.
pub proof fn law_within_limits_continues(cfg: &Config, w: Watch, s: Sample)
    requires
        s.rss <= cfg.max_ram,
        !too_fast(growth(w.last_sample, s), cfg.max_velocity),
    ensures
        observe_spec(cfg, w, s).1.verdict == Verdict::Continue,
{
}

/// What a sample's verdict is, from the sample, the previous sample and the
/// configuration alone. A sample breaks the ceiling when its RSS is above
/// `max_ram`; otherwise it breaks the velocity threshold when time passed
/// since the previous sample, memory grew, and the growth in bytes times
/// `10^9` exceeds `max_velocity` times the nanoseconds elapsed. Outside
/// report-only mode a broken policy kills for that policy; in report-only
/// mode the first one is warned about, naming that same policy, and later
/// ones pass; a sample that breaks neither passes.
pub proof fn law_verdict_by_policy(cfg: &Config, w: Watch, s: Sample)
    ensures
        ({
            let verdict = observe_spec(cfg, w, s).1.verdict;
            let over = s.rss > cfg.max_ram;
            let fast = match w.last_sample {
                Some(p) => s.at_ns > p.at_ns && s.rss > p.rss && (s.rss - p.rss) * 1_000_000_000
                    > cfg.max_velocity * (s.at_ns - p.at_ns),
                None => false,
            };
            &&& over && !cfg.report_only ==> verdict == Verdict::Kill(Violation::AbsoluteLimit)
            &&& !over && fast && !cfg.report_only ==> verdict == Verdict::Kill(Violation::Velocity)
            &&& over && cfg.report_only && !w.warned ==> verdict == Verdict::Warn(
                Violation::AbsoluteLimit,
            )
            &&& !over && fast && cfg.report_only && !w.warned ==> verdict == Verdict::Warn(
                Violation::Velocity,
            )
            &&& cfg.report_only && w.warned ==> verdict == Verdict::Continue
            &&& !over && !fast ==> verdict == Verdict::Continue
        }),
{
}

/// In report-only mode, before any warning, the warning names the policy
/// that a run outside report-only mode kills for on the same sample.
pub proof fn law_warning_names_the_kill_policy(cfg: &Config, other: &Config, w: Watch, s: Sample)
    requires
        cfg.report_only,
        !other.report_only,
        !w.warned,
        cfg.max_ram == other.max_ram,
        cfg.max_velocity == other.max_velocity,
    ensures
        observe_spec(other, w, s).1.verdict is Kill ==> observe_spec(cfg, w, s).1.verdict
            == Verdict::Warn(observe_spec(other, w, s).1.verdict->Kill_0),
        !(observe_spec(other, w, s).1.verdict is Kill) ==> observe_spec(cfg, w, s).1.verdict
            == Verdict::Continue,
{
}

/// After a sample, the peak RSS is the larger of the peak before and the
/// sample's RSS; a warning is remembered; the previous sample is this one.
pub proof fn law_sample_updates(cfg: &Config, w: Watch, s: Sample)
    ensures
        ({
            let (after, step) = observe_spec(cfg, w, s);
            &&& after.stats.peak_rss >= s.rss
            &&& after.stats.peak_rss >= w.stats.peak_rss
            &&& (after.stats.peak_rss == s.rss || after.stats.peak_rss == w.stats.peak_rss)
            &&& after.stats.peak_velocity >= w.stats.peak_velocity
            &&& after.last_sample == Some(s)
            &&& after.warned == (w.warned || step.verdict is Warn)
            &&& after.stats.duration_ns == w.stats.duration_ns
        }),
{
}

/// A live status line is due on a sample that does not kill when at least
/// 250 ms passed since the last one was due, and then that time moves to the
/// sample's; otherwise it stays.
pub proof fn law_status_line_period(cfg: &Config, w: Watch, s: Sample)
    ensures
        ({
            let (after, step) = observe_spec(cfg, w, s);
            let due = s.at_ns >= w.last_status_ns + 250_000_000;
            &&& step.show_status == (!(step.verdict is Kill) && due)
            &&& step.show_status ==> after.last_status_ns == s.at_ns
            &&& !step.show_status ==> after.last_status_ns == w.last_status_ns
        }),
{
}

/// The peak velocity after a sample: when time passed and memory grew since
/// the previous sample, it is at least the growth rate in whole bytes per
/// second (held to `u64::MAX`) and is either that rate or the peak before;
/// otherwise it is the peak before.
pub proof fn law_peak_velocity_update(cfg: &Config, w: Watch, s: Sample)
    ensures
        ({
            let after = observe_spec(cfg, w, s).0;
            match w.last_sample {
                Some(p) => if s.at_ns > p.at_ns && s.rss > p.rss {
                    let r = ((s.rss - p.rss) * 1_000_000_000) / ((s.at_ns - p.at_ns) as int);
                    let rate = if r > u64::MAX {
                        u64::MAX as int
                    } else {
                        r
                    };
                    &&& after.stats.peak_velocity >= rate
                    &&& after.stats.peak_velocity >= w.stats.peak_velocity
                    &&& (after.stats.peak_velocity == rate || after.stats.peak_velocity
                        == w.stats.peak_velocity)
                } else {
                    after.stats.peak_velocity == w.stats.peak_velocity
                },
                None => after.stats.peak_velocity == w.stats.peak_velocity,
            }
        }),
{
}

proof fn lemma_run_prefix(cfg: &Config, w: Watch, samples: Seq<Sample>, i: int)
    requires
        0 <= i < samples.len(),
    ensures
        observe_all(cfg, w, samples.take(i + 1)) == observe_spec(
            cfg,
            observe_all(cfg, w, samples.take(i)),
            samples[i],
        ).0,
{
    assert(samples.take(i + 1).drop_last() =~= samples.take(i));
}

proof fn lemma_verdicts_len(cfg: &Config, w: Watch, samples: Seq<Sample>)
    ensures
        verdicts(cfg, w, samples).len() == samples.len(),
    decreases samples.len(),
{
    if samples.len() > 0 {
        lemma_verdicts_len(cfg, w, samples.drop_last());
    }
}

proof fn lemma_verdict_at(cfg: &Config, w: Watch, samples: Seq<Sample>, i: int)
    requires
        0 <= i < samples.len(),
    ensures
        verdicts(cfg, w, samples).len() == samples.len(),
        verdicts(cfg, w, samples)[i] == observe_spec(
            cfg,
            observe_all(cfg, w, samples.take(i)),
            samples[i],
        ).1.verdict,
    decreases samples.len(),
{
    lemma_verdicts_len(cfg, w, samples);
    lemma_verdicts_len(cfg, w, samples.drop_last());
    let last = samples.len() - 1;
    if i < last {
        lemma_verdict_at(cfg, w, samples.drop_last(), i);
        assert(samples.drop_last().take(i) =~= samples.take(i));
    } else {
        assert(samples.drop_last() =~= samples.take(i));
    }
}

proof fn lemma_warned_stays(cfg: &Config, w: Watch, samples: Seq<Sample>, i: int, j: int)
    requires
        0 <= i <= j <= samples.len(),
        observe_all(cfg, w, samples.take(i)).warned,
    ensures
        observe_all(cfg, w, samples.take(j)).warned,
    decreases j - i,
{
    if i < j {
        lemma_run_prefix(cfg, w, samples, i);
        lemma_warned_stays(cfg, w, samples, i + 1, j);
    }
}

/// A run of samples warns at most once, and not at all once a warning was
/// given before it.
pub proof fn law_warns_at_most_once(cfg: &Config, w: Watch, samples: Seq<Sample>)
    ensures
        forall|i: int, j: int|
            0 <= i < j < samples.len() && #[trigger] verdicts(cfg, w, samples)[i] is Warn ==> !(
            #[trigger] verdicts(cfg, w, samples)[j] is Warn),
        w.warned ==> forall|i: int|
            0 <= i < samples.len() ==> !(#[trigger] verdicts(cfg, w, samples)[i] is Warn),
{
    assert forall|i: int, j: int|
        0 <= i < j < samples.len() && #[trigger] verdicts(cfg, w, samples)[i] is Warn implies !(
        #[trigger] verdicts(cfg, w, samples)[j] is Warn) by {
        lemma_verdict_at(cfg, w, samples, i);
        lemma_verdict_at(cfg, w, samples, j);
        lemma_run_prefix(cfg, w, samples, i);
        lemma_warned_stays(cfg, w, samples, i + 1, j);
    }
    if w.warned {
        assert forall|i: int| 0 <= i < samples.len() implies !(#[trigger] verdicts(
            cfg,
            w,
            samples,
        )[i] is Warn) by {
            lemma_verdict_at(cfg, w, samples, i);
            assert(samples.take(0) =~= Seq::<Sample>::empty());
            lemma_warned_stays(cfg, w, samples, 0, i);
        }
    }
}

/// After a run of samples, the peak resident memory is the highest of the
/// samples (or the peak before the run, if that was higher).
pub proof fn law_peak_rss_is_highest_sample(cfg: &Config, w: Watch, samples: Seq<Sample>)
    ensures
        observe_all(cfg, w, samples).stats.peak_rss >= w.stats.peak_rss,
        forall|i: int|
            0 <= i < samples.len() ==> observe_all(cfg, w, samples).stats.peak_rss >= (
            #[trigger] samples[i]).rss,
        observe_all(cfg, w, samples).stats.peak_rss == w.stats.peak_rss || exists|i: int|
            0 <= i < samples.len() && observe_all(cfg, w, samples).stats.peak_rss == (
            #[trigger] samples[i]).rss,
    decreases samples.len(),
{
    if samples.len() > 0 {
        let prev = samples.drop_last();
        law_peak_rss_is_highest_sample(cfg, w, prev);
        assert forall|i: int| 0 <= i < samples.len() implies observe_all(
            cfg,
            w,
            samples,
        ).stats.peak_rss >= (#[trigger] samples[i]).rss by {
            if i < prev.len() {
                assert(prev[i] == samples[i]);
            }
        }
        if observe_all(cfg, w, samples).stats.peak_rss != w.stats.peak_rss {
            if observe_all(cfg, w, samples).stats.peak_rss == samples.last().rss {
                assert(samples[samples.len() - 1] == samples.last());
            } else {
                let k = choose|k: int|
                    0 <= k < prev.len() && observe_all(cfg, w, prev).stats.peak_rss == (
                    #[trigger] prev[k]).rss;
                assert(samples[k] == prev[k]);
            }
        }
    }
}

/// The sample before the `i`-th one of a run (the watcher's last sample for
/// the first one).
pub open spec fn previous_sample(w: Watch, samples: Seq<Sample>, i: int) -> Option<Sample> {
    if i == 0 {
        w.last_sample
    } else {
        Some(samples[i - 1])
    }
}

proof fn lemma_last_sample_of_prefix(cfg: &Config, w: Watch, samples: Seq<Sample>, i: int)
    requires
        0 <= i <= samples.len(),
    ensures
        observe_all(cfg, w, samples.take(i)).last_sample == previous_sample(w, samples, i),
{
    if i == 0 {
        assert(samples.take(0) =~= Seq::<Sample>::empty());
    } else {
        lemma_run_prefix(cfg, w, samples, i - 1);
    }
}

/// After a run of samples, the peak velocity is at least the growth rate
/// between every two consecutive samples, and never below the peak before.
pub proof fn law_peak_velocity_is_fastest(cfg: &Config, w: Watch, samples: Seq<Sample>)
    ensures
        observe_all(cfg, w, samples).stats.peak_velocity >= w.stats.peak_velocity,
        forall|i: int|
            0 <= i < samples.len() ==> observe_all(cfg, w, samples).stats.peak_velocity >= rate_of(
                growth(previous_sample(w, samples, i), #[trigger] samples[i]),
            ),
    decreases samples.len(),
{
    if samples.len() > 0 {
        let prev = samples.drop_last();
        let n = samples.len() - 1;
        law_peak_velocity_is_fastest(cfg, w, prev);
        assert(samples.take(n) =~= prev);
        lemma_last_sample_of_prefix(cfg, w, samples, n);
        assert forall|i: int| 0 <= i < samples.len() implies observe_all(
            cfg,
            w,
            samples,
        ).stats.peak_velocity >= rate_of(growth(previous_sample(w, samples, i), #[trigger] samples[i])) by {
            if i < n {
                assert(prev[i] == samples[i]);
                if i > 0 {
                    assert(prev[i - 1] == samples[i - 1]);
                }
                assert(previous_sample(w, prev, i) == previous_sample(w, samples, i));
            } else {
                assert(samples.last() == samples[i]);
            }
        }
    }
}

} // verus!
