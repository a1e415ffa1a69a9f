use mknight::cli::RunArgs;
use mknight::config::Config;
use mknight::monitor::{RunStats, Sample, Verdict, Violation, Watch};

const MIB: u64 = 1024 * 1024;
const MS: u64 = 1_000_000;

fn config(max_ram: &str, max_velocity: &str, report_only: bool) -> Config {
    Config::from_args(RunArgs {
        max_ram: max_ram.to_string(),
        max_velocity: Some(max_velocity.to_string()),
        interval: 50,
        report_only,
        no_rlimit: false,
        program: "p".to_string(),
        args: vec![],
    })
    .unwrap()
}

fn sample(ms: u64, mib: u64) -> Sample {
    Sample {
        at_ns: ms * MS,
        rss: mib * MIB,
    }
}

#[test]
fn reasons() {
    assert_eq!(Violation::AbsoluteLimit.reason(), "Absolute Memory Limit Exceeded");
    assert_eq!(Violation::Velocity.reason(), "Explosive Growth Velocity Detected");
}

#[test]
fn fresh_watch_is_empty() {
    let w = Watch::new();
    assert_eq!(w.stats, RunStats::default());
    assert_eq!(w.stats.peak_rss, 0);
    assert!(w.last_sample.is_none());
    assert!(!w.warned);
}

#[test]
fn ceiling_kills() {
    let cfg = config("100MB", "100GB", false);
    let mut w = Watch::new();
    assert_eq!(w.observe(&cfg, sample(0, 50)).verdict, Verdict::Continue);
    assert_eq!(w.observe(&cfg, sample(50, 100)).verdict, Verdict::Continue);
    let step = w.observe(&cfg, sample(100, 101));
    assert_eq!(step.verdict, Verdict::Kill(Violation::AbsoluteLimit));
    assert!(!step.show_status);
    assert_eq!(w.stats.peak_rss, 101 * MIB);
}

#[test]
fn velocity_kills() {
    // 1 GB per second allowed; 100 MB in 50 ms is 2000 MB per second.
    let cfg = config("10GB", "1GB", false);
    let mut w = Watch::new();
    assert_eq!(w.observe(&cfg, sample(0, 10)).verdict, Verdict::Continue);
    assert_eq!(w.observe(&cfg, sample(50, 60)).verdict, Verdict::Continue);
    let step = w.observe(&cfg, sample(100, 160));
    assert_eq!(step.verdict, Verdict::Kill(Violation::Velocity));
    assert_eq!(w.stats.peak_velocity, 2000 * MIB);
}

#[test]
fn velocity_exactly_at_threshold_is_allowed() {
    // 1 GB per second allowed; 51.2 MB in 50 ms is exactly that.
    let cfg = config("10GB", "1GB", false);
    let mut w = Watch::new();
    w.observe(&cfg, Sample { at_ns: 0, rss: 0 });
    let step = w.observe(
        &cfg,
        Sample {
            at_ns: 50 * MS,
            rss: 1024 * MIB / 20,
        },
    );
    assert_eq!(step.verdict, Verdict::Continue);
    let step = w.observe(
        &cfg,
        Sample {
            at_ns: 100 * MS,
            rss: 1024 * MIB / 20 * 2 + 1,
        },
    );
    assert_eq!(step.verdict, Verdict::Kill(Violation::Velocity));
}

#[test]
fn ceiling_wins_over_velocity() {
    let cfg = config("100MB", "1MB", false);
    let mut w = Watch::new();
    w.observe(&cfg, sample(0, 1));
    let step = w.observe(&cfg, sample(10, 500));
    assert_eq!(step.verdict, Verdict::Kill(Violation::AbsoluteLimit));
}

#[test]
fn shrinking_or_still_memory_has_no_velocity() {
    let cfg = config("10GB", "1MB", false);
    let mut w = Watch::new();
    w.observe(&cfg, sample(0, 500));
    assert_eq!(w.observe(&cfg, sample(50, 400)).verdict, Verdict::Continue);
    assert_eq!(w.observe(&cfg, sample(50, 900)).verdict, Verdict::Continue);
    assert_eq!(w.stats.peak_velocity, 0);
    assert_eq!(w.stats.peak_rss, 900 * MIB);
}

#[test]
fn report_only_warns_once_and_never_kills() {
    let cfg = config("100MB", "1MB", true);
    let mut w = Watch::new();
    assert_eq!(w.observe(&cfg, sample(0, 10)).verdict, Verdict::Continue);
    assert_eq!(
        w.observe(&cfg, sample(50, 200)).verdict,
        Verdict::Warn(Violation::AbsoluteLimit)
    );
    assert!(w.warned);
    for i in 2..20 {
        let step = w.observe(&cfg, sample(50 * i, 200 + 100 * i));
        assert_eq!(step.verdict, Verdict::Continue);
    }
    assert_eq!(w.stats.peak_rss, (200 + 100 * 19) * MIB);
}

#[test]
fn status_line_every_quarter_second() {
    let cfg = config("10GB", "100GB", false);
    let mut w = Watch::new();
    assert!(!w.observe(&cfg, sample(0, 1)).show_status);
    assert!(!w.observe(&cfg, sample(200, 1)).show_status);
    assert!(w.observe(&cfg, sample(250, 1)).show_status);
    assert_eq!(w.last_status_ns, 250 * MS);
    assert!(!w.observe(&cfg, sample(400, 1)).show_status);
    assert!(w.observe(&cfg, sample(510, 1)).show_status);
}

#[test]
fn peaks_are_the_highest_seen() {
    let cfg = config("10GB", "100GB", false);
    let mut w = Watch::new();
    let samples = [(0, 10), (100, 50), (200, 30), (250, 130), (300, 20)];
    for (ms, mib) in samples {
        w.observe(&cfg, sample(ms, mib));
    }
    assert_eq!(w.stats.peak_rss, 130 * MIB);
    // 100 MB in 50 ms, the fastest step, is 2000 MB per second.
    assert_eq!(w.stats.peak_velocity, 2000 * MIB);
    assert_eq!(w.last_sample, Some(sample(300, 20)));
}
