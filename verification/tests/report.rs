use mknight::cli::RunArgs;
use mknight::config::Config;
use mknight::monitor::{ExitInfo, Outcome, Violation};
use mknight::monitor::RunStats;
use mknight::report::{
    crash_headline, error_exit_headline, exit_code, insight_lines, kill_report,
    signal_insight_lines, signal_name, velocity_label, BANNER,
};

const MIB: u64 = 1024 * 1024;

fn config(max_ram: &str) -> Config {
    Config::from_args(RunArgs {
        max_ram: max_ram.to_string(),
        max_velocity: None,
        interval: 50,
        report_only: false,
        no_rlimit: false,
        program: "p".to_string(),
        args: vec![],
    })
    .unwrap()
}

fn exited(code: Option<i32>, signal: Option<i32>) -> Outcome {
    Outcome::Exited(ExitInfo { code, signal })
}

#[test]
fn exit_codes() {
    assert_eq!(exit_code(&Outcome::Killed(Violation::Velocity)), 137);
    assert_eq!(exit_code(&Outcome::Killed(Violation::AbsoluteLimit)), 137);
    assert_eq!(exit_code(&exited(Some(0), None)), 0);
    assert_eq!(exit_code(&exited(Some(3), None)), 3);
    assert_eq!(exit_code(&exited(None, Some(11))), 139);
    assert_eq!(exit_code(&exited(None, Some(9))), 137);
    assert_eq!(exit_code(&exited(None, None)), 1);
}

#[test]
fn velocity_labels() {
    assert_eq!(velocity_label(0), "Moderate");
    assert_eq!(velocity_label(100 * MIB - 1), "Moderate");
    assert_eq!(velocity_label(100 * MIB), "Rapid Growth");
    assert_eq!(velocity_label(1024 * MIB - 1), "Rapid Growth");
    assert_eq!(velocity_label(1024 * MIB), "Severe Leak");
    assert_eq!(velocity_label(u64::MAX), "Severe Leak");
}

#[test]
fn signal_names() {
    assert_eq!(signal_name(2), "SIGINT");
    assert_eq!(signal_name(4), "SIGILL");
    assert_eq!(signal_name(6), "SIGABRT");
    assert_eq!(signal_name(8), "SIGFPE");
    assert_eq!(signal_name(9), "SIGKILL");
    assert_eq!(signal_name(11), "SIGSEGV");
    assert_eq!(signal_name(15), "SIGTERM");
    assert_eq!(signal_name(7), "signal");
}

#[test]
fn insight_after_kill() {
    let cfg = config("200MB");
    assert_eq!(
        insight_lines(Violation::AbsoluteLimit, &cfg),
        vec![
            "Your program crossed the 200.00 MB memory ceiling and kept climbing.".to_string(),
            "Look for allocations (malloc/calloc/new) inside loops that never".to_string(),
            "free() what they take, or a structure that grows without bound.".to_string(),
        ]
    );
    assert_eq!(insight_lines(Violation::Velocity, &cfg).len(), 4);
    assert_eq!(
        insight_lines(Violation::Velocity, &cfg)[0],
        "Your program allocated memory explosively - a near-vertical curve."
    );
}

#[test]
fn headlines() {
    assert_eq!(
        error_exit_headline(3),
        "[!] mknight - program exited with error code 3."
    );
    assert_eq!(
        error_exit_headline(-2),
        "[!] mknight - program exited with error code -2."
    );
    assert_eq!(
        crash_headline(Some(11)),
        "[X] mknight - program crashed (signal 11 - SIGSEGV)."
    );
    assert_eq!(
        crash_headline(Some(10)),
        "[X] mknight - program crashed (signal 10 - signal)."
    );
    assert_eq!(
        crash_headline(None),
        "[X] mknight - program crashed (signal ? - unknown)."
    );
}

#[test]
fn segfault_insight() {
    assert!(signal_insight_lines(Some(6), true, 1024).is_empty());
    assert!(signal_insight_lines(None, true, 1024).is_empty());
    assert_eq!(signal_insight_lines(Some(11), false, 1024).len(), 2);
    let lines = signal_insight_lines(Some(11), true, 1024 * 1024 * 1024);
    assert_eq!(lines.len(), 5);
    assert_eq!(
        lines[3],
        "NULL once the 1.00 GB cap is hit - dereferencing that NULL without"
    );
}

/// The text with its ANSI SGR sequences taken out.
fn strip_colour(s: &str) -> String {
    let mut out = String::new();
    let mut in_code = false;
    let chars: Vec<char> = s.chars().collect();
    let mut i = 0;
    while i < chars.len() {
        let c = chars[i];
        if in_code {
            if c == 'm' {
                in_code = false;
            }
        } else if c == '\x1b' && i + 1 < chars.len() && chars[i + 1] == '[' {
            in_code = true;
            i += 1;
        } else {
            out.push(c);
        }
        i += 1;
    }
    out
}

fn stats() -> RunStats {
    RunStats { peak_rss: 1536 * MIB, peak_velocity: 2048 * MIB, duration_ns: 2_345_000_000 }
}

#[test]
fn kill_report_plain() {
    let cfg = config("1GB");
    let lines = kill_report(&cfg, &stats(), Violation::AbsoluteLimit, "2.35", false);
    assert_eq!(lines.len(), 18);
    assert_eq!(lines[0], "");
    assert_eq!(lines[1], BANNER);
    assert_eq!(lines[3], "[!] PROCESS TERMINATED TO SAVE YOUR SYSTEM");
    assert_eq!(lines[5], "The program `p` was aborted because it violated");
    assert_eq!(lines[6], "the safety policy: [Absolute Memory Limit Exceeded].");
    assert_eq!(lines[8], "[*] Post-Mortem Analytics");
    assert_eq!(lines[9], "    - Total Execution Time : 2.35 seconds");
    assert_eq!(lines[10], "    - Peak RAM Consumed    : 1.50 GB (limit 1.00 GB)");
    assert_eq!(lines[11], "    - Allocation Velocity  : ~2.00 GB/sec (Severe Leak)");
    assert_eq!(lines[13], "[i] System Guard Insight");
    assert_eq!(
        lines[14],
        "    Your program crossed the 1.00 GB memory ceiling and kept climbing."
    );
    assert_eq!(lines[17], "=".repeat(70));
}

#[test]
fn kill_report_coloured() {
    let cfg = config("512MB");
    let lines = kill_report(&cfg, &stats(), Violation::Velocity, "0.10", true);
    assert_eq!(lines.len(), 19);
    assert_eq!(lines[3], "\x1b[1;31m[!] PROCESS TERMINATED TO SAVE YOUR SYSTEM\x1b[0m");
    assert_eq!(
        lines[6],
        "the safety policy: \x1b[33m[Explosive Growth Velocity Detected]\x1b[0m."
    );
    assert_eq!(lines[18], format!("\x1b[1;31m{}\x1b[0m", "=".repeat(70)));
}

#[test]
fn uncoloured_report_is_the_plain_report() {
    let cfg = config("2GB");
    for v in [Violation::AbsoluteLimit, Violation::Velocity] {
        let coloured = kill_report(&cfg, &stats(), v, "12.00", true);
        let plain = kill_report(&cfg, &stats(), v, "12.00", false);
        assert_eq!(coloured.len(), plain.len());
        for (c, p) in coloured.iter().zip(plain.iter()) {
            assert_eq!(&strip_colour(c), p);
            assert!(!p.contains('\x1b'));
        }
    }
}
