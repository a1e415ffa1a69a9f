use mknight::cli::RunArgs;
use mknight::config::{Config, DEFAULT_MAX_VELOCITY_BYTES_PER_SEC};

fn args(max_ram: &str, max_velocity: Option<&str>, interval: u64) -> RunArgs {
    RunArgs {
        max_ram: max_ram.to_string(),
        max_velocity: max_velocity.map(|s| s.to_string()),
        interval,
        report_only: false,
        no_rlimit: false,
        program: "./leak".to_string(),
        args: vec!["a".to_string(), "-b".to_string()],
    }
}

#[test]
fn resolves_defaults() {
    let cfg = Config::from_args(args("1GB", None, 50)).unwrap();
    assert_eq!(cfg.max_ram, 1024 * 1024 * 1024);
    assert_eq!(cfg.max_velocity, DEFAULT_MAX_VELOCITY_BYTES_PER_SEC);
    assert_eq!(cfg.max_velocity, 500 * 1024 * 1024 * 10);
    assert_eq!(cfg.interval_ms, 50);
    assert_eq!(cfg.program, "./leak");
    assert_eq!(cfg.args, vec!["a".to_string(), "-b".to_string()]);
    assert!(!cfg.report_only);
    assert!(cfg.rlimit_requested);
}

#[test]
fn resolves_given_values() {
    let mut a = args("500mb", Some("5GB"), 10);
    a.report_only = true;
    a.no_rlimit = true;
    let cfg = Config::from_args(a).unwrap();
    assert_eq!(cfg.max_ram, 500 * 1024 * 1024);
    assert_eq!(cfg.max_velocity, 5 * 1024 * 1024 * 1024);
    assert_eq!(cfg.interval_ms, 10);
    assert!(cfg.report_only);
    assert!(!cfg.rlimit_requested);
}

#[test]
fn rejects_zero_ceiling() {
    let err = Config::from_args(args("0MB", None, 50)).unwrap_err();
    assert_eq!(err, "--max-ram must be greater than zero");
    let err = Config::from_args(args("0.0001", None, 50)).unwrap_err();
    assert_eq!(err, "--max-ram must be greater than zero");
}

#[test]
fn rejects_zero_interval() {
    let err = Config::from_args(args("1GB", None, 0)).unwrap_err();
    assert_eq!(err, "--interval must be at least 1 ms");
}

#[test]
fn reports_size_errors_first() {
    let err = Config::from_args(args("lots", None, 0)).unwrap_err();
    assert_eq!(err, "invalid number in size 'lots'");
    let err = Config::from_args(args("1GB", Some("5XB"), 0)).unwrap_err();
    assert_eq!(err, "unknown size unit 'XB' in '5XB'");
    let err = Config::from_args(args("0", Some("5XB"), 0)).unwrap_err();
    assert_eq!(err, "--max-ram must be greater than zero");
}

#[test]
fn wall_needs_request_and_platform() {
    let cfg = Config::from_args(args("1GB", None, 50)).unwrap();
    assert!(cfg.wall_active(true));
    assert!(!cfg.wall_active(false));
    let mut a = args("1GB", None, 50);
    a.no_rlimit = true;
    let cfg = Config::from_args(a).unwrap();
    assert!(!cfg.wall_active(true));
}
