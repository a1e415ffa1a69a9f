//! Resolved, validated runtime configuration derived from CLI args.

use vstd::prelude::*;

use crate::cli::RunArgs;
use crate::size::{parse_size, parse_size_spec};

verus! {

/// Default explosive-growth threshold: 500 MB per 100 ms window == 5000 MB/s.
pub const DEFAULT_MAX_VELOCITY_BYTES_PER_SEC: u64 = 5242880000;

/// Fully resolved configuration for a single `run` invocation.
#[derive(Debug, Clone)]
pub struct Config {
    pub program: String,
    pub args: Vec<String>,
    /// Absolute RSS ceiling, in bytes.
    pub max_ram: u64,
    /// Explosive-growth threshold, in bytes per second.
    pub max_velocity: u64,
    /// Memory sampling interval, in milliseconds.
    pub interval_ms: u64,
    /// Monitor only; never kill the child.
    pub report_only: bool,
    /// Whether the user asked for the Layer 1 setrlimit wall (default true).
    pub rlimit_requested: bool,
}

/// The limits that the raw arguments resolve to, `(max_ram, max_velocity)`,
/// or the message that rejects them.
pub open spec fn resolved_limits(args: RunArgs) -> Result<(u64, u64), Seq<char>> {
    match parse_size_spec(args.max_ram@) {
        Err(e) => Err(e),
        Ok(max_ram) => if max_ram == 0 {
            Err("--max-ram must be greater than zero"@)
        } else {
            let velocity = match args.max_velocity {
                Some(s) => parse_size_spec(s@),
                None => Ok(DEFAULT_MAX_VELOCITY_BYTES_PER_SEC),
            };
            match velocity {
                Err(e) => Err(e),
                Ok(max_velocity) => if args.interval == 0 {
                    Err("--interval must be at least 1 ms"@)
                } else {
                    Ok((max_ram, max_velocity))
                },
            }
        },
    }
}

impl Config {
    /// What every resolved configuration satisfies: a positive ceiling and a
    /// positive sampling interval.
    pub open spec fn well_formed(&self) -> bool {
        self.max_ram > 0 && self.interval_ms > 0
    }

    /// Validate and resolve raw CLI args into a usable [`Config`].
    pub fn from_args(args: RunArgs) -> (r: Result<Self, String>)
        ensures
            match r {
                Ok(cfg) => {
                    &&& resolved_limits(args) == Ok::<(u64, u64), Seq<char>>(
                        (cfg.max_ram, cfg.max_velocity),
                    )
                    &&& cfg.program == args.program
                    &&& cfg.args == args.args
                    &&& cfg.interval_ms == args.interval
                    &&& cfg.report_only == args.report_only
                    &&& cfg.rlimit_requested == !args.no_rlimit
                    &&& cfg.well_formed()
                },
                Err(e) => resolved_limits(args) == Err::<(u64, u64), Seq<char>>(e@),
            },
    {
        let max_ram = match parse_size(args.max_ram.as_str()) {
            Ok(n) => n,
            Err(e) => return Err(e),
        };
        if max_ram == 0 {
            return Err(String::from_str("--max-ram must be greater than zero"));
        }
        let max_velocity = match &args.max_velocity {
            Some(s) => match parse_size(s.as_str()) {
                Ok(n) => n,
                Err(e) => return Err(e),
            },
            None => DEFAULT_MAX_VELOCITY_BYTES_PER_SEC,
        };
        if args.interval == 0 {
            return Err(String::from_str("--interval must be at least 1 ms"));
        }
        Ok(
            Config {
                program: args.program,
                args: args.args,
                max_ram,
                max_velocity,
                interval_ms: args.interval,
                report_only: args.report_only,
                rlimit_requested: !args.no_rlimit,
            },
        )
    }

    /// Whether Layer 1 (the `setrlimit` wall) will actually be active here:
    /// requested by the user *and* on a platform that enforces it (Linux),
    /// which `os_enforces_rlimit` tells.
    pub fn wall_active(&self, os_enforces_rlimit: bool) -> (b: bool)
        ensures
            b == (self.rlimit_requested && os_enforces_rlimit),
    {
        self.rlimit_requested && os_enforces_rlimit
    }
}

/// Only a zero interval is refused: when `max_ram` parses to a positive
/// size and `max_velocity`, if given, parses, every interval of at least
/// 1 ms is accepted with the parsed ceiling and the parsed (or default,
/// 5242880000 bytes per second) velocity, and an interval of 0 gives
/// `--interval must be at least 1 ms`.
pub proof fn law_interval_only_zero_refused(args: RunArgs)
    requires
        parse_size_spec(args.max_ram@) is Ok,
        parse_size_spec(args.max_ram@)->Ok_0 > 0,
        args.max_velocity matches Some(t) ==> parse_size_spec(t@) is Ok,
    ensures
        args.interval >= 1 ==> resolved_limits(args) == Ok::<(u64, u64), Seq<char>>(
            (
                parse_size_spec(args.max_ram@)->Ok_0,
                match args.max_velocity {
                    Some(t) => parse_size_spec(t@)->Ok_0,
                    None => 5242880000u64,
                },
            ),
        ),
        args.interval == 0 ==> resolved_limits(args) == Err::<(u64, u64), Seq<char>>(
            "--interval must be at least 1 ms"@,
        ),
{
}

/// How the limits are refused: a `max_ram` that does not parse gives the
/// parser's message; one that parses to zero gives `--max-ram must be
/// greater than zero`; with a positive ceiling, a `max_velocity` that does
/// not parse gives the parser's message.
pub proof fn law_limit_errors(args: RunArgs)
    ensures
        parse_size_spec(args.max_ram@) is Err ==> resolved_limits(args) == Err::<(u64, u64), Seq<char>>(
            parse_size_spec(args.max_ram@)->Err_0,
        ),
        parse_size_spec(args.max_ram@) == Ok::<u64, Seq<char>>(0) ==> resolved_limits(args)
            == Err::<(u64, u64), Seq<char>>("--max-ram must be greater than zero"@),
        parse_size_spec(args.max_ram@) is Ok && parse_size_spec(args.max_ram@)->Ok_0 > 0 && (
        args.max_velocity matches Some(t) && parse_size_spec(t@) is Err) ==> resolved_limits(args)
            == Err::<(u64, u64), Seq<char>>(parse_size_spec(args.max_velocity->Some_0@)->Err_0),
{
}

} // verus!
