# mknight

MemoryKnight runs a program as a child process, caps how much memory it can
use, and kills it when its resident memory crosses a ceiling or grows too fast,
then prints a post-mortem.

This crate is the verified core of the watchdog; `app/` is the program around it.
The program is used as `mknight run [OPTIONS] PROGRAM [ARGS]...`: the `run`
subcommand is required.

## Layout

- `src/size.rs` — parsing sizes such as `1.5GB` into bytes, and formatting byte
  counts as `2.41 GB`, both proved against exact specifications of what
  `f64` arithmetic gives: the parser reads the number as the nearest `f64`
  (ties to even), scales it by the unit and rounds halves away from zero;
  the formatter reproduces `b as f64` and two-decimal rounding with ties to
  even.
- `src/float.rs` — the grid of `f64` values, powers of two, and the lemmas
  that tie the parser's integer arithmetic to rounding on that grid.
- `src/size_laws.rs` — what holds of every input: white space and letter case
  do not matter, a whole number below `2^53` followed by a unit is that many
  units, and formatting then parsing gives the size back within the
  precision shown.
- `src/decimal.rs` — decimal digit strings and their values.
- `src/config.rs`, `src/cli.rs` — the command-line values and their resolution
  into a validated configuration.
- `src/monitor.rs` — the watcher: one step per memory sample, deciding between
  continuing, warning (report-only mode) and killing, with laws over whole runs
  (report-only never kills, one warning at most, peaks are the maxima seen).
  Growth velocity is measured exactly, in whole bytes and nanoseconds: the
  threshold test is the integer comparison `bytes * 10^9 > limit * nanos`
  and the peak velocity is the exact rate rounded down, where a
  floating-point quotient could differ from it by its rounding error.
- `src/report.rs` — exit codes and the text of the post-mortem, the kill
  report line by line among it (the run time comes in as text, formatted by
  the program), with the law that taking its colour codes out gives the
  plain report, which holds no escape character.
- `src/term.rs`, `src/text.rs` — colouring and string building.
- `app/` — argument parsing (clap), the `setrlimit` wall (libc), sampling the
  child's memory (sysinfo), the sampling loop, and printing.
