//! The text and the exit code of the post-mortem report.

use vstd::prelude::*;
use vstd::string::StringExecFns;

use crate::config::Config;
use crate::decimal::{
    decimal_digits, digit_char, digits_value, is_digit, lemma_decimal_digits, push_decimal,
};
use crate::monitor::{violation_reason, ExitInfo, Outcome, RunStats, Violation};
use crate::size::{
    div_round_even, f64_of, format_size, format_size_spec, two_decimals, GIB, KIB, MIB,
};
use crate::term::{
    has_no_escape, lemma_no_escape_concat, lemma_strip_painted, lemma_strip_plain,
    lemma_strip_plain_prefix, paint, painted, strip_sgr,
};
use crate::text::push_char;

verus! {

/// The exit code that `mknight` ends with: `137` (128 + SIGKILL) when it
/// killed the child, otherwise the child's own code, or `128 + signal` when a
/// signal ended it (`1` when neither is known).
pub open spec fn exit_code_spec(o: Outcome) -> int {
    match o {
        Outcome::Killed(_) => 137,
        Outcome::Exited(info) => match info.code {
            Some(c) => c as int,
            None => match info.signal {
                Some(s) => 128 + s,
                None => 1,
            },
        },
    }
}

/// Whether `128 + signal` fits in an `i32` for this outcome.
pub open spec fn exit_code_fits(o: Outcome) -> bool {
    match o {
        Outcome::Exited(ExitInfo { code: None, signal: Some(s) }) => s <= i32::MAX - 128,
        _ => true,
    }
}

/// The exit code of `mknight` for an outcome.
pub fn exit_code(o: &Outcome) -> (c: i32)
    requires
        exit_code_fits(*o),
    ensures
        c == exit_code_spec(*o),
{
    match o {
        Outcome::Killed(_) => 137,
        Outcome::Exited(info) => match info.code {
            Some(c) => c,
            None => match info.signal {
                Some(s) => 128 + s,
                None => 1,
            },
        },
    }
}

/// How severe a growth rate is, in bytes per second.
pub open spec fn velocity_label_spec(bytes_per_sec: u64) -> Seq<char> {
    if bytes_per_sec >= GIB {
        "Severe Leak"@
    } else if bytes_per_sec >= 100 * MIB {
        "Rapid Growth"@
    } else {
        "Moderate"@
    }
}

/// A label for a growth rate given in bytes per second.
pub fn velocity_label(bytes_per_sec: u64) -> (r: &'static str)
    ensures
        r@ == velocity_label_spec(bytes_per_sec),
{
    if bytes_per_sec >= GIB {
        "Severe Leak"
    } else if bytes_per_sec >= 100 * MIB {
        "Rapid Growth"
    } else {
        "Moderate"
    }
}

/// The name of a signal number.
pub open spec fn signal_name_spec(sig: i32) -> Seq<char> {
    if sig == 2 {
        "SIGINT"@
    } else if sig == 4 {
        "SIGILL"@
    } else if sig == 6 {
        "SIGABRT"@
    } else if sig == 8 {
        "SIGFPE"@
    } else if sig == 9 {
        "SIGKILL"@
    } else if sig == 11 {
        "SIGSEGV"@
    } else if sig == 15 {
        "SIGTERM"@
    } else {
        "signal"@
    }
}

/// The conventional name of a signal, or `"signal"` for others.
pub fn signal_name(sig: i32) -> (r: &'static str)
    ensures
        r@ == signal_name_spec(sig),
{
    match sig {
        2 => "SIGINT",
        4 => "SIGILL",
        6 => "SIGABRT",
        8 => "SIGFPE",
        9 => "SIGKILL",
        11 => "SIGSEGV",
        15 => "SIGTERM",
        _ => "signal",
    }
}

/// The views of a list of strings.
pub open spec fn lines_view(v: Vec<String>) -> Seq<Seq<char>> {
    v@.map_values(|s: String| s@)
}

/// The insight shown after a kill.
pub open spec fn insight_text(v: Violation, max_ram: u64) -> Seq<Seq<char>> {
    match v {
        Violation::AbsoluteLimit => seq![
            "Your program crossed the "@ + format_size_spec(max_ram)
                + " memory ceiling and kept climbing."@,
            "Look for allocations (malloc/calloc/new) inside loops that never"@,
            "free() what they take, or a structure that grows without bound."@,
        ],
        Violation::Velocity => seq![
            "Your program allocated memory explosively - a near-vertical curve."@,
            "This almost always means a loop calling malloc() or calloc() with"@,
            "no matching free() and no exit condition. Check the bounds of your"@,
            "while/for loops and make every allocation be released."@,
        ],
    }
}

/// The lines of advice that follow a kill for `v`.
pub fn insight_lines(v: Violation, cfg: &Config) -> (r: Vec<String>)
    ensures
        lines_view(r) == insight_text(v, cfg.max_ram),
{
    let mut r: Vec<String> = Vec::new();
    match v {
        Violation::AbsoluteLimit => {
            let mut first = String::from_str("Your program crossed the ");
            let size = format_size(cfg.max_ram);
            first.append(size.as_str());
            first.append(" memory ceiling and kept climbing.");
            r.push(first);
            r.push(String::from_str("Look for allocations (malloc/calloc/new) inside loops that never"));
            r.push(String::from_str("free() what they take, or a structure that grows without bound."));
        },
        Violation::Velocity => {
            r.push(String::from_str("Your program allocated memory explosively - a near-vertical curve."));
            r.push(String::from_str("This almost always means a loop calling malloc() or calloc() with"));
            r.push(String::from_str("no matching free() and no exit condition. Check the bounds of your"));
            r.push(String::from_str("while/for loops and make every allocation be released."));
        },
    }
    assert(lines_view(r) =~= insight_text(v, cfg.max_ram));
    r
}

/// The banner at the head of the kill report.
pub const BANNER: &'static str = r"  __  __ _          _       _     _     _____                       _
 |  \/  | |        (_)     | |   | |   |  __ \                     | |
 | \  / | | ___ __  _  __ _| |__ | |_  | |__) |___ _ __   ___  _ __| |_
 | |\/| | |/ / '_ \| |/ _` | '_ \| __| |  _  // _ \ '_ \ / _ \| '__| __|
 | |  | |   <| | | | | (_| | | | | |_  | | \ \  __/ |_) | (_) | |  | |_
 |_|  |_|_|\_\_| |_|_|\__, |_| |_|\__| |_|  \_\___| .__/ \___/|_|   \__|
                       __/ |                      | |
                      |___/                       |_|";

/// The rule of seventy `=` that closes the kill report.
pub const RULE: &'static str = "======================================================================";

/// Each line indented by four spaces.
pub open spec fn indented(lines: Seq<Seq<char>>) -> Seq<Seq<char>> {
    lines.map_values(|l: Seq<char>| "    "@ + l)
}

/// The lines of the report printed when `program` was killed for `v`:
/// banner, headline, the policy broken, the run's measurements (the run
/// time is given as the text `seconds`), and the advice for `v`; coloured
/// when `on`.
pub open spec fn kill_report_text(
    program: Seq<char>,
    stats: RunStats,
    max_ram: u64,
    v: Violation,
    seconds: Seq<char>,
    on: bool,
) -> Seq<Seq<char>> {
    seq![
        Seq::<char>::empty(),
        painted(on, "1;31"@, BANNER@),
        Seq::<char>::empty(),
        painted(on, "1;31"@, "[!] PROCESS TERMINATED TO SAVE YOUR SYSTEM"@),
        Seq::<char>::empty(),
        "The program `"@ + program + "` was aborted because it violated"@,
        "the safety policy: "@ + painted(on, "33"@, "["@ + violation_reason(v) + "]"@) + "."@,
        Seq::<char>::empty(),
        painted(on, "1"@, "[*] Post-Mortem Analytics"@),
        "    - Total Execution Time : "@ + seconds + " seconds"@,
        "    - Peak RAM Consumed    : "@ + format_size_spec(stats.peak_rss) + " (limit "@
            + format_size_spec(max_ram) + ")"@,
        "    - Allocation Velocity  : ~"@ + format_size_spec(stats.peak_velocity) + "/sec ("@
            + velocity_label_spec(stats.peak_velocity) + ")"@,
        Seq::<char>::empty(),
        painted(on, "1"@, "[i] System Guard Insight"@),
    ] + indented(insight_text(v, max_ram)) + seq![painted(on, "1;31"@, RULE@)]
}

/// The lines of the report printed when the child was killed for `v`.
/// `seconds` is the run time as it is to be shown.
pub fn kill_report(cfg: &Config, stats: &RunStats, v: Violation, seconds: &str, on: bool) -> (r:
    Vec<String>)
    ensures
        lines_view(r) == kill_report_text(cfg.program@, *stats, cfg.max_ram, v, seconds@, on),
{
    let mut r: Vec<String> = Vec::new();
    r.push(String::from_str(""));
    r.push(paint(on, "1;31", BANNER));
    r.push(String::from_str(""));
    r.push(paint(on, "1;31", "[!] PROCESS TERMINATED TO SAVE YOUR SYSTEM"));
    r.push(String::from_str(""));
    let mut l = String::from_str("The program `");
    l.append(cfg.program.as_str());
    l.append("` was aborted because it violated");
    r.push(l);
    let mut reason = String::from_str("[");
    reason.append(v.reason());
    reason.append("]");
    let coloured = paint(on, "33", reason.as_str());
    let mut l = String::from_str("the safety policy: ");
    l.append(coloured.as_str());
    l.append(".");
    r.push(l);
    r.push(String::from_str(""));
    r.push(paint(on, "1", "[*] Post-Mortem Analytics"));
    let mut l = String::from_str("    - Total Execution Time : ");
    l.append(seconds);
    l.append(" seconds");
    r.push(l);
    let peak = format_size(stats.peak_rss);
    let limit = format_size(cfg.max_ram);
    let mut l = String::from_str("    - Peak RAM Consumed    : ");
    l.append(peak.as_str());
    l.append(" (limit ");
    l.append(limit.as_str());
    l.append(")");
    r.push(l);
    let speed = format_size(stats.peak_velocity);
    let mut l = String::from_str("    - Allocation Velocity  : ~");
    l.append(speed.as_str());
    l.append("/sec (");
    l.append(velocity_label(stats.peak_velocity));
    l.append(")");
    r.push(l);
    r.push(String::from_str(""));
    r.push(paint(on, "1", "[i] System Guard Insight"));
    let ghost head = lines_view(r);
    let ghost text = kill_report_text(cfg.program@, *stats, cfg.max_ram, v, seconds@, on);
    proof {
        reveal_strlit("");
        assert(""@ =~= Seq::<char>::empty());
        assert(head.len() == 14);
        assert(head[0] == text[0]);
        assert(head[1] == text[1]);
        assert(head[2] == text[2]);
        assert(head[3] == text[3]);
        assert(head[4] == text[4]);
        assert(head[5] == text[5]);
        assert(head[6] == text[6]);
        assert(head[7] == text[7]);
        assert(head[8] == text[8]);
        assert(head[9] == text[9]);
        assert(head[10] == text[10]);
        assert(head[11] == text[11]);
        assert(head[12] == text[12]);
        assert(head[13] == text[13]);
        assert(head =~= text.take(14));
    }
    let advice = insight_lines(v, cfg);
    let mut i: usize = 0;
    while i < advice.len()
        invariant
            i <= advice.len(),
            lines_view(advice) == insight_text(v, cfg.max_ram),
            lines_view(r) == head + indented(lines_view(advice).take(i as int)),
        decreases advice.len() - i,
    {
        let mut l = String::from_str("    ");
        l.append(advice[i].as_str());
        let ghost before = lines_view(r);
        let ghost line = l@;
        r.push(l);
        proof {
            assert(lines_view(r) =~= before.push(line));
            assert(lines_view(advice)[i as int] == advice@[i as int]@);
            assert(indented(lines_view(advice).take(i + 1)) =~= indented(
                lines_view(advice).take(i as int),
            ).push("    "@ + advice@[i as int]@));
            assert(lines_view(r) =~= head + indented(lines_view(advice).take(i + 1)));
        }
        i = i + 1;
    }
    let closing = paint(on, "1;31", RULE);
    let ghost body = lines_view(r);
    let ghost last = closing@;
    r.push(closing);
    proof {
        assert(lines_view(r) =~= body.push(last));
        assert(lines_view(advice).take(advice.len() as int) =~= lines_view(advice));
        assert(text =~= text.take(14) + indented(insight_text(v, cfg.max_ram)) + seq![last]);
        assert(lines_view(r) =~= text);
    }
    r
}

/// A digit written by [`digit_char`] is no escape.
proof fn lemma_digit_char_plain(d: nat)
    requires
        d < 10,
    ensures
        digit_char(d) != '\x1b',
{
    assert(digit_char(d) as int == d + ('0' as int));
}

/// The text of a size holds no escape.
pub proof fn lemma_format_size_plain(b: u64)
    ensures
        has_no_escape(format_size_spec(b)),
{
    reveal_strlit(" GB");
    reveal_strlit(" MB");
    reveal_strlit(" KB");
    reveal_strlit(" B");
    if b >= KIB {
        let unit: nat = if b >= GIB {
            GIB as nat
        } else if b >= MIB {
            MIB as nat
        } else {
            KIB as nat
        };
        let h = div_round_even(f64_of(b as nat) * 100, unit);
        lemma_decimal_digits(h / 100);
        lemma_digit_char_plain((h % 100) / 10);
        lemma_digit_char_plain(h % 10);
        let d = decimal_digits(h / 100);
        assert(has_no_escape(d)) by {
            assert forall|i: int| 0 <= i < d.len() implies d[i] != '\x1b' by {
                assert(is_digit(d[i]));
            }
        }
        let tail = seq!['.', digit_char((h % 100) / 10), digit_char(h % 10)];
        assert(has_no_escape(tail));
        lemma_no_escape_concat(d, tail);
        assert(two_decimals(h) == d + tail);
        if b >= GIB {
            lemma_no_escape_concat(two_decimals(h), " GB"@);
        } else if b >= MIB {
            lemma_no_escape_concat(two_decimals(h), " MB"@);
        } else {
            lemma_no_escape_concat(two_decimals(h), " KB"@);
        }
    } else {
        let d = decimal_digits(b as nat);
        lemma_decimal_digits(b as nat);
        assert(has_no_escape(d)) by {
            assert forall|i: int| 0 <= i < d.len() implies d[i] != '\x1b' by {
                assert(is_digit(d[i]));
            }
        }
        lemma_no_escape_concat(d, " B"@);
    }
}

/// The fixed texts of the kill report hold no escape, and its colour codes
/// no `m`.
proof fn lemma_report_texts_plain(v: Violation, stats: RunStats, max_ram: u64)
    ensures
        has_no_escape(BANNER@),
        has_no_escape(RULE@),
        has_no_escape("[!] PROCESS TERMINATED TO SAVE YOUR SYSTEM"@),
        has_no_escape("[*] Post-Mortem Analytics"@),
        has_no_escape("[i] System Guard Insight"@),
        has_no_escape("["@ + violation_reason(v) + "]"@),
        forall|i: int| 0 <= i < "1;31"@.len() ==> "1;31"@[i] != 'm',
        forall|i: int| 0 <= i < "33"@.len() ==> "33"@[i] != 'm',
        forall|i: int| 0 <= i < "1"@.len() ==> "1"@[i] != 'm',
        forall|i: int|
            0 <= i < insight_text(v, max_ram).len() ==> has_no_escape(
                #[trigger] indented(insight_text(v, max_ram))[i],
            ),
{
    reveal_strlit(r"  __  __ _          _       _     _     _____                       _
 |  \/  | |        (_)     | |   | |   |  __ \                     | |
 | \  / | | ___ __  _  __ _| |__ | |_  | |__) |___ _ __   ___  _ __| |_
 | |\/| | |/ / '_ \| |/ _` | '_ \| __| |  _  // _ \ '_ \ / _ \| '__| __|
 | |  | |   <| | | | | (_| | | | | |_  | | \ \  __/ |_) | (_) | |  | |_
 |_|  |_|_|\_\_| |_|_|\__, |_| |_|\__| |_|  \_\___| .__/ \___/|_|   \__|
                       __/ |                      | |
                      |___/                       |_|");
    reveal_strlit("======================================================================");
    reveal_strlit("[!] PROCESS TERMINATED TO SAVE YOUR SYSTEM");
    reveal_strlit("[*] Post-Mortem Analytics");
    reveal_strlit("[i] System Guard Insight");
    reveal_strlit("[");
    reveal_strlit("]");
    reveal_strlit("1;31");
    reveal_strlit("33");
    reveal_strlit("1");
    reveal_strlit("Absolute Memory Limit Exceeded");
    reveal_strlit("Explosive Growth Velocity Detected");
    reveal_strlit("    ");
    reveal_strlit(" memory ceiling and kept climbing.");
    reveal_strlit("Your program crossed the ");
    reveal_strlit("Look for allocations (malloc/calloc/new) inside loops that never");
    reveal_strlit("free() what they take, or a structure that grows without bound.");
    reveal_strlit("Your program allocated memory explosively - a near-vertical curve.");
    reveal_strlit("This almost always means a loop calling malloc() or calloc() with");
    reveal_strlit("no matching free() and no exit condition. Check the bounds of your");
    reveal_strlit("while/for loops and make every allocation be released.");
    assert(has_no_escape(violation_reason(v)));
    lemma_no_escape_concat("["@, violation_reason(v));
    lemma_no_escape_concat("["@ + violation_reason(v), "]"@);
    lemma_format_size_plain(max_ram);
    let lines = insight_text(v, max_ram);
    assert forall|i: int| 0 <= i < lines.len() implies has_no_escape(
        #[trigger] indented(lines)[i],
    ) by {
        match v {
            Violation::AbsoluteLimit => {
                lemma_no_escape_concat("Your program crossed the "@, format_size_spec(max_ram));
                lemma_no_escape_concat(
                    "Your program crossed the "@ + format_size_spec(max_ram),
                    " memory ceiling and kept climbing."@,
                );
            },
            Violation::Velocity => {},
        }
        assert(has_no_escape(lines[i]));
        lemma_no_escape_concat("    "@, lines[i]);
    }
}

/// Taking the colour codes out of the coloured kill report gives the plain
/// report, line for line, and the plain report holds no escape at all, when
/// the program's name and the run-time text hold none.
pub proof fn law_plain_report_is_uncoloured(
    program: Seq<char>,
    stats: RunStats,
    max_ram: u64,
    v: Violation,
    seconds: Seq<char>,
)
    requires
        has_no_escape(program),
        has_no_escape(seconds),
    ensures
        ({
            let coloured = kill_report_text(program, stats, max_ram, v, seconds, true);
            let plain = kill_report_text(program, stats, max_ram, v, seconds, false);
            &&& coloured.len() == plain.len()
            &&& forall|i: int|
                0 <= i < plain.len() ==> strip_sgr(#[trigger] coloured[i]) == plain[i]
                    && has_no_escape(plain[i])
        }),
{
    let coloured = kill_report_text(program, stats, max_ram, v, seconds, true);
    let plain = kill_report_text(program, stats, max_ram, v, seconds, false);
    let e = Seq::<char>::empty();
    lemma_report_texts_plain(v, stats, max_ram);
    lemma_format_size_plain(stats.peak_rss);
    lemma_format_size_plain(max_ram);
    lemma_format_size_plain(stats.peak_velocity);
    reveal_strlit("The program `");
    reveal_strlit("` was aborted because it violated");
    reveal_strlit("the safety policy: ");
    reveal_strlit(".");
    reveal_strlit("    - Total Execution Time : ");
    reveal_strlit(" seconds");
    reveal_strlit("    - Peak RAM Consumed    : ");
    reveal_strlit(" (limit ");
    reveal_strlit(")");
    reveal_strlit("    - Allocation Velocity  : ~");
    reveal_strlit("/sec (");
    reveal_strlit("Severe Leak");
    reveal_strlit("Rapid Growth");
    reveal_strlit("Moderate");
    assert(strip_sgr(e) == e);
    assert(has_no_escape(e));
    // coloured headings and rule
    assert(forall|code: Seq<char>, text: Seq<char>|
        (forall|i: int| 0 <= i < code.len() ==> code[i] != 'm') && has_no_escape(text)
            ==> strip_sgr(#[trigger] painted(true, code, text)) == text) by {
        assert forall|code: Seq<char>, text: Seq<char>|
            (forall|i: int| 0 <= i < code.len() ==> code[i] != 'm') && has_no_escape(
                text,
            ) implies strip_sgr(#[trigger] painted(true, code, text)) == text by {
            lemma_strip_painted(code, text, e);
            assert(painted(true, code, text) + e =~= painted(true, code, text));
            assert(text + strip_sgr(e) =~= text);
        }
    }
    // the plain lines
    let l5 = "The program `"@ + program + "` was aborted because it violated"@;
    lemma_no_escape_concat("The program `"@, program);
    lemma_no_escape_concat("The program `"@ + program, "` was aborted because it violated"@);
    lemma_strip_plain(l5);
    let l9 = "    - Total Execution Time : "@ + seconds + " seconds"@;
    lemma_no_escape_concat("    - Total Execution Time : "@, seconds);
    lemma_no_escape_concat("    - Total Execution Time : "@ + seconds, " seconds"@);
    lemma_strip_plain(l9);
    let a10 = "    - Peak RAM Consumed    : "@ + format_size_spec(stats.peak_rss);
    lemma_no_escape_concat("    - Peak RAM Consumed    : "@, format_size_spec(stats.peak_rss));
    lemma_no_escape_concat(a10, " (limit "@);
    lemma_no_escape_concat(a10 + " (limit "@, format_size_spec(max_ram));
    lemma_no_escape_concat(a10 + " (limit "@ + format_size_spec(max_ram), ")"@);
    lemma_strip_plain(a10 + " (limit "@ + format_size_spec(max_ram) + ")"@);
    let a11 = "    - Allocation Velocity  : ~"@ + format_size_spec(stats.peak_velocity);
    let label = velocity_label_spec(stats.peak_velocity);
    assert(has_no_escape(label));
    lemma_no_escape_concat("    - Allocation Velocity  : ~"@, format_size_spec(stats.peak_velocity));
    lemma_no_escape_concat(a11, "/sec ("@);
    lemma_no_escape_concat(a11 + "/sec ("@, label);
    lemma_no_escape_concat(a11 + "/sec ("@ + label, ")"@);
    lemma_strip_plain(a11 + "/sec ("@ + label + ")"@);
    // the policy line, whose middle is coloured
    let pre = "the safety policy: "@;
    let mid = "["@ + violation_reason(v) + "]"@;
    lemma_strip_painted("33"@, mid, "."@);
    lemma_strip_plain("."@);
    lemma_strip_plain_prefix(pre, painted(true, "33"@, mid) + "."@);
    assert(pre + painted(true, "33"@, mid) + "."@ =~= pre + (painted(true, "33"@, mid) + "."@));
    assert(pre + (mid + "."@) =~= pre + mid + "."@);
    lemma_no_escape_concat(pre, mid);
    lemma_no_escape_concat(pre + mid, "."@);
    // the advice
    let n = insight_text(v, max_ram).len();
    assert forall|i: int| 0 <= i < n implies strip_sgr(
        #[trigger] indented(insight_text(v, max_ram))[i],
    ) == indented(insight_text(v, max_ram))[i] by {
        lemma_strip_plain(indented(insight_text(v, max_ram))[i]);
    }
    assert forall|i: int| 0 <= i < plain.len() implies strip_sgr(#[trigger] coloured[i])
        == plain[i] && has_no_escape(plain[i]) by {
        if i >= 14 && i < 14 + n {
            assert(coloured[i] == indented(insight_text(v, max_ram))[i - 14]);
            assert(plain[i] == indented(insight_text(v, max_ram))[i - 14]);
        }
    }
}

/// The decimal text of an integer, with a minus sign when negative.
pub open spec fn int_text(x: int) -> Seq<char> {
    if x < 0 {
        seq!['-'] + decimal_digits((-x) as nat)
    } else {
        decimal_digits(x as nat)
    }
}

fn push_int(s: &mut String, x: i32)
    ensures
        final(s)@ == old(s)@ + int_text(x as int),
{
    if x < 0 {
        push_char(s, '-');
        push_decimal(s, (-(x as i64)) as u128);
        assert(s@ =~= old(s)@ + int_text(x as int));
    } else {
        push_decimal(s, x as u128);
    }
}

/// The headline for a child that exited with a non-zero code.
pub fn error_exit_headline(code: i32) -> (r: String)
    ensures
        r@ == "[!] mknight - program exited with error code "@ + int_text(code as int) + "."@,
{
    let mut r = String::from_str("[!] mknight - program exited with error code ");
    push_int(&mut r, code);
    r.append(".");
    r
}

/// The headline for a child that a signal ended (`sig` is `None` when the
/// signal is not known).
pub open spec fn crash_headline_spec(sig: Option<i32>) -> Seq<char> {
    let num = match sig {
        Some(s) => int_text(s as int),
        None => "?"@,
    };
    let name = match sig {
        Some(s) => signal_name_spec(s),
        None => "unknown"@,
    };
    "[X] mknight - program crashed (signal "@ + num + " - "@ + name + ")."@
}

/// The headline for a child that a signal ended.
pub fn crash_headline(sig: Option<i32>) -> (r: String)
    ensures
        r@ == crash_headline_spec(sig),
{
    let mut r = String::from_str("[X] mknight - program crashed (signal ");
    match sig {
        Some(s) => {
            push_int(&mut r, s);
            r.append(" - ");
            r.append(signal_name(s));
        },
        None => {
            r.append("?");
            r.append(" - ");
            r.append("unknown");
        },
    }
    r.append(").");
    r
}

/// The advice shown when a signal ended the child: none unless it was a
/// segmentation fault (signal 11), with more when the memory wall was active.
pub open spec fn signal_insight_text(sig: Option<i32>, wall_active: bool, max_ram: u64) -> Seq<
    Seq<char>,
> {
    if sig == Some(11i32) {
        let base = seq![
            "A segmentation fault usually means your program read or wrote"@,
            "memory it doesn't own."@,
        ];
        if wall_active {
            base + seq![
                "Because the memory wall is active, malloc/calloc start returning"@,
                "NULL once the "@ + format_size_spec(max_ram)
                    + " cap is hit - dereferencing that NULL without"@,
                "checking it causes exactly this crash. Always check malloc's result."@,
            ]
        } else {
            base
        }
    } else {
        Seq::empty()
    }
}

/// The lines of advice that follow a crash by signal `sig`.
pub fn signal_insight_lines(sig: Option<i32>, wall_active: bool, max_ram: u64) -> (r: Vec<String>)
    ensures
        lines_view(r) == signal_insight_text(sig, wall_active, max_ram),
{
    let mut r: Vec<String> = Vec::new();
    if sig == Some(11i32) {
        r.push(String::from_str("A segmentation fault usually means your program read or wrote"));
        r.push(String::from_str("memory it doesn't own."));
        if wall_active {
            r.push(
                String::from_str("Because the memory wall is active, malloc/calloc start returning"),
            );
            let mut line = String::from_str("NULL once the ");
            let size = format_size(max_ram);
            line.append(size.as_str());
            line.append(" cap is hit - dereferencing that NULL without");
            r.push(line);
            r.push(
                String::from_str(
                    "checking it causes exactly this crash. Always check malloc's result.",
                ),
            );
        }
    }
    assert(lines_view(r) =~= signal_insight_text(sig, wall_active, max_ram));
    r
}

/// A kill by `mknight` ends with the code of a child killed by SIGKILL
/// (signal 9): `128 + 9`.
pub proof fn law_kill_code_is_sigkill(v: Violation)
    ensures
        exit_code_spec(Outcome::Killed(v)) == exit_code_spec(
            Outcome::Exited(ExitInfo { code: None, signal: Some(9) }),
        ),
        exit_code_spec(Outcome::Killed(v)) == 128 + 9,
{
}

/// `mknight` ends with the child's own exit code when the child exited by
/// itself, whatever that code; with `128 + signal` when a signal ended it;
/// with `1` when neither is known; and with `137` when it killed the child.
pub proof fn law_exit_code_of_child(c: i32, signal: Option<i32>, s: i32, v: Violation)
    ensures
        exit_code_spec(Outcome::Exited(ExitInfo { code: Some(c), signal })) == c,
        exit_code_spec(Outcome::Exited(ExitInfo { code: None, signal: Some(s) })) == 128 + s,
        exit_code_spec(Outcome::Exited(ExitInfo { code: None, signal: None })) == 1,
        exit_code_spec(Outcome::Killed(v)) == 137,
{
}

/// The label of a growth rate: `Severe Leak` from 1 GiB per second,
/// `Rapid Growth` from 100 MiB per second, `Moderate` below.
pub proof fn law_velocity_label_thresholds(b: u64)
    ensures
        b >= 1073741824 ==> velocity_label_spec(b) == "Severe Leak"@,
        104857600 <= b < 1073741824 ==> velocity_label_spec(b) == "Rapid Growth"@,
        b < 104857600 ==> velocity_label_spec(b) == "Moderate"@,
{
}

/// The analytics lines of the kill report: the run time as given, the peak
/// RSS with the ceiling, and the peak velocity with the label of that
/// velocity (`Severe Leak` from 1 GiB/s, `Rapid Growth` from 100 MiB/s,
/// `Moderate` below), whatever the peak RSS; and the policy line names the
/// violation.
pub proof fn law_kill_report_analytics(
    program: Seq<char>,
    stats: RunStats,
    max_ram: u64,
    v: Violation,
    seconds: Seq<char>,
    on: bool,
)
    ensures
        ({
            let text = kill_report_text(program, stats, max_ram, v, seconds, on);
            let label = if stats.peak_velocity >= 1073741824 {
                "Severe Leak"@
            } else if stats.peak_velocity >= 104857600 {
                "Rapid Growth"@
            } else {
                "Moderate"@
            };
            let reason = match v {
                Violation::AbsoluteLimit => "Absolute Memory Limit Exceeded"@,
                Violation::Velocity => "Explosive Growth Velocity Detected"@,
            };
            &&& text.len() > 11
            &&& text[5] == "The program `"@ + program + "` was aborted because it violated"@
            &&& text[6] == "the safety policy: "@ + painted(on, "33"@, "["@ + reason + "]"@) + "."@
            &&& text[9] == "    - Total Execution Time : "@ + seconds + " seconds"@
            &&& text[10] == "    - Peak RAM Consumed    : "@ + format_size_spec(stats.peak_rss)
                + " (limit "@ + format_size_spec(max_ram) + ")"@
            &&& text[11] == "    - Allocation Velocity  : ~"@ + format_size_spec(
                stats.peak_velocity,
            ) + "/sec ("@ + label + ")"@
        }),
{
}

/// After a segmentation fault with the memory wall active, the advice names
/// the configured ceiling: its fourth line is `NULL once the <max_ram> cap
/// is hit - ...`; without the wall only the first two lines are given, and
/// other signals get no advice.
pub proof fn law_segfault_insight_names_ceiling(max_ram: u64, sig: i32)
    ensures
        signal_insight_text(Some(11), true, max_ram).len() == 5,
        signal_insight_text(Some(11), true, max_ram)[3] == "NULL once the "@ + format_size_spec(
            max_ram,
        ) + " cap is hit - dereferencing that NULL without"@,
        signal_insight_text(Some(11), false, max_ram).len() == 2,
        sig != 11 ==> signal_insight_text(Some(sig), true, max_ram).len() == 0,
        signal_insight_text(None, true, max_ram).len() == 0,
{
}

/// After a kill for the ceiling, the advice names the configured ceiling in
/// its first line, `Your program crossed the <max_ram> memory ceiling and
/// kept climbing.`, followed by two more lines; after a kill for velocity it
/// has four lines, whatever the ceiling.
pub proof fn law_insight_names_ceiling(max_ram: u64)
    ensures
        insight_text(Violation::AbsoluteLimit, max_ram).len() == 3,
        insight_text(Violation::AbsoluteLimit, max_ram)[0] == "Your program crossed the "@
            + format_size_spec(max_ram) + " memory ceiling and kept climbing."@,
        insight_text(Violation::Velocity, max_ram).len() == 4,
        insight_text(Violation::Velocity, max_ram) == insight_text(Violation::Velocity, 0),
{
}

/// The names of the signals: 2 `SIGINT`, 4 `SIGILL`, 6 `SIGABRT`, 8
/// `SIGFPE`, 9 `SIGKILL`, 11 `SIGSEGV`, 15 `SIGTERM`, and `signal` for
/// every other number.
pub proof fn law_signal_names(sig: i32)
    ensures
        sig == 2 ==> signal_name_spec(sig) == "SIGINT"@,
        sig == 4 ==> signal_name_spec(sig) == "SIGILL"@,
        sig == 6 ==> signal_name_spec(sig) == "SIGABRT"@,
        sig == 8 ==> signal_name_spec(sig) == "SIGFPE"@,
        sig == 9 ==> signal_name_spec(sig) == "SIGKILL"@,
        sig == 11 ==> signal_name_spec(sig) == "SIGSEGV"@,
        sig == 15 ==> signal_name_spec(sig) == "SIGTERM"@,
        sig != 2 && sig != 4 && sig != 6 && sig != 8 && sig != 9 && sig != 11 && sig != 15
            ==> signal_name_spec(sig) == "signal"@,
{
}

/// The number in an exit or crash headline is the code or signal itself:
/// written in decimal, with a minus sign when negative, it reads back as
/// that number.
pub proof fn law_headline_number_reads_back(x: i32)
    ensures
        x >= 0 ==> digits_value(int_text(x as int)) == x,
        x < 0 ==> int_text(x as int)[0] == '-' && digits_value(int_text(x as int).drop_first())
            == -x,
{
    if x >= 0 {
        lemma_decimal_digits(x as nat);
    } else {
        lemma_decimal_digits((-x) as nat);
        assert(int_text(x as int).drop_first() =~= decimal_digits((-x) as nat));
    }
}

} // verus!
