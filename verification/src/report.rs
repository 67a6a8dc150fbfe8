//! What the profiler says while and after it samples.

use crate::pending::{LostStats, NativeUnwindStats};
use crate::syms::{version_text, LuaVersion};
use crate::text::{decimal, push_decimal};
use crate::types::PERF_MAX_STACK_DEPTH;
use vstd::prelude::*;

verus! {

/// The title of a flame graph.
pub open spec fn title_text(version: LuaVersion, include_native_stacks: bool) -> Seq<char> {
    if include_native_stacks {
        "lua-flame-rs (C + Lua "@ + version_text(version) + ")"@
    } else {
        "lua-flame-rs (Lua "@ + version_text(version) + " only)"@
    }
}

/// The title of a flame graph.
pub fn capture_title(version: LuaVersion, include_native_stacks: bool) -> (r: String)
    ensures
        r@ == title_text(version, include_native_stacks),
{
    if include_native_stacks {
        let mut r = "lua-flame-rs (C + Lua ".to_string();
        r.append(version.as_str());
        r.append(")");
        r
    } else {
        let mut r = "lua-flame-rs (Lua ".to_string();
        r.append(version.as_str());
        r.append(" only)");
        r
    }
}

/// How long is sampled; 0 stands for no end.
pub open spec fn duration_text(duration: u64) -> Seq<char> {
    if duration == 0 {
        "ever"@
    } else {
        decimal(duration as nat) + "s"@
    }
}

/// What is said when the sampling starts.
pub fn sampling_banner(frequency: u64, duration: u64) -> (r: String)
    ensures
        r@ == "[+] sampling at "@ + decimal(frequency as nat) + " Hz for "@ + duration_text(
            duration,
        ) + " ..."@,
{
    let mut r = "[+] sampling at ".to_string();
    push_decimal(&mut r, frequency);
    r.append(" Hz for ");
    let ghost so_far = r@;
    if duration == 0 {
        r.append("ever");
    } else {
        push_decimal(&mut r, duration);
        r.append("s");
    }
    assert(r@ =~= so_far + duration_text(duration));
    r.append(" ...");
    r
}

/// The capture has gone on for as long as it should. A duration of 0 never ends it.
pub fn duration_is_over(duration: u64, elapsed_seconds: u64) -> (r: bool)
    ensures
        r == (duration > 0 && elapsed_seconds >= duration),
{
    duration > 0 && elapsed_seconds >= duration
}

/// What is said of the unwinding of native stacks.
pub open spec fn unwind_text(stats: NativeUnwindStats) -> Seq<char> {
    "[+] user-space DWARF unwind: "@ + decimal(stats.succeeded as nat) + " succeeded, "@ + decimal(
        stats.fallback as nat,
    ) + " fell back, "@ + decimal(stats.snapshot_truncated as nat) + " snapshots exhausted, "@
        + decimal(stats.depth_limited as nat) + " hit the "@ + decimal(PERF_MAX_STACK_DEPTH as nat)
        + "-frame limit"@
}

/// What is said of the unwinding of native stacks, where they are shown.
pub fn unwind_report(stats: &NativeUnwindStats, include_native_stacks: bool) -> (r: Option<String>)
    ensures
        if include_native_stacks {
            r matches Some(text) && text@ == unwind_text(*stats)
        } else {
            r is None
        },
{
    if !include_native_stacks {
        return None;
    }
    let mut r = "[+] user-space DWARF unwind: ".to_string();
    push_decimal(&mut r, stats.succeeded);
    r.append(" succeeded, ");
    push_decimal(&mut r, stats.fallback);
    r.append(" fell back, ");
    push_decimal(&mut r, stats.snapshot_truncated);
    r.append(" snapshots exhausted, ");
    push_decimal(&mut r, stats.depth_limited);
    r.append(" hit the ");
    push_decimal(&mut r, PERF_MAX_STACK_DEPTH as u64);
    r.append("-frame limit");
    Some(r)
}

/// What is said of lost records.
pub open spec fn loss_text(lost: LostStats) -> Seq<char> {
    "[!] perf-buffer records lost: native="@ + decimal(lost.native as nat) + ", lua="@ + decimal(
        lost.lua as nat,
    ) + " (consider lowering --frequency)"@
}

/// What is said of lost records, where there are any.
pub fn loss_report(lost: &LostStats) -> (r: Option<String>)
    ensures
        if lost.native != 0 || lost.lua != 0 {
            r matches Some(text) && text@ == loss_text(*lost)
        } else {
            r is None
        },
{
    if lost.native == 0 && lost.lua == 0 {
        return None;
    }
    let mut r = "[!] perf-buffer records lost: native=".to_string();
    push_decimal(&mut r, lost.native);
    r.append(", lua=");
    push_decimal(&mut r, lost.lua);
    r.append(" (consider lowering --frequency)");
    Some(r)
}

/// The numbers in the reports are the counters, each in its place: a report on other counts
/// is another one only in its numbers.
pub proof fn reports_say_these_words(
    version: LuaVersion,
    duration: u64,
    stats: NativeUnwindStats,
    lost: LostStats,
)
    ensures
        title_text(version, true) == "lua-flame-rs (C + Lua "@ + version_text(version) + ")"@,
        title_text(version, false) == "lua-flame-rs (Lua "@ + version_text(version) + " only)"@,
        duration_text(0) == "ever"@,
        duration > 0 ==> duration_text(duration) == decimal(duration as nat) + seq!['s'],
        unwind_text(stats) == "[+] user-space DWARF unwind: "@ + (decimal(stats.succeeded as nat)
            + (" succeeded, "@ + (decimal(stats.fallback as nat) + (" fell back, "@ + (decimal(
            stats.snapshot_truncated as nat,
        ) + (" snapshots exhausted, "@ + (decimal(stats.depth_limited as nat) + (" hit the "@ + (
        decimal(127) + "-frame limit"@))))))))),
        loss_text(lost) == "[!] perf-buffer records lost: native="@ + (decimal(lost.native as nat)
            + (", lua="@ + (decimal(lost.lua as nat) + " (consider lowering --frequency)"@))),
{
    reveal_strlit("s");
    assert("s"@ =~= seq!['s']);
    assert(unwind_text(stats) =~= "[+] user-space DWARF unwind: "@ + (decimal(
        stats.succeeded as nat,
    ) + (" succeeded, "@ + (decimal(stats.fallback as nat) + (" fell back, "@ + (decimal(
        stats.snapshot_truncated as nat,
    ) + (" snapshots exhausted, "@ + (decimal(stats.depth_limited as nat) + (" hit the "@ + (
    decimal(127) + "-frame limit"@))))))))));
    assert(loss_text(lost) =~= "[!] perf-buffer records lost: native="@ + (decimal(
        lost.native as nat,
    ) + (", lua="@ + (decimal(lost.lua as nat) + " (consider lowering --frequency)"@))));
}

} // verus!
