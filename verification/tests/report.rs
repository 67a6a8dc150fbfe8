use lua_flame::error::LuaError;
use lua_flame::pending::{LostStats, NativeUnwindStats};
use lua_flame::probes::{plan_probes, Probe};
use lua_flame::report::{
    capture_title, duration_is_over, loss_report, sampling_banner, unwind_report,
};
use lua_flame::syms::{LuaModule, LuaOffsets, LuaVersion};
use lua_flame::text::{
    chars_of, find_text, join_texts, push_decimal, push_prefixed_hex, push_signed_decimal, same_text,
};

#[test]
fn titles_name_version_and_mode() {
    assert_eq!(capture_title(LuaVersion::Lua54, true), "lua-flame-rs (C + Lua 5.4)");
    assert_eq!(capture_title(LuaVersion::Lua52, false), "lua-flame-rs (Lua 5.2 only)");
}

#[test]
fn the_banner_names_frequency_and_duration() {
    assert_eq!(sampling_banner(99, 0), "[+] sampling at 99 Hz for ever ...");
    assert_eq!(sampling_banner(1000, 30), "[+] sampling at 1000 Hz for 30s ...");
}

#[test]
fn a_capture_without_duration_does_not_end() {
    assert!(!duration_is_over(0, u64::MAX));
    assert!(!duration_is_over(10, 9));
    assert!(duration_is_over(10, 10));
    assert!(duration_is_over(10, 11));
}

#[test]
fn unwinding_is_reported_where_native_stacks_are_shown() {
    let stats = NativeUnwindStats {
        succeeded: 1,
        fallback: 20,
        snapshot_truncated: 300,
        depth_limited: 4000,
    };
    assert_eq!(unwind_report(&stats, false), None);
    assert_eq!(
        unwind_report(&stats, true).unwrap(),
        "[+] user-space DWARF unwind: 1 succeeded, 20 fell back, 300 snapshots exhausted, \
         4000 hit the 127-frame limit"
    );
}

#[test]
fn losses_are_reported_where_there_are_any() {
    assert_eq!(loss_report(&LostStats { native: 0, lua: 0 }), None);
    assert_eq!(
        loss_report(&LostStats { native: 0, lua: 12 }).unwrap(),
        "[!] perf-buffer records lost: native=0, lua=12 (consider lowering --frequency)"
    );
    assert!(loss_report(&LostStats { native: 1, lua: 0 }).is_some());
}

fn module(lua_resume: u64, lua_pcallk: u64, lua_callk: u64) -> LuaModule {
    LuaModule {
        path: b"/bin/app".to_vec(),
        version: LuaVersion::Lua54,
        offsets: LuaOffsets { lua_resume, lua_pcallk, lua_callk },
    }
}

#[test]
fn entries_are_probed_before_returns() {
    let entry = |offset: u64| Probe { at_return: false, offset };
    let ret = |offset: u64| Probe { at_return: true, offset };
    assert_eq!(
        plan_probes(&module(1, 2, 3)).unwrap(),
        vec![entry(1), entry(2), entry(3), ret(1), ret(2), ret(3)]
    );
    assert_eq!(plan_probes(&module(0, 2, 0)).unwrap(), vec![entry(2), ret(2)]);
}

#[test]
fn a_module_without_offsets_cannot_be_probed() {
    let err = plan_probes(&module(0, 0, 0)).unwrap_err();
    assert!(matches!(err, LuaError::NoProbes(_)));
    assert_eq!(
        err.message(),
        "no Lua entry-point uprobes were attached (expected at least one of \
         lua_resume / lua_pcallk / lua_callk in /bin/app)"
    );
}

#[test]
fn numbers_are_written_as_the_standard_library_writes_them() {
    for n in [0u64, 1, 9, 10, 99, 100, 12345, u64::MAX] {
        let mut s = String::new();
        push_decimal(&mut s, n);
        assert_eq!(s, format!("{n}"));
        let mut s = String::new();
        push_prefixed_hex(&mut s, n);
        assert_eq!(s, format!("{n:#x}"));
    }
    for n in [0i32, 7, -7, i32::MAX, i32::MIN] {
        let mut s = "x".to_string();
        push_signed_decimal(&mut s, n);
        assert_eq!(s, format!("x{n}"));
    }
}

#[test]
fn texts_are_joined_and_searched() {
    let parts = ["a".to_string(), "".to_string(), "b".to_string()];
    assert_eq!(join_texts(&parts, "; "), "a; ; b");
    assert_eq!(join_texts(&[], "; "), "");
    let hay = chars_of("aab\u{e9}c");
    assert!(find_text(&hay, "ab\u{e9}"));
    assert!(find_text(&hay, ""));
    assert!(!find_text(&hay, "ac"));
    assert!(same_text("\u{e9}", "\u{e9}") && !same_text("a", "ab"));
}
