use lua_flame::lineresolve::{LineResolver, ProtoLayout};
use lua_flame::pending::{
    advance_watermarks, drain_lua_orphans, handle_lua, handle_native, process_ready_samples,
    record_lost_lua, record_lost_native, resolve_lines, Pending, SampleProcessor, UnwindAttempt,
};
use lua_flame::syms::LuaVersion;
use lua_flame::types::{
    from_bytes_aligned, native_event_from_bytes, LuaStackEvent, NativeEvent, SampleKey, FUNC_TYPE_C,
    FUNC_TYPE_LUA, LUA_EVENT_SIZE, NATIVE_EVENT_PREFIX_SIZE, PERF_MAX_STACK_DEPTH,
    USER_STACK_SNAPSHOT_SIZE,
};

type Reader = fn(u64, u64) -> Option<Vec<u8>>;

const NO_RESOLVER: Option<LineResolver<Reader>> = None;

fn no_symbol(_ip: u64) -> Option<(String, u64)> {
    None
}

fn lua_event(key: SampleKey, level: i32, name: &str, line: i32) -> LuaStackEvent {
    let mut ev = LuaStackEvent {
        key,
        level,
        kind: FUNC_TYPE_LUA,
        line,
        ..LuaStackEvent::default()
    };
    let bytes = name.as_bytes();
    let n = bytes.len().min(ev.name.len() - 1);
    ev.name[..n].copy_from_slice(&bytes[..n]);
    ev
}

fn native_event_with(key: SampleKey, ip: u64) -> NativeEvent {
    let mut ne = NativeEvent {
        key,
        ip_cnt: 1,
        ..NativeEvent::default()
    };
    ne.ips[0] = ip;
    ne
}

#[test]
fn pending_uses_tid_as_part_of_sample_key() {
    let mut pending = Pending::default();
    let k1 = SampleKey { pid: 100, tid: 11, seq: 1 };
    let k2 = SampleKey { pid: 100, tid: 12, seq: 1 };
    let mut ne1 = NativeEvent {
        key: k1,
        ip_cnt: 1,
        ..NativeEvent::default()
    };
    ne1.ips[0] = 0x1111;
    let mut ne2 = NativeEvent {
        key: k2,
        ip_cnt: 1,
        ..NativeEvent::default()
    };
    ne2.ips[0] = 0x2222;

    handle_native(&ne1, &mut pending, None, false);
    handle_native(&ne2, &mut pending, None, false);
    handle_lua(lua_event(k1, 0, "@one.lua", 1), &mut pending);
    handle_lua(lua_event(k2, 0, "@two.lua", 2), &mut pending);

    assert_eq!(pending.native_of(k1), Some(&vec![0x1111]));
    assert_eq!(pending.native_of(k2), Some(&vec![0x2222]));
    assert_eq!(pending.lua_of(k1).unwrap()[0].name_str(), "@one.lua");
    assert_eq!(pending.lua_of(k2).unwrap()[0].name_str(), "@two.lua");
}

/// The memory of a native event, without the copy of the user stack.
fn native_prefix(event: &NativeEvent) -> Vec<u8> {
    let mut bytes = Vec::new();
    bytes.extend_from_slice(&event.key.pid.to_le_bytes());
    bytes.extend_from_slice(&event.key.tid.to_le_bytes());
    bytes.extend_from_slice(&event.key.seq.to_le_bytes());
    bytes.extend_from_slice(&event.ip_cnt.to_le_bytes());
    bytes.extend_from_slice(&event.stack_len.to_le_bytes());
    for ip in event.ips {
        bytes.extend_from_slice(&ip.to_le_bytes());
    }
    bytes
}

#[test]
fn native_event_parser_accepts_snapshot_free_prefix() {
    let mut event = NativeEvent {
        key: SampleKey { pid: 1, tid: 2, seq: 3 },
        ip_cnt: 1,
        ..NativeEvent::default()
    };
    event.ips[0] = 0x1234;
    let prefix_size = std::mem::size_of::<NativeEvent>() - USER_STACK_SNAPSHOT_SIZE;
    let bytes = native_prefix(&event);
    assert_eq!(bytes.len(), prefix_size);

    let parsed = native_event_from_bytes(&bytes).unwrap();

    assert_eq!(parsed.key, event.key);
    assert_eq!(parsed.ips[0], 0x1234);
    assert_eq!(parsed.stack_len, 0);
    assert!(parsed.stack.iter().all(|byte| *byte == 0));
}

#[test]
fn native_event_parser_cuts_the_snapshot_to_what_is_there() {
    let mut event = NativeEvent {
        ip_cnt: 2,
        stack_len: 100,
        ..NativeEvent::default()
    };
    event.ips[1] = 0xffff_ffff_ffff_fff0;
    let mut bytes = native_prefix(&event);
    assert!(native_event_from_bytes(&bytes[..NATIVE_EVENT_PREFIX_SIZE - 1]).is_none());
    bytes.extend_from_slice(&[7, 8, 9]);
    let parsed = native_event_from_bytes(&bytes).unwrap();
    assert_eq!(parsed.stack_len, 3);
    assert_eq!(&parsed.stack[..4], &[7, 8, 9, 0]);
    assert_eq!(parsed.fallback_ips(), vec![0, 0xffff_ffff_ffff_fff0]);
    // More than a whole event: the rest is ignored.
    bytes.resize(NATIVE_EVENT_PREFIX_SIZE + USER_STACK_SNAPSHOT_SIZE + 10, 1);
    let parsed = native_event_from_bytes(&bytes).unwrap();
    assert_eq!(parsed.stack_len, 100);
    assert_eq!(parsed.stack[USER_STACK_SNAPSHOT_SIZE - 1], 1);
}

#[test]
fn kernel_addresses_are_cut_to_their_room() {
    let mut event = NativeEvent {
        ip_cnt: 1000,
        ..NativeEvent::default()
    };
    event.ips[126] = 5;
    assert_eq!(event.fallback_ips().len(), PERF_MAX_STACK_DEPTH);
    assert_eq!(event.fallback_ips()[126], 5);
}

#[test]
fn lua_event_parser_reads_the_fields_in_their_order() {
    let mut bytes = Vec::new();
    bytes.extend_from_slice(&1u32.to_le_bytes());
    bytes.extend_from_slice(&2u32.to_le_bytes());
    bytes.extend_from_slice(&3u64.to_le_bytes());
    bytes.extend_from_slice(&4i32.to_le_bytes());
    bytes.extend_from_slice(&2i32.to_le_bytes());
    bytes.extend_from_slice(&(-5i32).to_le_bytes());
    bytes.extend_from_slice(&6i32.to_le_bytes());
    bytes.extend_from_slice(&7u64.to_le_bytes());
    bytes.extend_from_slice(&8u64.to_le_bytes());
    bytes.extend_from_slice(&0x8000_0000_0000_0009u64.to_le_bytes());
    bytes.extend_from_slice(b"@app.lua");
    assert!(from_bytes_aligned(&bytes).is_none());
    bytes.resize(LUA_EVENT_SIZE, 0);
    let ev = from_bytes_aligned(&bytes).unwrap();
    assert_eq!(ev.key, SampleKey { pid: 1, tid: 2, seq: 3 });
    assert_eq!((ev.level, ev.kind, ev.line, ev.linedefined), (4, 2, -5, 6));
    assert_eq!((ev.funcp, ev.proto, ev.savedpc), (7, 8, 0x8000_0000_0000_0009));
    assert_eq!(ev.name_str(), "@app.lua");
}

#[test]
fn process_ready_samples_defers_first_cycle_then_folds() {
    let mut pending = Pending::default();
    let key = SampleKey { pid: 1, tid: 2, seq: 7 };

    // Cycle 1: native arrives, Lua also arrives.
    handle_native(&native_event_with(key, 0xdead), &mut pending, None, false);
    handle_lua(lua_event(key, 0, "@app.lua", 42), &mut pending);

    // After cycle 1: nothing should be folded yet.
    process_ready_samples(&mut pending, &NO_RESOLVER, &no_symbol, false);
    advance_watermarks(&mut pending);
    assert!(pending.folded.is_empty(), "folded prematurely in cycle 1");
    assert!(pending.native_of(key).is_some(), "native half drained too early");
    assert!(pending.lua_of(key).is_some(), "lua half drained too early");

    // Cycle 2: now eligible, and the Lua half is still there to be folded with it.
    process_ready_samples(&mut pending, &NO_RESOLVER, &no_symbol, false);
    assert_eq!(pending.folded.len(), 1, "expected exactly one folded stack");
    assert_eq!(pending.folded.get("L:app.lua:42"), Some(1));
    assert!(pending.native_of(key).is_none(), "native half not drained");
    assert!(pending.lua_of(key).is_none(), "lua half not drained");
}

#[test]
fn process_ready_samples_drops_c_frames_in_lua_only_mode() {
    let mut pending = Pending::default();
    let key = SampleKey { pid: 1, tid: 2, seq: 1 };

    handle_native(&native_event_with(key, 0xcafe), &mut pending, None, false);
    // Mixed CallInfo: a C closure plus the leaf Lua frame.
    handle_lua(
        LuaStackEvent {
            key,
            level: 1,
            kind: FUNC_TYPE_C,
            funcp: 0xbeef,
            ..LuaStackEvent::default()
        },
        &mut pending,
    );
    handle_lua(lua_event(key, 0, "@root.lua", 11), &mut pending);

    process_ready_samples(&mut pending, &NO_RESOLVER, &no_symbol, false);
    advance_watermarks(&mut pending);
    process_ready_samples(&mut pending, &NO_RESOLVER, &no_symbol, false);
    assert_eq!(pending.folded.stacks(), vec!["L:root.lua:11".to_string()]);
}

#[test]
fn drain_lua_orphans_runs_every_cycle_under_sustained_loss() {
    let mut pending = Pending::default();
    let key1 = SampleKey { pid: 1, tid: 2, seq: 1 };
    let key2 = SampleKey { pid: 1, tid: 2, seq: 2 };

    // Cycle 1: orphan Lua arrives (no native).
    handle_lua(lua_event(key1, 0, "@/x/lost1.lua", 1), &mut pending);
    process_ready_samples(&mut pending, &NO_RESOLVER, &no_symbol, false);
    drain_lua_orphans(&mut pending, &NO_RESOLVER, &no_symbol, false);
    advance_watermarks(&mut pending);
    assert!(pending.folded.is_empty(), "orphan folded in its arrival cycle");
    assert!(pending.lua_of(key1).is_some());

    // Cycle 2: key1 now eligible, gets folded. A second orphan arrives.
    handle_lua(lua_event(key2, 0, "@/x/lost2.lua", 2), &mut pending);
    process_ready_samples(&mut pending, &NO_RESOLVER, &no_symbol, false);
    drain_lua_orphans(&mut pending, &NO_RESOLVER, &no_symbol, false);
    advance_watermarks(&mut pending);
    assert_eq!(pending.folded.get("L:lost1.lua:1"), Some(1));
    assert!(pending.lua_of(key1).is_none(), "key1 not drained in cycle 2");
    assert!(pending.lua_of(key2).is_some());

    // Cycle 3: key2 folded.
    drain_lua_orphans(&mut pending, &NO_RESOLVER, &no_symbol, false);
    assert_eq!(pending.folded.get("L:lost2.lua:2"), Some(1));
    assert!(pending.lua.is_empty());
}

#[test]
fn drain_lua_orphans_skips_keys_with_live_native_half() {
    let mut pending = Pending::default();
    let key = SampleKey { pid: 1, tid: 2, seq: 5 };

    // Both halves arrive in the same cycle.
    handle_native(&native_event_with(key, 0x1234), &mut pending, None, false);
    handle_lua(lua_event(key, 0, "@app.lua", 99), &mut pending);

    drain_lua_orphans(&mut pending, &NO_RESOLVER, &no_symbol, false);
    advance_watermarks(&mut pending);
    drain_lua_orphans(&mut pending, &NO_RESOLVER, &no_symbol, false);
    assert!(pending.folded.is_empty(), "live-native key folded as orphan");
    assert!(pending.lua_of(key).is_some());
    assert!(pending.native_of(key).is_some());

    // And process_ready_samples handles it correctly once eligible.
    advance_watermarks(&mut pending);
    process_ready_samples(&mut pending, &NO_RESOLVER, &no_symbol, false);
    assert_eq!(pending.folded.get("L:app.lua:99"), Some(1));
}

#[test]
fn process_ready_samples_is_idempotent_when_nothing_in_flight() {
    let mut pending = Pending::default();
    for _ in 0..3 {
        process_ready_samples(&mut pending, &NO_RESOLVER, &no_symbol, false);
        drain_lua_orphans(&mut pending, &NO_RESOLVER, &no_symbol, false);
        advance_watermarks(&mut pending);
    }
    assert!(pending.folded.is_empty());
    assert!(pending.native.is_empty());
    assert!(pending.lua.is_empty());
    assert!(pending.just_arrived.is_empty());
    assert!(pending.lua_just_arrived.is_empty());
}

#[test]
fn a_late_lua_half_is_folded_with_its_native_half() {
    let mut pending = Pending::default();
    let key = SampleKey { pid: 1, tid: 2, seq: 9 };
    let processor = SampleProcessor::new(NO_RESOLVER, no_symbol, false);
    handle_native(&native_event_with(key, 0x1), &mut pending, None, false);
    processor.process_cycle(&mut pending);
    // The Lua half comes in the cycle in which the sample becomes ready.
    handle_lua(lua_event(key, 0, "@late.lua", 3), &mut pending);
    processor.process_cycle(&mut pending);
    assert_eq!(pending.folded.get("L:late.lua:3"), Some(1));
    assert!(pending.native.is_empty() && pending.lua.is_empty());
}

#[test]
fn native_stacks_are_folded_with_their_symbols() {
    let mut pending = Pending::default();
    let key = SampleKey { pid: 1, tid: 2, seq: 4 };
    let symbolize = |ip: u64| Some((format!("f{ip:x}"), 2u64));
    let processor = SampleProcessor::new(NO_RESOLVER, symbolize, true);
    let attempt = UnwindAttempt {
        ips: Some(vec![0xa, 0xb]),
        snapshot_truncated: false,
        depth_limited: true,
    };
    handle_native(&native_event_with(key, 0x1), &mut pending, Some(attempt), true);
    handle_lua(lua_event(key, 0, "@app.lua", 1), &mut pending);
    processor.finish(&mut pending);
    assert_eq!(pending.folded.stacks(), vec!["fb+0x2;fa+0x2;L:app.lua:1".to_string()]);
    let folded = processor.take_folded(&mut pending);
    assert_eq!(folded.render(), "fb+0x2;fa+0x2;L:app.lua:1 1\n");
    assert!(pending.folded.is_empty());
}

#[test]
fn unwinding_is_counted() {
    let mut pending = Pending::default();
    let key = SampleKey { pid: 1, tid: 2, seq: 4 };
    let failed = UnwindAttempt { ips: None, snapshot_truncated: true, depth_limited: false };
    handle_native(&native_event_with(key, 0x77), &mut pending, Some(failed), true);
    assert_eq!(pending.native_of(key), Some(&vec![0x77]));
    handle_native(&native_event_with(key, 0x78), &mut pending, None, true);
    handle_native(&native_event_with(key, 0x79), &mut pending, None, false);
    let done = UnwindAttempt { ips: Some(vec![1]), snapshot_truncated: true, depth_limited: true };
    handle_native(&native_event_with(key, 0x80), &mut pending, Some(done), true);
    assert_eq!(pending.native_of(key), Some(&vec![1]));
    let stats = pending.unwind_stats;
    assert_eq!(
        (stats.succeeded, stats.fallback, stats.snapshot_truncated, stats.depth_limited),
        (1, 2, 2, 1)
    );
}

#[test]
fn lost_records_are_counted_by_channel() {
    let mut pending = Pending::new();
    record_lost_native(&mut pending, 3);
    record_lost_native(&mut pending, 4);
    record_lost_lua(&mut pending, 5);
    assert_eq!((pending.lost.native, pending.lost.lua), (7, 5));
}

#[test]
fn finishing_folds_all_that_is_in_flight() {
    let mut pending = Pending::default();
    let processor = SampleProcessor::new(NO_RESOLVER, no_symbol, false);
    for seq in 0..3u64 {
        let key = SampleKey { pid: 1, tid: 2, seq };
        handle_native(&native_event_with(key, 0x1), &mut pending, None, false);
        handle_lua(lua_event(key, 0, "@same.lua", 8), &mut pending);
    }
    handle_lua(lua_event(SampleKey { pid: 1, tid: 3, seq: 0 }, 0, "@same.lua", 8), &mut pending);
    assert!(pending.can_count());
    processor.finish(&mut pending);
    assert_eq!(pending.folded.get("L:same.lua:8"), Some(4));
    assert_eq!(pending.folded.get("L:other.lua:8"), None);
    assert!(pending.native.is_empty() && pending.lua.is_empty());
}

#[test]
fn nothing_is_left_after_two_cycles() {
    let mut pending = Pending::default();
    let processor = SampleProcessor::new(NO_RESOLVER, no_symbol, false);
    let key = SampleKey { pid: 1, tid: 2, seq: 1 };
    handle_native(&native_event_with(key, 0x1), &mut pending, None, false);
    handle_lua(lua_event(SampleKey { pid: 9, tid: 9, seq: 9 }, 0, "@x", 1), &mut pending);
    processor.process_cycle(&mut pending);
    assert!(pending.folded.is_empty());
    processor.process_cycle(&mut pending);
    assert!(pending.native.is_empty() && pending.lua.is_empty());
    // The native half had no Lua events and is not shown.
    assert_eq!(pending.folded.stacks(), vec!["L:x:1".to_string()]);
}

#[test]
fn lines_are_resolved_only_where_they_are_unknown() {
    // In this memory every number that is read is 0x1010, but for the code pointer.
    let reader: Reader = |addr, len| match (addr, len) {
        (0x2038, 8) => Some(0x1000u64.to_le_bytes().to_vec()),
        (_, 8) => Some(0x1010u64.to_le_bytes().to_vec()),
        _ => Some(0x1010i32.to_le_bytes().to_vec()),
    };
    let resolver = Some(LineResolver::new(reader, ProtoLayout::for_version(LuaVersion::Lua53)));
    let key = SampleKey::default();
    let at = |mut ev: LuaStackEvent, proto: u64| {
        ev.proto = proto;
        ev.savedpc = 0x1008;
        ev.linedefined = 70;
        ev
    };
    let known = at(lua_event(key, 0, "@a", 5), 0x2000);
    let unknown = at(lua_event(key, 1, "@b", 0), 0x2000);
    let mut c = at(lua_event(key, 2, "@c", 0), 0x2000);
    c.kind = FUNC_TYPE_C;
    // Without a prototype the line cannot be determined.
    let nowhere = at(lua_event(key, 3, "@d", 0), 0);
    let mut events = vec![known, unknown, c, nowhere];
    resolve_lines(&resolver, &mut events);
    let lines: Vec<i32> = events.iter().map(|e| e.line).collect();
    assert_eq!(lines, vec![5, 0x1010, 0, 0]);
    let mut events = vec![unknown];
    resolve_lines(&NO_RESOLVER, &mut events);
    assert_eq!(events[0].line, 0);
}

#[test]
fn samples_with_different_keys_never_meet() {
    let keys = [
        SampleKey { pid: 1, tid: 2, seq: 3 },
        SampleKey { pid: 2, tid: 1, seq: 3 },
        SampleKey { pid: 1, tid: 3, seq: 2 },
        SampleKey { pid: u32::MAX, tid: u32::MAX, seq: u64::MAX },
    ];
    for (i, a) in keys.iter().enumerate() {
        for (j, b) in keys.iter().enumerate() {
            assert_eq!(a.id() == b.id(), i == j);
        }
    }
    assert_eq!(keys[0].id(), (1u128 << 96) + (2u128 << 64) + 3);
}

#[test]
fn the_order_of_arrival_of_samples_does_not_show() {
    let processor = SampleProcessor::new(NO_RESOLVER, |ip: u64| Some((format!("f{ip}"), 0u64)), true);
    let run = |seqs: &[u64]| {
        let mut pending = Pending::default();
        for seq in seqs {
            let key = SampleKey { pid: 1, tid: 1, seq: *seq };
            handle_native(&native_event_with(key, 1 + seq % 2), &mut pending, None, false);
            handle_lua(lua_event(key, 0, "@a.lua", *seq as i32 % 3), &mut pending);
        }
        processor.process_cycle(&mut pending);
        processor.process_cycle(&mut pending);
        pending.folded.render()
    };
    let forward = run(&[0, 1, 2, 3, 4, 5, 6, 7]);
    assert_eq!(forward, run(&[7, 3, 5, 1, 6, 2, 4, 0]));
    assert_eq!(forward.lines().count(), 6);
    assert!(forward.starts_with("f1+0x0;L:a.lua 2\n"));
}

#[test]
fn lua_only_lines_do_not_depend_on_the_native_half() {
    let processor = SampleProcessor::new(NO_RESOLVER, no_symbol, false);
    let key = SampleKey { pid: 1, tid: 1, seq: 1 };
    let mut with_native = Pending::default();
    handle_native(&native_event_with(key, 0x55), &mut with_native, None, false);
    handle_lua(lua_event(key, 0, "@a.lua", 4), &mut with_native);
    let mut without_native = Pending::default();
    handle_lua(lua_event(key, 0, "@a.lua", 4), &mut without_native);
    processor.finish(&mut with_native);
    processor.finish(&mut without_native);
    assert_eq!(with_native.folded.render(), "L:a.lua:4 1\n");
    assert_eq!(with_native.folded.render(), without_native.folded.render());
}

#[test]
fn a_sample_that_is_not_due_keeps_both_halves() {
    let processor = SampleProcessor::new(NO_RESOLVER, no_symbol, false);
    let old = SampleKey { pid: 1, tid: 1, seq: 1 };
    let new = SampleKey { pid: 1, tid: 1, seq: 2 };
    let mut pending = Pending::default();
    handle_native(&native_event_with(old, 1), &mut pending, None, false);
    handle_lua(lua_event(old, 0, "@old", 1), &mut pending);
    processor.process_cycle(&mut pending);
    handle_native(&native_event_with(new, 2), &mut pending, None, false);
    handle_lua(lua_event(new, 0, "@new", 1), &mut pending);
    processor.process_cycle(&mut pending);
    assert!(pending.native_of(old).is_none() && pending.lua_of(old).is_none());
    assert_eq!(pending.native_of(new), Some(&vec![2]));
    assert_eq!(pending.lua_of(new).unwrap().len(), 1);
    assert_eq!(pending.folded.stacks(), vec!["L:old:1".to_string()]);
}
