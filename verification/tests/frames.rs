use lua_flame::frames::{
    build_stack, fold_symbolized_stack, format_lua_frame, is_native_function_symbol, native_frame,
    render_lua_frame, sort_root_to_leaf, strip_chunkname,
};
use lua_flame::types::{LuaStackEvent, SampleKey, FUNC_TYPE_C, FUNC_TYPE_LCF, FUNC_TYPE_LUA};

fn lua_event(key: SampleKey, level: i32, name: &str, line: i32) -> LuaStackEvent {
    let mut ev = LuaStackEvent {
        key,
        level,
        kind: FUNC_TYPE_LUA,
        line,
        ..LuaStackEvent::default()
    };
    let bytes = name.as_bytes();
    let n = bytes.len().min(ev.name.len() - 1);
    ev.name[..n].copy_from_slice(&bytes[..n]);
    ev
}

#[test]
fn folded_stack_uses_lua_root_to_leaf_order() {
    let key = SampleKey { pid: 10, tid: 20, seq: 1 };
    let lua = [
        lua_event(key, 0, "@leaf.lua", 30),
        lua_event(key, 2, "@root.lua", 10),
        lua_event(key, 1, "@mid.lua", 20),
    ];
    let native = [
        Some("entry+0x0".to_string()),
        None,
        Some("tail+0x4".to_string()),
    ];

    let folded = fold_symbolized_stack(&native, &lua, true).unwrap();

    assert_eq!(
        folded,
        "entry+0x0;L:root.lua:10;tail+0x4;L:mid.lua:20;L:leaf.lua:30"
    );
}

#[test]
fn folded_stack_default_drops_native_but_keeps_lua() {
    let key = SampleKey { pid: 10, tid: 20, seq: 2 };
    let lua = [lua_event(key, 0, "@/srv/app.lua", 42)];
    let native = [Some("native+0x1".to_string()), None];

    let folded = fold_symbolized_stack(&native, &lua, false).unwrap();

    assert_eq!(folded, "L:app.lua:42");
}

#[test]
fn arm_mapping_symbols_are_not_rendered_as_functions() {
    for name in ["$a", "$d", "$t", "$x", "$x.0", "$d.123"] {
        assert!(!is_native_function_symbol(name), "accepted {name}");
    }
    for name in ["main", "luaV_execute", "$x.data", "$custom"] {
        assert!(is_native_function_symbol(name), "rejected {name}");
    }
}

#[test]
fn lua_frame_formatting_handles_known_types() {
    let key = SampleKey::default();
    let lua = lua_event(key, 0, "@/a/b/c.lua", 99);
    assert_eq!(format_lua_frame(&lua, true).unwrap(), "L:c.lua:99");

    let c = LuaStackEvent {
        kind: FUNC_TYPE_C,
        funcp: 0x1234,
        ..LuaStackEvent::default()
    };
    assert_eq!(format_lua_frame(&c, true).unwrap(), "C:0x1234");

    let lcf = LuaStackEvent {
        kind: FUNC_TYPE_LCF,
        funcp: 0x5678,
        ..LuaStackEvent::default()
    };
    assert_eq!(format_lua_frame(&lcf, true).unwrap(), "C:0x5678");
}

#[test]
fn lua_frame_formatting_drops_empty_lua_frames() {
    let empty = LuaStackEvent {
        kind: FUNC_TYPE_LUA,
        line: 0,
        ..LuaStackEvent::default()
    };

    assert_eq!(format_lua_frame(&empty, true), None);
}

#[test]
fn lua_only_mode_drops_c_and_lcf_frames() {
    let c = LuaStackEvent {
        kind: FUNC_TYPE_C,
        funcp: 0x1234,
        ..LuaStackEvent::default()
    };
    let lcf = LuaStackEvent {
        kind: FUNC_TYPE_LCF,
        funcp: 0x5678,
        ..LuaStackEvent::default()
    };
    assert_eq!(format_lua_frame(&c, false), None);
    assert_eq!(format_lua_frame(&lcf, false), None);

    let key = SampleKey { pid: 1, tid: 2, seq: 3 };
    let lua = [
        LuaStackEvent {
            key,
            level: 1,
            kind: FUNC_TYPE_C,
            funcp: 0xabcd,
            ..LuaStackEvent::default()
        },
        lua_event(key, 0, "@root.lua", 10),
    ];
    let folded = fold_symbolized_stack(&[None, None], &lua, false).unwrap();
    assert!(!folded.contains("C:"), "folded contains C frame: {folded}");
    assert_eq!(folded, "L:root.lua:10");
}

#[test]
fn symbol_names_at_the_edge_of_mapping_symbols() {
    for name in ["", "$a.0", "$t.00"] {
        assert!(!is_native_function_symbol(name), "accepted {name}");
    }
    for name in ["$", "$a.", "$b", "$aa.0", "$a.0x", "a.0", "$x.1.2", "$.1"] {
        assert!(is_native_function_symbol(name), "rejected {name}");
    }
}

#[test]
fn chunk_names_are_cut_to_the_file() {
    assert_eq!(strip_chunkname("@/srv/app.lua"), "app.lua");
    assert_eq!(strip_chunkname("\0\0@a/b"), "b");
    assert_eq!(strip_chunkname("@@x"), "@x");
    assert_eq!(strip_chunkname("=stdin"), "=stdin");
    assert_eq!(strip_chunkname("@dir/"), "");
    assert_eq!(strip_chunkname(""), "");
}

#[test]
fn frames_without_a_line_show_the_chunk() {
    assert_eq!(render_lua_frame(FUNC_TYPE_LUA, "@a.lua", 0, 0, false), Some("L:a.lua".to_string()));
    assert_eq!(render_lua_frame(FUNC_TYPE_LUA, "@a.lua", -3, 0, false), Some("L:a.lua".to_string()));
    assert_eq!(render_lua_frame(FUNC_TYPE_LUA, "", 5, 0, false), Some("L::5".to_string()));
    assert_eq!(render_lua_frame(77, "@a.lua", 5, 5, true), None);
}

#[test]
fn chunk_names_that_are_not_utf8_are_shown_with_replacements() {
    let mut ev = lua_event(SampleKey::default(), 0, "@a", 3);
    ev.name[2] = 0xff;
    ev.name[3] = b'b';
    assert_eq!(ev.name_str(), "@a\u{fffd}b");
    assert_eq!(format_lua_frame(&ev, false).unwrap(), "L:a\u{fffd}b:3");
}

#[test]
fn a_chunk_name_may_fill_its_room() {
    let mut ev = LuaStackEvent::default();
    for b in ev.name.iter_mut() {
        *b = b'x';
    }
    assert_eq!(ev.name_str(), "x".repeat(128));
}

#[test]
fn events_of_one_level_keep_their_order() {
    let key = SampleKey::default();
    let events = [
        lua_event(key, 1, "first", 1),
        lua_event(key, 2, "root", 2),
        lua_event(key, 1, "second", 3),
        lua_event(key, 0, "leaf", 4),
    ];
    let lines: Vec<i32> = sort_root_to_leaf(&events).iter().map(|e| e.line).collect();
    assert_eq!(lines, vec![2, 1, 3, 4]);
}

#[test]
fn unnamed_native_frames_without_lua_events_are_unknown() {
    let native = [Some("a+0x1".to_string()), None];
    assert_eq!(
        fold_symbolized_stack(&native, &[], true),
        Some("a+0x1;[unknown]".to_string())
    );
    assert_eq!(fold_symbolized_stack(&native, &[], false), None);
    assert_eq!(fold_symbolized_stack(&[], &[], true), None);
}

#[test]
fn native_frames_show_symbol_and_offset() {
    assert_eq!(native_frame(Some(("main".to_string(), 0x1f))), Some("main+0x1f".to_string()));
    assert_eq!(native_frame(Some(("$x".to_string(), 0))), None);
    assert_eq!(native_frame(None), None);
}

#[test]
fn built_stacks_go_from_the_root_to_the_leaf() {
    let symbolize = |ip: u64| match ip {
        0x10 => Some(("leaf".to_string(), 0)),
        0x20 => None,
        0x30 => Some(("root".to_string(), 0xab)),
        _ => panic!("asked for {ip:#x}"),
    };
    let lua = [lua_event(SampleKey::default(), 0, "@app.lua", 9)];
    // Null addresses are not looked up.
    assert_eq!(
        build_stack(&[0x10, 0x20, 0, 0x30], &lua, &symbolize, true),
        Some("root+0xab;L:app.lua:9;leaf+0x0".to_string())
    );
    // Without C stacks nothing is looked up.
    assert_eq!(
        build_stack(&[0x99], &lua, &symbolize, false),
        Some("L:app.lua:9".to_string())
    );
}

#[test]
fn every_native_frame_is_shown_with_c_stacks() {
    let native = [Some("a+0x1".to_string()), Some("b+0x2".to_string()), None, None];
    assert_eq!(
        fold_symbolized_stack(&native, &[], true),
        Some("a+0x1;b+0x2;[unknown];[unknown]".to_string())
    );
}
