use lua_flame::lineresolve::ProtoLayout;
use lua_flame::syms::LuaVersion;
use lua_flame::walker::walker_offsets;

#[test]
fn walker_offsets_54_matches_lstate_h() {
    let w = walker_offsets(LuaVersion::Lua54);
    assert_eq!(w.state_ci, 32);
    assert_eq!(w.ci_savedpc, 32);
    assert_eq!(w.ci_callstatus, 62);
    assert_eq!(w.callstatus_mask, 0xffff);
    assert_eq!(w.proto_linedefined, 44);
    assert_eq!(w.proto_source, 112);
}

#[test]
fn walker_offsets_53_savedpc_and_callstatus_moved() {
    let w = walker_offsets(LuaVersion::Lua53);
    assert_eq!(w.ci_savedpc, 40);
    assert_eq!(w.ci_callstatus, 66);
    assert_eq!(w.proto_linedefined, 40);
    assert_eq!(w.proto_source, 104);
    assert_eq!(w.lua_frame_mask, 0x2);
    assert_eq!(w.lua_frame_when_set, 1);
}

#[test]
fn walker_offsets_52_inverts_callstatus_semantics() {
    let w = walker_offsets(LuaVersion::Lua52);
    assert_eq!(w.ci_savedpc, 56);
    assert_eq!(w.ci_callstatus, 34);
    assert_eq!(w.callstatus_mask, 0xff);
    assert_eq!(w.lua_frame_mask, 0x1);
    assert_eq!(w.lua_frame_when_set, 1);
    assert_eq!(w.proto_linedefined, 104);
    assert_eq!(w.proto_source, 72);
}

#[test]
fn walker_offsets_54_uses_cist_c_set_means_c_frame() {
    let w = walker_offsets(LuaVersion::Lua54);
    assert_eq!(w.lua_frame_mask, 0x2);
    assert_eq!(w.lua_frame_when_set, 0);
}

#[test]
fn every_version_keeps_the_call_info_pointer_in_place() {
    for v in [LuaVersion::Lua52, LuaVersion::Lua53, LuaVersion::Lua54] {
        assert_eq!(walker_offsets(v).state_ci, 32);
    }
}

#[test]
fn the_frame_flag_means_the_opposite_in_54() {
    let is_lua_frame = |v: LuaVersion, callstatus: u32| {
        let w = walker_offsets(v);
        let mask_set = callstatus & w.callstatus_mask & w.lua_frame_mask != 0;
        mask_set == (w.lua_frame_when_set != 0)
    };
    for callstatus in 0..16u32 {
        assert_eq!(
            is_lua_frame(LuaVersion::Lua54, callstatus),
            !is_lua_frame(LuaVersion::Lua53, callstatus)
        );
        assert_eq!(
            is_lua_frame(LuaVersion::Lua52, callstatus),
            is_lua_frame(LuaVersion::Lua53, callstatus * 2)
        );
    }
}

#[test]
fn walker_and_resolver_find_the_code_in_one_place() {
    for (v, code) in [(LuaVersion::Lua54, 64), (LuaVersion::Lua53, 56), (LuaVersion::Lua52, 24)] {
        assert_eq!(walker_offsets(v).proto_code, code);
        assert_eq!(ProtoLayout::for_version(v).off_code, code as u64);
    }
}
