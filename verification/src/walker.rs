//! Offsets that the kernel side of the profiler walks Lua call stacks by, in the
//! default layout on 64-bit Linux.

use crate::lineresolve::proto_layout;
use crate::syms::LuaVersion;
use vstd::prelude::*;

verus! {

/// The offsets and flags that differ between the versions.
#[derive(Clone, Copy, Debug, PartialEq, Eq, Structural)]
pub struct WalkerOffsets {
    /// `lua_State.ci`.
    pub state_ci: u32,
    /// `CallInfo.u.l.savedpc`.
    pub ci_savedpc: u32,
    /// `CallInfo.callstatus`.
    pub ci_callstatus: u32,
    /// The bits that `callstatus` has.
    pub callstatus_mask: u32,
    /// The bit of `callstatus` that tells a Lua frame from a C frame.
    pub lua_frame_mask: u32,
    /// 1 where a Lua frame has the bit set, 0 where a C frame has.
    pub lua_frame_when_set: u32,
    /// `Proto.code`.
    pub proto_code: u32,
    /// `Proto.linedefined`.
    pub proto_linedefined: u32,
    /// `Proto.source`.
    pub proto_source: u32,
}

/// The offsets of each version.
pub open spec fn offsets_for(v: LuaVersion) -> WalkerOffsets {
    match v {
        LuaVersion::Lua54 => WalkerOffsets {
            state_ci: 32,
            ci_savedpc: 32,
            ci_callstatus: 62,
            callstatus_mask: 0xffff,
            lua_frame_mask: 0x2,
            lua_frame_when_set: 0,
            proto_code: 64,
            proto_linedefined: 44,
            proto_source: 112,
        },
        LuaVersion::Lua53 => WalkerOffsets {
            state_ci: 32,
            ci_savedpc: 40,
            ci_callstatus: 66,
            callstatus_mask: 0xffff,
            lua_frame_mask: 0x2,
            lua_frame_when_set: 1,
            proto_code: 56,
            proto_linedefined: 40,
            proto_source: 104,
        },
        LuaVersion::Lua52 => WalkerOffsets {
            state_ci: 32,
            ci_savedpc: 56,
            ci_callstatus: 34,
            callstatus_mask: 0xff,
            lua_frame_mask: 0x1,
            lua_frame_when_set: 1,
            proto_code: 24,
            proto_linedefined: 104,
            proto_source: 72,
        },
    }
}

/// The offsets of a version.
pub fn walker_offsets(v: LuaVersion) -> (r: WalkerOffsets)
    ensures
        r == offsets_for(v),
{
    match v {
        // `CIST_C`, bit 1, is set in a C frame; `callstatus` has two bytes.
        LuaVersion::Lua54 => WalkerOffsets {
            state_ci: 32,
            ci_savedpc: 32,
            ci_callstatus: 62,
            callstatus_mask: 0xffff,
            lua_frame_mask: 0x2,
            lua_frame_when_set: 0,
            proto_code: 64,
            proto_linedefined: 44,
            proto_source: 112,
        },
        // `CIST_LUA`, bit 1, is set in a Lua frame; `callstatus` has two bytes.
        LuaVersion::Lua53 => WalkerOffsets {
            state_ci: 32,
            ci_savedpc: 40,
            ci_callstatus: 66,
            callstatus_mask: 0xffff,
            lua_frame_mask: 0x2,
            lua_frame_when_set: 1,
            proto_code: 56,
            proto_linedefined: 40,
            proto_source: 104,
        },
        // `CIST_LUA`, bit 0, is set in a Lua frame; `callstatus` has one byte.
        LuaVersion::Lua52 => WalkerOffsets {
            state_ci: 32,
            ci_savedpc: 56,
            ci_callstatus: 34,
            callstatus_mask: 0xff,
            lua_frame_mask: 0x1,
            lua_frame_when_set: 1,
            proto_code: 24,
            proto_linedefined: 104,
            proto_source: 72,
        },
    }
}

/// A frame with this `callstatus` is that of a Lua function.
pub open spec fn is_lua_frame(w: WalkerOffsets, callstatus: u32) -> bool {
    let mask_set = callstatus & w.lua_frame_mask != 0;
    if w.lua_frame_when_set != 0 {
        mask_set
    } else {
        !mask_set
    }
}

/// The flag of a frame has the opposite meaning in 5.4 and in 5.3; in 5.2 it has the
/// meaning of 5.3, one bit lower.
pub proof fn frame_flag_is_inverted_in_54(callstatus: u32)
    ensures
        is_lua_frame(offsets_for(LuaVersion::Lua54), callstatus) <==> !is_lua_frame(
            offsets_for(LuaVersion::Lua53),
            callstatus,
        ),
        callstatus < 0x8000_0000 ==> (is_lua_frame(offsets_for(LuaVersion::Lua52), callstatus)
            <==> is_lua_frame(offsets_for(LuaVersion::Lua53), (callstatus * 2) as u32)),
{
    assert(callstatus < 0x8000_0000 ==> ((callstatus & 0x1 != 0) <==> (((callstatus * 2) as u32)
        & 0x2 != 0))) by (bit_vector);
}

/// The kernel side finds the code of a function where its lines are resolved from.
pub proof fn code_is_where_lines_are_resolved_from(v: LuaVersion)
    ensures
        offsets_for(v).proto_code == proto_layout(v).off_code,
{
}

/// The flag of a frame lies in the bits that `callstatus` has.
pub proof fn frame_flag_is_in_callstatus(v: LuaVersion, callstatus: u32)
    ensures
        is_lua_frame(offsets_for(v), callstatus & offsets_for(v).callstatus_mask) == is_lua_frame(
            offsets_for(v),
            callstatus,
        ),
{
    assert((callstatus & 0xffff) & 0x2 == callstatus & 0x2) by (bit_vector);
    assert((callstatus & 0xff) & 0x1 == callstatus & 0x1) by (bit_vector);
}

/// What the versions have in common and where they differ. The call info stands at the same
/// place in each. The saved program counter and the call status move with every version;
/// the status has one byte in 5.2 and two later. Which frames are those of Lua functions is
/// told by one bit, the lowest in 5.2 and the next one later.
pub proof fn versions_differ_only_so(v: LuaVersion)
    ensures
        offsets_for(v).state_ci == 32,
        v == LuaVersion::Lua52 ==> {
            let w = offsets_for(v);
            &&& (w.ci_savedpc, w.ci_callstatus) == (56u32, 34u32)
            &&& (w.callstatus_mask, w.lua_frame_mask, w.lua_frame_when_set) == (0xffu32, 1u32, 1u32)
            &&& (w.proto_code, w.proto_linedefined, w.proto_source) == (24u32, 104u32, 72u32)
        },
        v == LuaVersion::Lua53 ==> {
            let w = offsets_for(v);
            &&& (w.ci_savedpc, w.ci_callstatus) == (40u32, 66u32)
            &&& (w.callstatus_mask, w.lua_frame_mask, w.lua_frame_when_set) == (
                0xffffu32,
                2u32,
                1u32,
            )
            &&& (w.proto_code, w.proto_linedefined, w.proto_source) == (56u32, 40u32, 104u32)
        },
        v == LuaVersion::Lua54 ==> {
            let w = offsets_for(v);
            &&& (w.ci_savedpc, w.ci_callstatus) == (32u32, 62u32)
            &&& (w.callstatus_mask, w.lua_frame_mask, w.lua_frame_when_set) == (
                0xffffu32,
                2u32,
                0u32,
            )
            &&& (w.proto_code, w.proto_linedefined, w.proto_source) == (64u32, 44u32, 112u32)
        },
{
}

} // verus!
