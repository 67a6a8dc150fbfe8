//! Records that the kernel side of the profiler sends: one native event and any
//! number of Lua events per sample. They come as raw memory of a little-endian
//! machine, laid out as C lays out the fields in the order given here.

use crate::bytes::{
    le_i32_at, le_u32_at, le_u64_at, read_le_i32, read_le_u32, read_le_u64,
};
use crate::text::{decode_lossy, shown_text};
use vstd::prelude::*;
use vstd::slice::slice_subrange;

verus! {

/// A Lua function.
pub const FUNC_TYPE_LUA: i32 = 0;

/// A C closure.
pub const FUNC_TYPE_C: i32 = 1;

/// A light C function.
pub const FUNC_TYPE_LCF: i32 = 2;

/// The room for instruction pointers in a native event.
pub const PERF_MAX_STACK_DEPTH: usize = 127;

/// The room for a copy of the user stack in a native event.
pub const USER_STACK_SNAPSHOT_SIZE: usize = 16384;

/// The room for the chunk name in a Lua event.
pub const CHUNK_NAME_SIZE: usize = 128;

/// The size of a Lua event.
pub const LUA_EVENT_SIZE: usize = 184;

/// The size of a native event without the copy of the user stack.
pub const NATIVE_EVENT_PREFIX_SIZE: usize = 1040;

/// What tells one sample from another.
#[derive(Clone, Copy, Debug, PartialEq, Eq, Hash, Structural)]
pub struct SampleKey {
    pub pid: u32,
    pub tid: u32,
    pub seq: u64,
}

impl Default for SampleKey {
    fn default() -> (r: Self)
        ensures
            r == (SampleKey { pid: 0, tid: 0, seq: 0 }),
    {
        SampleKey { pid: 0, tid: 0, seq: 0 }
    }
}

/// The key as one number.
pub open spec fn key_id(key: SampleKey) -> u128 {
    (key.pid * 0x1_0000_0000_0000_0000_0000_0000 + key.tid * 0x1_0000_0000_0000_0000
        + key.seq) as u128
}

impl SampleKey {
    /// The key as one number.
    pub fn id(&self) -> (r: u128)
        ensures
            r == key_id(*self),
    {
        (self.pid as u128) * 0x1_0000_0000_0000_0000_0000_0000 + (self.tid as u128)
            * 0x1_0000_0000_0000_0000 + self.seq as u128
    }
}

/// Two samples have the same number only if process, thread and sequence number
/// are all the same.
pub proof fn key_id_tells_samples_apart(a: SampleKey, b: SampleKey)
    requires
        key_id(a) == key_id(b),
    ensures
        a == b,
{
}

/// One frame of a Lua call stack.
#[derive(Clone, Copy, Debug)]
pub struct LuaStackEvent {
    pub key: SampleKey,
    /// The distance from the leaf of the stack.
    pub level: i32,
    /// One of the `FUNC_TYPE_` values.
    pub kind: i32,
    /// The source line, or 0 where it is still to be resolved.
    pub line: i32,
    pub linedefined: i32,
    pub funcp: u64,
    pub proto: u64,
    pub savedpc: u64,
    /// The chunk name, up to the first NUL.
    pub name: [u8; CHUNK_NAME_SIZE],
}

impl Default for LuaStackEvent {
    fn default() -> (r: Self)
        ensures
            r.key == (SampleKey { pid: 0, tid: 0, seq: 0 }),
            r.level == 0,
            r.kind == 0,
            r.line == 0,
            r.linedefined == 0,
            r.funcp == 0,
            r.proto == 0,
            r.savedpc == 0,
            r.name@ == Seq::new(CHUNK_NAME_SIZE as nat, |i: int| 0u8),
    {
        let name: [u8; CHUNK_NAME_SIZE] = [0u8; CHUNK_NAME_SIZE];
        assert(name@ =~= Seq::new(CHUNK_NAME_SIZE as nat, |i: int| 0u8));
        LuaStackEvent {
            key: SampleKey { pid: 0, tid: 0, seq: 0 },
            level: 0,
            kind: 0,
            line: 0,
            linedefined: 0,
            funcp: 0,
            proto: 0,
            savedpc: 0,
            name,
        }
    }
}

/// The bytes before the first NUL.
pub open spec fn before_nul(bytes: Seq<u8>) -> Seq<u8>
    decreases bytes.len(),
{
    if bytes.len() == 0 || bytes[0] == 0 {
        seq![]
    } else {
        seq![bytes[0]] + before_nul(bytes.drop_first())
    }
}

proof fn before_nul_is_prefix(bytes: Seq<u8>, n: int)
    requires
        0 <= n <= bytes.len(),
        forall|i: int| 0 <= i < n ==> bytes[i] != 0,
        n < bytes.len() ==> bytes[n] == 0,
    ensures
        before_nul(bytes) == bytes.take(n),
    decreases bytes.len(),
{
    if n > 0 {
        before_nul_is_prefix(bytes.drop_first(), n - 1);
        assert(bytes.take(n) =~= seq![bytes[0]] + bytes.drop_first().take(n - 1));
    } else {
        assert(bytes.take(0) =~= Seq::<u8>::empty());
    }
}

/// The chunk name of a Lua event.
pub open spec fn event_name(ev: LuaStackEvent) -> Seq<char> {
    shown_text(before_nul(ev.name@))
}

impl LuaStackEvent {
    /// The chunk name: the text before the first NUL of `name`.
    pub fn name_str(&self) -> (r: String)
        ensures
            r@ == event_name(*self),
    {
        let bytes = self.name.as_slice();
        let mut n: usize = 0;
        while n < bytes.len() && bytes[n] != 0
            invariant
                n <= bytes@.len(),
                forall|i: int| 0 <= i < n ==> bytes@[i] != 0,
            decreases bytes@.len() - n,
        {
            n += 1;
        }
        proof {
            before_nul_is_prefix(bytes@, n as int);
            assert(bytes@.take(n as int) =~= bytes@.subrange(0, n as int));
        }
        decode_lossy(slice_subrange(bytes, 0, n))
    }
}

/// The key whose memory starts at `at`.
pub open spec fn key_at(data: Seq<u8>, at: int) -> SampleKey {
    SampleKey {
        pid: le_u32_at(data, at),
        tid: le_u32_at(data, at + 4),
        seq: le_u64_at(data, at + 8),
    }
}

fn read_key(data: &[u8]) -> (r: SampleKey)
    requires
        data@.len() >= 16,
    ensures
        r == key_at(data@, 0),
{
    SampleKey {
        pid: read_le_u32(data, 0),
        tid: read_le_u32(data, 4),
        seq: read_le_u64(data, 8),
    }
}

/// `ev` is the Lua event whose memory `data` starts with.
pub open spec fn is_lua_event(data: Seq<u8>, ev: LuaStackEvent) -> bool {
    &&& ev.key == key_at(data, 0)
    &&& ev.level == le_i32_at(data, 16)
    &&& ev.kind == le_i32_at(data, 20)
    &&& ev.line == le_i32_at(data, 24)
    &&& ev.linedefined == le_i32_at(data, 28)
    &&& ev.funcp == le_u64_at(data, 32)
    &&& ev.proto == le_u64_at(data, 40)
    &&& ev.savedpc == le_u64_at(data, 48)
    &&& ev.name@ == data.subrange(56, LUA_EVENT_SIZE as int)
}

/// The Lua event whose memory `data` starts with, or `None` where `data` is too
/// short for one.
pub fn from_bytes_aligned(data: &[u8]) -> (r: Option<LuaStackEvent>)
    ensures
        r is Some <==> data@.len() >= LUA_EVENT_SIZE,
        r is Some ==> is_lua_event(data@, r->0),
{
    if data.len() < LUA_EVENT_SIZE {
        return None;
    }
    let mut name: [u8; CHUNK_NAME_SIZE] = [0u8; CHUNK_NAME_SIZE];
    for i in 0..CHUNK_NAME_SIZE
        invariant
            data@.len() >= LUA_EVENT_SIZE,
            forall|j: int| 0 <= j < i ==> name@[j] == data@[56 + j],
    {
        name[i] = data[56 + i];
    }
    assert(name@ =~= data@.subrange(56, LUA_EVENT_SIZE as int));
    Some(
        LuaStackEvent {
            key: read_key(data),
            level: read_le_i32(data, 16),
            kind: read_le_i32(data, 20),
            line: read_le_i32(data, 24),
            linedefined: read_le_i32(data, 28),
            funcp: read_le_u64(data, 32),
            proto: read_le_u64(data, 40),
            savedpc: read_le_u64(data, 48),
            name,
        },
    )
}

/// The native half of a sample.
#[derive(Clone, Copy, Debug)]
pub struct NativeEvent {
    pub key: SampleKey,
    /// How many of `ips` are in use.
    pub ip_cnt: u32,
    /// How many bytes of `stack` are in use.
    pub stack_len: u32,
    /// Instruction pointers, leaf first.
    pub ips: [u64; PERF_MAX_STACK_DEPTH],
    /// A copy of the user stack.
    pub stack: [u8; USER_STACK_SNAPSHOT_SIZE],
}

impl Default for NativeEvent {
    fn default() -> (r: Self)
        ensures
            r.key == (SampleKey { pid: 0, tid: 0, seq: 0 }),
            r.ip_cnt == 0,
            r.stack_len == 0,
            r.ips@ == Seq::new(PERF_MAX_STACK_DEPTH as nat, |i: int| 0u64),
            r.stack@ == Seq::new(USER_STACK_SNAPSHOT_SIZE as nat, |i: int| 0u8),
    {
        let ips: [u64; PERF_MAX_STACK_DEPTH] = [0u64; PERF_MAX_STACK_DEPTH];
        let stack: [u8; USER_STACK_SNAPSHOT_SIZE] = [0u8; USER_STACK_SNAPSHOT_SIZE];
        assert(ips@ =~= Seq::new(PERF_MAX_STACK_DEPTH as nat, |i: int| 0u64));
        assert(stack@ =~= Seq::new(USER_STACK_SNAPSHOT_SIZE as nat, |i: int| 0u8));
        NativeEvent {
            key: SampleKey { pid: 0, tid: 0, seq: 0 },
            ip_cnt: 0,
            stack_len: 0,
            ips,
            stack,
        }
    }
}

/// The instruction pointers that the kernel collected, leaf first.
pub open spec fn kernel_ips(ne: NativeEvent) -> Seq<u64> {
    if ne.ip_cnt < PERF_MAX_STACK_DEPTH {
        ne.ips@.take(ne.ip_cnt as int)
    } else {
        ne.ips@
    }
}

impl NativeEvent {
    /// The instruction pointers that the kernel collected, leaf first.
    pub fn fallback_ips(&self) -> (r: Vec<u64>)
        ensures
            r@ == kernel_ips(*self),
    {
        let count: usize = if (self.ip_cnt as usize) < PERF_MAX_STACK_DEPTH {
            self.ip_cnt as usize
        } else {
            PERF_MAX_STACK_DEPTH
        };
        let mut r: Vec<u64> = Vec::new();
        for i in 0..count
            invariant
                count <= PERF_MAX_STACK_DEPTH,
                r@ == self.ips@.take(i as int),
        {
            r.push(self.ips[i]);
            assert(r@ =~= self.ips@.take(i + 1));
        }
        assert(self.ips@.take(PERF_MAX_STACK_DEPTH as int) =~= self.ips@);
        r
    }
}

/// How many bytes of the copy of the user stack `data` holds, modulo the width of
/// the length field.
pub open spec fn snapshot_bytes(data: Seq<u8>) -> u32 {
    ((data.len() - NATIVE_EVENT_PREFIX_SIZE) % 0x1_0000_0000) as u32
}

/// `ne` is the native event whose memory `data` starts with. What of the copy of
/// the user stack is not there is zero, and the length of that copy is cut to
/// what is there.
pub open spec fn is_native_event(data: Seq<u8>, ne: NativeEvent) -> bool {
    &&& ne.key == key_at(data, 0)
    &&& ne.ip_cnt == le_u32_at(data, 16)
    &&& ne.stack_len == if le_u32_at(data, 20) < snapshot_bytes(data) {
        le_u32_at(data, 20)
    } else {
        snapshot_bytes(data)
    }
    &&& forall|i: int|
        0 <= i < PERF_MAX_STACK_DEPTH ==> #[trigger] ne.ips@[i] == le_u64_at(data, 24 + 8 * i)
    &&& forall|i: int|
        0 <= i < USER_STACK_SNAPSHOT_SIZE ==> #[trigger] ne.stack@[i] == if
            NATIVE_EVENT_PREFIX_SIZE + i < data.len() {
            data[NATIVE_EVENT_PREFIX_SIZE + i]
        } else {
            0
        }
}

/// The native event whose memory `data` starts with, or `None` where `data` is
/// too short for one. The copy of the user stack may be short or missing.
pub fn native_event_from_bytes(data: &[u8]) -> (r: Option<NativeEvent>)
    ensures
        r is Some <==> data@.len() >= NATIVE_EVENT_PREFIX_SIZE,
        r is Some ==> is_native_event(data@, r->0),
{
    if data.len() < NATIVE_EVENT_PREFIX_SIZE {
        return None;
    }
    let mut ips: [u64; PERF_MAX_STACK_DEPTH] = [0u64; PERF_MAX_STACK_DEPTH];
    for i in 0..PERF_MAX_STACK_DEPTH
        invariant
            data@.len() >= NATIVE_EVENT_PREFIX_SIZE,
            forall|j: int| 0 <= j < i ==> #[trigger] ips@[j] == le_u64_at(data@, 24 + 8 * j),
    {
        ips[i] = read_le_u64(data, 24 + 8 * i);
    }
    let present: usize = data.len() - NATIVE_EVENT_PREFIX_SIZE;
    let copied: usize = if present < USER_STACK_SNAPSHOT_SIZE {
        present
    } else {
        USER_STACK_SNAPSHOT_SIZE
    };
    let mut stack: [u8; USER_STACK_SNAPSHOT_SIZE] = [0u8; USER_STACK_SNAPSHOT_SIZE];
    for i in 0..copied
        invariant
            data@.len() == present + NATIVE_EVENT_PREFIX_SIZE <= usize::MAX,
            copied <= present,
            copied <= USER_STACK_SNAPSHOT_SIZE,
            forall|j: int|
                0 <= j < i ==> #[trigger] stack@[j] == data@[NATIVE_EVENT_PREFIX_SIZE + j],
            forall|j: int| i <= j < USER_STACK_SNAPSHOT_SIZE ==> #[trigger] stack@[j] == 0,
    {
        stack[i] = data[NATIVE_EVENT_PREFIX_SIZE + i];
    }
    let limit: u32 = (present as u64 % 0x1_0000_0000) as u32;
    let claimed: u32 = read_le_u32(data, 20);
    let stack_len: u32 = if claimed < limit {
        claimed
    } else {
        limit
    };
    Some(
        NativeEvent { key: read_key(data), ip_cnt: read_le_u32(data, 16), stack_len, ips, stack },
    )
}

/// The bytes before the first NUL are those before a byte that is 0, or all of them where
/// there is none, and none of them is 0.
pub proof fn name_ends_at_the_first_nul(bytes: Seq<u8>)
    ensures
        before_nul(bytes).is_prefix_of(bytes),
        !before_nul(bytes).contains(0),
        before_nul(bytes).len() < bytes.len() ==> bytes[before_nul(bytes).len() as int] == 0,
    decreases bytes.len(),
{
    if bytes.len() > 0 && bytes[0] != 0 {
        let rest = bytes.drop_first();
        let less = before_nul(rest);
        name_ends_at_the_first_nul(rest);
        let all = before_nul(bytes);
        assert(all =~= seq![bytes[0]] + less);
        assert(less == rest.subrange(0, less.len() as int));
        assert(all =~= bytes.subrange(0, all.len() as int));
        assert forall|i: int| 0 <= i < all.len() implies all[i] != 0 by {
            if i > 0 {
                assert(less.contains(less[i - 1]));
            }
        }
        if less.len() < rest.len() {
            assert(bytes[all.len() as int] == rest[less.len() as int]);
        }
    }
}

/// The kernel's stack is as deep as the event says, but no deeper than there is room, and
/// holds the first of the instruction pointers in their order.
pub proof fn kernel_stack_is_the_part_in_use(ne: NativeEvent, i: int)
    ensures
        kernel_ips(ne).len() <= ne.ip_cnt,
        kernel_ips(ne).len() <= 127,
        kernel_ips(ne).len() == ne.ip_cnt || kernel_ips(ne).len() == 127,
        0 <= i < kernel_ips(ne).len() ==> kernel_ips(ne)[i] == ne.ips@[i],
{
}

/// The key as one number holds process, thread and sequence number, each in bits of its
/// own.
pub proof fn key_id_holds_all_of_the_key(key: SampleKey)
    ensures
        key_id(key) % 0x1_0000_0000_0000_0000 == key.seq,
        key_id(key) / 0x1_0000_0000_0000_0000 % 0x1_0000_0000 == key.tid,
        key_id(key) / 0x1_0000_0000_0000_0000_0000_0000 == key.pid,
{
}

/// The fields of a Lua event stand one behind the other, and what follows the event in
/// memory does not matter.
pub proof fn lua_event_is_read_field_by_field(data: Seq<u8>, more: Seq<u8>, ev: LuaStackEvent)
    requires
        data.len() == 184,
        is_lua_event(data + more, ev),
    ensures
        ev.key.pid == le_u32_at(data, 0),
        ev.key.tid == le_u32_at(data, 4),
        ev.key.seq == le_u64_at(data, 8),
        ev.level == le_i32_at(data, 16),
        ev.kind == le_i32_at(data, 20),
        ev.line == le_i32_at(data, 24),
        ev.linedefined == le_i32_at(data, 28),
        ev.funcp == le_u64_at(data, 32),
        ev.proto == le_u64_at(data, 40),
        ev.savedpc == le_u64_at(data, 48),
        forall|i: int| 0 <= i < 128 ==> ev.name@[i] == data[56 + i],
{
    let all = data + more;
    assert forall|i: int| 0 <= i < 128 implies ev.name@[i] == data[56 + i] by {
        assert(all.subrange(56, 184)[i] == all[56 + i]);
    }
}

/// The fields of a native event stand one behind the other. Of the copy of the user stack
/// no more is in use than the event says, and no more than came; what did not come is 0.
pub proof fn native_event_is_read_field_by_field(data: Seq<u8>, ne: NativeEvent)
    requires
        1040 <= data.len() < 1040 + 0x1_0000_0000,
        is_native_event(data, ne),
    ensures
        ne.key.pid == le_u32_at(data, 0),
        ne.key.tid == le_u32_at(data, 4),
        ne.key.seq == le_u64_at(data, 8),
        ne.ip_cnt == le_u32_at(data, 16),
        ne.stack_len <= le_u32_at(data, 20),
        ne.stack_len <= data.len() - 1040,
        ne.stack_len == le_u32_at(data, 20) || ne.stack_len == data.len() - 1040,
        forall|i: int| 0 <= i < 127 ==> #[trigger] ne.ips@[i] == le_u64_at(data, 24 + 8 * i),
        forall|i: int|
            0 <= i < 16384 && 1040 + i < data.len() ==> #[trigger] ne.stack@[i] == data[1040 + i],
        forall|i: int| 0 <= i < 16384 && 1040 + i >= data.len() ==> #[trigger] ne.stack@[i] == 0,
{
}

/// The chunk name of an event is what its bytes up to the first NUL are shown as.
pub proof fn event_is_named_by_the_bytes_before_the_nul(ev: LuaStackEvent, n: int)
    requires
        0 <= n <= ev.name@.len(),
        forall|i: int| 0 <= i < n ==> ev.name@[i] != 0,
        n < ev.name@.len() ==> ev.name@[n] == 0,
    ensures
        event_name(ev) == shown_text(ev.name@.take(n)),
{
    before_nul_is_prefix(ev.name@, n);
}

/// The kinds of functions are told apart.
pub proof fn kinds_are_told_apart()
    ensures
        FUNC_TYPE_LUA != FUNC_TYPE_C,
        FUNC_TYPE_LUA != FUNC_TYPE_LCF,
        FUNC_TYPE_C != FUNC_TYPE_LCF,
{
}

} // verus!
