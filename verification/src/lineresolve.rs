//! Source-line resolution for Lua 5.2 / 5.3 / 5.4 frames.
//!
//! A sampled Lua frame comes as a raw (`Proto*`, `savedpc`, `linedefined`)
//! tuple. The line is found by reading `Proto->code`, `lineinfo` and
//! `abslineinfo` out of the memory of the target process.
//!
//! - Lua 5.4: `lineinfo[i]` is a signed byte delta, and absolute lines stand in
//!   the side table `abslineinfo`.
//! - Lua 5.2 / 5.3: `lineinfo[i]` is a plain `int`, the line of instruction `i`.

use crate::bytes::{le_i32_at, le_u64_at, read_le_i32, read_le_u64, signed_8, to_signed_8};
use crate::syms::LuaVersion;
use vstd::prelude::*;

verus! {

/// The size of a Lua instruction in bytes.
pub const INSTRUCTION_SIZE: u64 = 4;

/// The delta that stands for "see `abslineinfo`".
pub const ABSLINEINFO: i8 = -128;

/// Byte offsets of the `Proto` fields that the resolver reads, in the default
/// layout on 64-bit Linux.
#[derive(Clone, Copy, Debug, PartialEq, Eq, Structural)]
pub struct ProtoLayout {
    pub off_sizecode: u64,
    pub off_sizelineinfo: u64,
    /// 0 where there is no such field (Lua 5.2 / 5.3).
    pub off_sizeabs: u64,
    pub off_code: u64,
    pub off_lineinfo: u64,
    /// 0 where there is no such array (Lua 5.2 / 5.3).
    pub off_abslineinfo: u64,
    /// `lineinfo` holds signed-byte deltas (5.4) and not `int` lines.
    pub delta_encoded: bool,
}

/// The layout of `Proto` in each version.
pub open spec fn proto_layout(v: LuaVersion) -> ProtoLayout {
    match v {
        LuaVersion::Lua54 => ProtoLayout {
            off_sizecode: 24,
            off_sizelineinfo: 28,
            off_sizeabs: 40,
            off_code: 64,
            off_lineinfo: 88,
            off_abslineinfo: 96,
            delta_encoded: true,
        },
        LuaVersion::Lua53 => ProtoLayout {
            off_sizecode: 24,
            off_sizelineinfo: 28,
            off_sizeabs: 0,
            off_code: 56,
            off_lineinfo: 72,
            off_abslineinfo: 0,
            delta_encoded: false,
        },
        LuaVersion::Lua52 => ProtoLayout {
            off_sizecode: 88,
            off_sizelineinfo: 92,
            off_sizeabs: 0,
            off_code: 24,
            off_lineinfo: 40,
            off_abslineinfo: 0,
            delta_encoded: false,
        },
    }
}

impl ProtoLayout {
    /// The layout of `Proto` in version `v`.
    pub fn for_version(v: LuaVersion) -> (r: Self)
        ensures
            r == proto_layout(v),
    {
        match v {
            LuaVersion::Lua54 => ProtoLayout {
                off_sizecode: 24,
                off_sizelineinfo: 28,
                off_sizeabs: 40,
                off_code: 64,
                off_lineinfo: 88,
                off_abslineinfo: 96,
                delta_encoded: true,
            },
            LuaVersion::Lua53 => ProtoLayout {
                off_sizecode: 24,
                off_sizelineinfo: 28,
                off_sizeabs: 0,
                off_code: 56,
                off_lineinfo: 72,
                off_abslineinfo: 0,
                delta_encoded: false,
            },
            LuaVersion::Lua52 => ProtoLayout {
                off_sizecode: 88,
                off_sizelineinfo: 92,
                off_sizeabs: 0,
                off_code: 24,
                off_lineinfo: 40,
                off_abslineinfo: 0,
                delta_encoded: false,
            },
        }
    }
}

/// A line number, or 0 in place of a negative one.
pub open spec fn at_least_zero(line: i32) -> i32 {
    if line < 0 {
        0
    } else {
        line
    }
}

fn clamp_line(line: i32) -> (r: i32)
    ensures
        r == at_least_zero(line),
{
    if line < 0 {
        0
    } else {
        line
    }
}

/// The line of the entry of `abs` for instruction `i`, the first one where there are
/// several.
pub open spec fn absolute_line(abs: Seq<(i32, i32)>, i: int) -> Option<i32>
    decreases abs.len(),
{
    if abs.len() == 0 {
        None
    } else if abs[0].0 == i {
        Some(abs[0].1)
    } else {
        absolute_line(abs.drop_first(), i)
    }
}

/// The running line after the first `n` instructions. A delta is added to the running
/// line. At the sentinel, the line of the entry of `abs` for this very instruction takes
/// its place; where there is no such entry, it stays.
pub open spec fn walked(deltas: Seq<i8>, abs: Seq<(i32, i32)>, linedefined: i32, n: nat) -> i32
    decreases n,
{
    if n == 0 {
        linedefined
    } else {
        let i = n - 1;
        let line = walked(deltas, abs, linedefined, i as nat);
        if deltas[i] != ABSLINEINFO {
            line.wrapping_add(deltas[i] as i32)
        } else {
            match absolute_line(abs, i) {
                Some(absolute) => absolute,
                None => line,
            }
        }
    }
}

/// The line of instruction `pc`, or of the last instruction that has a delta
/// where `pc` lies behind it.
pub open spec fn walked_line(
    deltas: Seq<i8>,
    abs: Seq<(i32, i32)>,
    linedefined: i32,
    pc: i32,
) -> i32 {
    if pc < 0 {
        at_least_zero(linedefined)
    } else if pc < deltas.len() {
        at_least_zero(walked(deltas, abs, linedefined, (pc + 1) as nat))
    } else {
        at_least_zero(walked(deltas, abs, linedefined, deltas.len()))
    }
}

/// The absolute line of each of the first `count` instructions, where there is one.
fn absolute_lines(abs: &[(i32, i32)], count: usize) -> (r: Vec<Option<i32>>)
    ensures
        r@.len() == count,
        forall|i: int| 0 <= i < count ==> #[trigger] r@[i] == absolute_line(abs@, i),
{
    let mut r: Vec<Option<i32>> = Vec::new();
    for k in 0..count
        invariant
            r@.len() == k,
            forall|i: int| 0 <= i < k ==> #[trigger] r@[i] is None,
    {
        r.push(None);
    }
    let mut left: usize = abs.len();
    assert(abs@.skip(left as int).len() == 0);
    // From the last entry to the first, so that the first one for an instruction stays.
    while left > 0
        invariant
            left <= abs@.len(),
            r@.len() == count,
            forall|i: int|
                0 <= i < count ==> #[trigger] r@[i] == absolute_line(abs@.skip(left as int), i),
        decreases left,
    {
        left -= 1;
        let (pc, line): (i32, i32) = abs[left];
        assert(abs@.skip(left as int).drop_first() =~= abs@.skip(left + 1));
        assert(abs@.skip(left as int)[0] == (pc, line));
        if pc >= 0 && (pc as usize) < count {
            r.set(pc as usize, Some(line));
        }
    }
    assert(abs@.skip(0) =~= abs@);
    r
}

/// The source line of instruction `pc`, found by walking `deltas` forward from
/// the first instruction, as Lua 5.4 does.
pub fn walk_line(deltas: &[i8], abs: &[(i32, i32)], linedefined: i32, pc: i32) -> (r: i32)
    requires
        pc >= 0 ==> deltas@.len() > 0,
    ensures
        r == walked_line(deltas@, abs@, linedefined, pc),
{
    if pc < 0 {
        return clamp_line(linedefined);
    }
    let count: usize = if (pc as usize) < deltas.len() {
        pc as usize + 1
    } else {
        deltas.len()
    };
    let absolute = absolute_lines(abs, count);
    let mut line: i32 = linedefined;
    for i in 0..count
        invariant
            count <= deltas@.len(),
            absolute@.len() == count,
            forall|j: int| 0 <= j < count ==> #[trigger] absolute@[j] == absolute_line(abs@, j),
            line == walked(deltas@, abs@, linedefined, i as nat),
    {
        let d: i8 = deltas[i];
        if d == ABSLINEINFO {
            if let Some(found) = absolute[i] {
                line = found;
            }
        } else {
            line = line.wrapping_add(d as i32);
        }
    }
    clamp_line(line)
}

/// The index of the instruction that was executed last. `savedpc` points behind
/// it; `None` where the code pointer is unknown or `savedpc` cannot be behind an
/// instruction of that code.
pub open spec fn executed_pc(savedpc: u64, code: Option<u64>) -> Option<i32> {
    match code {
        Some(code) if code != 0 && savedpc >= code + INSTRUCTION_SIZE => {
            let pc = (savedpc - code) / 4 - 1;
            if pc <= i32::MAX {
                Some(pc as i32)
            } else {
                None
            }
        },
        _ => None,
    }
}

/// The index of the instruction that was executed last.
pub fn last_executed(savedpc: u64, code: Option<u64>) -> (r: Option<i32>)
    ensures
        r == executed_pc(savedpc, code),
{
    match code {
        Some(code) => {
            if code == 0 || savedpc < code || savedpc - code < INSTRUCTION_SIZE {
                return None;
            }
            let pc: u64 = (savedpc - code) / INSTRUCTION_SIZE - 1;
            if pc <= i32::MAX as u64 {
                Some(pc as i32)
            } else {
                None
            }
        },
        None => None,
    }
}

/// The deltas that `lineinfo` holds in Lua 5.4: its bytes, signed.
pub open spec fn line_deltas(bytes: Seq<u8>) -> Seq<i8> {
    bytes.map_values(|b: u8| signed_8(b))
}

/// The `(pc, line)` entries that `abslineinfo` holds.
pub open spec fn abs_entries(bytes: Seq<u8>) -> Seq<(i32, i32)> {
    Seq::new(
        bytes.len() / 8,
        |i: int| (le_i32_at(bytes, 8 * i), le_i32_at(bytes, 8 * i + 4)),
    )
}

/// The deltas that `lineinfo` holds in Lua 5.4.
pub fn decode_deltas(bytes: &[u8]) -> (r: Vec<i8>)
    ensures
        r@ == line_deltas(bytes@),
{
    let mut r: Vec<i8> = Vec::new();
    for i in 0..bytes.len()
        invariant
            r@ == line_deltas(bytes@).take(i as int),
    {
        r.push(to_signed_8(bytes[i]));
        assert(r@ =~= line_deltas(bytes@).take(i + 1));
    }
    assert(line_deltas(bytes@).take(bytes@.len() as int) =~= line_deltas(bytes@));
    r
}

/// The `(pc, line)` entries that `abslineinfo` holds; bytes behind the last whole
/// entry are left alone.
pub fn decode_abs_entries(bytes: &[u8]) -> (r: Vec<(i32, i32)>)
    ensures
        r@ == abs_entries(bytes@),
{
    let count: usize = bytes.len() / 8;
    let mut r: Vec<(i32, i32)> = Vec::new();
    for i in 0..count
        invariant
            count == bytes@.len() / 8,
            bytes@.len() == bytes.len(),
            r@ == abs_entries(bytes@).take(i as int),
    {
        r.push((read_le_i32(bytes, 8 * i), read_le_i32(bytes, 8 * i + 4)));
        assert(r@ =~= abs_entries(bytes@).take(i + 1));
    }
    assert(abs_entries(bytes@).take(count as int) =~= abs_entries(bytes@));
    r
}

/// What a reader's answer for `len` bytes is worth: an answer of another length
/// is a failed read.
pub open spec fn read_outcome(answer: Option<Vec<u8>>, len: u64) -> Option<Seq<u8>> {
    match answer {
        Some(bytes) if bytes@.len() == len => Some(bytes@),
        _ => None,
    }
}

/// The reader `mem` may give `bytes` for the `len` bytes at `addr`.
pub open spec fn reads<M: Fn(u64, u64) -> Option<Vec<u8>>>(
    mem: M,
    addr: u64,
    len: u64,
    bytes: Option<Seq<u8>>,
) -> bool {
    exists|answer: Option<Vec<u8>>| #[trigger]
        call_ensures(mem, (addr, len), answer) && bytes == read_outcome(answer, len)
}

/// The reader may give the pointer `v` at `addr`.
pub open spec fn reads_u64<M: Fn(u64, u64) -> Option<Vec<u8>>>(
    mem: M,
    addr: u64,
    v: Option<u64>,
) -> bool {
    exists|bytes: Option<Seq<u8>>| #[trigger]
        reads(mem, addr, 8, bytes) && v == pointer_in(bytes)
}

/// The reader may give the `int` `v` at `addr`.
pub open spec fn reads_i32<M: Fn(u64, u64) -> Option<Vec<u8>>>(
    mem: M,
    addr: u64,
    v: Option<i32>,
) -> bool {
    exists|bytes: Option<Seq<u8>>| #[trigger] reads(mem, addr, 4, bytes) && v == int_in(bytes)
}

/// The pointer in eight bytes that were read.
pub open spec fn pointer_in(bytes: Option<Seq<u8>>) -> Option<u64> {
    match bytes {
        Some(s) => Some(le_u64_at(s, 0)),
        None => None,
    }
}

/// The `int` in four bytes that were read.
pub open spec fn int_in(bytes: Option<Seq<u8>>) -> Option<i32> {
    match bytes {
        Some(s) => Some(le_i32_at(s, 0)),
        None => None,
    }
}

/// A size field, or 0 where it could not be read.
pub open spec fn size_or_zero(v: Option<i32>) -> i32 {
    match v {
        Some(n) => n,
        None => 0,
    }
}

/// A pointer, or null where it could not be read.
pub open spec fn pointer_or_null(v: Option<u64>) -> u64 {
    match v {
        Some(p) => p,
        None => 0,
    }
}

/// The last instruction of a walk for `pc` through `sizelineinfo` deltas.
pub open spec fn walk_limit(pc: i32, sizelineinfo: i32) -> i32 {
    if pc < sizelineinfo {
        pc
    } else {
        (sizelineinfo - 1) as i32
    }
}

/// The address of the field at offset `off` of `proto`.
pub open spec fn field_at(proto: u64, off: u64) -> u64 {
    proto.wrapping_add(off)
}

fn field_address(proto: u64, off: u64) -> (r: u64)
    ensures
        r == field_at(proto, off),
{
    proto.wrapping_add(off)
}

/// How many bytes a table of `sizeabs` absolute lines takes.
pub open spec fn abs_size(sizeabs: i32) -> u64 {
    (8 * sizeabs) as u64
}

/// How many deltas a walk up to and with instruction `limit` takes.
pub open spec fn delta_count(limit: i32) -> u64 {
    (limit + 1) as u64
}

/// Where `lineinfo[pc]` lies in Lua 5.2 / 5.3.
pub open spec fn line_slot(lineinfo: u64, pc: i32) -> u64 {
    lineinfo.wrapping_add((4 * pc) as u64)
}

/// The line in a slot of `lineinfo` in Lua 5.2 / 5.3, or 0 where the slot could not be
/// read or holds no line.
pub open spec fn slot_line(slot: Option<i32>) -> i32 {
    match slot {
        Some(line) if line > 0 => line,
        _ => 0,
    }
}

/// Resolves the lines of Lua frames out of the memory of the process being
/// profiled. `mem` reads that memory: given an address and a length it answers
/// with that many bytes, or with `None` where they cannot be read. Addresses are
/// added modulo the width of a pointer.
pub struct LineResolver<M> {
    pub mem: M,
    pub layout: ProtoLayout,
}

impl<M: Fn(u64, u64) -> Option<Vec<u8>>> LineResolver<M> {
    /// The reader can be asked for any bytes.
    pub open spec fn can_read(&self) -> bool {
        forall|addr: u64, len: u64| #[trigger] call_requires(self.mem, (addr, len))
    }

    /// Lua 5.2 / 5.3: `line` may be what `lineinfo[pc]` holds.
    pub open spec fn may_resolve_direct(&self, proto: u64, pc: i32, line: i32) -> bool {
        exists|sizelineinfo: Option<i32>| #[trigger]
            reads_i32(self.mem, field_at(proto, self.layout.off_sizelineinfo), sizelineinfo) && (
            if pc >= size_or_zero(sizelineinfo) {
                line == 0
            } else {
                exists|lineinfo: Option<u64>| #[trigger]
                    reads_u64(self.mem, field_at(proto, self.layout.off_lineinfo), lineinfo) && (
                    if pointer_or_null(lineinfo) == 0 {
                        line == 0
                    } else {
                        exists|slot: Option<i32>| #[trigger]
                            reads_i32(self.mem, line_slot(pointer_or_null(lineinfo), pc), slot)
                                && line == slot_line(slot)
                    })
            })
    }

    /// The reader may give the table `abs` of absolute lines of `proto`; it is
    /// empty where there is none or it cannot be read.
    pub open spec fn may_read_abs(
        &self,
        sizeabs: i32,
        abs_ptr: u64,
        abs: Seq<(i32, i32)>,
    ) -> bool {
        if sizeabs > 0 && abs_ptr != 0 {
            exists|bytes: Option<Seq<u8>>| #[trigger]
                reads(self.mem, abs_ptr, abs_size(sizeabs), bytes) && abs == (match bytes {
                    Some(s) => abs_entries(s),
                    None => seq![],
                })
        } else {
            abs == Seq::<(i32, i32)>::empty()
        }
    }

    /// The reader may give `abs_ptr` as the address of the table of absolute
    /// lines; it is null where the table is empty or the field cannot be read.
    pub open spec fn may_locate_abs(&self, proto: u64, sizeabs: i32, abs_ptr: u64) -> bool {
        if sizeabs > 0 {
            exists|p: Option<u64>| #[trigger]
                reads_u64(self.mem, field_at(proto, self.layout.off_abslineinfo), p) && abs_ptr
                    == pointer_or_null(p)
        } else {
            abs_ptr == 0
        }
    }

    /// Lua 5.4: `line` may be what the walk through `lineinfo[0..=pc]` gives.
    pub open spec fn may_resolve_delta(
        &self,
        proto: u64,
        pc: i32,
        linedefined: i32,
        line: i32,
    ) -> bool {
        exists|sizelineinfo: Option<i32>| #[trigger]
            reads_i32(self.mem, field_at(proto, self.layout.off_sizelineinfo), sizelineinfo) && (
            if pc < 0 || size_or_zero(sizelineinfo) <= 0 {
                line == 0
            } else {
                exists|lineinfo: Option<u64>| #[trigger]
                    reads_u64(self.mem, field_at(proto, self.layout.off_lineinfo), lineinfo) && (
                    if lineinfo is None {
                        line == 0
                    } else {
                        self.may_walk(
                            proto,
                            lineinfo->0,
                            walk_limit(pc, size_or_zero(sizelineinfo)),
                            linedefined,
                            line,
                        )
                    })
            })
    }

    /// Lua 5.4: `line` may be what the walk through the deltas at `lineinfo`, up
    /// to and with instruction `limit`, gives.
    pub open spec fn may_walk(
        &self,
        proto: u64,
        lineinfo: u64,
        limit: i32,
        linedefined: i32,
        line: i32,
    ) -> bool {
        exists|deltas: Option<Seq<u8>>| #[trigger]
            reads(self.mem, lineinfo, delta_count(limit), deltas) && (match deltas {
                None => line == 0,
                Some(deltas) => exists|sizeabs: Option<i32>, abs_ptr: u64, abs: Seq<(i32, i32)>|
                    {
                        &&& #[trigger] reads_i32(
                            self.mem,
                            field_at(proto, self.layout.off_sizeabs),
                            sizeabs,
                        )
                        &&& #[trigger] self.may_locate_abs(proto, size_or_zero(sizeabs), abs_ptr)
                        &&& #[trigger] self.may_read_abs(size_or_zero(sizeabs), abs_ptr, abs)
                        &&& line == walked_line(line_deltas(deltas), abs, linedefined, limit)
                    },
            })
    }

    /// `line` may be the line of the frame described by the other three, given
    /// what the reader may answer: each read that is made got one of the answers
    /// that the reader may give there.
    pub open spec fn may_resolve(
        &self,
        proto: u64,
        savedpc: u64,
        linedefined: i32,
        line: i32,
    ) -> bool {
        if proto == 0 || savedpc == 0 {
            line == 0
        } else {
            exists|code: Option<u64>| #[trigger]
                reads_u64(self.mem, field_at(proto, self.layout.off_code), code) && (
                match executed_pc(savedpc, code) {
                    None => line == 0,
                    Some(pc) => exists|sizecode: Option<i32>| #[trigger]
                        reads_i32(self.mem, field_at(proto, self.layout.off_sizecode), sizecode)
                            && (if pc >= size_or_zero(sizecode) {
                            line == 0
                        } else if self.layout.delta_encoded {
                            self.may_resolve_delta(proto, pc, linedefined, line)
                        } else {
                            self.may_resolve_direct(proto, pc, line)
                        }),
                })
        }
    }

    /// A resolver over the reader `mem` for `Proto`s laid out as `layout` says.
    pub fn new(mem: M, layout: ProtoLayout) -> (r: Self)
        ensures
            r.mem == mem,
            r.layout == layout,
    {
        LineResolver { mem, layout }
    }

    /// The source line of the Lua frame described by `proto`, `savedpc` and
    /// `linedefined`. `savedpc` points at the next instruction to execute; the
    /// line is that of the instruction before it, or 0 where it cannot be determined.
    pub fn resolve(&self, proto: u64, savedpc: u64, linedefined: i32) -> (line: i32)
        requires
            self.can_read(),
        ensures
            self.may_resolve(proto, savedpc, linedefined, line),
            line >= 0,
    {
        if proto == 0 || savedpc == 0 {
            return 0;
        }
        let code = self.read_u64(field_address(proto, self.layout.off_code));
        let pc: i32 = match last_executed(savedpc, code) {
            Some(pc) => pc,
            None => return 0,
        };
        let sizecode: i32 = self.read_size(field_address(proto, self.layout.off_sizecode));
        if pc >= sizecode {
            return 0;
        }
        if self.layout.delta_encoded {
            self.resolve_delta(proto, pc, linedefined)
        } else {
            self.resolve_direct(proto, pc)
        }
    }

    /// Lua 5.2 / 5.3: `lineinfo[pc]` is a plain `int`.
    fn resolve_direct(&self, proto: u64, pc: i32) -> (line: i32)
        requires
            self.can_read(),
            pc >= 0,
        ensures
            self.may_resolve_direct(proto, pc, line),
            line >= 0,
    {
        let sizelineinfo: i32 = self.read_size(field_address(proto, self.layout.off_sizelineinfo));
        if pc >= sizelineinfo {
            return 0;
        }
        let lineinfo: u64 = match self.read_u64(field_address(proto, self.layout.off_lineinfo)) {
            Some(p) => {
                if p == 0 {
                    return 0;
                }
                p
            },
            None => return 0,
        };
        let slot: u64 = lineinfo.wrapping_add(4 * (pc as u64));
        assert(slot == line_slot(lineinfo, pc));
        match self.read_i32(slot) {
            Some(line) => {
                if line > 0 {
                    line
                } else {
                    0
                }
            },
            None => 0,
        }
    }

    /// Lua 5.4: the line of instruction `pc`, by the walk through `lineinfo[0..=pc]`,
    /// summing the deltas and taking absolute lines from `abslineinfo`; 0 where it cannot
    /// be determined.
    pub fn resolve_delta(&self, proto: u64, pc: i32, linedefined: i32) -> (line: i32)
        requires
            self.can_read(),
        ensures
            self.may_resolve_delta(proto, pc, linedefined, line),
            line >= 0,
    {
        let sizelineinfo: i32 = self.read_size(field_address(proto, self.layout.off_sizelineinfo));
        if pc < 0 || sizelineinfo <= 0 {
            return 0;
        }
        let lineinfo: u64 = match self.read_u64(field_address(proto, self.layout.off_lineinfo)) {
            Some(p) => p,
            None => return 0,
        };
        let limit: i32 = if pc < sizelineinfo {
            pc
        } else {
            sizelineinfo - 1
        };
        self.walk(proto, lineinfo, limit, linedefined)
    }

    /// The walk through the deltas at `lineinfo`, up to and with instruction
    /// `limit`.
    fn walk(&self, proto: u64, lineinfo: u64, limit: i32, linedefined: i32) -> (line: i32)
        requires
            self.can_read(),
            limit >= 0,
        ensures
            self.may_walk(proto, lineinfo, limit, linedefined, line),
            line >= 0,
    {
        let sizeabs: i32 = self.read_size(field_address(proto, self.layout.off_sizeabs));
        let abs_ptr: u64 = if sizeabs > 0 {
            match self.read_u64(field_address(proto, self.layout.off_abslineinfo)) {
                Some(p) => p,
                None => 0,
            }
        } else {
            0
        };
        assert(self.may_locate_abs(proto, sizeabs, abs_ptr));
        let count: u64 = limit as u64 + 1;
        assert(count == delta_count(limit));
        let deltas = match self.read_bytes(lineinfo, count) {
            Some(bytes) => {
                assert(reads(self.mem, lineinfo, delta_count(limit), Some(bytes@)));
                decode_deltas(bytes.as_slice())
            },
            None => return 0,
        };
        let mut abs: Vec<(i32, i32)> = Vec::new();
        if sizeabs > 0 && abs_ptr != 0 {
            let size: u64 = 8 * (sizeabs as u64);
            assert(size == abs_size(sizeabs));
            if let Some(bytes) = self.read_bytes(abs_ptr, size) {
                assert(reads(self.mem, abs_ptr, abs_size(sizeabs), Some(bytes@)));
                abs = decode_abs_entries(bytes.as_slice());
            }
        }
        assert(self.may_read_abs(sizeabs, abs_ptr, abs@));
        walk_line(deltas.as_slice(), abs.as_slice(), linedefined, limit)
    }

    fn read_u64(&self, addr: u64) -> (r: Option<u64>)
        requires
            self.can_read(),
        ensures
            reads_u64(self.mem, addr, r),
    {
        match self.read_bytes(addr, 8) {
            Some(bytes) => Some(read_le_u64(bytes.as_slice(), 0)),
            None => None,
        }
    }

    fn read_i32(&self, addr: u64) -> (r: Option<i32>)
        requires
            self.can_read(),
        ensures
            reads_i32(self.mem, addr, r),
    {
        match self.read_bytes(addr, 4) {
            Some(bytes) => Some(read_le_i32(bytes.as_slice(), 0)),
            None => None,
        }
    }

    fn read_size(&self, addr: u64) -> (r: i32)
        requires
            self.can_read(),
        ensures
            exists|v: Option<i32>| #[trigger] reads_i32(self.mem, addr, v) && r == size_or_zero(v),
    {
        match self.read_i32(addr) {
            Some(n) => n,
            None => 0,
        }
    }

    fn read_bytes(&self, addr: u64, len: u64) -> (r: Option<Vec<u8>>)
        requires
            self.can_read(),
        ensures
            reads(self.mem, addr, len, read_outcome(r, len)),
            r is Some ==> r->0@.len() == len,
    {
        match (self.mem)(addr, len) {
            Some(bytes) => {
                if bytes.len() as u64 == len {
                    Some(bytes)
                } else {
                    None
                }
            },
            None => None,
        }
    }
}

/// The memory of a process that does not change while it is read: the bytes at an
/// address, or `None` where they cannot be read.
pub type MemoryImage = spec_fn(u64, u64) -> Option<Seq<u8>>;

/// The reader `mem` answers every request as `image` says.
pub open spec fn reads_image<M: Fn(u64, u64) -> Option<Vec<u8>>>(
    mem: M,
    image: MemoryImage,
) -> bool {
    forall|addr: u64, len: u64, answer: Option<Vec<u8>>| #[trigger]
        call_ensures(mem, (addr, len), answer) ==> read_outcome(answer, len) == image(addr, len)
}

/// The `int` at `addr` of an unchanging memory, or 0.
pub open spec fn size_in(image: MemoryImage, addr: u64) -> i32 {
    size_or_zero(int_in(image(addr, 4)))
}

/// Where `lineinfo` of `proto` lies in an unchanging memory.
pub open spec fn lineinfo_in(image: MemoryImage, layout: ProtoLayout, proto: u64) -> u64 {
    pointer_or_null(pointer_in(image(field_at(proto, layout.off_lineinfo), 8)))
}

/// The table of absolute lines of `proto` in an unchanging memory.
pub open spec fn abs_in(image: MemoryImage, layout: ProtoLayout, proto: u64) -> Seq<(i32, i32)> {
    let sizeabs = size_in(image, field_at(proto, layout.off_sizeabs));
    let abs_ptr = pointer_or_null(pointer_in(image(field_at(proto, layout.off_abslineinfo), 8)));
    if sizeabs > 0 && abs_ptr != 0 {
        match image(abs_ptr, abs_size(sizeabs)) {
            Some(s) => abs_entries(s),
            None => seq![],
        }
    } else {
        seq![]
    }
}

/// Lua 5.4: the line of instruction `pc` of `proto` in an unchanging memory.
pub open spec fn delta_line_in(
    image: MemoryImage,
    layout: ProtoLayout,
    proto: u64,
    pc: i32,
    linedefined: i32,
) -> i32 {
    let sizelineinfo = size_in(image, field_at(proto, layout.off_sizelineinfo));
    let lineinfo = pointer_in(image(field_at(proto, layout.off_lineinfo), 8));
    let limit = walk_limit(pc, sizelineinfo);
    if pc < 0 || sizelineinfo <= 0 || lineinfo is None {
        0
    } else {
        match image(lineinfo->0, delta_count(limit)) {
            Some(deltas) => walked_line(
                line_deltas(deltas),
                abs_in(image, layout, proto),
                linedefined,
                limit,
            ),
            None => 0,
        }
    }
}

/// Lua 5.2 / 5.3: the line of instruction `pc` of `proto` in an unchanging memory.
pub open spec fn direct_line_in(
    image: MemoryImage,
    layout: ProtoLayout,
    proto: u64,
    pc: i32,
) -> i32 {
    let sizelineinfo = size_in(image, field_at(proto, layout.off_sizelineinfo));
    let lineinfo = lineinfo_in(image, layout, proto);
    if pc >= sizelineinfo || lineinfo == 0 {
        0
    } else {
        slot_line(int_in(image(line_slot(lineinfo, pc), 4)))
    }
}

/// The line of a frame in an unchanging memory.
pub open spec fn line_in(
    image: MemoryImage,
    layout: ProtoLayout,
    proto: u64,
    savedpc: u64,
    linedefined: i32,
) -> i32 {
    let code = pointer_in(image(field_at(proto, layout.off_code), 8));
    let sizecode = size_in(image, field_at(proto, layout.off_sizecode));
    match executed_pc(savedpc, code) {
        Some(pc) if proto != 0 && savedpc != 0 && pc < sizecode => if layout.delta_encoded {
            delta_line_in(image, layout, proto, pc, linedefined)
        } else {
            direct_line_in(image, layout, proto, pc)
        },
        _ => 0,
    }
}

/// While the memory that is read does not change, a frame has one line only: the
/// one that the memory holds.
pub proof fn resolved_line_is_the_one_in_memory<M: Fn(u64, u64) -> Option<Vec<u8>>>(
    resolver: &LineResolver<M>,
    image: MemoryImage,
    proto: u64,
    savedpc: u64,
    linedefined: i32,
    line: i32,
)
    requires
        reads_image(resolver.mem, image),
        resolver.may_resolve(proto, savedpc, linedefined, line),
    ensures
        line == line_in(image, resolver.layout, proto, savedpc, linedefined),
{
    let mem = resolver.mem;
    assert forall|addr: u64, len: u64, bytes: Option<Seq<u8>>| #[trigger]
        reads(mem, addr, len, bytes) implies bytes == image(addr, len) by {}
    assert forall|addr: u64, v: Option<u64>| #[trigger] reads_u64(mem, addr, v) implies v
        == pointer_in(image(addr, 8)) by {}
    assert forall|addr: u64, v: Option<i32>| #[trigger] reads_i32(mem, addr, v) implies v
        == int_in(image(addr, 4)) by {}
}

/// The same of `LineResolver::resolve_delta`.
pub proof fn delta_line_is_the_one_in_memory<M: Fn(u64, u64) -> Option<Vec<u8>>>(
    resolver: &LineResolver<M>,
    image: MemoryImage,
    proto: u64,
    pc: i32,
    linedefined: i32,
    line: i32,
)
    requires
        reads_image(resolver.mem, image),
        resolver.may_resolve_delta(proto, pc, linedefined, line),
    ensures
        line == delta_line_in(image, resolver.layout, proto, pc, linedefined),
{
    let mem = resolver.mem;
    assert forall|addr: u64, len: u64, bytes: Option<Seq<u8>>| #[trigger]
        reads(mem, addr, len, bytes) implies bytes == image(addr, len) by {}
    assert forall|addr: u64, v: Option<u64>| #[trigger] reads_u64(mem, addr, v) implies v
        == pointer_in(image(addr, 8)) by {}
    assert forall|addr: u64, v: Option<i32>| #[trigger] reads_i32(mem, addr, v) implies v
        == int_in(image(addr, 4)) by {}
}

/// The `len` bytes at `addr` and the bytes from `from` up to `to` have some in common.
pub open spec fn overlaps(addr: u64, len: u64, from: int, to: int) -> bool {
    addr < to && from < addr + len
}

/// Every read that touches none of the bytes from `from` up to `to` gives the same in
/// both memories. What those bytes hold, and whether they can be read, may differ.
pub open spec fn differ_only_in(a: MemoryImage, b: MemoryImage, from: int, to: int) -> bool {
    forall|addr: u64, len: u64|
        !overlaps(addr, len, from, to) ==> #[trigger] a(addr, len) == b(addr, len)
}

/// What a walk reads besides the deltas touches none of the bytes from `from` up to `to`:
/// the fields of `proto`, and the table of absolute lines where there is one.
pub open spec fn proto_lies_outside(
    image: MemoryImage,
    layout: ProtoLayout,
    proto: u64,
    from: int,
    to: int,
) -> bool {
    let sizelineinfo = size_in(image, field_at(proto, layout.off_sizelineinfo));
    let sizeabs = size_in(image, field_at(proto, layout.off_sizeabs));
    let abs_ptr = pointer_or_null(pointer_in(image(field_at(proto, layout.off_abslineinfo), 8)));
    &&& !overlaps(field_at(proto, layout.off_sizelineinfo), 4, from, to)
    &&& sizelineinfo > 0 ==> {
        &&& !overlaps(field_at(proto, layout.off_lineinfo), 8, from, to)
        &&& !overlaps(field_at(proto, layout.off_sizeabs), 4, from, to)
        &&& sizeabs > 0 ==> !overlaps(field_at(proto, layout.off_abslineinfo), 8, from, to)
        &&& sizeabs > 0 && abs_ptr != 0 ==> !overlaps(abs_ptr, abs_size(sizeabs), from, to)
    }
}

/// The walk is bounded by `pc`: what the bytes of `lineinfo` behind instruction `pc` hold,
/// and whether they can be read, does not change the line of that instruction.
pub proof fn walk_is_bounded_by_pc(
    a: MemoryImage,
    b: MemoryImage,
    layout: ProtoLayout,
    proto: u64,
    pc: i32,
    linedefined: i32,
    to: int,
)
    requires
        pc >= 0,
        differ_only_in(a, b, lineinfo_in(a, layout, proto) + pc + 1, to),
        proto_lies_outside(a, layout, proto, lineinfo_in(a, layout, proto) + pc + 1, to),
    ensures
        delta_line_in(a, layout, proto, pc, linedefined) == delta_line_in(
            b,
            layout,
            proto,
            pc,
            linedefined,
        ),
{
    let from = lineinfo_in(a, layout, proto) + pc + 1;
    let sizelineinfo = size_in(a, field_at(proto, layout.off_sizelineinfo));
    let limit = walk_limit(pc, sizelineinfo);
    assert(a(field_at(proto, layout.off_sizelineinfo), 4) == b(
        field_at(proto, layout.off_sizelineinfo),
        4,
    ));
    if sizelineinfo > 0 {
        assert(a(field_at(proto, layout.off_lineinfo), 8) == b(
            field_at(proto, layout.off_lineinfo),
            8,
        ));
        let lineinfo = lineinfo_in(a, layout, proto);
        assert(!overlaps(lineinfo, delta_count(limit), from, to));
        assert(a(lineinfo, delta_count(limit)) == b(lineinfo, delta_count(limit)));
        assert(a(field_at(proto, layout.off_sizeabs), 4) == b(
            field_at(proto, layout.off_sizeabs),
            4,
        ));
        let sizeabs = size_in(a, field_at(proto, layout.off_sizeabs));
        let abs_ptr = pointer_or_null(pointer_in(a(field_at(proto, layout.off_abslineinfo), 8)));
        if sizeabs > 0 {
            assert(a(field_at(proto, layout.off_abslineinfo), 8) == b(
                field_at(proto, layout.off_abslineinfo),
                8,
            ));
            if abs_ptr != 0 {
                assert(a(abs_ptr, abs_size(sizeabs)) == b(abs_ptr, abs_size(sizeabs)));
            }
        }
    }
}

/// `LineResolver::resolve_delta` of two resolvers whose memories differ only in bytes of
/// `lineinfo` behind instruction `pc` gives the same line.
pub proof fn resolvers_agree_up_to_pc<
    M: Fn(u64, u64) -> Option<Vec<u8>>,
    N: Fn(u64, u64) -> Option<Vec<u8>>,
>(
    one: &LineResolver<M>,
    other: &LineResolver<N>,
    a: MemoryImage,
    b: MemoryImage,
    proto: u64,
    pc: i32,
    linedefined: i32,
    to: int,
    line: i32,
    other_line: i32,
)
    requires
        one.layout == other.layout,
        pc >= 0,
        reads_image(one.mem, a),
        reads_image(other.mem, b),
        differ_only_in(a, b, lineinfo_in(a, one.layout, proto) + pc + 1, to),
        proto_lies_outside(a, one.layout, proto, lineinfo_in(a, one.layout, proto) + pc + 1, to),
        one.may_resolve_delta(proto, pc, linedefined, line),
        other.may_resolve_delta(proto, pc, linedefined, other_line),
    ensures
        line == other_line,
{
    delta_line_is_the_one_in_memory(one, a, proto, pc, linedefined, line);
    delta_line_is_the_one_in_memory(other, b, proto, pc, linedefined, other_line);
    walk_is_bounded_by_pc(a, b, one.layout, proto, pc, linedefined, to);
}

/// The same of a whole frame: bytes of `lineinfo` behind the instruction that was executed
/// last do not change its line.
pub proof fn frame_line_is_bounded_by_pc<
    M: Fn(u64, u64) -> Option<Vec<u8>>,
    N: Fn(u64, u64) -> Option<Vec<u8>>,
>(
    one: &LineResolver<M>,
    other: &LineResolver<N>,
    a: MemoryImage,
    b: MemoryImage,
    proto: u64,
    savedpc: u64,
    pc: i32,
    linedefined: i32,
    to: int,
    line: i32,
    other_line: i32,
)
    requires
        one.layout == other.layout,
        one.layout.delta_encoded,
        reads_image(one.mem, a),
        reads_image(other.mem, b),
        executed_pc(savedpc, pointer_in(a(field_at(proto, one.layout.off_code), 8))) == Some(pc),
        differ_only_in(a, b, lineinfo_in(a, one.layout, proto) + pc + 1, to),
        proto_lies_outside(a, one.layout, proto, lineinfo_in(a, one.layout, proto) + pc + 1, to),
        !overlaps(
            field_at(proto, one.layout.off_code),
            8,
            lineinfo_in(a, one.layout, proto) + pc + 1,
            to,
        ),
        !overlaps(
            field_at(proto, one.layout.off_sizecode),
            4,
            lineinfo_in(a, one.layout, proto) + pc + 1,
            to,
        ),
        one.may_resolve(proto, savedpc, linedefined, line),
        other.may_resolve(proto, savedpc, linedefined, other_line),
    ensures
        line == other_line,
{
    resolved_line_is_the_one_in_memory(one, a, proto, savedpc, linedefined, line);
    resolved_line_is_the_one_in_memory(other, b, proto, savedpc, linedefined, other_line);
    let layout = one.layout;
    assert(a(field_at(proto, layout.off_code), 8) == b(field_at(proto, layout.off_code), 8));
    assert(a(field_at(proto, layout.off_sizecode), 4) == b(
        field_at(proto, layout.off_sizecode),
        4,
    ));
    walk_is_bounded_by_pc(a, b, layout, proto, pc, linedefined, to);
}

/// Where no delta is the sentinel and nothing overflows, the line of an
/// instruction is the line of the definition plus the deltas up to it.
pub proof fn walk_without_sentinels_sums_deltas(
    deltas: Seq<i8>,
    abs: Seq<(i32, i32)>,
    linedefined: i32,
    n: nat,
)
    requires
        n <= deltas.len(),
        forall|i: int| 0 <= i < n ==> deltas[i] != ABSLINEINFO,
        forall|k: int|
            0 <= k <= n ==> i32::MIN <= linedefined + #[trigger] delta_sum(deltas.take(k))
                <= i32::MAX,
    ensures
        walked(deltas, abs, linedefined, n) == linedefined + delta_sum(deltas.take(n as int)),
    decreases n,
{
    if n > 0 {
        let m = (n - 1) as nat;
        walk_without_sentinels_sums_deltas(deltas, abs, linedefined, m);
        assert(deltas.take(n as int).drop_last() =~= deltas.take(m as int));
        assert(i32::MIN <= linedefined + delta_sum(deltas.take(n as int)) <= i32::MAX);
        assert(i32::MIN <= linedefined + delta_sum(deltas.take(m as int)) <= i32::MAX);
    }
}

/// The sum of a sequence of deltas.
pub open spec fn delta_sum(deltas: Seq<i8>) -> int
    decreases deltas.len(),
{
    if deltas.len() == 0 {
        0
    } else {
        delta_sum(deltas.drop_last()) + deltas.last()
    }
}

/// An instruction behind the last delta has the line of the last delta.
pub proof fn walk_clamps_beyond_deltas(
    deltas: Seq<i8>,
    abs: Seq<(i32, i32)>,
    linedefined: i32,
    pc: i32,
)
    requires
        0 < deltas.len() <= pc,
    ensures
        walked_line(deltas, abs, linedefined, pc) == walked_line(
            deltas,
            abs,
            linedefined,
            (deltas.len() - 1) as i32,
        ),
{
}

/// At a sentinel whose instruction has an absolute entry, the line is that entry's,
/// whatever the deltas and the entries before it; at any other sentinel it is the line of
/// the instruction before.
pub proof fn sentinel_takes_the_absolute_line(
    deltas: Seq<i8>,
    abs: Seq<(i32, i32)>,
    linedefined: i32,
    pc: i32,
)
    requires
        0 <= pc < deltas.len(),
        deltas[pc as int] == ABSLINEINFO,
    ensures
        walked_line(deltas, abs, linedefined, pc) == match absolute_line(abs, pc as int) {
            Some(line) => at_least_zero(line),
            None => walked_line(deltas, abs, linedefined, (pc - 1) as i32),
        },
{
    reveal_with_fuel(walked, 2);
}

/// No two entries of `abs` are for one instruction.
pub open spec fn is_abs_table(abs: Seq<(i32, i32)>) -> bool {
    forall|i: int, j: int| 0 <= i < j < abs.len() ==> #[trigger] abs[i].0 != #[trigger] abs[j].0
}

proof fn entry_is_the_absolute_line(abs: Seq<(i32, i32)>, j: int)
    requires
        is_abs_table(abs),
        0 <= j < abs.len(),
    ensures
        absolute_line(abs, abs[j].0 as int) == Some(abs[j].1),
    decreases abs.len(),
{
    if j > 0 {
        let rest = abs.drop_first();
        assert(abs[0].0 != abs[j].0);
        assert forall|a: int, b: int| 0 <= a < b < rest.len() implies #[trigger] rest[a].0
            != #[trigger] rest[b].0 by {
            assert(rest[a] == abs[a + 1] && rest[b] == abs[b + 1]);
        }
        assert(rest[j - 1] == abs[j]);
        entry_is_the_absolute_line(rest, j - 1);
    }
}

/// An instruction that holds the sentinel and has one entry in the table has the line of
/// that entry, whatever other entries there are.
pub proof fn table_entry_gives_the_line(
    deltas: Seq<i8>,
    abs: Seq<(i32, i32)>,
    linedefined: i32,
    j: int,
)
    requires
        is_abs_table(abs),
        0 <= j < abs.len(),
        0 <= abs[j].0 < deltas.len(),
        deltas[abs[j].0 as int] == ABSLINEINFO,
    ensures
        walked_line(deltas, abs, linedefined, abs[j].0) == at_least_zero(abs[j].1),
{
    entry_is_the_absolute_line(abs, j);
}

/// Only Lua 5.4 encodes lines as deltas, and only there is a table of absolute
/// lines.
pub proof fn only_54_is_delta_encoded(v: LuaVersion)
    ensures
        proto_layout(v).delta_encoded <==> v == LuaVersion::Lua54,
        proto_layout(v).off_sizeabs != 0 <==> v == LuaVersion::Lua54,
        proto_layout(v).off_abslineinfo != 0 <==> v == LuaVersion::Lua54,
{
}

/// A number as 32 bits with a sign hold it.
spec fn in_32_bits(n: int) -> int {
    (n + 0x8000_0000) % 0x1_0000_0000 - 0x8000_0000
}

/// The running line changes by the delta of each instruction that has one, whether or not
/// a sentinel stands before it.
pub proof fn each_delta_is_added(
    deltas: Seq<i8>,
    abs: Seq<(i32, i32)>,
    linedefined: i32,
    pc: int,
)
    requires
        0 <= pc < deltas.len(),
        deltas[pc] != -128,
    ensures
        walked(deltas, abs, linedefined, (pc + 1) as nat) == (walked(
            deltas,
            abs,
            linedefined,
            pc as nat,
        ) + deltas[pc] + 0x8000_0000) % 0x1_0000_0000 - 0x8000_0000,
{
}

proof fn walk_adds_up(
    deltas: Seq<i8>,
    abs: Seq<(i32, i32)>,
    linedefined: i32,
    from: int,
    to: int,
)
    requires
        0 <= from <= to <= deltas.len(),
        forall|m: int|
            0 <= m < abs.len() && from <= (#[trigger] abs[m]).0 < to ==> deltas[abs[m].0 as int]
                != -128,
    ensures
        walked(deltas, abs, linedefined, to as nat) == in_32_bits(
            walked(deltas, abs, linedefined, from as nat) + deltas.subrange(from, to).filter(
                |d: i8| d != -128,
            ).fold_left(0int, |sum: int, d: i8| sum + d),
        ),
    decreases to - from,
{
    let is_delta = |d: i8| d != -128;
    let plus = |sum: int, d: i8| sum + d;
    let here = deltas.subrange(from, to);
    reveal(Seq::filter);
    if from < to {
        let i = to - 1;
        walk_adds_up(deltas, abs, linedefined, from, i);
        let fewer = deltas.subrange(from, i);
        assert(here.drop_last() =~= fewer);
        assert(here.last() == deltas[i]);
        let sum = fewer.filter(is_delta).fold_left(0int, plus);
        if deltas[i] != -128 {
            each_delta_is_added(deltas, abs, linedefined, i);
            assert(here.filter(is_delta) == fewer.filter(is_delta).push(deltas[i]));
            assert(here.filter(is_delta).drop_last() =~= fewer.filter(is_delta));
        } else {
            assert(here.filter(is_delta) == fewer.filter(is_delta));
            assert forall|m: int| 0 <= m < abs.len() implies (#[trigger] abs[m]).0 != i by {}
            no_entry_no_line(abs, i);
        }
    }
}

proof fn no_entry_no_line(abs: Seq<(i32, i32)>, i: int)
    requires
        forall|m: int| 0 <= m < abs.len() ==> (#[trigger] abs[m]).0 != i,
    ensures
        absolute_line(abs, i) is None,
    decreases abs.len(),
{
    if abs.len() > 0 {
        let rest = abs.drop_first();
        assert(abs[0].0 != i);
        assert forall|m: int| 0 <= m < rest.len() implies (#[trigger] rest[m]).0 != i by {
            assert(rest[m] == abs[m + 1]);
        }
        no_entry_no_line(rest, i);
    }
}

proof fn first_entry_gives_the_line(abs: Seq<(i32, i32)>, k: int)
    requires
        0 <= k < abs.len(),
        forall|m: int| 0 <= m < k ==> (#[trigger] abs[m]).0 != abs[k].0,
    ensures
        absolute_line(abs, abs[k].0 as int) == Some(abs[k].1),
    decreases k,
{
    if k > 0 {
        let rest = abs.drop_first();
        assert(abs[0].0 != abs[k].0);
        assert forall|m: int| 0 <= m < k - 1 implies (#[trigger] rest[m]).0 != rest[k - 1].0 by {
            assert(rest[m] == abs[m + 1]);
        }
        first_entry_gives_the_line(rest, k - 1);
    }
}

/// Behind a sentinel that has an entry, the line of an instruction is the line of that
/// entry plus the deltas between them; a later sentinel without an entry counts for
/// nothing. It does not depend on what stands before the sentinel. The sum is taken in 32
/// bits, and there is no line below 0.
pub proof fn line_is_the_last_absolute_one_plus_the_deltas_behind_it(
    deltas: Seq<i8>,
    abs: Seq<(i32, i32)>,
    linedefined: i32,
    pc: i32,
    sentinel: i32,
    entry: int,
)
    requires
        0 <= sentinel <= pc < deltas.len(),
        deltas[sentinel as int] == -128,
        0 <= entry < abs.len(),
        abs[entry].0 == sentinel,
        forall|m: int| 0 <= m < entry ==> (#[trigger] abs[m]).0 != sentinel,
        forall|m: int|
            0 <= m < abs.len() && sentinel < (#[trigger] abs[m]).0 <= pc
                ==> deltas[abs[m].0 as int] != -128,
    ensures
        ({
            let sum = deltas.subrange(sentinel + 1, pc + 1).filter(|d: i8| d != -128).fold_left(
                0int,
                |sum: int, d: i8| sum + d,
            );
            let line = (abs[entry].1 + sum + 0x8000_0000) % 0x1_0000_0000 - 0x8000_0000;
            walked_line(deltas, abs, linedefined, pc) == if line < 0 {
                0
            } else {
                line
            }
        }),
{
    first_entry_gives_the_line(abs, entry);
    assert(walked(deltas, abs, linedefined, (sentinel + 1) as nat) == abs[entry].1);
    walk_adds_up(deltas, abs, linedefined, sentinel + 1, pc + 1);
}

/// Where no sentinel up to an instruction has an entry, the line of the instruction is the
/// line of the definition plus the deltas up to it.
pub proof fn line_without_an_absolute_one_is_the_definition_plus_the_deltas(
    deltas: Seq<i8>,
    abs: Seq<(i32, i32)>,
    linedefined: i32,
    pc: i32,
)
    requires
        0 <= pc < deltas.len(),
        forall|m: int|
            0 <= m < abs.len() && 0 <= (#[trigger] abs[m]).0 <= pc ==> deltas[abs[m].0 as int]
                != -128,
    ensures
        ({
            let sum = deltas.take(pc + 1).filter(|d: i8| d != -128).fold_left(
                0int,
                |sum: int, d: i8| sum + d,
            );
            let line = (linedefined + sum + 0x8000_0000) % 0x1_0000_0000 - 0x8000_0000;
            walked_line(deltas, abs, linedefined, pc) == if line < 0 {
                0
            } else {
                line
            }
        }),
{
    walk_adds_up(deltas, abs, linedefined, 0, pc + 1);
    assert(deltas.subrange(0, pc + 1) =~= deltas.take(pc + 1));
}

/// Before the first instruction the line is that of the definition; behind the last delta
/// it is that of the last delta.
pub proof fn lines_outside_of_the_deltas(
    deltas: Seq<i8>,
    abs: Seq<(i32, i32)>,
    linedefined: i32,
    pc: i32,
)
    ensures
        pc < 0 && linedefined >= 0 ==> walked_line(deltas, abs, linedefined, pc) == linedefined,
        pc < 0 && linedefined < 0 ==> walked_line(deltas, abs, linedefined, pc) == 0,
        0 < deltas.len() <= pc ==> walked_line(deltas, abs, linedefined, pc) == walked_line(
            deltas,
            abs,
            linedefined,
            (deltas.len() - 1) as i32,
        ),
{
}

/// The instruction that was executed last is the one that ends at the saved program
/// counter, or, where that points into an instruction, the one before that instruction.
pub proof fn executed_instruction_ends_at_savedpc(savedpc: u64, code: u64, pc: i32)
    ensures
        executed_pc(savedpc, None) is None,
        executed_pc(savedpc, Some(0)) is None,
        code > 0 ==> (executed_pc(savedpc, Some(code)) == Some(pc) <==> pc >= 0 && code + 4 * (pc
            + 1) <= savedpc < code + 4 * (pc + 2)),
        code > 0 && (savedpc < code + 4 || savedpc >= code + 4 * 0x8000_0001) ==> executed_pc(
            savedpc,
            Some(code),
        ) is None,
{
}

/// The tables in memory: a byte of `lineinfo` is a signed delta, and eight bytes of
/// `abslineinfo` are the index of an instruction and its line.
pub proof fn tables_are_read_entry_by_entry(bytes: Seq<u8>, i: int)
    ensures
        line_deltas(bytes).len() == bytes.len(),
        0 <= i < bytes.len() ==> (line_deltas(bytes)[i] - bytes[i]) % 0x100 == 0,
        abs_entries(bytes).len() == bytes.len() / 8,
        0 <= i < bytes.len() / 8 ==> {
            &&& (abs_entries(bytes)[i].0 - (bytes[8 * i] + 0x100 * bytes[8 * i + 1] + 0x1_0000
                * bytes[8 * i + 2] + 0x100_0000 * bytes[8 * i + 3])) % 0x1_0000_0000 == 0
            &&& (abs_entries(bytes)[i].1 - (bytes[8 * i + 4] + 0x100 * bytes[8 * i + 5] + 0x1_0000
                * bytes[8 * i + 6] + 0x100_0000 * bytes[8 * i + 7])) % 0x1_0000_0000 == 0
        },
{
}

/// The line of a frame is 0 where it cannot be determined: there is no function or no
/// program counter, the code, its size or the size of the line table cannot be read or is
/// none, or the instruction lies outside of the code.
pub proof fn line_that_cannot_be_determined_is_zero<M: Fn(u64, u64) -> Option<Vec<u8>>>(
    resolver: &LineResolver<M>,
    image: MemoryImage,
    proto: u64,
    savedpc: u64,
    linedefined: i32,
    line: i32,
)
    requires
        forall|addr: u64, len: u64, answer: Option<Vec<u8>>| #[trigger]
            call_ensures(resolver.mem, (addr, len), answer) ==> image(addr, len)
                == match answer {
                Some(bytes) => if bytes@.len() == len {
                    Some(bytes@)
                } else {
                    None
                },
                None => None,
            },
        resolver.may_resolve(proto, savedpc, linedefined, line),
    ensures
        ({
            let layout = resolver.layout;
            let code = image(proto.wrapping_add(layout.off_code), 8);
            let sizecode = image(proto.wrapping_add(layout.off_sizecode), 4);
            let sizelineinfo = image(proto.wrapping_add(layout.off_sizelineinfo), 4);
            let lineinfo = image(proto.wrapping_add(layout.off_lineinfo), 8);
            &&& proto == 0 || savedpc == 0 ==> line == 0
            &&& code is None || le_u64_at(code->0, 0) == 0 || savedpc < le_u64_at(code->0, 0) + 4
                ==> line == 0
            &&& sizecode is None || le_i32_at(sizecode->0, 0) <= 0 ==> line == 0
            &&& code is Some && sizecode is Some && savedpc >= le_u64_at(code->0, 0) + 4 * (
            le_i32_at(sizecode->0, 0) + 1) ==> line == 0
            &&& sizelineinfo is None || le_i32_at(sizelineinfo->0, 0) <= 0 ==> line == 0
            &&& lineinfo is None ==> line == 0
        }),
{
    resolved_line_is_the_one_in_memory(resolver, image, proto, savedpc, linedefined, line);
}

/// Lua 5.4: the line of a function whose code and line table can be read. It is that of the
/// instruction that ends at the saved program counter, by the deltas up to it, or all of
/// them where there are fewer, and by the table of absolute lines, where there is one that
/// can be read.
pub proof fn line_of_a_delta_encoded_function<M: Fn(u64, u64) -> Option<Vec<u8>>>(
    resolver: &LineResolver<M>,
    image: MemoryImage,
    proto: u64,
    savedpc: u64,
    linedefined: i32,
    line: i32,
    code: u64,
    pc: i32,
    sizelineinfo: i32,
    lineinfo: u64,
    deltas: Seq<u8>,
)
    requires
        forall|addr: u64, len: u64, answer: Option<Vec<u8>>| #[trigger]
            call_ensures(resolver.mem, (addr, len), answer) ==> image(addr, len)
                == match answer {
                Some(bytes) => if bytes@.len() == len {
                    Some(bytes@)
                } else {
                    None
                },
                None => None,
            },
        resolver.may_resolve(proto, savedpc, linedefined, line),
        resolver.layout.delta_encoded,
        proto != 0,
        image(proto.wrapping_add(resolver.layout.off_code), 8) matches Some(b) && le_u64_at(b, 0)
            == code,
        code != 0,
        0 <= pc,
        code + 4 * (pc + 1) <= savedpc < code + 4 * (pc + 2),
        image(proto.wrapping_add(resolver.layout.off_sizecode), 4) matches Some(b) && pc < le_i32_at(
            b,
            0,
        ),
        image(proto.wrapping_add(resolver.layout.off_sizelineinfo), 4) matches Some(b) && le_i32_at(
            b,
            0,
        ) == sizelineinfo,
        sizelineinfo > 0,
        image(proto.wrapping_add(resolver.layout.off_lineinfo), 8) matches Some(b) && le_u64_at(
            b,
            0,
        ) == lineinfo,
        deltas.len() == if pc < sizelineinfo {
            pc + 1
        } else {
            sizelineinfo as int
        },
        image(lineinfo, deltas.len() as u64) == Some(deltas),
    ensures
        ({
            let sizeabs = image(proto.wrapping_add(resolver.layout.off_sizeabs), 4);
            let abs_at = image(proto.wrapping_add(resolver.layout.off_abslineinfo), 8);
            let has_abs = sizeabs is Some && le_i32_at(sizeabs->0, 0) > 0 && abs_at is Some
                && le_u64_at(abs_at->0, 0) != 0;
            let table = image(
                le_u64_at(abs_at->0, 0),
                (8 * le_i32_at(sizeabs->0, 0)) as u64,
            );
            let signed = deltas.map_values(|b: u8| signed_8(b));
            &&& has_abs && table is Some ==> line == walked_line(
                signed,
                Seq::new(
                    table->0.len() / 8,
                    |i: int| (le_i32_at(table->0, 8 * i), le_i32_at(table->0, 8 * i + 4)),
                ),
                linedefined,
                pc,
            )
            &&& !has_abs || table is None ==> line == walked_line(
                signed,
                seq![],
                linedefined,
                pc,
            )
        }),
{
    resolved_line_is_the_one_in_memory(resolver, image, proto, savedpc, linedefined, line);
    executed_instruction_ends_at_savedpc(savedpc, code, pc);
    let layout = resolver.layout;
    let limit = walk_limit(pc, sizelineinfo);
    let signed = deltas.map_values(|b: u8| signed_8(b));
    assert(signed =~= line_deltas(deltas));
    let sizeabs = image(proto.wrapping_add(layout.off_sizeabs), 4);
    let abs_at = image(proto.wrapping_add(layout.off_abslineinfo), 8);
    let table = image(le_u64_at(abs_at->0, 0), (8 * le_i32_at(sizeabs->0, 0)) as u64);
    if table is Some {
        assert(abs_entries(table->0) =~= Seq::new(
            table->0.len() / 8,
            |i: int| (le_i32_at(table->0, 8 * i), le_i32_at(table->0, 8 * i + 4)),
        ));
    }
    assert(line == delta_line_in(image, layout, proto, pc, linedefined));
    let abs = abs_in(image, layout, proto);
    assert(delta_count(limit) == deltas.len() as u64);
    assert(line == walked_line(signed, abs, linedefined, limit));
    lines_outside_of_the_deltas(signed, abs, linedefined, pc);
}

/// Lua 5.2 / 5.3: the line of a function whose code and line table can be read is what the
/// table holds for the instruction that ends at the saved program counter. It is 0 where
/// the table is too short, or what it holds cannot be read or is no line.
pub proof fn line_of_a_directly_encoded_function<M: Fn(u64, u64) -> Option<Vec<u8>>>(
    resolver: &LineResolver<M>,
    image: MemoryImage,
    proto: u64,
    savedpc: u64,
    linedefined: i32,
    line: i32,
    code: u64,
    pc: i32,
    sizelineinfo: i32,
    lineinfo: u64,
)
    requires
        forall|addr: u64, len: u64, answer: Option<Vec<u8>>| #[trigger]
            call_ensures(resolver.mem, (addr, len), answer) ==> image(addr, len)
                == match answer {
                Some(bytes) => if bytes@.len() == len {
                    Some(bytes@)
                } else {
                    None
                },
                None => None,
            },
        resolver.may_resolve(proto, savedpc, linedefined, line),
        !resolver.layout.delta_encoded,
        proto != 0,
        image(proto.wrapping_add(resolver.layout.off_code), 8) matches Some(b) && le_u64_at(b, 0)
            == code,
        code != 0,
        0 <= pc,
        code + 4 * (pc + 1) <= savedpc < code + 4 * (pc + 2),
        image(proto.wrapping_add(resolver.layout.off_sizecode), 4) matches Some(b) && pc < le_i32_at(
            b,
            0,
        ),
        image(proto.wrapping_add(resolver.layout.off_sizelineinfo), 4) matches Some(b) && le_i32_at(
            b,
            0,
        ) == sizelineinfo,
        image(proto.wrapping_add(resolver.layout.off_lineinfo), 8) matches Some(b) && le_u64_at(
            b,
            0,
        ) == lineinfo,
        lineinfo + 4 * pc <= u64::MAX,
    ensures
        ({
            let entry = image((lineinfo + 4 * pc) as u64, 4);
            &&& pc < sizelineinfo && lineinfo != 0 && entry is Some && le_i32_at(entry->0, 0) > 0
                ==> line == le_i32_at(entry->0, 0)
            &&& pc >= sizelineinfo || lineinfo == 0 || entry is None || le_i32_at(entry->0, 0) <= 0
                ==> line == 0
        }),
{
    resolved_line_is_the_one_in_memory(resolver, image, proto, savedpc, linedefined, line);
    executed_instruction_ends_at_savedpc(savedpc, code, pc);
    assert(line_slot(lineinfo, pc) == (lineinfo + 4 * pc) as u64);
    assert(line == direct_line_in(image, resolver.layout, proto, pc));
}

/// Lua 5.4: where the deltas up to an instruction cannot be read, it has no line.
pub proof fn unreadable_deltas_give_no_line<M: Fn(u64, u64) -> Option<Vec<u8>>>(
    resolver: &LineResolver<M>,
    image: MemoryImage,
    proto: u64,
    pc: i32,
    linedefined: i32,
    line: i32,
    sizelineinfo: i32,
    lineinfo: u64,
)
    requires
        forall|addr: u64, len: u64, answer: Option<Vec<u8>>| #[trigger]
            call_ensures(resolver.mem, (addr, len), answer) ==> image(addr, len)
                == match answer {
                Some(bytes) => if bytes@.len() == len {
                    Some(bytes@)
                } else {
                    None
                },
                None => None,
            },
        resolver.may_resolve_delta(proto, pc, linedefined, line),
        image(proto.wrapping_add(resolver.layout.off_sizelineinfo), 4) matches Some(b) && le_i32_at(
            b,
            0,
        ) == sizelineinfo,
        image(proto.wrapping_add(resolver.layout.off_lineinfo), 8) matches Some(b) && le_u64_at(
            b,
            0,
        ) == lineinfo,
        0 <= pc,
        0 < sizelineinfo,
        image(
            lineinfo,
            if pc < sizelineinfo {
                (pc + 1) as u64
            } else {
                sizelineinfo as u64
            },
        ) is None,
    ensures
        line == 0,
{
    delta_line_is_the_one_in_memory(resolver, image, proto, pc, linedefined, line);
}

/// Lua 5.4: where the deltas up to the instruction that was executed last cannot be read,
/// the frame has no line.
pub proof fn unreadable_deltas_give_the_frame_no_line<M: Fn(u64, u64) -> Option<Vec<u8>>>(
    resolver: &LineResolver<M>,
    image: MemoryImage,
    proto: u64,
    savedpc: u64,
    linedefined: i32,
    line: i32,
    code: u64,
    pc: i32,
    sizelineinfo: i32,
    lineinfo: u64,
)
    requires
        forall|addr: u64, len: u64, answer: Option<Vec<u8>>| #[trigger]
            call_ensures(resolver.mem, (addr, len), answer) ==> image(addr, len)
                == match answer {
                Some(bytes) => if bytes@.len() == len {
                    Some(bytes@)
                } else {
                    None
                },
                None => None,
            },
        resolver.may_resolve(proto, savedpc, linedefined, line),
        resolver.layout.delta_encoded,
        image(proto.wrapping_add(resolver.layout.off_code), 8) matches Some(b) && le_u64_at(b, 0)
            == code,
        code != 0,
        0 <= pc,
        code + 4 * (pc + 1) <= savedpc < code + 4 * (pc + 2),
        image(proto.wrapping_add(resolver.layout.off_sizelineinfo), 4) matches Some(b) && le_i32_at(
            b,
            0,
        ) == sizelineinfo,
        0 < sizelineinfo,
        image(proto.wrapping_add(resolver.layout.off_lineinfo), 8) matches Some(b) && le_u64_at(
            b,
            0,
        ) == lineinfo,
        image(
            lineinfo,
            if pc < sizelineinfo {
                (pc + 1) as u64
            } else {
                sizelineinfo as u64
            },
        ) is None,
    ensures
        line == 0,
{
    resolved_line_is_the_one_in_memory(resolver, image, proto, savedpc, linedefined, line);
    executed_instruction_ends_at_savedpc(savedpc, code, pc);
}

} // verus!
