use lua_flame::lineresolve::{
    decode_abs_entries, decode_deltas, last_executed, walk_line, LineResolver, ProtoLayout,
};
use lua_flame::syms::LuaVersion;

const ABS: i8 = -128;

#[test]
fn walk_line_no_abs_uses_pure_deltas() {
    let deltas = [0i8, 1, 1, 1];
    assert_eq!(walk_line(&deltas, &[], 10, 0), 10);
    assert_eq!(walk_line(&deltas, &[], 10, 1), 11);
    assert_eq!(walk_line(&deltas, &[], 10, 2), 12);
    assert_eq!(walk_line(&deltas, &[], 10, 3), 13);
}

#[test]
fn walk_line_abs_entry_replaces_sentinel_delta() {
    let deltas = [1i8, 1, ABS, 1, 1];
    let abs = [(2, 100)];
    assert_eq!(walk_line(&deltas, &abs, 10, 1), 12);
    assert_eq!(walk_line(&deltas, &abs, 10, 2), 100);
    assert_eq!(walk_line(&deltas, &abs, 10, 3), 101);
    assert_eq!(walk_line(&deltas, &abs, 10, 4), 102);
}

#[test]
fn walk_line_negative_delta() {
    let deltas = [1i8, 1, -3, 1];
    assert_eq!(walk_line(&deltas, &[], 5, 0), 6);
    assert_eq!(walk_line(&deltas, &[], 5, 1), 7);
    assert_eq!(walk_line(&deltas, &[], 5, 2), 4);
    assert_eq!(walk_line(&deltas, &[], 5, 3), 5);
}

#[test]
fn walk_line_pc_beyond_deltas_clamps() {
    let deltas = [1i8, 1];
    assert_eq!(
        walk_line(&deltas, &[], 0, 10),
        walk_line(&deltas, &[], 0, 1)
    );
}

#[test]
fn walk_line_missing_abs_entry_falls_back_to_zero_delta() {
    let deltas = [1i8, ABS, 1];
    assert_eq!(walk_line(&deltas, &[], 10, 0), 11);
    assert_eq!(walk_line(&deltas, &[], 10, 1), 11);
    assert_eq!(walk_line(&deltas, &[], 10, 2), 12);
}

#[test]
fn proto_layout_54_matches_documented_offsets() {
    let l = ProtoLayout::for_version(LuaVersion::Lua54);
    assert_eq!(l.off_sizecode, 24);
    assert_eq!(l.off_sizelineinfo, 28);
    assert_eq!(l.off_sizeabs, 40);
    assert_eq!(l.off_code, 64);
    assert_eq!(l.off_lineinfo, 88);
    assert_eq!(l.off_abslineinfo, 96);
    assert!(l.delta_encoded);
}

#[test]
fn proto_layout_53_has_no_abslineinfo() {
    let l = ProtoLayout::for_version(LuaVersion::Lua53);
    assert_eq!(l.off_sizecode, 24);
    assert_eq!(l.off_sizelineinfo, 28);
    assert_eq!(l.off_sizeabs, 0);
    assert_eq!(l.off_code, 56);
    assert_eq!(l.off_lineinfo, 72);
    assert_eq!(l.off_abslineinfo, 0);
    assert!(!l.delta_encoded);
}

#[test]
fn proto_layout_52_matches_lstate_h() {
    let l = ProtoLayout::for_version(LuaVersion::Lua52);
    assert_eq!(l.off_sizecode, 88);
    assert_eq!(l.off_sizelineinfo, 92);
    assert_eq!(l.off_sizeabs, 0);
    assert_eq!(l.off_code, 24);
    assert_eq!(l.off_lineinfo, 40);
    assert_eq!(l.off_abslineinfo, 0);
    assert!(!l.delta_encoded);
}

#[test]
fn walk_line_negative_pc_gives_the_definition() {
    assert_eq!(walk_line(&[], &[], 7, -1), 7);
    assert_eq!(walk_line(&[1], &[], -7, -1), 0);
}

#[test]
fn walk_line_never_goes_below_zero() {
    assert_eq!(walk_line(&[-100], &[], 10, 0), 0);
}

#[test]
fn walk_line_wraps_around() {
    assert_eq!(walk_line(&[1], &[], i32::MAX, 0), 0);
}

#[test]
fn walk_line_skips_an_entry_for_another_instruction() {
    // The entry is for instruction 2; the sentinel at 0 does not use it up.
    let deltas = [ABS, 1, ABS];
    assert_eq!(walk_line(&deltas, &[(2, 50)], 10, 0), 10);
    assert_eq!(walk_line(&deltas, &[(2, 50)], 10, 1), 11);
    assert_eq!(walk_line(&deltas, &[(2, 50)], 10, 2), 50);
}

#[test]
fn walk_line_takes_the_entry_for_the_index_of_the_sentinel() {
    // An earlier entry at an index without the sentinel is passed over.
    assert_eq!(walk_line(&[1, 1, ABS], &[(0, 50), (2, 100)], 10, 2), 100);
    assert_eq!(walk_line(&[1, 1, ABS], &[(0, 50), (2, 100)], 10, 1), 12);
    // The order of the entries does not matter, and the first one for an index counts.
    assert_eq!(walk_line(&[ABS, ABS], &[(1, 7), (0, 50), (0, 60), (-1, 9), (5, 8)], 10, 0), 50);
    assert_eq!(walk_line(&[ABS, ABS], &[(1, 7), (0, 50), (0, 60), (-1, 9), (5, 8)], 10, 1), 7);
}

#[test]
fn last_executed_is_the_instruction_before_savedpc() {
    assert_eq!(last_executed(0x1010, Some(0x1000)), Some(3));
    assert_eq!(last_executed(0x1004, Some(0x1000)), Some(0));
    assert_eq!(last_executed(0x1003, Some(0x1000)), None);
    assert_eq!(last_executed(0x0fff, Some(0x1000)), None);
    assert_eq!(last_executed(0x1010, Some(0)), None);
    assert_eq!(last_executed(0x1010, None), None);
    assert_eq!(last_executed(0x4_0000_1010, Some(0x1000)), None);
    assert_eq!(last_executed(0x2_0000_0fff, Some(0x1000)), Some(i32::MAX - 1));
    assert_eq!(last_executed(0x2_0000_1000, Some(0x1000)), Some(i32::MAX));
    assert_eq!(last_executed(0x2_0000_1004, Some(0x1000)), None);
}

#[test]
fn line_tables_are_decoded_as_signed_numbers() {
    assert_eq!(decode_deltas(&[0, 1, 0x7f, 0x80, 0xff]), vec![0, 1, 127, -128, -1]);
    assert_eq!(
        decode_abs_entries(&[2, 0, 0, 0, 100, 0, 0, 0, 0xff, 0xff, 0xff, 0xff, 1, 1, 0, 0, 9]),
        vec![(2, 100), (-1, 257)]
    );
}

/// The memory of a process: byte runs at addresses.
fn read(runs: &[(u64, Vec<u8>)], addr: u64, len: u64) -> Option<Vec<u8>> {
    for (start, bytes) in runs {
        if addr >= *start && addr + len <= *start + bytes.len() as u64 {
            let at = (addr - *start) as usize;
            return Some(bytes[at..at + len as usize].to_vec());
        }
    }
    None
}

const PROTO: u64 = 0x5000;
const CODE: u64 = 0x6000;
const LINEINFO: u64 = 0x7000;
const ABSINFO: u64 = 0x8000;

fn put(bytes: &mut [u8], at: u64, value: &[u8]) {
    bytes[at as usize..at as usize + value.len()].copy_from_slice(value);
}

fn proto_54(sizecode: i32, deltas: &[u8], abs: &[(i32, i32)]) -> Vec<(u64, Vec<u8>)> {
    let l = ProtoLayout::for_version(LuaVersion::Lua54);
    let mut proto = vec![0u8; 128];
    put(&mut proto, l.off_sizecode, &sizecode.to_le_bytes());
    put(&mut proto, l.off_sizelineinfo, &(deltas.len() as i32).to_le_bytes());
    put(&mut proto, l.off_sizeabs, &(abs.len() as i32).to_le_bytes());
    put(&mut proto, l.off_code, &CODE.to_le_bytes());
    put(&mut proto, l.off_lineinfo, &LINEINFO.to_le_bytes());
    put(&mut proto, l.off_abslineinfo, &ABSINFO.to_le_bytes());
    let mut entries = Vec::new();
    for (pc, line) in abs {
        entries.extend_from_slice(&pc.to_le_bytes());
        entries.extend_from_slice(&line.to_le_bytes());
    }
    vec![(PROTO, proto), (LINEINFO, deltas.to_vec()), (ABSINFO, entries)]
}

fn resolve_54(runs: Vec<(u64, Vec<u8>)>, savedpc: u64, linedefined: i32) -> i32 {
    let resolver = LineResolver::new(
        move |addr: u64, len: u64| read(&runs, addr, len),
        ProtoLayout::for_version(LuaVersion::Lua54),
    );
    resolver.resolve(PROTO, savedpc, linedefined)
}

#[test]
fn resolver_walks_the_deltas_of_54() {
    let runs = proto_54(5, &[1, 1, 0x80, 1, 1], &[(2, 100)]);
    assert_eq!(resolve_54(runs.clone(), CODE + 4, 10), 11);
    assert_eq!(resolve_54(runs.clone(), CODE + 8, 10), 12);
    assert_eq!(resolve_54(runs.clone(), CODE + 12, 10), 100);
    assert_eq!(resolve_54(runs, CODE + 20, 10), 102);
}

#[test]
fn resolver_gives_zero_where_the_line_cannot_be_determined() {
    let runs = proto_54(2, &[1, 1], &[]);
    // Behind the code, before it, and where nothing can be read.
    assert_eq!(resolve_54(runs.clone(), CODE + 12, 10), 0);
    assert_eq!(resolve_54(runs.clone(), CODE, 10), 0);
    assert_eq!(resolve_54(runs.clone(), 0, 10), 0);
    assert_eq!(resolve_54(vec![], CODE + 4, 10), 0);
    assert_eq!(resolve_54(vec![], CODE + 4, -10), 0);
    // Far behind the code, by a whole turn of a 32-bit instruction index.
    assert_eq!(resolve_54(runs.clone(), CODE + 4 + (4 << 32), 10), 0);
    // The deltas cannot be read.
    let mut unreadable = runs.clone();
    unreadable.remove(1);
    assert_eq!(resolve_54(unreadable, CODE + 4, 10), 0);
    // No deltas at all.
    assert_eq!(resolve_54(proto_54(2, &[], &[]), CODE + 4, 10), 0);
    let resolver = LineResolver::new(
        move |addr: u64, len: u64| read(&runs, addr, len),
        ProtoLayout::for_version(LuaVersion::Lua54),
    );
    assert_eq!(resolver.resolve(0, CODE + 4, 17), 0);
}

#[test]
fn bytes_of_lineinfo_behind_the_instruction_do_not_matter() {
    let whole = proto_54(4, &[1, 1, 1, 1], &[]);
    let mut changed = whole.clone();
    changed[1].1[2] = 77;
    changed[1].1[3] = 0x80;
    // The bytes behind the instruction cannot be read.
    let mut short = whole.clone();
    short[1].1.truncate(2);
    for runs in [whole, changed, short] {
        assert_eq!(resolve_54(runs.clone(), CODE + 8, 10), 12);
        assert_eq!(delta_54(runs, 1, 10), 12);
    }
}

fn delta_54(runs: Vec<(u64, Vec<u8>)>, pc: i32, linedefined: i32) -> i32 {
    let resolver = LineResolver::new(
        move |addr: u64, len: u64| read(&runs, addr, len),
        ProtoLayout::for_version(LuaVersion::Lua54),
    );
    resolver.resolve_delta(PROTO, pc, linedefined)
}

#[test]
fn resolve_delta_walks_up_to_the_instruction() {
    let runs = proto_54(5, &[1, 1, 0x80, 1, 0xff], &[(2, 100)]);
    assert_eq!(delta_54(runs.clone(), 0, 10), 11);
    assert_eq!(delta_54(runs.clone(), 2, 10), 100);
    assert_eq!(delta_54(runs.clone(), 4, 10), 100);
    // Behind the last delta the line is that of the last delta.
    assert_eq!(delta_54(runs.clone(), 40, 10), 100);
    assert_eq!(delta_54(runs, -1, 10), 0);
    assert_eq!(delta_54(vec![], 0, 10), 0);
}

#[test]
fn resolver_ignores_an_absolute_table_that_cannot_be_read() {
    let mut runs = proto_54(3, &[1, 0x80, 1], &[(1, 100)]);
    runs.remove(2);
    assert_eq!(resolve_54(runs, CODE + 12, 10), 12);
}

fn resolve_direct(version: LuaVersion, lines: &[i32], savedpc: u64, linedefined: i32) -> i32 {
    let l = ProtoLayout::for_version(version);
    let mut proto = vec![0u8; 128];
    put(&mut proto, l.off_sizecode, &5i32.to_le_bytes());
    put(&mut proto, l.off_sizelineinfo, &(lines.len() as i32).to_le_bytes());
    put(&mut proto, l.off_code, &CODE.to_le_bytes());
    put(&mut proto, l.off_lineinfo, &LINEINFO.to_le_bytes());
    let mut table = Vec::new();
    for line in lines {
        table.extend_from_slice(&line.to_le_bytes());
    }
    let runs = vec![(PROTO, proto), (LINEINFO, table)];
    LineResolver::new(move |addr: u64, len: u64| read(&runs, addr, len), l)
        .resolve(PROTO, savedpc, linedefined)
}

#[test]
fn resolver_looks_lines_up_in_53_and_52() {
    for version in [LuaVersion::Lua53, LuaVersion::Lua52] {
        assert_eq!(resolve_direct(version, &[21, 22, 23], CODE + 4, 20), 21);
        assert_eq!(resolve_direct(version, &[21, 22, 23], CODE + 12, 20), 23);
        // No entry for the instruction, and an entry that is no line.
        assert_eq!(resolve_direct(version, &[21, 22, 23], CODE + 16, 20), 0);
        assert_eq!(resolve_direct(version, &[0, -1], CODE + 4, 20), 0);
        assert_eq!(resolve_direct(version, &[0, -1], CODE + 8, 20), 0);
    }
}
