use lua_flame::error::LuaError;
use lua_flame::object_file::{Kind, ObjectFile, Segment, Symbol};
use lua_flame::syms::{
    detect_version, module_from_path, module_from_symbols, parse_lua_version, scan_lua_symbols,
    scan_symbols, vaddr_to_file_offset, version_from_name, version_in_name, LuaOffsets, LuaSymbols,
    LuaVersion,
};

#[test]
fn parse_version_accepts_known() {
    assert_eq!(LuaVersion::parse("5.2").unwrap(), LuaVersion::Lua52);
    assert_eq!(LuaVersion::parse("5.3").unwrap(), LuaVersion::Lua53);
    assert_eq!(LuaVersion::parse("5.4").unwrap(), LuaVersion::Lua54);
}

#[test]
fn parse_version_rejects_unknown() {
    assert!(LuaVersion::parse("5.1").is_err());
    assert!(LuaVersion::parse("5.5").is_err());
    assert!(LuaVersion::parse("luajit").is_err());
    assert!(LuaVersion::parse("").is_err());
}

#[test]
fn version_from_name_matches_substrings() {
    assert_eq!(
        version_from_name(b"/usr/lib/liblua5.4.so.0"),
        Some(LuaVersion::Lua54)
    );
    assert_eq!(
        version_from_name(b"/usr/lib/liblua5.3.so.0"),
        Some(LuaVersion::Lua53)
    );
    assert_eq!(
        version_from_name(b"/usr/lib/lua-5.2.so"),
        Some(LuaVersion::Lua52)
    );
    assert_eq!(
        version_from_name(b"/usr/lib/x86_64-linux-gnu/liblua5.4.so.0"),
        Some(LuaVersion::Lua54)
    );
}

#[test]
fn version_from_name_returns_none_for_unrelated() {
    assert_eq!(version_from_name(b"/bin/sh"), None);
    assert_eq!(version_from_name(b"/usr/lib/liblua.so"), None);
}

#[test]
fn detect_version_prefers_sentinels_over_name() {
    let syms = LuaSymbols {
        has_v54_sentinel: true,
        ..Default::default()
    };
    assert_eq!(
        detect_version(&syms, b"/usr/lib/lua5.3").unwrap(),
        LuaVersion::Lua54
    );
}

#[test]
fn detect_version_53_then_52_by_sentinel() {
    let s53 = LuaSymbols {
        has_v53_sentinel: true,
        ..Default::default()
    };
    assert_eq!(
        detect_version(&s53, b"/x/anything").unwrap(),
        LuaVersion::Lua53
    );
    let s52 = LuaSymbols {
        has_v52_sentinel: true,
        ..Default::default()
    };
    assert_eq!(
        detect_version(&s52, b"/x/anything").unwrap(),
        LuaVersion::Lua52
    );
}

#[test]
fn detect_version_falls_back_to_name_then_error() {
    // No sentinels, but name has "lua5.2".
    let syms = LuaSymbols::default();
    assert_eq!(
        detect_version(&syms, b"/usr/lib/liblua5.2.so").unwrap(),
        LuaVersion::Lua52
    );
    // No sentinels and an uninformative name -> error.
    let err = detect_version(&syms, b"/usr/bin/myapp").unwrap_err();
    assert!(err.message().contains("--lua-version"));
}

fn command() -> clap::Command {
    clap::Command::new("lua-flame-rs")
        .arg(clap::Arg::new("pid").long("pid"))
        .arg(clap::Arg::new("lua_version").long("lua-version").value_parser(parse_lua_version))
}

#[test]
fn cli_accepts_lua_version_override() {
    let args = command()
        .try_get_matches_from(["lua-flame-rs", "--pid", "42", "--lua-version", "5.3"])
        .unwrap();
    assert_eq!(args.get_one::<LuaVersion>("lua_version").copied(), Some(LuaVersion::Lua53));
}

#[test]
fn cli_rejects_unsupported_lua_version() {
    let r = command().try_get_matches_from(["lua-flame-rs", "--pid", "42", "--lua-version", "5.1"]);
    assert!(r.is_err());
}

#[test]
fn versions_are_read_as_they_are_written() {
    for v in [LuaVersion::Lua52, LuaVersion::Lua53, LuaVersion::Lua54] {
        assert_eq!(LuaVersion::parse(v.as_str()).unwrap(), v);
        assert_eq!(parse_lua_version(v.as_str()), Ok(v));
    }
    assert_eq!(
        parse_lua_version("5.1"),
        Err("unsupported Lua version '5.1' (expected 5.2, 5.3, or 5.4)".to_string())
    );
}

#[test]
fn names_are_read_in_any_case_and_only_at_the_end_of_the_path() {
    assert_eq!(version_from_name(b"/opt/LibLua5.3.SO"), Some(LuaVersion::Lua53));
    assert_eq!(version_from_name(b"/opt/lua.so.5.4"), Some(LuaVersion::Lua54));
    assert_eq!(version_from_name(b"/opt/lua5.4/bin/tool"), None);
    assert_eq!(version_from_name(b"/opt/lua5.4/"), Some(LuaVersion::Lua54));
    assert_eq!(version_from_name(b"/opt/lua5.4/.."), None);
    assert_eq!(version_from_name(b"/opt/lua5.2-lua5.4"), Some(LuaVersion::Lua54));
    assert_eq!(version_from_name(b"/o\xfft/lua5.2"), Some(LuaVersion::Lua52));
    assert_eq!(version_from_name(b"/opt/lua5.2\xff"), None);
    assert_eq!(version_from_name(b""), None);
    assert_eq!(version_in_name("lua_5.4"), None);
    assert_eq!(version_in_name("LUA5.4"), None);
}

fn function(name: &str, address: u64) -> Symbol {
    Symbol { kind: Kind::Text, name: Some(name.as_bytes().to_vec()), address: Some(address) }
}

fn text_segment() -> Segment {
    Segment { elf_flags: Some(5), address: 0x400000, size: 0x1000, offset: 0x200 }
}

#[test]
fn addresses_are_found_in_executable_segments() {
    let segments = vec![
        Segment { elf_flags: Some(6), address: 0x400000, size: 0x1000, offset: 7 },
        Segment { elf_flags: None, address: 0x400000, size: 0x1000, offset: 8 },
        text_segment(),
        Segment { elf_flags: Some(1), address: 0x400800, size: 0x1000, offset: 9 },
    ];
    assert_eq!(vaddr_to_file_offset(&segments, 0x400000).unwrap(), 0x200);
    assert_eq!(vaddr_to_file_offset(&segments, 0x400fff).unwrap(), 0x11ff);
    assert_eq!(vaddr_to_file_offset(&segments, 0x401000).unwrap(), 0x809);
    let err = vaddr_to_file_offset(&segments, 0x3fffff).unwrap_err();
    assert!(matches!(err, LuaError::OutsideSegments(0x3fffff)));
    assert_eq!(
        err.message(),
        "symbol vaddr 0x3fffff is not inside an executable PT_LOAD segment"
    );
    // A segment that would go beyond the last address ends at it.
    let last = vec![Segment { elf_flags: Some(1), address: u64::MAX - 1, size: 99, offset: 0 }];
    assert!(vaddr_to_file_offset(&last, u64::MAX - 1).is_ok());
    assert!(vaddr_to_file_offset(&last, u64::MAX).is_err());
}

#[test]
fn symbols_are_scanned_by_name_and_kind() {
    let file = ObjectFile {
        symbols: vec![
            function("lua_resume", 0x400010),
            function("lua_pcallk", 0x10),
            Symbol {
                kind: Kind::Data,
                name: Some(b"lua_callk".to_vec()),
                address: Some(0x400020),
            },
            Symbol { kind: Kind::Text, name: None, address: Some(0x400030) },
            Symbol { kind: Kind::Text, name: Some(b"lua_callk".to_vec()), address: None },
            function("lua_stringtonumber", 0x400040),
            function("lua_resumex", 0x400050),
        ],
        dynamic_symbols: vec![],
        segments: vec![text_segment()],
    };
    assert_eq!(
        scan_symbols(&file),
        LuaSymbols {
            lua_resume: Some(0x210),
            has_v53_sentinel: true,
            ..Default::default()
        }
    );
}

#[test]
fn the_last_symbol_of_a_name_counts() {
    let file = ObjectFile {
        symbols: vec![
            function("lua_callk", 0x400010),
            function("lua_callk", 0x400020),
            function("lua_resume", 0x400010),
            function("lua_resume", 0x1),
        ],
        dynamic_symbols: vec![],
        segments: vec![text_segment()],
    };
    let syms = scan_symbols(&file);
    assert_eq!(syms.lua_callk, Some(0x220));
    assert_eq!(syms.lua_resume, None);
}

#[test]
fn every_sentinel_is_known() {
    for (name, version) in [
        ("lua_resetthread", 54),
        ("lua_closethread", 54),
        ("lua_setcstacklimit", 54),
        ("lua_toclose", 54),
        ("lua_warning", 54),
        ("lua_getiuservalue", 54),
        ("lua_stringtonumber", 53),
        ("lua_getctx", 52),
        ("lua_cpcall", 0),
    ] {
        let file = ObjectFile {
            symbols: vec![function(name, 0)],
            dynamic_symbols: vec![],
            segments: vec![],
        };
        let syms = scan_symbols(&file);
        assert_eq!(syms.has_v54_sentinel, version == 54, "{name}");
        assert_eq!(syms.has_v53_sentinel, version == 53, "{name}");
        assert_eq!(syms.has_v52_sentinel, version == 52, "{name}");
        assert!(!syms.is_luajit);
    }
    let jit = ObjectFile {
        symbols: vec![],
        dynamic_symbols: vec![function("luaJIT_setmode", 0)],
        segments: vec![],
    };
    assert!(scan_symbols(&jit).is_luajit);
}

#[test]
fn any_entry_point_makes_a_module() {
    for (resume, pcallk, callk) in [(1, 0, 0), (0, 2, 0), (0, 0, 3), (1, 2, 3)] {
        let some = |offset: u64| if offset == 0 { None } else { Some(offset) };
        let syms = LuaSymbols {
            lua_resume: some(resume),
            lua_pcallk: some(pcallk),
            lua_callk: some(callk),
            has_v52_sentinel: true,
            ..Default::default()
        };
        let module = module_from_symbols(b"/bin/app", &syms, None).unwrap();
        assert_eq!(module.path, b"/bin/app");
        assert_eq!(module.version, LuaVersion::Lua52);
        assert_eq!(
            module.offsets,
            LuaOffsets { lua_resume: resume, lua_pcallk: pcallk, lua_callk: callk }
        );
    }
}

#[test]
fn modules_that_cannot_be_profiled_say_why() {
    let jit = LuaSymbols { lua_resume: Some(1), is_luajit: true, ..Default::default() };
    let err = module_from_symbols(b"/bin/jit", &jit, Some(LuaVersion::Lua54)).unwrap_err();
    assert!(matches!(&err, LuaError::LuaJit(p) if p == b"/bin/jit"));
    assert_eq!(
        err.message(),
        "/bin/jit embeds LuaJIT, which is not supported (only PUC Lua 5.2/5.3/5.4)"
    );
    let none = LuaSymbols { has_v54_sentinel: true, ..Default::default() };
    let err = module_from_symbols(b"/bin/x", &none, Some(LuaVersion::Lua54)).unwrap_err();
    assert!(matches!(err, LuaError::NoEntryPoint(_)));
    assert_eq!(
        err.message(),
        "no lua_resume / lua_pcallk / lua_callk symbol in /bin/x \u{2014} need at least one Lua entry point to attach"
    );
    let bare = LuaSymbols { lua_callk: Some(9), ..Default::default() };
    let err = module_from_symbols(b"/bin/x", &bare, None).unwrap_err();
    assert!(matches!(err, LuaError::UnknownVersion(_)));
    assert_eq!(
        err.message(),
        "cannot determine Lua version of /bin/x (no version-specific symbols found \u{2014} likely stripped or LTO-gc'd); pass --lua-version 5.2|5.3|5.4"
    );
    // The version that is asked for is taken without anything to detect it by.
    let module = module_from_symbols(b"/bin/x", &bare, Some(LuaVersion::Lua53)).unwrap();
    assert_eq!(module.version, LuaVersion::Lua53);
}

/// A 64-bit ELF with one executable segment at 0x400000, symbols and dynamic symbols.
/// Each symbol has a name, a type and an address.
fn elf(symbols: &[(&str, u8, u64)], dynamic: &[(&str, u8, u64)]) -> Vec<u8> {
    let mut strings = vec![0u8];
    let mut table = |list: &[(&str, u8, u64)]| {
        let mut out = vec![0u8; 24];
        for (name, kind, address) in list {
            out.extend_from_slice(&(strings.len() as u32).to_le_bytes());
            out.extend_from_slice(&[0x10 | *kind, 0, 1, 0]);
            out.extend_from_slice(&address.to_le_bytes());
            out.extend_from_slice(&0u64.to_le_bytes());
            strings.extend_from_slice(name.as_bytes());
            strings.push(0);
        }
        out
    };
    let symtab = table(symbols);
    let dynsym = table(dynamic);
    let headers = 64 + 56;
    let sym_at = headers as u64;
    let dyn_at = sym_at + symtab.len() as u64;
    let str_at = dyn_at + dynsym.len() as u64;
    let mut section_at = str_at + strings.len() as u64;
    while section_at % 8 != 0 {
        section_at += 1;
    }
    let mut out = Vec::new();
    out.extend_from_slice(&[0x7f, b'E', b'L', b'F', 2, 1, 1, 0, 0, 0, 0, 0, 0, 0, 0, 0]);
    out.extend_from_slice(&3u16.to_le_bytes());
    out.extend_from_slice(&62u16.to_le_bytes());
    out.extend_from_slice(&1u32.to_le_bytes());
    out.extend_from_slice(&0u64.to_le_bytes());
    out.extend_from_slice(&64u64.to_le_bytes());
    out.extend_from_slice(&section_at.to_le_bytes());
    out.extend_from_slice(&0u32.to_le_bytes());
    for half in [64u16, 56, 1, 64, 4, 3] {
        out.extend_from_slice(&half.to_le_bytes());
    }
    out.extend_from_slice(&1u32.to_le_bytes());
    out.extend_from_slice(&5u32.to_le_bytes());
    for word in [0x200u64, 0x400000, 0x400000, 0x1000, 0x1000, 0x1000] {
        out.extend_from_slice(&word.to_le_bytes());
    }
    out.extend_from_slice(&symtab);
    out.extend_from_slice(&dynsym);
    out.extend_from_slice(&strings);
    out.resize(section_at as usize, 0);
    let mut section = |kind: u32, at: u64, size: u64, link: u32, entry: u64| {
        out.extend_from_slice(&0u32.to_le_bytes());
        out.extend_from_slice(&kind.to_le_bytes());
        out.extend_from_slice(&0u64.to_le_bytes());
        out.extend_from_slice(&0u64.to_le_bytes());
        out.extend_from_slice(&at.to_le_bytes());
        out.extend_from_slice(&size.to_le_bytes());
        out.extend_from_slice(&link.to_le_bytes());
        out.extend_from_slice(&1u32.to_le_bytes());
        out.extend_from_slice(&8u64.to_le_bytes());
        out.extend_from_slice(&entry.to_le_bytes());
    };
    section(0, 0, 0, 0, 0);
    section(2, sym_at, symtab.len() as u64, 3, 24);
    section(11, dyn_at, dynsym.len() as u64, 3, 24);
    section(3, str_at, strings.len() as u64, 0, 0);
    out
}

const FUNC: u8 = 2;
const OBJECT: u8 = 1;

#[test]
fn object_files_are_scanned() {
    let bytes = elf(
        &[
            ("lua_resume", FUNC, 0x400100),
            ("lua_callk", OBJECT, 0x400200),
            ("lua_pcallk", FUNC, 0x400300),
        ],
        &[("lua_pcallk", FUNC, 0x400400), ("lua_getctx", FUNC, 0x400500)],
    );
    // The dynamic symbols come last, and the last symbol of a name counts.
    assert_eq!(
        scan_lua_symbols(&bytes).unwrap(),
        LuaSymbols {
            lua_resume: Some(0x300),
            lua_pcallk: Some(0x600),
            has_v52_sentinel: true,
            ..Default::default()
        }
    );
    let module = module_from_path(b"/bin/app", Ok(bytes), None).unwrap();
    assert_eq!(module.version, LuaVersion::Lua52);
    assert_eq!(
        module.offsets,
        LuaOffsets { lua_resume: 0x300, lua_pcallk: 0x600, lua_callk: 0 }
    );
}

/// A 64-bit PE whose image base is the last multiple of 64 KiB, with one section and two
/// functions in it.
fn pe() -> Vec<u8> {
    let mut out = vec![0u8; 64];
    out[..2].copy_from_slice(b"MZ");
    out[60..64].copy_from_slice(&64u32.to_le_bytes());
    out.extend_from_slice(b"PE\0\0");
    let symbols_at = 64 + 4 + 20 + 112 + 40;
    out.extend_from_slice(&0x8664u16.to_le_bytes());
    out.extend_from_slice(&1u16.to_le_bytes());
    for word in [0u32, symbols_at, 2] {
        out.extend_from_slice(&word.to_le_bytes());
    }
    out.extend_from_slice(&112u16.to_le_bytes());
    out.extend_from_slice(&0x22u16.to_le_bytes());
    let mut optional = vec![0u8; 112];
    optional[..2].copy_from_slice(&0x20bu16.to_le_bytes());
    optional[24..32].copy_from_slice(&0xffff_ffff_ffff_0000u64.to_le_bytes());
    out.extend_from_slice(&optional);
    let mut section = vec![0u8; 40];
    section[..5].copy_from_slice(b".text");
    section[8..12].copy_from_slice(&0x1000u32.to_le_bytes());
    section[12..16].copy_from_slice(&0x10_0000u32.to_le_bytes());
    out.extend_from_slice(&section);
    let mut strings = vec![0u8; 4];
    for name in ["lua_resume", "luaJIT_setmode"] {
        out.extend_from_slice(&0u32.to_le_bytes());
        out.extend_from_slice(&(strings.len() as u32).to_le_bytes());
        out.extend_from_slice(&0x10u32.to_le_bytes());
        out.extend_from_slice(&1u16.to_le_bytes());
        out.extend_from_slice(&0x20u16.to_le_bytes());
        out.extend_from_slice(&[2, 0]);
        strings.extend_from_slice(name.as_bytes());
        strings.push(0);
    }
    let size = strings.len() as u32;
    strings[..4].copy_from_slice(&size.to_le_bytes());
    out.extend_from_slice(&strings);
    out
}

#[test]
fn other_object_files_have_symbols_but_no_offsets() {
    // The addresses of these symbols would lie beyond the last one.
    assert_eq!(
        scan_lua_symbols(&pe()).unwrap(),
        LuaSymbols { is_luajit: true, ..Default::default() }
    );
    let err = module_from_path(b"/opt/lua5.4.exe", Ok(pe()), None).unwrap_err();
    assert!(matches!(err, LuaError::LuaJit(_)));
}

#[test]
fn files_that_are_no_objects_say_so() {
    let err = scan_lua_symbols(b"#!/bin/sh, and nothing more than that").unwrap_err();
    assert!(matches!(err, LuaError::NotAnObject(_)));
    assert_eq!(err.message(), "Unknown file magic");
    let err = module_from_path(b"/bin/sh", Ok(vec![]), None).unwrap_err();
    assert!(matches!(err, LuaError::NotAnObject(_)));
    let err = module_from_path(b"/bin/gone", Err("No such file".to_string()), None).unwrap_err();
    assert!(matches!(err, LuaError::Io(_)));
    assert_eq!(err.message(), "No such file");
}

#[test]
fn sentinels_of_a_file_beat_its_name() {
    let bytes = elf(&[("lua_callk", FUNC, 0x400000), ("lua_warning", FUNC, 0x400001)], &[]);
    let module = module_from_path(b"/usr/lib/lua5.3", Ok(bytes), None).unwrap();
    assert_eq!(module.version, LuaVersion::Lua54);
    let bytes = elf(
        &[
            ("lua_callk", FUNC, 0x400000),
            ("lua_stringtonumber", FUNC, 0x400002),
            ("lua_toclose", FUNC, 0x400001),
        ],
        &[],
    );
    let module = module_from_path(b"/x", Ok(bytes), None).unwrap();
    assert_eq!(module.version, LuaVersion::Lua54);
}
