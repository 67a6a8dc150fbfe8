use lua_flame::error::LuaError;
use lua_flame::locate::{find_lua_module, ProcessFiles};
use lua_flame::syms::LuaVersion;
use std::cell::RefCell;

/// A 64-bit ELF with one executable segment and one function symbol per name.
fn elf(names: &[&str]) -> Vec<u8> {
    let mut strings = vec![0u8];
    let mut symtab = vec![0u8; 24];
    for name in names {
        symtab.extend_from_slice(&(strings.len() as u32).to_le_bytes());
        symtab.extend_from_slice(&[0x12, 0, 1, 0]);
        symtab.extend_from_slice(&0x400010u64.to_le_bytes());
        symtab.extend_from_slice(&0u64.to_le_bytes());
        strings.extend_from_slice(name.as_bytes());
        strings.push(0);
    }
    let str_at = 120 + symtab.len() as u64;
    let section_at = (str_at + strings.len() as u64).next_multiple_of(8);
    let mut out = vec![0x7f, b'E', b'L', b'F', 2, 1, 1, 0, 0, 0, 0, 0, 0, 0, 0, 0];
    out.extend_from_slice(&3u16.to_le_bytes());
    out.extend_from_slice(&62u16.to_le_bytes());
    out.extend_from_slice(&1u32.to_le_bytes());
    for word in [0u64, 64, section_at] {
        out.extend_from_slice(&word.to_le_bytes());
    }
    out.extend_from_slice(&0u32.to_le_bytes());
    for half in [64u16, 56, 1, 64, 3, 2] {
        out.extend_from_slice(&half.to_le_bytes());
    }
    out.extend_from_slice(&1u32.to_le_bytes());
    out.extend_from_slice(&5u32.to_le_bytes());
    for word in [0u64, 0x400000, 0x400000, 0x1000, 0x1000, 0x1000] {
        out.extend_from_slice(&word.to_le_bytes());
    }
    out.extend_from_slice(&symtab);
    out.extend_from_slice(&strings);
    out.resize(section_at as usize, 0);
    for (kind, at, size, link, entry) in [
        (0u32, 0u64, 0u64, 0u32, 0u64),
        (2, 120, symtab.len() as u64, 2, 24),
        (3, str_at, strings.len() as u64, 0, 0),
    ] {
        out.extend_from_slice(&0u32.to_le_bytes());
        out.extend_from_slice(&kind.to_le_bytes());
        for word in [0, 0, at, size] {
            out.extend_from_slice(&word.to_le_bytes());
        }
        out.extend_from_slice(&link.to_le_bytes());
        out.extend_from_slice(&1u32.to_le_bytes());
        for word in [8, entry] {
            out.extend_from_slice(&word.to_le_bytes());
        }
    }
    out
}

const MAPS: &str = "\
1-2 r-xp 0 08:02 1 /opt/libfakelua.so
3-4 r-xp 0 08:02 2 /usr/lib/libc.so
5-6 r-xp 0 08:02 3 /opt/liblua5.3.so
7-8 r-xp 0 08:02 4 /bin/app
";

fn not_there() -> Result<Vec<u8>, String> {
    Err("not there".to_string())
}

#[test]
fn mappings_named_after_lua_come_first() {
    let read = RefCell::new(Vec::new());
    let files = ProcessFiles {
        read_maps: || Ok(MAPS.to_string()),
        read_exe: || Some(b"/bin/app".to_vec()),
        read_file: |path: &[u8]| {
            read.borrow_mut().push(String::from_utf8(path.to_vec()).unwrap());
            match path {
                b"/opt/libfakelua.so" => Ok(elf(&["unrelated"])),
                b"/opt/liblua5.3.so" => Ok(elf(&["lua_resume"])),
                _ => Ok(elf(&["lua_resume", "lua_toclose"])),
            }
        },
    };
    let module = find_lua_module(7, None, None, &files).unwrap();
    assert_eq!(module.path, b"/opt/liblua5.3.so");
    assert_eq!(module.version, LuaVersion::Lua53);
    assert_eq!(module.offsets.lua_resume, 0x10);
    assert_eq!(
        *read.borrow(),
        vec!["/opt/libfakelua.so".to_string(), "/opt/liblua5.3.so".to_string()]
    );
}

#[test]
fn the_executable_comes_before_the_other_mappings() {
    let files = ProcessFiles {
        read_maps: || Ok(MAPS.to_string()),
        read_exe: || Some(b"/bin/app (deleted)".to_vec()),
        read_file: |path: &[u8]| match path {
            b"/bin/app" | b"/usr/lib/libc.so" => Ok(elf(&["lua_pcallk", "lua_getctx"])),
            _ => not_there(),
        },
    };
    let module = find_lua_module(7, None, None, &files).unwrap();
    assert_eq!(module.path, b"/bin/app");
    assert_eq!(module.version, LuaVersion::Lua52);
}

#[test]
fn other_mappings_come_last() {
    let files = ProcessFiles {
        read_maps: || Ok(MAPS.to_string()),
        read_exe: || None,
        read_file: |path: &[u8]| match path {
            b"/usr/lib/libc.so" => Ok(elf(&["lua_callk"])),
            _ => not_there(),
        },
    };
    let module = find_lua_module(7, None, Some(LuaVersion::Lua54), &files).unwrap();
    assert_eq!(module.path, b"/usr/lib/libc.so");
    assert_eq!(module.version, LuaVersion::Lua54);
}

#[test]
fn every_path_is_tried_once_and_named() {
    let read = RefCell::new(0);
    let files = ProcessFiles {
        read_maps: || Ok(MAPS.to_string()),
        read_exe: || Some(b"/bin//app".to_vec()),
        read_file: |_path: &[u8]| {
            *read.borrow_mut() += 1;
            not_there()
        },
    };
    let err = find_lua_module(7, None, None, &files).unwrap_err();
    assert!(matches!(&err, LuaError::NotFound { pid: 7, .. }));
    assert_eq!(*read.borrow(), 4);
    assert_eq!(
        err.message(),
        "no Lua 5.2/5.3/5.4 runtime found for pid 7. \
         Tried: /opt/libfakelua.so, /opt/liblua5.3.so, /bin//app, /usr/lib/libc.so. \
         If the binary embeds Lua statically, the main executable is scanned \
         automatically \u{2014} usually only --lua-version 5.2|5.3|5.4 is needed \
         (when stripped / LTO-gc'd of version sentinels). Use --lua-module \
         PATH only if auto-discovery picks the wrong ELF. At least one of \
         lua_resume / lua_pcallk / lua_callk must survive in the symbol \
         table for us to uprobe."
    );
}

#[test]
fn a_forced_path_is_the_only_one_read() {
    let files = ProcessFiles {
        read_maps: || panic!("maps read"),
        read_exe: || panic!("executable looked up"),
        read_file: |path: &[u8]| match path {
            b"/opt/mylua" => Ok(elf(&["lua_resume"])),
            _ => not_there(),
        },
    };
    let module = find_lua_module(7, Some(b"/opt/mylua"), Some(LuaVersion::Lua52), &files).unwrap();
    assert_eq!(module.path, b"/opt/mylua");
    assert_eq!(module.version, LuaVersion::Lua52);
    let err = find_lua_module(7, Some(b"/opt/other"), None, &files).unwrap_err();
    assert_eq!(err.message(), "--lua-module /opt/other");
    match err {
        LuaError::ForcedModule(_, cause) => assert_eq!(cause.message(), "not there"),
        _ => panic!("no forced module"),
    }
}

#[test]
fn unreadable_mappings_end_the_search() {
    let files = ProcessFiles {
        read_maps: || Err("no such process".to_string()),
        read_exe: || Some(b"/bin/app".to_vec()),
        read_file: |_path: &[u8]| Ok(elf(&["lua_resume", "lua_getctx"])),
    };
    let err = find_lua_module(-3, None, None, &files).unwrap_err();
    assert!(matches!(err, LuaError::Io(_)));
    assert_eq!(err.message(), "no such process");
}

#[test]
fn a_negative_process_number_is_shown_as_it_is() {
    let files = ProcessFiles {
        read_maps: || Ok(String::new()),
        read_exe: || None,
        read_file: |_path: &[u8]| not_there(),
    };
    let err = find_lua_module(-3, None, None, &files).unwrap_err();
    assert!(err.message().starts_with("no Lua 5.2/5.3/5.4 runtime found for pid -3. Tried: . If"));
}
