use lua_flame::maps::{all_exec_maps, lua_named_maps, parse_maps};
use lua_flame::path::{file_name, same_path, strip_deleted};

#[test]
fn file_names_are_those_of_the_standard_library() {
    for path in [
        "/usr/lib/liblua.so", "a", "a/", "a//", "a/.", "a/./", "a/..", ".", "..", "/", "", "./a", "a/b/..c",
        "...", "/.", "/./", "./.", "a/.hidden", "//a//b",
    ] {
        let expected = std::path::Path::new(path)
            .file_name()
            .map(|n| n.to_str().unwrap().as_bytes().to_vec());
        assert_eq!(file_name(path.as_bytes()), expected, "{path}");
    }
}

#[test]
fn paths_are_compared_by_their_components() {
    let paths = [
        "/a/b", "/a//b", "/a/./b", "/a/b/", "a/b", "./a/b", "/a/../b", "/a/b/.", "", ".", "/", "//", "/a/B",
    ];
    for a in paths {
        for b in paths {
            let expected = std::path::Path::new(a) == std::path::Path::new(b);
            assert_eq!(same_path(a.as_bytes(), b.as_bytes()), expected, "{a} {b}");
        }
    }
}

#[test]
fn the_mark_of_a_deleted_file_is_stripped() {
    assert_eq!(strip_deleted(b"/bin/app (deleted)"), b"/bin/app");
    assert_eq!(strip_deleted(b"/bin/app (deleted) (deleted)"), b"/bin/app (deleted)");
    assert_eq!(strip_deleted(b"/bin/app"), b"/bin/app");
    assert_eq!(strip_deleted(b" (deleted)"), b"");
    assert_eq!(strip_deleted(b"(deleted)"), b"(deleted)");
    // A path that is not UTF-8 is left as it is.
    assert_eq!(strip_deleted(b"/\xff (deleted)"), b"/\xff (deleted)");
}

const MAPS: &str = "\
00400000-00452000 r-xp 00000000 08:02 173521      /usr/bin/app
00651000-00652000 r--p 00051000 08:02 173521      /usr/bin/app
00e03000-00e24000 rw-p 00000000 00:00 0           [heap]
35b1800000-35b1820000 r-xp 00000000 08:02 135522  /usr/lib64/my LUA lib.so
35b1a1f000-35b1a20000 r-xp 0001f000 08:02 135522  /usr/lib64/my LUA lib.so
35b1c00000-35b1dac000 r-xp 00000000 08:02 135870  /usr/lib64/libc.so
35b1fac000-35b1fb0000 rwxp 00000000 00:00 0 
7f0000000000-7f0000001000 r-xp 00000000 08:02 9   /opt/liblua5.4.so (deleted)
7fff00000000-7fff00001000 r-xp 00000000 00:00 0   [vdso]
7fff00002000-7fff00003000 r--p 00000000 08:02 7   /opt/lua-data
";

#[test]
fn mappings_are_parsed_line_by_line() {
    let entries = parse_maps(MAPS);
    assert_eq!(entries.len(), 11);
    assert!(entries[0].executable);
    assert_eq!(entries[0].path.as_deref(), Some("/usr/bin/app"));
    assert!(!entries[1].executable);
    assert_eq!(entries[2].path, None);
    assert_eq!(entries[3].path.as_deref(), Some("/usr/lib64/my LUA lib.so"));
    assert!(entries[6].executable);
    assert_eq!(entries[6].path, None);
    assert_eq!(entries[7].path.as_deref(), Some("/opt/liblua5.4.so"));
    assert_eq!(entries[8].path, None);
    assert!(!entries[10].executable && entries[10].path.is_none());
    assert!(!parse_maps("")[0].executable);
    assert!(!parse_maps("not a mapping")[0].executable);
}

#[test]
fn executable_mappings_are_listed_once() {
    assert_eq!(
        all_exec_maps(MAPS),
        vec![
            "/usr/bin/app".to_string(),
            "/usr/lib64/my LUA lib.so".to_string(),
            "/usr/lib64/libc.so".to_string(),
            "/opt/liblua5.4.so".to_string(),
        ]
    );
    assert_eq!(
        lua_named_maps(MAPS),
        vec!["/usr/lib64/my LUA lib.so".to_string(), "/opt/liblua5.4.so".to_string()]
    );
}
