//! What can go wrong while the Lua runtime of a process is located.

use crate::text::{
    contains_text, decode_lossy, found_text_is_a_part, join_texts, joined, joining_keeps_the_parts,
    prefixed_hex, push_prefixed_hex, push_signed_decimal, shown_text, signed_decimal,
};
use vstd::prelude::*;
use vstd::string::to_string_from_display_ensures;

verus! {

/// Why no Lua runtime can be profiled.
#[derive(Debug)]
pub enum LuaError {
    /// No such version is supported.
    UnsupportedVersion(String),
    /// The system did not let something be read, and said so.
    Io(String),
    /// The bytes of a file are not those of an object file.
    NotAnObject(object::Error),
    /// The address of a symbol lies in no executable segment.
    OutsideSegments(u64),
    /// The file at this path embeds LuaJIT.
    LuaJit(Vec<u8>),
    /// The file at this path has none of the functions that are probed.
    NoEntryPoint(Vec<u8>),
    /// Nothing tells the Lua version of the file at this path.
    UnknownVersion(Vec<u8>),
    /// The functions of the file at this path cannot be probed.
    NoProbes(Vec<u8>),
    /// The file at the path that was asked for cannot be used.
    ForcedModule(Vec<u8>, Box<LuaError>),
    /// None of the files at these paths can be used.
    NotFound { pid: i32, tried: Vec<Vec<u8>> },
}

/// The paths as they are shown.
pub open spec fn shown_paths(paths: Seq<Vec<u8>>) -> Seq<Seq<char>> {
    paths.map_values(|p: Vec<u8>| shown_text(p@))
}

/// What is said where no file can be used.
pub open spec fn not_found_text(pid: i32, tried: Seq<Vec<u8>>) -> Seq<char> {
    "no Lua 5.2/5.3/5.4 runtime found for pid "@ + signed_decimal(pid as int) + ". Tried: "@
        + joined(shown_paths(tried), ", "@)
        + ". If the binary embeds Lua statically, the main executable is scanned automatically — usually only --lua-version 5.2|5.3|5.4 is needed (when stripped / LTO-gc'd of version sentinels). Use --lua-module PATH only if auto-discovery picks the wrong ELF. At least one of lua_resume / lua_pcallk / lua_callk must survive in the symbol table for us to uprobe."@
}

/// `text` is what is said of the error.
pub open spec fn says(error: LuaError, text: String) -> bool {
    match error {
        LuaError::UnsupportedVersion(version) => text@ == "unsupported Lua version '"@ + version@
            + "' (expected 5.2, 5.3, or 5.4)"@,
        LuaError::Io(reason) => text@ == reason@,
        LuaError::NotAnObject(reason) => to_string_from_display_ensures(&reason, text),
        LuaError::OutsideSegments(vaddr) => text@ == "symbol vaddr "@ + prefixed_hex(vaddr as nat)
            + " is not inside an executable PT_LOAD segment"@,
        LuaError::LuaJit(path) => text@ == shown_text(path@)
            + " embeds LuaJIT, which is not supported (only PUC Lua 5.2/5.3/5.4)"@,
        LuaError::NoEntryPoint(path) => text@
            == "no lua_resume / lua_pcallk / lua_callk symbol in "@ + shown_text(path@)
            + " — need at least one Lua entry point to attach"@,
        LuaError::UnknownVersion(path) => text@ == "cannot determine Lua version of "@ + shown_text(
            path@,
        )
            + " (no version-specific symbols found — likely stripped or LTO-gc'd); pass --lua-version 5.2|5.3|5.4"@,
        LuaError::NoProbes(path) => text@
            == "no Lua entry-point uprobes were attached (expected at least one of lua_resume / lua_pcallk / lua_callk in "@
            + shown_text(path@) + ")"@,
        LuaError::ForcedModule(path, _) => text@ == "--lua-module "@ + shown_text(path@),
        LuaError::NotFound { pid, tried } => text@ == not_found_text(pid, tried@),
    }
}

/// The text around a path.
fn around(before: &str, path: &Vec<u8>, after: &str) -> (r: String)
    ensures
        r@ == before@ + shown_text(path@) + after@,
{
    let mut r = before.to_string();
    r.append(decode_lossy(path.as_slice()).as_str());
    r.append(after);
    r
}

impl LuaError {
    /// What is said of the error.
    pub fn message(&self) -> (r: String)
        ensures
            says(*self, r),
    {
        match self {
            LuaError::UnsupportedVersion(version) => {
                let mut r = "unsupported Lua version '".to_string();
                r.append(version.as_str());
                r.append("' (expected 5.2, 5.3, or 5.4)");
                r
            },
            LuaError::Io(reason) => reason.clone(),
            LuaError::NotAnObject(reason) => reason.to_string(),
            LuaError::OutsideSegments(vaddr) => {
                let mut r = "symbol vaddr ".to_string();
                push_prefixed_hex(&mut r, *vaddr);
                r.append(" is not inside an executable PT_LOAD segment");
                r
            },
            LuaError::LuaJit(path) => {
                let mut r = decode_lossy(path.as_slice());
                r.append(" embeds LuaJIT, which is not supported (only PUC Lua 5.2/5.3/5.4)");
                r
            },
            LuaError::NoEntryPoint(path) => around(
                "no lua_resume / lua_pcallk / lua_callk symbol in ",
                path,
                " — need at least one Lua entry point to attach",
            ),
            LuaError::UnknownVersion(path) => around(
                "cannot determine Lua version of ",
                path,
                " (no version-specific symbols found — likely stripped or LTO-gc'd); pass --lua-version 5.2|5.3|5.4",
            ),
            LuaError::NoProbes(path) => around(
                "no Lua entry-point uprobes were attached (expected at least one of lua_resume / lua_pcallk / lua_callk in ",
                path,
                ")",
            ),
            LuaError::ForcedModule(path, _) => {
                let mut r = "--lua-module ".to_string();
                r.append(decode_lossy(path.as_slice()).as_str());
                r
            },
            LuaError::NotFound { pid, tried } => {
                let mut shown: Vec<String> = Vec::new();
                for i in 0..tried.len()
                    invariant
                        shown@.len() == i,
                        forall|j: int|
                            0 <= j < i ==> (#[trigger] shown@[j])@ == shown_text(tried@[j]@),
                {
                    shown.push(decode_lossy(tried[i].as_slice()));
                }
                assert(shown@.map_values(|p: String| p@) =~= shown_paths(tried@));
                let mut r = "no Lua 5.2/5.3/5.4 runtime found for pid ".to_string();
                push_signed_decimal(&mut r, *pid);
                r.append(". Tried: ");
                r.append(join_texts(shown.as_slice(), ", ").as_str());
                r.append(
                    ". If the binary embeds Lua statically, the main executable is scanned automatically — usually only --lua-version 5.2|5.3|5.4 is needed (when stripped / LTO-gc'd of version sentinels). Use --lua-module PATH only if auto-discovery picks the wrong ELF. At least one of lua_resume / lua_pcallk / lua_callk must survive in the symbol table for us to uprobe.",
                );
                r
            },
        }
    }
}

/// What is said where nothing was found names the process and every path that was tried.
pub proof fn tried_paths_are_named(pid: i32, tried: Seq<Vec<u8>>, i: int)
    requires
        0 <= i < tried.len(),
    ensures
        contains_text(not_found_text(pid, tried), shown_text(tried[i]@)),
        contains_text(not_found_text(pid, tried), signed_decimal(pid as int)),
{
    let shown = shown_paths(tried);
    let sep = ", "@;
    let list = joined(shown, sep);
    let whole = not_found_text(pid, tried);
    let (x, y) = (
        "no Lua 5.2/5.3/5.4 runtime found for pid "@,
        ". If the binary embeds Lua statically, the main executable is scanned automatically — usually only --lua-version 5.2|5.3|5.4 is needed (when stripped / LTO-gc'd of version sentinels). Use --lua-module PATH only if auto-discovery picks the wrong ELF. At least one of lua_resume / lua_pcallk / lua_callk must survive in the symbol table for us to uprobe."@,
    );
    let number = signed_decimal(pid as int);
    let middle = ". Tried: "@;
    assert(whole =~= x + number + (middle + list + y));
    found_text_is_a_part(whole, number);
    // The list is what is before the path, the path, and what is behind it.
    let (before, one, after) = (shown.take(i), seq![shown[i]], shown.skip(i + 1));
    assert(shown =~= before + (one + after));
    joining_keeps_the_parts(one, after, sep);
    joining_keeps_the_parts(before, one + after, sep);
    let start = if i > 0 {
        joined(before, sep) + sep
    } else {
        Seq::<char>::empty()
    };
    let end = if after.len() > 0 {
        sep + joined(after, sep)
    } else {
        Seq::<char>::empty()
    };
    if i == 0 {
        assert(shown =~= one + after);
    }
    if after.len() == 0 {
        assert(one + after =~= one);
    }
    assert(list =~= start + shown[i] + end);
    assert(whole =~= (x + number + middle + start) + shown[i] + (end + y));
    found_text_is_a_part(whole, shown[i]);
    assert(shown[i] == shown_text(tried[i]@));
}

/// What is said of a file names its path.
pub proof fn path_of_a_file_is_named(path: Vec<u8>, cause: Box<LuaError>, text: String)
    requires
        ({
            ||| says(LuaError::LuaJit(path), text)
            ||| says(LuaError::NoEntryPoint(path), text)
            ||| says(LuaError::UnknownVersion(path), text)
            ||| says(LuaError::NoProbes(path), text)
            ||| says(LuaError::ForcedModule(path, cause), text)
        }),
    ensures
        contains_text(text@, shown_text(path@)),
{
    let shown = shown_text(path@);
    let nothing = Seq::<char>::empty();
    found_text_is_a_part(text@, shown);
    let jit = " embeds LuaJIT, which is not supported (only PUC Lua 5.2/5.3/5.4)"@;
    assert(nothing + shown + jit =~= shown + jit);
    let forced = "--lua-module "@;
    assert(forced + shown + nothing =~= forced + shown);
}

/// What is said of an address names it; what the system said is passed on; what is said of
/// a version names it.
pub proof fn what_was_given_is_named(vaddr: u64, given: String, text: String)
    ensures
        says(LuaError::OutsideSegments(vaddr), text) ==> contains_text(
            text@,
            prefixed_hex(vaddr as nat),
        ),
        says(LuaError::Io(given), text) <==> text@ == given@,
        says(LuaError::UnsupportedVersion(given), text) ==> contains_text(text@, given@),
{
    found_text_is_a_part(text@, prefixed_hex(vaddr as nat));
    found_text_is_a_part(text@, given@);
}

} // verus!
