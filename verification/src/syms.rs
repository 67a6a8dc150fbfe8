//! The Lua runtime that a file holds: a shared library or an executable that Lua is
//! linked into, its version (5.2 / 5.3 / 5.4), and where in the file the functions
//! stand that are probed.
//!
//! The version is found by, in this order:
//!
//! - symbols that only one version exports;
//! - the version in the name of the file (`liblua5.3.so`, `lua-5.4`, ...).
//!
//! LuaJIT is never accepted: its internals are different.

use crate::error::LuaError;
use crate::object_file::{
    all_symbols, object_in, parse_object, segment_views, symbol_view, symbol_views, Kind, ObjectFile,
    Segment, SegmentView, Symbol, SymbolView,
};
use crate::path::{
    copy_bytes, file_name, name_part, name_stands_behind_the_last_separator, same_bytes,
};
use crate::text::{
    ascii_letters_are_lowered, chars_of, contains_text, decode_strict, find_text, lowered, same_text,
};
use vstd::prelude::*;
use vstd::utf8::{decode_utf8, encode_utf8, is_ascii_chars, valid_utf8};

verus! {

/// The Lua versions that can be profiled.
#[derive(Clone, Copy, Debug, PartialEq, Eq, Structural)]
pub enum LuaVersion {
    Lua52,
    Lua53,
    Lua54,
}

/// The version as a user writes it.
pub open spec fn version_text(v: LuaVersion) -> Seq<char> {
    match v {
        LuaVersion::Lua52 => "5.2"@,
        LuaVersion::Lua53 => "5.3"@,
        LuaVersion::Lua54 => "5.4"@,
    }
}

impl LuaVersion {
    /// The version as a user writes it.
    pub fn as_str(self) -> (r: &'static str)
        ensures
            r@ == version_text(self),
    {
        match self {
            LuaVersion::Lua52 => "5.2",
            LuaVersion::Lua53 => "5.3",
            LuaVersion::Lua54 => "5.4",
        }
    }

    /// The version that `s` names.
    pub fn parse(s: &str) -> (r: Result<Self, LuaError>)
        ensures
            match r {
                Ok(v) => s@ == version_text(v),
                Err(e) => {
                    &&& forall|v: LuaVersion| s@ != #[trigger] version_text(v)
                    &&& e matches LuaError::UnsupportedVersion(text) && text@ == s@
                },
            },
    {
        if same_text(s, "5.2") {
            Ok(LuaVersion::Lua52)
        } else if same_text(s, "5.3") {
            Ok(LuaVersion::Lua53)
        } else if same_text(s, "5.4") {
            Ok(LuaVersion::Lua54)
        } else {
            Err(LuaError::UnsupportedVersion(s.to_string()))
        }
    }
}

/// No two versions are written in the same way: a version that is written and read
/// again is the same one.
pub proof fn version_texts_tell_versions_apart(a: LuaVersion, b: LuaVersion)
    ensures
        version_text(a) == version_text(b) <==> a == b,
{
    reveal_strlit("5.2");
    reveal_strlit("5.3");
    reveal_strlit("5.4");
    assert("5.2"@[2] == '2' && "5.3"@[2] == '3' && "5.4"@[2] == '4');
}

/// The version that `s` names, or what is wrong with it in words.
pub fn parse_lua_version(s: &str) -> (r: Result<LuaVersion, String>)
    ensures
        match r {
            Ok(v) => s@ == version_text(v),
            Err(text) => {
                &&& forall|v: LuaVersion| s@ != #[trigger] version_text(v)
                &&& text@ == "unsupported Lua version '"@ + s@ + "' (expected 5.2, 5.3, or 5.4)"@
            },
        },
{
    match LuaVersion::parse(s) {
        Ok(v) => Ok(v),
        Err(e) => Err(e.message()),
    }
}

/// Where in the file the probed functions stand. A function that is not there has the
/// offset 0.
#[derive(Clone, Copy, Debug, PartialEq, Eq, Structural)]
pub struct LuaOffsets {
    pub lua_resume: u64,
    pub lua_pcallk: u64,
    pub lua_callk: u64,
}

impl Default for LuaOffsets {
    fn default() -> (r: Self)
        ensures
            r == (LuaOffsets { lua_resume: 0, lua_pcallk: 0, lua_callk: 0 }),
    {
        LuaOffsets { lua_resume: 0, lua_pcallk: 0, lua_callk: 0 }
    }
}

/// A file that holds a Lua runtime.
#[derive(Debug)]
pub struct LuaModule {
    pub path: Vec<u8>,
    pub version: LuaVersion,
    pub offsets: LuaOffsets,
}

/// What the symbols of a file say of Lua.
#[derive(Clone, Copy, Debug, PartialEq, Eq)]
pub struct LuaSymbols {
    /// The file offset of each probed function, where it is there and can be found.
    pub lua_resume: Option<u64>,
    pub lua_pcallk: Option<u64>,
    pub lua_callk: Option<u64>,
    pub is_luajit: bool,
    /// There is a function that only the version exports.
    pub has_v54_sentinel: bool,
    pub has_v53_sentinel: bool,
    pub has_v52_sentinel: bool,
}

impl Default for LuaSymbols {
    fn default() -> (r: Self)
        ensures
            r == (LuaSymbols {
                lua_resume: None,
                lua_pcallk: None,
                lua_callk: None,
                is_luajit: false,
                has_v54_sentinel: false,
                has_v53_sentinel: false,
                has_v52_sentinel: false,
            }),
    {
        LuaSymbols {
            lua_resume: None,
            lua_pcallk: None,
            lua_callk: None,
            is_luajit: false,
            has_v54_sentinel: false,
            has_v53_sentinel: false,
            has_v52_sentinel: false,
        }
    }
}

/// The flag of a segment that can be executed.
pub const PF_X: u32 = 1;

/// The end of a segment, or the last address where it would lie behind that.
pub open spec fn segment_end(address: u64, size: u64) -> u64 {
    if address + size > u64::MAX {
        u64::MAX
    } else {
        (address + size) as u64
    }
}

/// The virtual address lies in the segment, and the segment can be executed.
pub open spec fn in_segment(segment: SegmentView, vaddr: u64) -> bool {
    let (flags, address, size, _) = segment;
    &&& flags is Some
    &&& flags->0 & PF_X != 0
    &&& address <= vaddr < segment_end(address, size)
}

/// Where the virtual address stands in the file, by the first executable segment that
/// it lies in.
pub open spec fn file_offset(segments: Seq<SegmentView>, vaddr: u64) -> Option<u64>
    decreases segments.len(),
{
    if segments.len() == 0 {
        None
    } else if in_segment(segments[0], vaddr) {
        Some(((vaddr - segments[0].1 + segments[0].3) % 0x1_0000_0000_0000_0000) as u64)
    } else {
        file_offset(segments.drop_first(), vaddr)
    }
}

proof fn file_offset_skips(segments: Seq<SegmentView>, vaddr: u64, n: int)
    requires
        0 <= n <= segments.len(),
        forall|i: int| 0 <= i < n ==> !in_segment(#[trigger] segments[i], vaddr),
    ensures
        file_offset(segments, vaddr) == file_offset(segments.skip(n), vaddr),
    decreases n,
{
    if n > 0 {
        assert(!in_segment(segments[0], vaddr));
        let rest = segments.drop_first();
        assert forall|i: int| 0 <= i < n - 1 implies !in_segment(#[trigger] rest[i], vaddr) by {
            assert(rest[i] == segments[i + 1]);
        }
        file_offset_skips(rest, vaddr, n - 1);
        assert(rest.skip(n - 1) =~= segments.skip(n));
    } else {
        assert(segments.skip(0) =~= segments);
    }
}

/// Where the virtual address stands in the file, by the executable segment that it
/// lies in.
pub fn vaddr_to_file_offset(segments: &Vec<Segment>, vaddr: u64) -> (r: Result<u64, LuaError>)
    ensures
        match r {
            Ok(offset) => file_offset(segment_views(segments@), vaddr) == Some(offset),
            Err(e) => {
                &&& file_offset(segment_views(segments@), vaddr) is None
                &&& e matches LuaError::OutsideSegments(v) && v == vaddr
            },
        },
{
    let ghost all = segment_views(segments@);
    for i in 0..segments.len()
        invariant
            all == segment_views(segments@),
            forall|j: int| 0 <= j < i ==> !in_segment(#[trigger] all[j], vaddr),
    {
        let seg = &segments[i];
        assert(all[i as int] == (seg.elf_flags, seg.address, seg.size, seg.offset));
        if let Some(flags) = seg.elf_flags {
            if (flags & PF_X) != 0 && seg.address <= vaddr && vaddr < seg.address.saturating_add(
                seg.size,
            ) {
                proof {
                    file_offset_skips(all, vaddr, i as int);
                    assert(all.skip(i as int)[0] == all[i as int]);
                }
                return Ok((vaddr - seg.address).wrapping_add(seg.offset));
            }
        }
    }
    proof {
        file_offset_skips(all, vaddr, all.len() as int);
        assert(all.skip(all.len() as int).len() == 0);
    }
    Err(LuaError::OutsideSegments(vaddr))
}

/// The symbol is a function of that name.
pub open spec fn is_function(symbol: SymbolView, name: Seq<char>) -> bool {
    symbol.0 == Kind::Text && symbol.1 == Some(encode_utf8(name))
}

/// There is a function of that name.
pub open spec fn has_function(
    symbols: Seq<SymbolView>,
    name: Seq<char>,
) -> bool {
    exists|i: int| 0 <= i < symbols.len() && is_function(#[trigger] symbols[i], name)
}

/// Where in the file a symbol stands, if it has an address that lies in an executable
/// segment.
pub open spec fn offset_in_file(symbol: SymbolView, segments: Seq<SegmentView>) -> Option<u64> {
    match symbol.2 {
        Some(address) => file_offset(segments, address),
        None => None,
    }
}

/// Where in the file the last function of that name stands.
pub open spec fn function_offset(
    symbols: Seq<SymbolView>,
    segments: Seq<SegmentView>,
    name: Seq<char>,
) -> Option<u64>
    decreases symbols.len(),
{
    if symbols.len() == 0 {
        None
    } else if is_function(symbols.last(), name) {
        offset_in_file(symbols.last(), segments)
    } else {
        function_offset(symbols.drop_last(), segments, name)
    }
}

/// There is a function that only Lua 5.4 exports.
pub open spec fn speaks_54(symbols: Seq<SymbolView>) -> bool {
    ||| has_function(symbols, "lua_resetthread"@)
    ||| has_function(symbols, "lua_closethread"@)
    ||| has_function(symbols, "lua_setcstacklimit"@)
    ||| has_function(symbols, "lua_toclose"@)
    ||| has_function(symbols, "lua_warning"@)
    ||| has_function(symbols, "lua_getiuservalue"@)
}

/// What symbols and segments say of Lua.
pub open spec fn scanned(
    symbols: Seq<SymbolView>,
    segments: Seq<SegmentView>,
) -> LuaSymbols {
    LuaSymbols {
        lua_resume: function_offset(symbols, segments, "lua_resume"@),
        lua_pcallk: function_offset(symbols, segments, "lua_pcallk"@),
        lua_callk: function_offset(symbols, segments, "lua_callk"@),
        is_luajit: has_function(symbols, "luaJIT_setmode"@),
        has_v54_sentinel: speaks_54(symbols),
        has_v53_sentinel: has_function(symbols, "lua_stringtonumber"@),
        has_v52_sentinel: has_function(symbols, "lua_getctx"@),
    }
}

proof fn has_function_grows(
    symbols: Seq<SymbolView>,
    n: int,
    name: Seq<char>,
)
    requires
        0 <= n < symbols.len(),
    ensures
        has_function(symbols.take(n + 1), name) <==> has_function(symbols.take(n), name)
            || is_function(symbols[n], name),
{
    let (less, more) = (symbols.take(n), symbols.take(n + 1));
    if has_function(less, name) {
        let i = choose|i: int| 0 <= i < less.len() && is_function(#[trigger] less[i], name);
        assert(more[i] == less[i]);
    }
    if is_function(symbols[n], name) {
        assert(is_function(more[n], name));
    }
    if has_function(more, name) {
        let i = choose|i: int| 0 <= i < more.len() && is_function(#[trigger] more[i], name);
        if i < n {
            assert(less[i] == more[i]);
        }
    }
}

/// The symbol is a function of that name.
fn names_function(symbol: &Symbol, name: &str) -> (r: bool)
    ensures
        r == is_function(symbol_view(*symbol), name@),
{
    if symbol.kind != Kind::Text {
        return false;
    }
    match &symbol.name {
        Some(bytes) => same_bytes(bytes.as_slice(), name.as_bytes()),
        None => false,
    }
}

/// The symbol is a function that only Lua 5.4 exports.
fn names_54_function(symbol: &Symbol) -> (r: bool)
    ensures
        r == ({
            let view = symbol_view(*symbol);
            ||| is_function(view, "lua_resetthread"@)
            ||| is_function(view, "lua_closethread"@)
            ||| is_function(view, "lua_setcstacklimit"@)
            ||| is_function(view, "lua_toclose"@)
            ||| is_function(view, "lua_warning"@)
            ||| is_function(view, "lua_getiuservalue"@)
        }),
{
    names_function(symbol, "lua_resetthread") || names_function(symbol, "lua_closethread")
        || names_function(symbol, "lua_setcstacklimit") || names_function(symbol, "lua_toclose")
        || names_function(symbol, "lua_warning") || names_function(symbol, "lua_getiuservalue")
}

/// Where in the file a symbol stands.
fn symbol_offset(segments: &Vec<Segment>, symbol: &Symbol) -> (r: Option<u64>)
    ensures
        r == offset_in_file(symbol_view(*symbol), segment_views(segments@)),
{
    match symbol.address {
        Some(address) => match vaddr_to_file_offset(segments, address) {
            Ok(offset) => Some(offset),
            Err(_) => None,
        },
        None => None,
    }
}

/// Adds to `found`, which the symbols `earlier` gave, what the symbols of one more table
/// say of Lua.
fn scan_table(
    found: LuaSymbols,
    Ghost(earlier): Ghost<Seq<SymbolView>>,
    table: &Vec<Symbol>,
    segments: &Vec<Segment>,
) -> (r: LuaSymbols)
    requires
        found == scanned(earlier, segment_views(segments@)),
    ensures
        r == scanned(earlier + symbol_views(table@), segment_views(segments@)),
{
    let ghost symbols = earlier + symbol_views(table@);
    let ghost n = earlier.len() as int;
    let mut out = found;
    assert(symbols.take(n) =~= earlier);
    for i in 0..table.len()
        invariant
            symbols == earlier + symbol_views(table@),
            n == earlier.len(),
            out == scanned(symbols.take(n + i), segment_views(segments@)),
    {
        let symbol = &table[i];
        proof {
            assert(symbols[n + i] == symbol_view(*symbol));
            assert(symbols.take(n + i + 1).drop_last() =~= symbols.take(n + i));
            assert(symbols.take(n + i + 1).last() == symbols[n + i]);
            has_function_grows(symbols, n + i, "luaJIT_setmode"@);
            has_function_grows(symbols, n + i, "lua_resetthread"@);
            has_function_grows(symbols, n + i, "lua_closethread"@);
            has_function_grows(symbols, n + i, "lua_setcstacklimit"@);
            has_function_grows(symbols, n + i, "lua_toclose"@);
            has_function_grows(symbols, n + i, "lua_warning"@);
            has_function_grows(symbols, n + i, "lua_getiuservalue"@);
            has_function_grows(symbols, n + i, "lua_stringtonumber"@);
            has_function_grows(symbols, n + i, "lua_getctx"@);
        }
        if names_function(symbol, "lua_resume") {
            out.lua_resume = symbol_offset(segments, symbol);
        }
        if names_function(symbol, "lua_pcallk") {
            out.lua_pcallk = symbol_offset(segments, symbol);
        }
        if names_function(symbol, "lua_callk") {
            out.lua_callk = symbol_offset(segments, symbol);
        }
        if names_function(symbol, "luaJIT_setmode") {
            out.is_luajit = true;
        }
        if names_54_function(symbol) {
            out.has_v54_sentinel = true;
        }
        if names_function(symbol, "lua_stringtonumber") {
            out.has_v53_sentinel = true;
        }
        if names_function(symbol, "lua_getctx") {
            out.has_v52_sentinel = true;
        }
    }
    assert(symbols.take(symbols.len() as int) =~= symbols);
    out
}

/// What the symbols and segments of an object file say of Lua. The dynamic symbols come
/// behind the others.
pub fn scan_symbols(file: &ObjectFile) -> (r: LuaSymbols)
    ensures
        r == scanned(all_symbols(*file), segment_views(file.segments@)),
{
    let ghost none: Seq<SymbolView> = seq![];
    let ghost symbols = symbol_views(file.symbols@);
    let found = scan_table(LuaSymbols::default(), Ghost(none), &file.symbols, &file.segments);
    assert(none + symbols =~= symbols);
    scan_table(found, Ghost(symbols), &file.dynamic_symbols, &file.segments)
}

/// What the symbols of the object file `bytes` say of Lua.
pub fn scan_lua_symbols(bytes: &[u8]) -> (r: Result<LuaSymbols, LuaError>)
    ensures
        match object_in(bytes@) {
            Some((symbols, segments)) => r matches Ok(s) && s == scanned(symbols, segments),
            None => r matches Err(LuaError::NotAnObject(_)),
        },
{
    match parse_object(bytes) {
        Ok(file) => Ok(scan_symbols(&file)),
        Err(e) => Err(LuaError::NotAnObject(e)),
    }
}

/// The name speaks of the version: `lua5.4`, `lua-5.4` or `lua.so.5.4`.
pub open spec fn names_version(name: Seq<char>, v: LuaVersion) -> bool {
    ||| contains_text(name, "lua"@ + version_text(v))
    ||| contains_text(name, "lua-"@ + version_text(v))
    ||| contains_text(name, "lua.so."@ + version_text(v))
}

/// The version that a name in lower case speaks of, the latest first.
pub open spec fn version_in(name: Seq<char>) -> Option<LuaVersion> {
    if names_version(name, LuaVersion::Lua54) {
        Some(LuaVersion::Lua54)
    } else if names_version(name, LuaVersion::Lua53) {
        Some(LuaVersion::Lua53)
    } else if names_version(name, LuaVersion::Lua52) {
        Some(LuaVersion::Lua52)
    } else {
        None
    }
}

/// The version that the name of a file speaks of, in any case of the letters.
pub open spec fn named_version(path: Seq<u8>) -> Option<LuaVersion> {
    match name_part(path) {
        Some(name) if valid_utf8(name) => version_in(lowered(decode_utf8(name))),
        _ => None,
    }
}

fn speaks_of(name: &[char], prefix: &str, v: LuaVersion) -> (r: bool)
    ensures
        r == contains_text(name@, prefix@ + version_text(v)),
{
    let mut needle = prefix.to_string();
    needle.append(v.as_str());
    find_text(name, needle.as_str())
}

fn speaks_of_version(name: &[char], v: LuaVersion) -> (r: bool)
    ensures
        r == names_version(name@, v),
{
    speaks_of(name, "lua", v) || speaks_of(name, "lua-", v) || speaks_of(name, "lua.so.", v)
}

/// The version that a name in lower case speaks of, the latest first.
pub fn version_in_name(name: &str) -> (r: Option<LuaVersion>)
    ensures
        r == version_in(name@),
{
    let chars = chars_of(name);
    if speaks_of_version(chars.as_slice(), LuaVersion::Lua54) {
        Some(LuaVersion::Lua54)
    } else if speaks_of_version(chars.as_slice(), LuaVersion::Lua53) {
        Some(LuaVersion::Lua53)
    } else if speaks_of_version(chars.as_slice(), LuaVersion::Lua52) {
        Some(LuaVersion::Lua52)
    } else {
        None
    }
}

/// The version that the name of a file speaks of, in any case of the letters.
pub fn version_from_name(path: &[u8]) -> (r: Option<LuaVersion>)
    ensures
        r == named_version(path@),
{
    match file_name(path) {
        Some(name) => match decode_strict(name.as_slice()) {
            Some(text) => version_in_name(text.to_lowercase().as_str()),
            None => None,
        },
        None => None,
    }
}

/// The version of a file, by its symbols and else by its name.
pub open spec fn detected(syms: LuaSymbols, path: Seq<u8>) -> Option<LuaVersion> {
    if syms.has_v54_sentinel {
        Some(LuaVersion::Lua54)
    } else if syms.has_v53_sentinel {
        Some(LuaVersion::Lua53)
    } else if syms.has_v52_sentinel {
        Some(LuaVersion::Lua52)
    } else {
        named_version(path)
    }
}

/// The version of a file, by its symbols and else by its name.
pub fn detect_version(syms: &LuaSymbols, path: &[u8]) -> (r: Result<LuaVersion, LuaError>)
    ensures
        match detected(*syms, path@) {
            Some(v) => r matches Ok(w) && w == v,
            None => r matches Err(LuaError::UnknownVersion(p)) && p@ == path@,
        },
{
    if syms.has_v54_sentinel {
        return Ok(LuaVersion::Lua54);
    }
    if syms.has_v53_sentinel {
        return Ok(LuaVersion::Lua53);
    }
    if syms.has_v52_sentinel {
        return Ok(LuaVersion::Lua52);
    }
    match version_from_name(path) {
        Some(v) => Ok(v),
        None => Err(LuaError::UnknownVersion(copy_bytes(path))),
    }
}

/// There is a function that can be probed.
pub open spec fn has_entry_point(syms: LuaSymbols) -> bool {
    syms.lua_resume is Some || syms.lua_pcallk is Some || syms.lua_callk is Some
}

/// The offset, or 0.
pub open spec fn offset_or_zero(offset: Option<u64>) -> u64 {
    match offset {
        Some(offset) => offset,
        None => 0,
    }
}

/// Where the probed functions stand.
pub open spec fn offsets_of(syms: LuaSymbols) -> LuaOffsets {
    LuaOffsets {
        lua_resume: offset_or_zero(syms.lua_resume),
        lua_pcallk: offset_or_zero(syms.lua_pcallk),
        lua_callk: offset_or_zero(syms.lua_callk),
    }
}

/// The version that is taken: the one that was asked for, or the one that is detected.
pub open spec fn chosen_version(
    syms: LuaSymbols,
    path: Seq<u8>,
    forced_version: Option<LuaVersion>,
) -> Option<LuaVersion> {
    match forced_version {
        Some(v) => Some(v),
        None => detected(syms, path),
    }
}

/// The version of the runtime, and where its functions stand, if a file with such
/// symbols can be profiled.
pub open spec fn accepted(
    syms: LuaSymbols,
    path: Seq<u8>,
    forced_version: Option<LuaVersion>,
) -> Option<(LuaVersion, LuaOffsets)> {
    if syms.is_luajit || !has_entry_point(syms) {
        None
    } else {
        match chosen_version(syms, path, forced_version) {
            Some(v) => Some((v, offsets_of(syms))),
            None => None,
        }
    }
}

/// `r` is what a file with such symbols gives: a module, or why it cannot be profiled.
pub open spec fn is_acceptance(
    path: Seq<u8>,
    syms: LuaSymbols,
    forced_version: Option<LuaVersion>,
    r: Result<LuaModule, LuaError>,
) -> bool {
    if syms.is_luajit {
        r matches Err(LuaError::LuaJit(p)) && p@ == path
    } else if !has_entry_point(syms) {
        r matches Err(LuaError::NoEntryPoint(p)) && p@ == path
    } else {
        match chosen_version(syms, path, forced_version) {
            Some(v) => {
                &&& r matches Ok(m)
                &&& m.path@ == path
                &&& m.version == v
                &&& m.offsets == offsets_of(syms)
            },
            None => r matches Err(LuaError::UnknownVersion(p)) && p@ == path,
        }
    }
}

/// The module that a file with such symbols is, or why it cannot be profiled. Any one
/// of the probed functions is enough.
pub fn module_from_symbols(
    path: &[u8],
    syms: &LuaSymbols,
    forced_version: Option<LuaVersion>,
) -> (r: Result<LuaModule, LuaError>)
    ensures
        is_acceptance(path@, *syms, forced_version, r),
{
    if syms.is_luajit {
        return Err(LuaError::LuaJit(copy_bytes(path)));
    }
    if syms.lua_resume.is_none() && syms.lua_pcallk.is_none() && syms.lua_callk.is_none() {
        return Err(LuaError::NoEntryPoint(copy_bytes(path)));
    }
    let version = match forced_version {
        Some(v) => v,
        None => match detect_version(syms, path) {
            Ok(v) => v,
            Err(e) => {
                return Err(e);
            },
        },
    };
    Ok(
        LuaModule {
            path: copy_bytes(path),
            version,
            offsets: LuaOffsets {
                lua_resume: syms.lua_resume.unwrap_or(0),
                lua_pcallk: syms.lua_pcallk.unwrap_or(0),
                lua_callk: syms.lua_callk.unwrap_or(0),
            },
        },
    )
}

/// `r` is what a file that was read, or not, gives: a module, or why it cannot be
/// profiled.
pub open spec fn is_outcome(
    path: Seq<u8>,
    file: Result<Vec<u8>, String>,
    forced_version: Option<LuaVersion>,
    r: Result<LuaModule, LuaError>,
) -> bool {
    match file {
        Err(reason) => r matches Err(LuaError::Io(text)) && text@ == reason@,
        Ok(bytes) => match object_in(bytes@) {
            None => r matches Err(LuaError::NotAnObject(_)),
            Some((symbols, segments)) => is_acceptance(
                path,
                scanned(symbols, segments),
                forced_version,
                r,
            ),
        },
    }
}

/// The module that the file at `path` is, or why it cannot be profiled. `file` is what
/// came of reading it.
pub fn module_from_path(
    path: &[u8],
    file: Result<Vec<u8>, String>,
    forced_version: Option<LuaVersion>,
) -> (r: Result<LuaModule, LuaError>)
    ensures
        is_outcome(path@, file, forced_version, r),
{
    match file {
        Err(reason) => Err(LuaError::Io(reason)),
        Ok(bytes) => match scan_lua_symbols(bytes.as_slice()) {
            Err(e) => Err(e),
            Ok(syms) => module_from_symbols(path, &syms, forced_version),
        },
    }
}

/// Symbols that only one version exports decide, whatever the file is called.
pub proof fn sentinels_beat_names(syms: LuaSymbols, path: Seq<u8>, other_path: Seq<u8>)
    requires
        syms.has_v54_sentinel || syms.has_v53_sentinel || syms.has_v52_sentinel,
    ensures
        detected(syms, path) is Some,
        detected(syms, path) == detected(syms, other_path),
{
}

/// A symbol of a later version decides, whatever earlier versions also export.
pub proof fn latest_sentinel_decides(syms: LuaSymbols, path: Seq<u8>)
    ensures
        syms.has_v54_sentinel ==> detected(syms, path) == Some(LuaVersion::Lua54),
        !syms.has_v54_sentinel && syms.has_v53_sentinel ==> detected(syms, path) == Some(
            LuaVersion::Lua53,
        ),
{
}

/// The version that was asked for is taken without detection: the file may be stripped
/// of all that tells the version, and its name does not matter.
pub proof fn forced_version_is_taken(syms: LuaSymbols, path: Seq<u8>, v: LuaVersion)
    ensures
        accepted(syms, path, Some(v)) == if !syms.is_luajit && has_entry_point(syms) {
            Some((v, offsets_of(syms)))
        } else {
            None
        },
{
}

/// LuaJIT is never accepted, not even where a version was asked for.
pub proof fn luajit_is_never_accepted(
    symbols: Seq<SymbolView>,
    segments: Seq<SegmentView>,
    path: Seq<u8>,
    forced_version: Option<LuaVersion>,
)
    requires
        has_function(symbols, "luaJIT_setmode"@),
    ensures
        accepted(scanned(symbols, segments), path, forced_version) is None,
{
}

/// Whatever is accepted has a function to probe, of which it is known where it stands.
pub proof fn accepted_runtime_has_an_entry_point(
    symbols: Seq<SymbolView>,
    segments: Seq<SegmentView>,
    path: Seq<u8>,
    forced_version: Option<LuaVersion>,
)
    requires
        accepted(scanned(symbols, segments), path, forced_version) is Some,
    ensures
        ({
            ||| function_offset(symbols, segments, "lua_resume"@) is Some
            ||| function_offset(symbols, segments, "lua_pcallk"@) is Some
            ||| function_offset(symbols, segments, "lua_callk"@) is Some
        }),
{
}

/// A file offset comes of an executable segment that the address lies in, and lies as
/// far behind the start of the segment in the file as the address does in memory.
pub proof fn offset_is_in_an_executable_segment(
    segments: Seq<SegmentView>,
    vaddr: u64,
) -> (i: int)
    requires
        file_offset(segments, vaddr) is Some,
    ensures
        0 <= i < segments.len(),
        in_segment(segments[i], vaddr),
        vaddr - segments[i].1 + segments[i].3 <= u64::MAX ==> file_offset(segments, vaddr)->0
            - segments[i].3 == vaddr - segments[i].1,
    decreases segments.len(),
{
    if in_segment(segments[0], vaddr) {
        0
    } else {
        1 + offset_is_in_an_executable_segment(segments.drop_first(), vaddr)
    }
}

proof fn last_function_decides(
    symbols: Seq<SymbolView>,
    segments: Seq<SegmentView>,
    name: Seq<char>,
    k: int,
)
    requires
        0 <= k < symbols.len(),
        is_function(symbols[k], name),
        forall|m: int| k < m < symbols.len() ==> !is_function(#[trigger] symbols[m], name),
    ensures
        function_offset(symbols, segments, name) == offset_in_file(symbols[k], segments),
    decreases symbols.len(),
{
    if k < symbols.len() - 1 {
        let fewer = symbols.drop_last();
        assert(!is_function(symbols[symbols.len() - 1], name));
        assert(fewer[k] == symbols[k]);
        assert forall|m: int| k < m < fewer.len() implies !is_function(#[trigger] fewer[m], name) by {
            assert(fewer[m] == symbols[m]);
        }
        last_function_decides(fewer, segments, name, k);
    }
}

proof fn missing_function_has_no_offset(
    symbols: Seq<SymbolView>,
    segments: Seq<SegmentView>,
    name: Seq<char>,
)
    requires
        forall|m: int| 0 <= m < symbols.len() ==> !is_function(#[trigger] symbols[m], name),
    ensures
        function_offset(symbols, segments, name) is None,
    decreases symbols.len(),
{
    if symbols.len() > 0 {
        let fewer = symbols.drop_last();
        assert(!is_function(symbols[symbols.len() - 1], name));
        assert forall|m: int| 0 <= m < fewer.len() implies !is_function(#[trigger] fewer[m], name) by {
            assert(fewer[m] == symbols[m]);
        }
        missing_function_has_no_offset(fewer, segments, name);
    }
}

proof fn first_segment_gives_the_offset(segments: Seq<SegmentView>, vaddr: u64, i: int)
    requires
        0 <= i < segments.len(),
        in_segment(segments[i], vaddr),
        forall|j: int| 0 <= j < i ==> !in_segment(#[trigger] segments[j], vaddr),
    ensures
        file_offset(segments, vaddr) == Some(
            ((vaddr - segments[i].1 + segments[i].3) % 0x1_0000_0000_0000_0000) as u64,
        ),
{
    file_offset_skips(segments, vaddr, i);
    assert(segments.skip(i)[0] == segments[i]);
}

/// What the scan finds of a function that is probed, `lua_resume`, `lua_pcallk` or
/// `lua_callk`. The last symbol that is a function of this name counts. If its address
/// lies in executable segments, wherever in the list they stand, the function is found: as
/// far behind the start of the first of them in the file as the address is in memory.
pub proof fn function_is_found_by_any_executable_segment(
    symbols: Seq<SymbolView>,
    segments: Seq<SegmentView>,
    name: Seq<char>,
    k: int,
    vaddr: u64,
    i: int,
)
    requires
        0 <= k < symbols.len(),
        symbols[k] == (Kind::Text, Some(encode_utf8(name)), Some(vaddr)),
        forall|m: int|
            k < m < symbols.len() ==> (#[trigger] symbols[m]).0 != Kind::Text || symbols[m].1
                != Some(encode_utf8(name)),
        0 <= i < segments.len(),
        segments[i].0 matches Some(flags) && flags & 1 != 0,
        segments[i].1 <= vaddr < segments[i].1 + segments[i].2,
        vaddr < u64::MAX,
        forall|j: int|
            0 <= j < i ==> {
                ||| (#[trigger] segments[j]).0 is None
                ||| segments[j].0->0 & 1 == 0
                ||| vaddr < segments[j].1
                ||| vaddr >= segments[j].1 + segments[j].2
            },
    ensures
        ({
            let offset = Some(
                ((vaddr - segments[i].1 + segments[i].3) % 0x1_0000_0000_0000_0000) as u64,
            );
            &&& name == "lua_resume"@ ==> scanned(symbols, segments).lua_resume == offset
            &&& name == "lua_pcallk"@ ==> scanned(symbols, segments).lua_pcallk == offset
            &&& name == "lua_callk"@ ==> scanned(symbols, segments).lua_callk == offset
        }),
{
    assert(is_function(symbols[k], name));
    last_function_decides(symbols, segments, name, k);
    assert(in_segment(segments[i], vaddr));
    assert forall|j: int| 0 <= j < i implies !in_segment(#[trigger] segments[j], vaddr) by {
        assert(segments[j].0 is None || segments[j].0->0 & 1 == 0 || vaddr < segments[j].1 || vaddr
            >= segments[j].1 + segments[j].2);
    }
    first_segment_gives_the_offset(segments, vaddr, i);
}

/// A function that is probed is not found only if there is none, or if the last one has no
/// address or one that lies in no executable segment.
pub proof fn function_outside_of_executable_segments_is_not_found(
    symbols: Seq<SymbolView>,
    segments: Seq<SegmentView>,
    name: Seq<char>,
    k: int,
)
    requires
        0 <= k ==> {
            &&& k < symbols.len()
            &&& symbols[k].0 == Kind::Text
            &&& symbols[k].1 == Some(encode_utf8(name))
            &&& symbols[k].2 matches Some(vaddr) ==> forall|j: int|
                0 <= j < segments.len() ==> {
                    ||| (#[trigger] segments[j]).0 is None
                    ||| segments[j].0->0 & 1 == 0
                    ||| vaddr < segments[j].1
                    ||| vaddr >= segments[j].1 + segments[j].2
                    ||| vaddr == u64::MAX
                }
        },
        forall|m: int|
            k < m < symbols.len() && 0 <= m ==> (#[trigger] symbols[m]).0 != Kind::Text
                || symbols[m].1 != Some(encode_utf8(name)),
    ensures
        name == "lua_resume"@ ==> scanned(symbols, segments).lua_resume is None,
        name == "lua_pcallk"@ ==> scanned(symbols, segments).lua_pcallk is None,
        name == "lua_callk"@ ==> scanned(symbols, segments).lua_callk is None,
{
    if k < 0 {
        missing_function_has_no_offset(symbols, segments, name);
    } else {
        last_function_decides(symbols, segments, name, k);
        if let Some(vaddr) = symbols[k].2 {
            assert forall|j: int| 0 <= j < segments.len() implies !in_segment(
                #[trigger] segments[j],
                vaddr,
            ) by {
                assert(segments[j].0 is None || segments[j].0->0 & 1 == 0 || vaddr < segments[j].1
                    || vaddr >= segments[j].1 + segments[j].2 || vaddr == u64::MAX);
            }
            file_offset_skips(segments, vaddr, segments.len() as int);
            assert(segments.skip(segments.len() as int).len() == 0);
        }
    }
}

/// A function that is there, wherever in the symbols, is seen: LuaJIT, and each function
/// that only one version exports. What is not a function of the name is not taken for it.
pub proof fn functions_are_seen_wherever_they_stand(
    symbols: Seq<SymbolView>,
    segments: Seq<SegmentView>,
)
    ensures
        scanned(symbols, segments).is_luajit <==> exists|k: int|
            0 <= k < symbols.len() && (#[trigger] symbols[k]).0 == Kind::Text && symbols[k].1
                == Some(encode_utf8("luaJIT_setmode"@)),
        scanned(symbols, segments).has_v54_sentinel <==> exists|k: int|
            0 <= k < symbols.len() && (#[trigger] symbols[k]).0 == Kind::Text && {
                ||| symbols[k].1 == Some(encode_utf8("lua_resetthread"@))
                ||| symbols[k].1 == Some(encode_utf8("lua_closethread"@))
                ||| symbols[k].1 == Some(encode_utf8("lua_setcstacklimit"@))
                ||| symbols[k].1 == Some(encode_utf8("lua_toclose"@))
                ||| symbols[k].1 == Some(encode_utf8("lua_warning"@))
                ||| symbols[k].1 == Some(encode_utf8("lua_getiuservalue"@))
            },
        scanned(symbols, segments).has_v53_sentinel <==> exists|k: int|
            0 <= k < symbols.len() && (#[trigger] symbols[k]).0 == Kind::Text && symbols[k].1
                == Some(encode_utf8("lua_stringtonumber"@)),
        scanned(symbols, segments).has_v52_sentinel <==> exists|k: int|
            0 <= k < symbols.len() && (#[trigger] symbols[k]).0 == Kind::Text && symbols[k].1
                == Some(encode_utf8("lua_getctx"@)),
{
    let s = scanned(symbols, segments);
    if s.is_luajit {
        let k = choose|k: int|
            0 <= k < symbols.len() && is_function(#[trigger] symbols[k], "luaJIT_setmode"@);
        assert(symbols[k].0 == Kind::Text);
    }
    if s.has_v53_sentinel {
        let k = choose|k: int|
            0 <= k < symbols.len() && is_function(#[trigger] symbols[k], "lua_stringtonumber"@);
        assert(symbols[k].0 == Kind::Text);
    }
    if s.has_v52_sentinel {
        let k = choose|k: int|
            0 <= k < symbols.len() && is_function(#[trigger] symbols[k], "lua_getctx"@);
        assert(symbols[k].0 == Kind::Text);
    }
    if exists|k: int|
        0 <= k < symbols.len() && (#[trigger] symbols[k]).0 == Kind::Text && symbols[k].1 == Some(
            encode_utf8("luaJIT_setmode"@),
        ) {
        let k = choose|k: int|
            0 <= k < symbols.len() && (#[trigger] symbols[k]).0 == Kind::Text && symbols[k].1
                == Some(encode_utf8("luaJIT_setmode"@));
        assert(is_function(symbols[k], "luaJIT_setmode"@));
    }
}

/// A name in lower case speaks of a version where it holds `lua5.4`, `lua-5.4` or
/// `lua.so.5.4`, anywhere, and so for the others. Of several versions the latest counts.
pub proof fn name_speaks_of_the_latest_version_in_it(name: Seq<char>)
    ensures
        version_in(name) == if contains_text(name, "lua5.4"@) || contains_text(name, "lua-5.4"@)
            || contains_text(name, "lua.so.5.4"@) {
            Some(LuaVersion::Lua54)
        } else if contains_text(name, "lua5.3"@) || contains_text(name, "lua-5.3"@) || contains_text(
            name,
            "lua.so.5.3"@,
        ) {
            Some(LuaVersion::Lua53)
        } else if contains_text(name, "lua5.2"@) || contains_text(name, "lua-5.2"@) || contains_text(
            name,
            "lua.so.5.2"@,
        ) {
            Some(LuaVersion::Lua52)
        } else {
            None
        },
{
    reveal_strlit("lua");
    reveal_strlit("lua-");
    reveal_strlit("lua.so.");
    reveal_strlit("5.2");
    reveal_strlit("5.3");
    reveal_strlit("5.4");
    reveal_strlit("lua5.2");
    reveal_strlit("lua5.3");
    reveal_strlit("lua5.4");
    reveal_strlit("lua-5.2");
    reveal_strlit("lua-5.3");
    reveal_strlit("lua-5.4");
    reveal_strlit("lua.so.5.2");
    reveal_strlit("lua.so.5.3");
    reveal_strlit("lua.so.5.4");
    assert("lua"@ + "5.2"@ =~= "lua5.2"@);
    assert("lua"@ + "5.3"@ =~= "lua5.3"@);
    assert("lua"@ + "5.4"@ =~= "lua5.4"@);
    assert("lua-"@ + "5.2"@ =~= "lua-5.2"@);
    assert("lua-"@ + "5.3"@ =~= "lua-5.3"@);
    assert("lua-"@ + "5.4"@ =~= "lua-5.4"@);
    assert("lua.so."@ + "5.2"@ =~= "lua.so.5.2"@);
    assert("lua.so."@ + "5.3"@ =~= "lua.so.5.3"@);
    assert("lua.so."@ + "5.4"@ =~= "lua.so.5.4"@);
}

/// Only the name of the file counts for its version, not the directories it is in, nor
/// the case of its letters.
pub proof fn version_comes_of_the_file_name(
    directory: Seq<u8>,
    other_directory: Seq<u8>,
    name: Seq<u8>,
    other_name: Seq<u8>,
)
    requires
        !name.contains(47),
        !other_name.contains(47),
        name.len() > 0,
        other_name.len() > 0,
        name != seq![46u8] && name != seq![46u8, 46u8],
        other_name != seq![46u8] && other_name != seq![46u8, 46u8],
    ensures
        valid_utf8(name) ==> named_version(directory + seq![47u8] + name) == version_in(
            lowered(decode_utf8(name)),
        ),
        !valid_utf8(name) ==> named_version(directory + seq![47u8] + name) is None,
        named_version(directory + seq![47u8] + name) == named_version(name),
        ({
            &&& valid_utf8(name) && valid_utf8(other_name)
            &&& is_ascii_chars(decode_utf8(name)) && is_ascii_chars(decode_utf8(other_name))
            &&& decode_utf8(name).len() == decode_utf8(other_name).len()
            &&& forall|i: int|
                0 <= i < decode_utf8(name).len() ==> {
                    let (a, b) = (#[trigger] decode_utf8(name)[i], decode_utf8(other_name)[i]);
                    ||| a == b
                    ||| 'A' <= a <= 'Z' && b as int == a as int + 32
                    ||| 'A' <= b <= 'Z' && a as int == b as int + 32
                }
        }) ==> named_version(directory + seq![47u8] + name) == named_version(
            other_directory + seq![47u8] + other_name,
        ),
{
    name_stands_behind_the_last_separator(directory, name);
    name_stands_behind_the_last_separator(other_directory, other_name);
    let (a, b) = (decode_utf8(name), decode_utf8(other_name));
    if valid_utf8(name) && valid_utf8(other_name) && is_ascii_chars(a) && is_ascii_chars(b)
        && a.len() == b.len() && forall|i: int|
        0 <= i < a.len() ==> {
            let (x, y) = (#[trigger] a[i], b[i]);
            ||| x == y
            ||| 'A' <= x <= 'Z' && y as int == x as int + 32
            ||| 'A' <= y <= 'Z' && x as int == y as int + 32
        } {
        ascii_letters_are_lowered(a);
        ascii_letters_are_lowered(b);
        assert forall|i: int| 0 <= i < a.len() implies lowered(a)[i] == lowered(b)[i] by {
            assert(a[i] == b[i] || 'A' <= a[i] <= 'Z' || 'A' <= b[i] <= 'Z');
        }
        assert(lowered(a) =~= lowered(b));
    }
}

/// What a file gives. It is profiled exactly if it can be read and is an object file, is
/// not LuaJIT, has one at least of the functions that are probed, and its version was asked
/// for or can be told. Its offsets are those that were found, with 0 for a function that
/// was not. Otherwise the first of these that does not hold is the error.
pub proof fn file_is_profiled_exactly_if_it_can_be(
    path: Seq<u8>,
    file: Result<Vec<u8>, String>,
    forced_version: Option<LuaVersion>,
    r: Result<LuaModule, LuaError>,
)
    requires
        is_outcome(path, file, forced_version, r),
    ensures
        file matches Err(reason) ==> (r matches Err(LuaError::Io(text)) && text@ == reason@),
        file matches Ok(bytes) ==> (object_in(bytes@) is None <==> r matches Err(
            LuaError::NotAnObject(_),
        )),
        file matches Ok(bytes) ==> (object_in(bytes@) matches Some((symbols, segments)) ==> {
            let found = scanned(symbols, segments);
            let told = if forced_version is Some {
                forced_version
            } else if found.has_v54_sentinel {
                Some(LuaVersion::Lua54)
            } else if found.has_v53_sentinel {
                Some(LuaVersion::Lua53)
            } else if found.has_v52_sentinel {
                Some(LuaVersion::Lua52)
            } else {
                named_version(path)
            };
            let none = found.lua_resume is None && found.lua_pcallk is None && found.lua_callk is None;
            &&& r is Ok <==> !found.is_luajit && !none && told is Some
            &&& r matches Ok(m) ==> {
                &&& m.path@ == path
                &&& Some(m.version) == told
                &&& found.lua_resume is Some ==> m.offsets.lua_resume == found.lua_resume->0
                &&& found.lua_resume is None ==> m.offsets.lua_resume == 0
                &&& found.lua_pcallk is Some ==> m.offsets.lua_pcallk == found.lua_pcallk->0
                &&& found.lua_pcallk is None ==> m.offsets.lua_pcallk == 0
                &&& found.lua_callk is Some ==> m.offsets.lua_callk == found.lua_callk->0
                &&& found.lua_callk is None ==> m.offsets.lua_callk == 0
            }
            &&& found.is_luajit ==> (r matches Err(LuaError::LuaJit(p)) && p@ == path)
            &&& !found.is_luajit && none ==> (r matches Err(LuaError::NoEntryPoint(p)) && p@
                == path)
            &&& !found.is_luajit && !none && told is None ==> (r matches Err(
                LuaError::UnknownVersion(p),
            ) && p@ == path)
        }),
{
}

/// A file that is accepted by its symbols is the one that is profiled.
pub proof fn accepted_is_what_is_profiled(
    path: Seq<u8>,
    syms: LuaSymbols,
    forced_version: Option<LuaVersion>,
    r: Result<LuaModule, LuaError>,
)
    requires
        is_acceptance(path, syms, forced_version, r),
    ensures
        accepted(syms, path, forced_version) == match r {
            Ok(m) => Some((m.version, m.offsets)),
            Err(_) => None,
        },
{
}

/// The version of a file is told by the functions that it exports, of the latest version
/// that they speak of, and only where they speak of none by its name.
pub proof fn version_is_told_by_functions_and_else_by_the_name(syms: LuaSymbols, path: Seq<u8>)
    ensures
        detected(syms, path) == Some(LuaVersion::Lua54) <==> syms.has_v54_sentinel || (
        !syms.has_v53_sentinel && !syms.has_v52_sentinel && named_version(path) == Some(
            LuaVersion::Lua54,
        )),
        detected(syms, path) == Some(LuaVersion::Lua53) <==> !syms.has_v54_sentinel && (
        syms.has_v53_sentinel || !syms.has_v52_sentinel && named_version(path) == Some(
            LuaVersion::Lua53,
        )),
        detected(syms, path) == Some(LuaVersion::Lua52) <==> !syms.has_v54_sentinel
            && !syms.has_v53_sentinel && (syms.has_v52_sentinel || named_version(path) == Some(
            LuaVersion::Lua52,
        )),
        detected(syms, path) is None <==> !syms.has_v54_sentinel && !syms.has_v53_sentinel
            && !syms.has_v52_sentinel && named_version(path) is None,
{
}

} // verus!
