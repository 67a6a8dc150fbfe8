//! What is read out of an object file: its symbols and its segments.

use object::{Object, ObjectSegment, ObjectSymbol, SegmentFlags, SymbolKind};
use vstd::prelude::*;

verus! {

/// Why bytes are not an object file.
#[verifier::external_type_specification]
#[verifier::external_body]
pub struct ExObjectError(object::Error);

/// What a symbol of an object file stands for.
#[derive(Clone, Copy, Debug, PartialEq, Eq, Structural)]
pub enum Kind {
    Unknown,
    /// A function.
    Text,
    Data,
    Section,
    File,
    Label,
    Tls,
}

/// A symbol of an object file.
pub struct Symbol {
    pub kind: Kind,
    /// Its name, where that can be read.
    pub name: Option<Vec<u8>>,
    /// Its virtual address, where the file is an ELF.
    pub address: Option<u64>,
}

/// A segment of an object file that is loaded into memory.
pub struct Segment {
    /// The flags of the segment, where the file is an ELF.
    pub elf_flags: Option<u32>,
    /// Its virtual address.
    pub address: u64,
    /// Its size in memory.
    pub size: u64,
    /// Where it starts in the file.
    pub offset: u64,
}

/// The symbols and the segments of an object file.
pub struct ObjectFile {
    pub symbols: Vec<Symbol>,
    pub dynamic_symbols: Vec<Symbol>,
    pub segments: Vec<Segment>,
}

/// The kind, the name and the address of a symbol.
pub type SymbolView = (Kind, Option<Seq<u8>>, Option<u64>);

/// The flags, the address, the size and the file offset of a segment.
pub type SegmentView = (Option<u32>, u64, u64, u64);

/// The bytes, where there are any.
pub open spec fn name_view(name: Option<Vec<u8>>) -> Option<Seq<u8>> {
    match name {
        Some(name) => Some(name@),
        None => None,
    }
}

/// The kind, the name and the address of a symbol.
pub open spec fn symbol_view(symbol: Symbol) -> SymbolView {
    (symbol.kind, name_view(symbol.name), symbol.address)
}

/// The kind, the name and the address of each symbol.
pub open spec fn symbol_views(symbols: Seq<Symbol>) -> Seq<SymbolView> {
    symbols.map_values(|s: Symbol| symbol_view(s))
}

/// The flags, the address, the size and the file offset of each segment.
pub open spec fn segment_views(segments: Seq<Segment>) -> Seq<SegmentView> {
    segments.map_values(|s: Segment| (s.elf_flags, s.address, s.size, s.offset))
}

/// The symbols, and behind them the dynamic symbols, of an object file.
pub open spec fn all_symbols(file: ObjectFile) -> Seq<SymbolView> {
    symbol_views(file.symbols@) + symbol_views(file.dynamic_symbols@)
}

/// The symbols that `object` reads out of bytes; `None` where they are not an object
/// file.
pub uninterp spec fn symbols_in(bytes: Seq<u8>) -> Option<
    Seq<(Kind, Option<Seq<u8>>, Option<u64>)>,
>;

/// The dynamic symbols that `object` reads out of bytes; `None` where they are not an
/// object file.
pub uninterp spec fn dynamic_symbols_in(bytes: Seq<u8>) -> Option<
    Seq<(Kind, Option<Seq<u8>>, Option<u64>)>,
>;

/// The segments that `object` reads out of bytes; `None` where they are not an object
/// file.
pub uninterp spec fn segments_in(bytes: Seq<u8>) -> Option<Seq<(Option<u32>, u64, u64, u64)>>;

/// The symbols, with the dynamic symbols behind them, and the segments that are read out
/// of bytes; `None` where they are not an object file.
pub open spec fn object_in(bytes: Seq<u8>) -> Option<(Seq<SymbolView>, Seq<SegmentView>)> {
    match (symbols_in(bytes), dynamic_symbols_in(bytes), segments_in(bytes)) {
        (Some(symbols), Some(dynamic_symbols), Some(segments)) => Some(
            (symbols + dynamic_symbols, segments),
        ),
        _ => None,
    }
}

/// `object::File::parse` and, of the file it gives, `symbols`. Only in an ELF is a
/// symbol asked for its address. It is claimed that what comes out depends on the bytes
/// alone; nothing is said of what it is for which bytes, nor of the error.
#[verifier::external_body]
fn parse_symbols(bytes: &[u8]) -> (r: Result<Vec<Symbol>, object::Error>)
    ensures
        match r {
            Ok(symbols) => symbols_in(bytes@) == Some(symbol_views(symbols@)),
            Err(_) => symbols_in(bytes@) is None,
        },
{
    let file = object::File::parse(bytes)?;
    let is_elf = matches!(file, object::File::Elf32(_) | object::File::Elf64(_));
    Ok(file.symbols().map(|s| Symbol {
        kind: match s.kind() {
            SymbolKind::Text => Kind::Text, SymbolKind::Data => Kind::Data,
            SymbolKind::Section => Kind::Section, SymbolKind::File => Kind::File,
            SymbolKind::Label => Kind::Label, SymbolKind::Tls => Kind::Tls, _ => Kind::Unknown,
        },
        name: s.name_bytes().ok().map(|n| n.to_vec()),
        address: if is_elf { Some(s.address()) } else { None },
    }).collect())
}

/// `object::File::parse` and, of the file it gives, `dynamic_symbols`. Only in an ELF is
/// a symbol asked for its address. It is claimed that what comes out depends on the bytes
/// alone; nothing is said of what it is for which bytes, nor of the error.
#[verifier::external_body]
fn parse_dynamic_symbols(bytes: &[u8]) -> (r: Result<Vec<Symbol>, object::Error>)
    ensures
        match r {
            Ok(symbols) => dynamic_symbols_in(bytes@) == Some(symbol_views(symbols@)),
            Err(_) => dynamic_symbols_in(bytes@) is None,
        },
{
    let file = object::File::parse(bytes)?;
    let is_elf = matches!(file, object::File::Elf32(_) | object::File::Elf64(_));
    Ok(file.dynamic_symbols().map(|s| Symbol {
        kind: match s.kind() {
            SymbolKind::Text => Kind::Text, SymbolKind::Data => Kind::Data,
            SymbolKind::Section => Kind::Section, SymbolKind::File => Kind::File,
            SymbolKind::Label => Kind::Label, SymbolKind::Tls => Kind::Tls, _ => Kind::Unknown,
        },
        name: s.name_bytes().ok().map(|n| n.to_vec()),
        address: if is_elf { Some(s.address()) } else { None },
    }).collect())
}

/// `object::File::parse` and, of the file it gives, `segments`. It is claimed that what
/// comes out depends on the bytes alone; nothing is said of what it is for which bytes,
/// nor of the error.
#[verifier::external_body]
fn parse_segments(bytes: &[u8]) -> (r: Result<Vec<Segment>, object::Error>)
    ensures
        match r {
            Ok(segments) => segments_in(bytes@) == Some(segment_views(segments@)),
            Err(_) => segments_in(bytes@) is None,
        },
{
    let file = object::File::parse(bytes)?;
    Ok(file.segments().map(|s| Segment {
        elf_flags: match s.flags() { SegmentFlags::Elf { p_flags } => Some(p_flags), _ => None },
        address: s.address(),
        size: s.size(),
        offset: s.file_range().0,
    }).collect())
}

/// The symbols and the segments of the object file `bytes`.
pub fn parse_object(bytes: &[u8]) -> (r: Result<ObjectFile, object::Error>)
    ensures
        match r {
            Ok(file) => object_in(bytes@) == Some(
                (all_symbols(file), segment_views(file.segments@)),
            ),
            Err(_) => object_in(bytes@) is None,
        },
{
    let symbols = match parse_symbols(bytes) {
        Ok(symbols) => symbols,
        Err(e) => {
            return Err(e);
        },
    };
    let dynamic_symbols = match parse_dynamic_symbols(bytes) {
        Ok(symbols) => symbols,
        Err(e) => {
            return Err(e);
        },
    };
    match parse_segments(bytes) {
        Ok(segments) => Ok(ObjectFile { symbols, dynamic_symbols, segments }),
        Err(e) => Err(e),
    }
}

/// What is known of a symbol and of a segment is all that they hold.
pub proof fn nothing_of_an_object_file_is_left_out(file: ObjectFile, i: int)
    ensures
        0 <= i < file.segments@.len() ==> segment_views(file.segments@)[i] == (
            file.segments@[i].elf_flags,
            file.segments@[i].address,
            file.segments@[i].size,
            file.segments@[i].offset,
        ),
        segment_views(file.segments@).len() == file.segments@.len(),
        all_symbols(file).len() == file.symbols@.len() + file.dynamic_symbols@.len(),
        0 <= i < file.symbols@.len() ==> {
            let symbol = file.symbols@[i];
            &&& all_symbols(file)[i].0 == symbol.kind
            &&& all_symbols(file)[i].1 is Some <==> symbol.name is Some
            &&& symbol.name is Some ==> all_symbols(file)[i].1->0 == symbol.name->0@
            &&& all_symbols(file)[i].2 == symbol.address
        },
        0 <= i < file.dynamic_symbols@.len() ==> {
            let symbol = file.dynamic_symbols@[i];
            let view = all_symbols(file)[file.symbols@.len() + i];
            &&& view.0 == symbol.kind
            &&& view.1 is Some <==> symbol.name is Some
            &&& symbol.name is Some ==> view.1->0 == symbol.name->0@
            &&& view.2 == symbol.address
        },
{
}

/// The dynamic symbols stand behind the others, and what cannot be read as an object file
/// has neither symbols nor segments.
pub proof fn dynamic_symbols_come_last(bytes: Seq<u8>)
    ensures
        object_in(bytes) is Some <==> symbols_in(bytes) is Some && dynamic_symbols_in(bytes) is Some
            && segments_in(bytes) is Some,
        object_in(bytes) matches Some((symbols, segments)) ==> {
            let n = symbols_in(bytes)->0.len() as int;
            &&& segments == segments_in(bytes)->0
            &&& symbols.len() == n + dynamic_symbols_in(bytes)->0.len()
            &&& symbols.take(n) == symbols_in(bytes)->0
            &&& symbols.skip(n) == dynamic_symbols_in(bytes)->0
        },
{
    if let Some((symbols, _)) = object_in(bytes) {
        let n = symbols_in(bytes)->0.len() as int;
        assert(symbols.take(n) =~= symbols_in(bytes)->0);
        assert(symbols.skip(n) =~= dynamic_symbols_in(bytes)->0);
    }
}

} // verus!
