//! Verified core of an eBPF-based Lua 5.2 / 5.3 / 5.4 CPU flame-graph profiler.

pub mod bytes;
pub mod cycles;
pub mod error;
pub mod folded;
pub mod frames;
pub mod lineresolve;
pub mod locate;
pub mod maps;
pub mod object_file;
pub mod path;
pub mod pending;
pub mod probes;
pub mod report;
pub mod syms;
pub mod text;
pub mod types;
pub mod walker;
