# lua_flame

The verified core of `lua-flame-rs`, a CPU flame-graph profiler for PUC Lua 5.2, 5.3
and 5.4 on Linux, and the program around it.

A BPF program samples the target. Each sample comes in two halves, a native one and a
Lua one, over two channels. The library joins the halves, resolves the source lines of
Lua functions in the memory of the target, folds each sample into one line of text, and
counts the lines. It also finds the file that holds the Lua runtime of a process and
decides which functions of it are probed.

`src/` is the library. It is verified with Verus, but for the items that stand for code
outside of it, whose contracts are believed (see below).

| Module | What it holds |
|--------|---------------|
| `syms`, `object_file` | what the symbols of an object file say of Lua; its version |
| `maps`, `path`, `locate` | the search for the Lua runtime of a process |
| `probes`, `walker` | what the kernel side needs to know of a runtime |
| `types`, `bytes` | the records that the kernel side sends |
| `lineresolve` | source lines of Lua functions |
| `frames` | one sample as one line of text |
| `folded` | how often each line was seen |
| `pending`, `cycles` | samples in flight, and what holds over the cycles that fold them |
| `report`, `error`, `text` | what is said, and text in general |

What the library reads of the target, it reads through functions that the caller hands
in: the memory, the symbols of addresses, the list of mappings, files. The contracts say
what comes out whatever these answer, and `cycles` and `locate` say what comes out where
the target does not change.

The contracts that are believed without proof:

| Item | What it stands for |
|------|--------------------|
| `object_file::parse_symbols`, named by `symbols_in` | `object::File::parse` and `symbols` |
| `object_file::parse_dynamic_symbols`, named by `dynamic_symbols_in` | `object::File::parse` and `dynamic_symbols` |
| `object_file::parse_segments`, named by `segments_in` | `object::File::parse` and `segments` |
| `object_file::ExObjectError` | the type `object::Error` |
| `text::decode_lossy`, named by `lossy_text` | `String::from_utf8_lossy` |
| `text::decode_strict` | `str::from_utf8` |
| `str::to_lowercase`, named by `lowercase` | itself |
| `String::push` | itself |

`app/` is the program: command line, `/proc`, BPF, signals and output files.
`tests/` runs the library on concrete values.
