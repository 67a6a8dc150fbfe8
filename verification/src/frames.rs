//! Folding the native and the Lua half of a sample into one line of text.

use crate::text::{
    chars_of, decimal, join_texts, joined, numbers_are_told_apart, prefixed_hex, push_decimal,
    push_prefixed_hex, text_of,
};
use crate::types::{
    event_name, LuaStackEvent, FUNC_TYPE_C, FUNC_TYPE_LCF, FUNC_TYPE_LUA,
};
use vstd::prelude::*;
use vstd::slice::slice_subrange;

verus! {

/// `s` without the NUL characters at its start.
pub open spec fn trim_nul(s: Seq<char>) -> Seq<char>
    decreases s.len(),
{
    if s.len() > 0 && s[0] == '\0' {
        trim_nul(s.drop_first())
    } else {
        s
    }
}

/// `s` without an `@` at its start.
pub open spec fn strip_at(s: Seq<char>) -> Seq<char> {
    if s.len() > 0 && s[0] == '@' {
        s.drop_first()
    } else {
        s
    }
}

/// What stands behind the last slash of `s`, or all of `s` where there is none.
pub open spec fn after_last_slash(s: Seq<char>) -> Seq<char>
    decreases s.len(),
{
    if s.len() == 0 || s.last() == '/' {
        seq![]
    } else {
        after_last_slash(s.drop_last()).push(s.last())
    }
}

/// The file name in a Lua chunk name such as `@/srv/app.lua`.
pub open spec fn chunk_base(s: Seq<char>) -> Seq<char> {
    after_last_slash(strip_at(trim_nul(s)))
}

proof fn trim_nul_skips(s: Seq<char>, n: int)
    requires
        0 <= n <= s.len(),
        forall|i: int| 0 <= i < n ==> s[i] == '\0',
        n < s.len() ==> s[n] != '\0',
    ensures
        trim_nul(s) == s.skip(n),
    decreases n,
{
    if n > 0 {
        trim_nul_skips(s.drop_first(), n - 1);
        assert(s.drop_first().skip(n - 1) =~= s.skip(n));
    } else {
        assert(s.skip(0) =~= s);
    }
}

proof fn after_last_slash_skips(s: Seq<char>, n: int)
    requires
        0 <= n <= s.len(),
        forall|i: int| n <= i < s.len() ==> s[i] != '/',
        n > 0 ==> s[n - 1] == '/',
    ensures
        after_last_slash(s) == s.skip(n),
    decreases s.len(),
{
    if n < s.len() {
        after_last_slash_skips(s.drop_last(), n);
        assert(s.skip(n) =~= s.drop_last().skip(n).push(s.last()));
    } else {
        assert(s.skip(n) =~= Seq::<char>::empty());
    }
}

/// The file name in a Lua chunk name: without leading NULs, without the `@` that
/// marks a file, without the directory.
pub fn strip_chunkname(s: &str) -> (r: String)
    ensures
        r@ == chunk_base(s@),
{
    let chars = chars_of(s);
    let mut start: usize = 0;
    while start < chars.len() && chars[start] == '\0'
        invariant
            start <= chars@.len(),
            forall|i: int| 0 <= i < start ==> chars@[i] == '\0',
        decreases chars@.len() - start,
    {
        start += 1;
    }
    proof {
        trim_nul_skips(chars@, start as int);
    }
    let ghost trimmed = chars@.skip(start as int);
    if start < chars.len() && chars[start] == '@' {
        start += 1;
        assert(trimmed.drop_first() =~= chars@.skip(start as int));
    }
    let ghost stripped = chars@.skip(start as int);
    assert(stripped == strip_at(trimmed));
    let mut base: usize = chars.len();
    while base > start && chars[base - 1] != '/'
        invariant
            start <= base <= chars@.len(),
            forall|i: int| base <= i < chars@.len() ==> chars@[i] != '/',
        decreases base,
    {
        base -= 1;
    }
    proof {
        after_last_slash_skips(stripped, base - start);
        assert(stripped.skip(base - start) =~= chars@.subrange(base as int, chars@.len() as int));
    }
    text_of(slice_subrange(chars.as_slice(), base, chars.len()))
}

/// The text of a frame, given what a Lua event says of it.
pub open spec fn frame_text(
    kind: i32,
    name: Seq<char>,
    line: i32,
    funcp: u64,
    include_c_stacks: bool,
) -> Option<Seq<char>> {
    if kind == FUNC_TYPE_LUA {
        if line > 0 {
            Some("L:"@ + chunk_base(name) + ":"@ + decimal(line as nat))
        } else if chunk_base(name).len() > 0 {
            Some("L:"@ + chunk_base(name))
        } else {
            None
        }
    } else if (kind == FUNC_TYPE_C || kind == FUNC_TYPE_LCF) && include_c_stacks {
        Some("C:"@ + prefixed_hex(funcp as nat))
    } else {
        None
    }
}

/// The text of a frame, given what a Lua event says of it.
pub fn render_lua_frame(
    kind: i32,
    name: &str,
    line: i32,
    funcp: u64,
    include_c_stacks: bool,
) -> (r: Option<String>)
    ensures
        opt_text(r) == frame_text(kind, name@, line, funcp, include_c_stacks),
{
    if kind == FUNC_TYPE_LUA {
        let chunk = strip_chunkname(name);
        let mut out = String::new();
        out.append("L:");
        out.append(chunk.as_str());
        assert(out@ =~= "L:"@ + chunk@);
        if line > 0 {
            out.append(":");
            push_decimal(&mut out, line as u64);
            Some(out)
        } else if !chunk.as_str().is_empty() {
            Some(out)
        } else {
            None
        }
    } else if (kind == FUNC_TYPE_C || kind == FUNC_TYPE_LCF) && include_c_stacks {
        let mut out = String::new();
        out.append("C:");
        push_prefixed_hex(&mut out, funcp);
        assert(out@ =~= "C:"@ + prefixed_hex(funcp as nat));
        Some(out)
    } else {
        None
    }
}

/// The text of an optional string.
pub open spec fn opt_text(s: Option<String>) -> Option<Seq<char>> {
    match s {
        Some(s) => Some(s@),
        None => None,
    }
}

/// The text of the frame that a Lua event stands for.
pub open spec fn lua_frame(ev: LuaStackEvent, include_c_stacks: bool) -> Option<Seq<char>> {
    frame_text(ev.kind, event_name(ev), ev.line, ev.funcp, include_c_stacks)
}

/// The text of the frame that a Lua event stands for. A Lua function is shown as
/// `L:` and its chunk, with the line where it is known; a C function as `C:` and
/// its address, if C frames are wanted. Anything else is not shown.
pub fn format_lua_frame(ev: &LuaStackEvent, include_c_stacks: bool) -> (r: Option<String>)
    ensures
        opt_text(r) == lua_frame(*ev, include_c_stacks),
{
    let name = ev.name_str();
    render_lua_frame(ev.kind, name.as_str(), ev.line, ev.funcp, include_c_stacks)
}

/// `sorted` with `ev` put behind the last event that is at least as far from the
/// leaf.
pub open spec fn insert_event(sorted: Seq<LuaStackEvent>, ev: LuaStackEvent) -> Seq<LuaStackEvent>
    decreases sorted.len(),
{
    if sorted.len() > 0 && sorted.last().level < ev.level {
        insert_event(sorted.drop_last(), ev).push(sorted.last())
    } else {
        sorted.push(ev)
    }
}

/// The events from the root of the stack to its leaf; events of one level stay in
/// the order in which they came.
pub open spec fn root_to_leaf(events: Seq<LuaStackEvent>) -> Seq<LuaStackEvent>
    decreases events.len(),
{
    if events.len() == 0 {
        seq![]
    } else {
        insert_event(root_to_leaf(events.drop_last()), events.last())
    }
}

proof fn insert_event_position(sorted: Seq<LuaStackEvent>, ev: LuaStackEvent, at: int)
    requires
        0 <= at <= sorted.len(),
        forall|i: int| at <= i < sorted.len() ==> sorted[i].level < ev.level,
        at > 0 ==> sorted[at - 1].level >= ev.level,
    ensures
        insert_event(sorted, ev) == sorted.insert(at, ev),
    decreases sorted.len(),
{
    if at < sorted.len() {
        insert_event_position(sorted.drop_last(), ev, at);
        assert(sorted.insert(at, ev) =~= sorted.drop_last().insert(at, ev).push(sorted.last()));
    } else {
        assert(sorted.insert(at, ev) =~= sorted.push(ev));
    }
}

/// The events from the root of the stack to its leaf.
pub fn sort_root_to_leaf(events: &[LuaStackEvent]) -> (r: Vec<LuaStackEvent>)
    ensures
        r@ == root_to_leaf(events@),
{
    let mut sorted: Vec<LuaStackEvent> = Vec::new();
    for i in 0..events.len()
        invariant
            sorted@ == root_to_leaf(events@.take(i as int)),
    {
        let ev = events[i];
        let mut at: usize = sorted.len();
        while at > 0 && sorted[at - 1].level < ev.level
            invariant
                at <= sorted@.len(),
                forall|j: int| at <= j < sorted@.len() ==> sorted@[j].level < ev.level,
            decreases at,
        {
            at -= 1;
        }
        proof {
            insert_event_position(sorted@, ev, at as int);
            assert(events@.take(i + 1).drop_last() =~= events@.take(i as int));
        }
        sorted.insert(at, ev);
    }
    assert(events@.take(events@.len() as int) =~= events@);
    sorted
}

/// `name` is one of the symbols by which ARM objects mark where code and data
/// begin: `$a`, `$d`, `$t` or `$x`, alone or with a dot and a number behind.
pub open spec fn is_mapping_symbol(name: Seq<char>) -> bool {
    &&& name.len() >= 2
    &&& name[0] == '$'
    &&& name[1] == 'a' || name[1] == 'd' || name[1] == 't' || name[1] == 'x'
    &&& name.len() == 2 || {
        &&& name.len() > 3
        &&& name[2] == '.'
        &&& forall|i: int| 3 <= i < name.len() ==> '0' <= #[trigger] name[i] && name[i] <= '9'
    }
}

/// `name` can be shown as the name of a function: it is not empty and no mapping
/// symbol.
pub fn is_native_function_symbol(name: &str) -> (r: bool)
    ensures
        r == (name@.len() > 0 && !is_mapping_symbol(name@)),
{
    let chars = chars_of(name);
    if chars.len() < 2 || chars[0] != '$' {
        return chars.len() > 0;
    }
    if chars[1] != 'a' && chars[1] != 'd' && chars[1] != 't' && chars[1] != 'x' {
        return true;
    }
    if chars.len() == 2 {
        return false;
    }
    if chars.len() == 3 || chars[2] != '.' {
        return true;
    }
    for i in 3..chars.len()
        invariant
            chars@ == name@,
            chars@.len() > 3,
            forall|j: int| 3 <= j < i ==> '0' <= #[trigger] chars@[j] && chars@[j] <= '9',
    {
        if chars[i] < '0' || chars[i] > '9' {
            assert(!('0' <= name@[i as int] && name@[i as int] <= '9'));
            return true;
        }
    }
    false
}

/// The texts of native frames; `None` is a frame without a name.
pub open spec fn texts(frames: Seq<Option<String>>) -> Seq<Option<Seq<char>>> {
    frames.map_values(|f: Option<String>| opt_text(f))
}

/// `text` as a sequence of one, or of none.
pub open spec fn as_seq(text: Option<Seq<char>>) -> Seq<Seq<char>> {
    match text {
        Some(t) => seq![t],
        None => seq![],
    }
}

/// The texts of Lua frames, without those that are not shown.
pub open spec fn lua_frames(lua: Seq<LuaStackEvent>, include_c_stacks: bool) -> Seq<Seq<char>>
    decreases lua.len(),
{
    if lua.len() == 0 {
        seq![]
    } else {
        as_seq(lua_frame(lua[0], include_c_stacks)) + lua_frames(lua.drop_first(), include_c_stacks)
    }
}

/// The frames of a stack from its root to its leaf. Both halves run from the root
/// to the leaf. A native frame without a name is where the Lua interpreter runs: it
/// gives way to the next Lua frame. Lua frames that are left over come last.
pub open spec fn merged(
    native: Seq<Option<Seq<char>>>,
    lua: Seq<LuaStackEvent>,
    include_c_stacks: bool,
) -> Seq<Seq<char>>
    decreases native.len(),
{
    if native.len() == 0 {
        lua_frames(lua, include_c_stacks)
    } else {
        match native[0] {
            Some(name) => (if include_c_stacks {
                seq![name]
            } else {
                seq![]
            }) + merged(native.drop_first(), lua, include_c_stacks),
            None => if lua.len() > 0 {
                as_seq(lua_frame(lua[0], include_c_stacks)) + merged(
                    native.drop_first(),
                    lua.drop_first(),
                    include_c_stacks,
                )
            } else {
                (if include_c_stacks {
                    seq!["[unknown]"@]
                } else {
                    seq![]
                }) + merged(native.drop_first(), lua, include_c_stacks)
            },
        }
    }
}

/// Frames as one line, or `None` where there are none.
pub open spec fn folded_line(frames: Seq<Seq<char>>) -> Option<Seq<char>> {
    if frames.len() == 0 {
        None
    } else {
        Some(joined(frames, ";"@))
    }
}

/// The line of a sample whose native frames have been given names.
pub open spec fn folded_stack(
    native: Seq<Option<Seq<char>>>,
    lua: Seq<LuaStackEvent>,
    include_c_stacks: bool,
) -> Option<Seq<char>> {
    folded_line(merged(native, root_to_leaf(lua), include_c_stacks))
}

/// The texts of strings.
pub open spec fn strings(frames: Seq<String>) -> Seq<Seq<char>> {
    frames.map_values(|p: String| p@)
}

fn push_frame(frames: &mut Vec<String>, frame: Option<String>)
    ensures
        strings(final(frames)@) == strings(old(frames)@) + as_seq(opt_text(frame)),
{
    if let Some(text) = frame {
        frames.push(text);
    }
    assert(strings(frames@) =~= strings(old(frames)@) + as_seq(opt_text(frame)));
}

/// The line of a sample: native frames, from the root to the leaf, merged with the
/// Lua frames of the sample.
pub fn fold_symbolized_stack(
    native_frames: &[Option<String>],
    lua: &[LuaStackEvent],
    include_c_stacks: bool,
) -> (r: Option<String>)
    ensures
        opt_text(r) == folded_stack(texts(native_frames@), lua@, include_c_stacks),
{
    let sorted = sort_root_to_leaf(lua);
    let mut frames: Vec<String> = Vec::new();
    let mut next: usize = 0;
    let ghost native = texts(native_frames@);
    let ghost total = merged(native, sorted@, include_c_stacks);
    assert(strings(frames@) =~= seq![]);
    assert(native.skip(0) =~= native);
    assert(sorted@.skip(0) =~= sorted@);
    for i in 0..native_frames.len()
        invariant
            native == texts(native_frames@),
            next <= sorted@.len(),
            total =~= strings(frames@) + merged(
                native.skip(i as int),
                sorted@.skip(next as int),
                include_c_stacks,
            ),
    {
        let ghost before = strings(frames@);
        assert(native.skip(i as int).drop_first() =~= native.skip(i + 1));
        assert(native.skip(i as int)[0] == opt_text(native_frames@[i as int]));
        match &native_frames[i] {
            Some(name) => {
                if include_c_stacks {
                    push_frame(&mut frames, Some(name.clone()));
                }
            },
            None => {
                if next < sorted.len() {
                    assert(sorted@.skip(next as int).drop_first() =~= sorted@.skip(next + 1));
                    push_frame(&mut frames, format_lua_frame(&sorted[next], include_c_stacks));
                    next += 1;
                } else if include_c_stacks {
                    push_frame(&mut frames, Some("[unknown]".to_string()));
                }
            },
        }
    }
    assert(native.skip(native_frames@.len() as int).len() == 0);
    while next < sorted.len()
        invariant
            next <= sorted@.len(),
            total =~= strings(frames@) + lua_frames(sorted@.skip(next as int), include_c_stacks),
        decreases sorted@.len() - next,
    {
        assert(sorted@.skip(next as int).drop_first() =~= sorted@.skip(next + 1));
        push_frame(&mut frames, format_lua_frame(&sorted[next], include_c_stacks));
        next += 1;
    }
    assert(strings(frames@) =~= total);
    if frames.is_empty() {
        None
    } else {
        Some(join_texts(frames.as_slice(), ";"))
    }
}

/// The frame of a symbol that a native address lies in: its name, if that names a
/// function, and how far behind it the address lies.
pub open spec fn symbol_frame(symbol: Option<(Seq<char>, u64)>) -> Option<Seq<char>> {
    match symbol {
        Some((name, offset)) if name.len() > 0 && !is_mapping_symbol(name) => Some(
            name + "+"@ + prefixed_hex(offset as nat),
        ),
        _ => None,
    }
}

/// The text of a symbol.
pub open spec fn symbol_view(symbol: Option<(String, u64)>) -> Option<(Seq<char>, u64)> {
    match symbol {
        Some((name, offset)) => Some((name@, offset)),
        None => None,
    }
}

/// The frame of a symbol that a native address lies in.
pub fn native_frame(symbol: Option<(String, u64)>) -> (r: Option<String>)
    ensures
        opt_text(r) == symbol_frame(symbol_view(symbol)),
{
    match symbol {
        Some((name, offset)) => {
            if is_native_function_symbol(name.as_str()) {
                let mut out = name;
                out.append("+");
                push_prefixed_hex(&mut out, offset);
                Some(out)
            } else {
                None
            }
        },
        None => None,
    }
}

/// The addresses of a native stack that are looked up, from the root to the leaf:
/// all but the null ones.
pub open spec fn looked_up(ips: Seq<u64>) -> Seq<u64>
    decreases ips.len(),
{
    if ips.len() == 0 {
        seq![]
    } else if ips[0] == 0 {
        looked_up(ips.drop_first())
    } else {
        looked_up(ips.drop_first()).push(ips[0])
    }
}

/// The symbolizer may give the frame `text` for the address `ip`.
pub open spec fn may_name<S: Fn(u64) -> Option<(String, u64)>>(
    symbolize: S,
    ip: u64,
    text: Option<Seq<char>>,
) -> bool {
    exists|answer: Option<(String, u64)>| #[trigger]
        call_ensures(symbolize, (ip,), answer) && text == symbol_frame(symbol_view(answer))
}

/// The symbolizer may give the frames `names` for the addresses `ips`.
pub open spec fn may_name_all<S: Fn(u64) -> Option<(String, u64)>>(
    symbolize: S,
    ips: Seq<u64>,
    names: Seq<Option<Seq<char>>>,
) -> bool {
    &&& names.len() == ips.len()
    &&& forall|i: int| 0 <= i < ips.len() ==> may_name(symbolize, #[trigger] ips[i], names[i])
}

/// The symbolizer can be asked for any address.
pub open spec fn can_symbolize<S: Fn(u64) -> Option<(String, u64)>>(symbolize: S) -> bool {
    forall|ip: u64| #[trigger] call_requires(symbolize, (ip,))
}

/// `line` may be the line of a sample with the native addresses `ips`, leaf first,
/// and the Lua events `lua`, given what the symbolizer may answer. Without C stacks
/// no address is looked up.
pub open spec fn may_build<S: Fn(u64) -> Option<(String, u64)>>(
    symbolize: S,
    ips: Seq<u64>,
    lua: Seq<LuaStackEvent>,
    include_c_stacks: bool,
    line: Option<Seq<char>>,
) -> bool {
    if include_c_stacks {
        exists|names: Seq<Option<Seq<char>>>| #[trigger]
            may_name_all(symbolize, looked_up(ips), names) && line == folded_stack(names, lua, true)
    } else {
        line == folded_stack(seq![], lua, false)
    }
}

/// The line of a sample with the native addresses `ips`, leaf first, and the Lua
/// events `lua`. `symbolize` finds the symbol that an address lies in, and how far
/// behind it the address lies.
pub fn build_stack<S: Fn(u64) -> Option<(String, u64)>>(
    ips: &[u64],
    lua: &[LuaStackEvent],
    symbolize: &S,
    include_c_stacks: bool,
) -> (r: Option<String>)
    requires
        can_symbolize(*symbolize),
    ensures
        may_build(*symbolize, ips@, lua@, include_c_stacks, opt_text(r)),
{
    let mut native_frames: Vec<Option<String>> = Vec::new();
    if include_c_stacks {
        let mut i: usize = ips.len();
        while i > 0
            invariant
                i <= ips@.len(),
                can_symbolize(*symbolize),
                may_name_all(*symbolize, looked_up(ips@.skip(i as int)), texts(native_frames@)),
            decreases i,
        {
            i -= 1;
            let ip: u64 = ips[i];
            assert(ips@.skip(i as int).drop_first() =~= ips@.skip(i + 1));
            let ghost before = texts(native_frames@);
            if ip != 0 {
                let answer = symbolize(ip);
                let frame = native_frame(answer);
                assert(may_name(*symbolize, ip, opt_text(frame)));
                native_frames.push(frame);
                assert(texts(native_frames@) =~= before.push(opt_text(frame)));
            }
        }
        assert(ips@.skip(0) =~= ips@);
    }
    assert(!include_c_stacks ==> texts(native_frames@) =~= seq![]);
    fold_symbolized_stack(native_frames.as_slice(), lua, include_c_stacks)
}

/// The symbolizer answers for every address as `table` says.
pub open spec fn symbolizes_as<S: Fn(u64) -> Option<(String, u64)>>(
    symbolize: S,
    table: spec_fn(u64) -> Option<(Seq<char>, u64)>,
) -> bool {
    forall|ip: u64, answer: Option<(String, u64)>| #[trigger]
        call_ensures(symbolize, (ip,), answer) ==> symbol_view(answer) == table(ip)
}

/// The line of a sample, given the symbol of each address.
pub open spec fn built_stack(
    table: spec_fn(u64) -> Option<(Seq<char>, u64)>,
    ips: Seq<u64>,
    lua: Seq<LuaStackEvent>,
    include_c_stacks: bool,
) -> Option<Seq<char>> {
    folded_stack(
        if include_c_stacks {
            looked_up(ips).map_values(|ip: u64| symbol_frame(table(ip)))
        } else {
            seq![]
        },
        lua,
        include_c_stacks,
    )
}

/// While the symbols do not change, a sample has one line only.
pub proof fn built_line_is_the_one_of_the_symbols<S: Fn(u64) -> Option<(String, u64)>>(
    symbolize: S,
    table: spec_fn(u64) -> Option<(Seq<char>, u64)>,
    ips: Seq<u64>,
    lua: Seq<LuaStackEvent>,
    include_c_stacks: bool,
    line: Option<Seq<char>>,
)
    requires
        symbolizes_as(symbolize, table),
        may_build(symbolize, ips, lua, include_c_stacks, line),
    ensures
        line == built_stack(table, ips, lua, include_c_stacks),
{
    if include_c_stacks {
        let names = choose|names: Seq<Option<Seq<char>>>| #[trigger]
            may_name_all(symbolize, looked_up(ips), names) && line == folded_stack(
                names,
                lua,
                true,
            );
        let addrs = looked_up(ips);
        assert forall|i: int| 0 <= i < addrs.len() implies names[i] == symbol_frame(
            table(addrs[i]),
        ) by {
            assert(may_name(symbolize, addrs[i], names[i]));
        }
        assert(names =~= addrs.map_values(|ip: u64| symbol_frame(table(ip))));
    }
}

proof fn insert_event_keeps(sorted: Seq<LuaStackEvent>, ev: LuaStackEvent, level: i32)
    ensures
        insert_event(sorted, ev).len() == sorted.len() + 1,
        insert_event(sorted, ev).to_multiset() == sorted.to_multiset().insert(ev),
        insert_event(sorted, ev).filter(|e: LuaStackEvent| e.level == level) == if ev.level
            == level {
            sorted.filter(|e: LuaStackEvent| e.level == level).push(ev)
        } else {
            sorted.filter(|e: LuaStackEvent| e.level == level)
        },
    decreases sorted.len(),
{
    broadcast use vstd::seq_lib::group_to_multiset_ensures;

    reveal(Seq::filter);
    let r = insert_event(sorted, ev);
    if sorted.len() > 0 && sorted.last().level < ev.level {
        let rest = insert_event(sorted.drop_last(), ev);
        insert_event_keeps(sorted.drop_last(), ev, level);
        assert(r == rest.push(sorted.last()));
        assert(r.drop_last() =~= rest);
        assert(sorted =~= sorted.drop_last().push(sorted.last()));
        assert(r.to_multiset() =~= sorted.to_multiset().insert(ev));
    } else {
        assert(r.drop_last() =~= sorted);
    }
}

/// The events of a stack are ordered from the root, which has the highest level, to
/// the leaf; none is lost or added; those of one level keep the order in which they
/// came.
pub proof fn root_to_leaf_sorts_and_keeps(events: Seq<LuaStackEvent>, level: i32)
    ensures
        forall|i: int, j: int|
            0 <= i <= j < events.len() ==> (#[trigger] root_to_leaf(events)[i]).level >= (
            #[trigger] root_to_leaf(events)[j]).level,
        root_to_leaf(events).len() == events.len(),
        root_to_leaf(events).to_multiset() == events.to_multiset(),
        root_to_leaf(events).filter(|e: LuaStackEvent| e.level == level) == events.filter(
            |e: LuaStackEvent| e.level == level,
        ),
    decreases events.len(),
{
    broadcast use vstd::seq_lib::group_to_multiset_ensures;

    reveal(Seq::filter);
    if events.len() > 0 {
        let rest = root_to_leaf(events.drop_last());
        let ev = events.last();
        root_to_leaf_sorts_and_keeps(events.drop_last(), level);
        insert_event_keeps(rest, ev, level);
        insert_event_sorted(rest, ev);
        assert(events =~= events.drop_last().push(ev));
    } else {
        assert(root_to_leaf(events) =~= events);
    }
}

proof fn insert_event_sorted(sorted: Seq<LuaStackEvent>, ev: LuaStackEvent)
    requires
        forall|i: int, j: int|
            0 <= i <= j < sorted.len() ==> (#[trigger] sorted[i]).level >= (
            #[trigger] sorted[j]).level,
    ensures
        insert_event(sorted, ev).len() == sorted.len() + 1,
        forall|i: int, j: int|
            0 <= i <= j <= sorted.len() ==> (#[trigger] insert_event(sorted, ev)[i]).level >= (
            #[trigger] insert_event(sorted, ev)[j]).level,
        forall|l: i32|
            #![trigger at_least(sorted, l)]
            at_least(sorted, l) && ev.level >= l ==> at_least(insert_event(sorted, ev), l),
    decreases sorted.len(),
{
    if sorted.len() > 0 && sorted.last().level < ev.level {
        let rest = sorted.drop_last();
        insert_event_sorted(rest, ev);
        assert(at_least(rest, sorted.last().level)) by {
            assert(forall|i: int| 0 <= i < rest.len() ==> rest[i] == sorted[i]);
        }
        assert(at_least(insert_event(rest, ev), sorted.last().level));
        assert forall|l: i32|
            #![trigger at_least(sorted, l)]
            at_least(sorted, l) && ev.level >= l implies at_least(insert_event(sorted, ev), l) by {
            assert(sorted.last().level >= l);
            assert(at_least(rest, l)) by {
                assert(forall|i: int| 0 <= i < rest.len() ==> rest[i] == sorted[i]);
            }
        }
    }
}

/// Every event of `events` has at least level `l`.
spec fn at_least(events: Seq<LuaStackEvent>, l: i32) -> bool {
    forall|i: int| 0 <= i < events.len() ==> (#[trigger] events[i]).level >= l
}

/// Without C stacks, native frames are dropped and the Lua frames stay, whatever the
/// native half.
pub proof fn lua_only_drops_native_frames(
    native: Seq<Option<Seq<char>>>,
    lua: Seq<LuaStackEvent>,
)
    ensures
        merged(native, lua, false) == lua_frames(lua, false),
    decreases native.len(),
{
    if native.len() > 0 {
        match native[0] {
            Some(_) => {
                lua_only_drops_native_frames(native.drop_first(), lua);
            },
            None => {
                if lua.len() > 0 {
                    lua_only_drops_native_frames(native.drop_first(), lua.drop_first());
                } else {
                    lua_only_drops_native_frames(native.drop_first(), lua);
                }
            },
        }
        assert(merged(native, lua, false) =~= lua_frames(lua, false));
    }
}

/// Without C stacks, every frame that is shown is that of a Lua function: there is no
/// frame of a C function and no native one.
pub proof fn lua_only_shows_lua_functions(
    native: Seq<Option<Seq<char>>>,
    lua: Seq<LuaStackEvent>,
    i: int,
)
    requires
        0 <= i < merged(native, lua, false).len(),
    ensures
        merged(native, lua, false)[i].len() >= 2,
        merged(native, lua, false)[i].take(2) == "L:"@,
        exists|j: int|
            0 <= j < lua.len() && (#[trigger] lua[j]).kind == FUNC_TYPE_LUA && lua_frame(
                lua[j],
                false,
            ) == Some(merged(native, lua, false)[i]),
{
    lua_only_drops_native_frames(native, lua);
    lua_frames_are_lua(lua, i);
}

proof fn lua_frames_are_lua(lua: Seq<LuaStackEvent>, i: int)
    requires
        0 <= i < lua_frames(lua, false).len(),
    ensures
        lua_frames(lua, false)[i].len() >= 2,
        lua_frames(lua, false)[i].take(2) == "L:"@,
        exists|j: int|
            0 <= j < lua.len() && (#[trigger] lua[j]).kind == FUNC_TYPE_LUA && lua_frame(
                lua[j],
                false,
            ) == Some(lua_frames(lua, false)[i]),
    decreases lua.len(),
{
    reveal_strlit("L:");
    let first = as_seq(lua_frame(lua[0], false));
    let rest = lua_frames(lua.drop_first(), false);
    let f = lua_frames(lua, false)[i];
    if i < first.len() {
        assert(lua_frame(lua[0], false) == Some(f));
        assert(f.take(2) =~= "L:"@);
    } else {
        lua_frames_are_lua(lua.drop_first(), i - first.len());
        assert(f == rest[i - first.len()]);
        let j = choose|j: int|
            0 <= j < lua.drop_first().len() && (#[trigger] lua.drop_first()[j]).kind
                == FUNC_TYPE_LUA && lua_frame(lua.drop_first()[j], false) == Some(f);
        assert(lua[j + 1] == lua.drop_first()[j]);
    }
}

/// With C stacks, a stack without Lua frames shows every native frame in its place,
/// one without a name as unknown.
pub proof fn native_stack_is_shown_whole(native: Seq<Option<Seq<char>>>, i: int)
    requires
        0 <= i < native.len(),
    ensures
        merged(native, seq![], true).len() == native.len(),
        merged(native, seq![], true)[i] == match native[i] {
            Some(name) => name,
            None => "[unknown]"@,
        },
    decreases native.len(),
{
    if native.len() > 1 {
        if i > 0 {
            native_stack_is_shown_whole(native.drop_first(), i - 1);
        } else {
            native_stack_is_shown_whole(native.drop_first(), 0);
        }
    } else {
        assert(merged(native.drop_first(), seq![], true).len() == 0);
    }
}

/// The chunk of a name is what stands behind its directory. Before that may stand NULs and,
/// where the chunk is a file, an `@`; every name is made up in this way.
pub proof fn chunk_is_what_follows_the_directory(
    nuls: Seq<char>,
    is_file: bool,
    directory: Seq<char>,
    file: Seq<char>,
)
    requires
        forall|i: int| 0 <= i < nuls.len() ==> nuls[i] == '\0',
        directory.len() > 0 ==> directory.last() == '/',
        forall|i: int| 0 <= i < file.len() ==> file[i] != '/',
        !is_file && (directory + file).len() > 0 ==> (directory + file)[0] != '\0' && (directory
            + file)[0] != '@',
    ensures
        chunk_base(
            nuls + (if is_file {
                seq!['@']
            } else {
                seq![]
            }) + directory + file,
        ) == file,
{
    let mark = if is_file {
        seq!['@']
    } else {
        Seq::<char>::empty()
    };
    let s = nuls + mark + directory + file;
    let (n, m) = (nuls.len() as int, mark.len() as int);
    assert(n < s.len() ==> s[n] == (if is_file {
        '@'
    } else {
        (directory + file)[0]
    }));
    trim_nul_skips(s, n);
    assert(s.skip(n) =~= mark + directory + file);
    let path = directory + file;
    assert(strip_at(s.skip(n)) =~= path);
    after_last_slash_skips(path, directory.len() as int);
    assert(path.skip(directory.len() as int) =~= file);
}

/// What is not the name of a function: nothing, a mapping symbol alone, or one with a dot
/// and a number behind. Every other name is one.
pub proof fn mapping_symbols_are_these(kind: char, number: Seq<char>, name: Seq<char>)
    requires
        kind == 'a' || kind == 'd' || kind == 't' || kind == 'x',
        number.len() > 0,
        forall|i: int| 0 <= i < number.len() ==> '0' <= number[i] && number[i] <= '9',
    ensures
        is_mapping_symbol(seq!['$', kind]),
        is_mapping_symbol(seq!['$', kind, '.'] + number),
        is_mapping_symbol(name) ==> {
            &&& name.len() >= 2
            &&& name[0] == '$'
            &&& seq!['a', 'd', 't', 'x'].contains(name[1])
            &&& name.len() > 2 ==> name[2] == '.' && name.len() > 3 && name.skip(3).all(
                |c: char| '0' <= c && c <= '9',
            )
        },
{
    let numbered = seq!['$', kind, '.'] + number;
    assert forall|i: int| 3 <= i < numbered.len() implies '0' <= #[trigger] numbered[i]
        && numbered[i] <= '9' by {
        assert(numbered[i] == number[i - 3]);
    }
    if is_mapping_symbol(name) {
        let kinds = seq!['a', 'd', 't', 'x'];
        assert(kinds[0] == 'a' && kinds[1] == 'd' && kinds[2] == 't' && kinds[3] == 'x');
        assert(kinds.contains(name[1]));
    }
}

/// What is shown of a Lua event. A Lua function is shown by its chunk, and by its line
/// where that is known; it is left out where neither is. A C function, of either kind, is
/// shown by its address exactly if C stacks are wanted. Nothing else is shown.
pub proof fn lua_event_is_shown_by_what_it_is(ev: LuaStackEvent, include_c_stacks: bool)
    ensures
        ev.kind == FUNC_TYPE_LUA && ev.line > 0 ==> lua_frame(ev, include_c_stacks) == Some(
            seq!['L', ':'] + chunk_base(event_name(ev)) + seq![':'] + decimal(ev.line as nat),
        ),
        ev.kind == FUNC_TYPE_LUA && ev.line <= 0 ==> {
            &&& lua_frame(ev, include_c_stacks) is Some <==> chunk_base(event_name(ev)).len() > 0
            &&& lua_frame(ev, include_c_stacks) is Some ==> lua_frame(ev, include_c_stacks)->0
                == seq!['L', ':'] + chunk_base(event_name(ev))
        },
        ev.kind == FUNC_TYPE_C || ev.kind == FUNC_TYPE_LCF ==> {
            &&& lua_frame(ev, include_c_stacks) is Some <==> include_c_stacks
            &&& lua_frame(ev, include_c_stacks) is Some ==> lua_frame(ev, include_c_stacks)->0
                == seq!['C', ':'] + prefixed_hex(ev.funcp as nat)
        },
        ![FUNC_TYPE_LUA, FUNC_TYPE_C, FUNC_TYPE_LCF]@.contains(ev.kind) ==> lua_frame(
            ev,
            include_c_stacks,
        ) is None,
{
    reveal_strlit("L:");
    reveal_strlit("C:");
    reveal_strlit(":");
    assert("L:"@ =~= seq!['L', ':']);
    assert("C:"@ =~= seq!['C', ':']);
    assert(":"@ =~= seq![':']);
    let kinds = [FUNC_TYPE_LUA, FUNC_TYPE_C, FUNC_TYPE_LCF]@;
    assert(kinds[0] == FUNC_TYPE_LUA && kinds[1] == FUNC_TYPE_C && kinds[2] == FUNC_TYPE_LCF);
    if !kinds.contains(ev.kind) {
        assert(ev.kind != kinds[0] && ev.kind != kinds[1] && ev.kind != kinds[2]);
    }
}

/// What is shown of two events is told apart: two known lines of one chunk, and two C
/// functions, are shown alike only if they are the same.
pub proof fn shown_events_are_told_apart(a: LuaStackEvent, b: LuaStackEvent)
    requires
        a.kind == b.kind,
        lua_frame(a, true) == lua_frame(b, true),
    ensures
        a.kind == FUNC_TYPE_LUA && event_name(a) == event_name(b) && a.line > 0 && b.line > 0
            ==> a.line == b.line,
        a.kind == FUNC_TYPE_C || a.kind == FUNC_TYPE_LCF ==> a.funcp == b.funcp,
{
    lua_event_is_shown_by_what_it_is(a, true);
    lua_event_is_shown_by_what_it_is(b, true);
    let (x, y) = (lua_frame(a, true)->0, lua_frame(b, true)->0);
    if a.kind == FUNC_TYPE_LUA && event_name(a) == event_name(b) && a.line > 0 && b.line > 0 {
        let n = 3 + chunk_base(event_name(a)).len();
        assert(x.skip(n as int) =~= decimal(a.line as nat));
        assert(y.skip(n as int) =~= decimal(b.line as nat));
        numbers_are_told_apart(a.line as nat, b.line as nat);
    }
    if a.kind == FUNC_TYPE_C || a.kind == FUNC_TYPE_LCF {
        assert(x.skip(2) =~= prefixed_hex(a.funcp as nat));
        assert(y.skip(2) =~= prefixed_hex(b.funcp as nat));
        numbers_are_told_apart(a.funcp as nat, b.funcp as nat);
    }
}

proof fn lua_frames_grow(lua: Seq<LuaStackEvent>, ev: LuaStackEvent, include_c_stacks: bool)
    ensures
        lua_frames(lua.push(ev), include_c_stacks) == lua_frames(lua, include_c_stacks) + as_seq(
            lua_frame(ev, include_c_stacks),
        ),
    decreases lua.len(),
{
    let more = lua.push(ev);
    if lua.len() > 0 {
        lua_frames_grow(lua.drop_first(), ev, include_c_stacks);
        assert(more.drop_first() =~= lua.drop_first().push(ev));
        assert(more[0] == lua[0]);
        assert(lua_frames(more, include_c_stacks) =~= lua_frames(lua, include_c_stacks) + as_seq(
            lua_frame(ev, include_c_stacks),
        ));
    } else {
        assert(more.drop_first() =~= lua);
        assert(lua_frames(more, include_c_stacks) =~= lua_frames(lua, include_c_stacks) + as_seq(
            lua_frame(ev, include_c_stacks),
        ));
    }
}

proof fn lua_frames_are_those_shown(lua: Seq<LuaStackEvent>, include_c_stacks: bool)
    ensures
        lua_frames(lua, include_c_stacks) == lua.filter_map(
            |ev: LuaStackEvent| lua_frame(ev, include_c_stacks),
        ),
    decreases lua.len(),
{
    if lua.len() > 0 {
        lua_frames_are_those_shown(lua.drop_last(), include_c_stacks);
        lua_frames_grow(lua.drop_last(), lua.last(), include_c_stacks);
        assert(lua =~= lua.drop_last().push(lua.last()));
        assert(lua_frames(lua, include_c_stacks) =~= lua.filter_map(
            |ev: LuaStackEvent| lua_frame(ev, include_c_stacks),
        ));
    }
}

/// How many of the frames have no name.
spec fn unnamed(native: Seq<Option<Seq<char>>>) -> nat {
    native.filter(|f: Option<Seq<char>>| f is None).len()
}

/// What is shown in the place of native frame `i`.
spec fn shown_at(
    native: Seq<Option<Seq<char>>>,
    lua: Seq<LuaStackEvent>,
    include_c_stacks: bool,
    i: int,
) -> Seq<Seq<char>> {
    match native[i] {
        Some(name) => if include_c_stacks {
            seq![name]
        } else {
            seq![]
        },
        None => {
            let k = unnamed(native.take(i)) as int;
            if k < lua.len() {
                as_seq(lua_frame(lua[k], include_c_stacks))
            } else if include_c_stacks {
                seq!["[unknown]"@]
            } else {
                seq![]
            }
        },
    }
}

proof fn unnamed_from_the_root(native: Seq<Option<Seq<char>>>)
    requires
        native.len() > 0,
    ensures
        unnamed(native) == unnamed(native.drop_first()) + if native[0] is None {
            1int
        } else {
            0
        },
{
    let is_unnamed = |f: Option<Seq<char>>| f is None;
    let first = seq![native[0]];
    assert(native =~= first + native.drop_first());
    Seq::filter_distributes_over_add(first, native.drop_first(), is_unnamed);
    reveal_with_fuel(Seq::filter, 2);
    assert(first.drop_last() =~= Seq::<Option<Seq<char>>>::empty());
}

proof fn merged_shows_each_in_its_place(
    native: Seq<Option<Seq<char>>>,
    lua: Seq<LuaStackEvent>,
    include_c_stacks: bool,
)
    ensures
        merged(native, lua, include_c_stacks) == Seq::new(
            native.len(),
            |i: int| shown_at(native, lua, include_c_stacks, i),
        ).flatten() + lua_frames(
            lua.skip(
                if unnamed(native) < lua.len() {
                    unnamed(native) as int
                } else {
                    lua.len() as int
                },
            ),
            include_c_stacks,
        ),
    decreases native.len(),
{
    let n = unnamed(native) as int;
    let at = if n < lua.len() {
        n
    } else {
        lua.len() as int
    };
    let places = Seq::new(native.len(), |i: int| shown_at(native, lua, include_c_stacks, i));
    if native.len() == 0 {
        reveal(Seq::filter);
        assert(lua.skip(0) =~= lua);
        assert(merged(native, lua, include_c_stacks) =~= places.flatten() + lua_frames(
            lua.skip(at),
            include_c_stacks,
        ));
    } else {
        let fewer = native.drop_first();
        let left = if native[0] is None && lua.len() > 0 {
            lua.drop_first()
        } else {
            lua
        };
        let other = Seq::new(fewer.len(), |i: int| shown_at(fewer, left, include_c_stacks, i));
        merged_shows_each_in_its_place(fewer, left, include_c_stacks);
        unnamed_from_the_root(native);
        assert forall|i: int| 0 <= i < fewer.len() implies places.drop_first()[i] == other[i] by {
            let start = native.take(i + 1);
            unnamed_from_the_root(start);
            assert(start.drop_first() =~= fewer.take(i));
            assert(native[i + 1] == fewer[i]);
        }
        assert(places.drop_first() =~= other);
        assert(native.take(0) =~= Seq::<Option<Seq<char>>>::empty());
        assert(unnamed(native.take(0)) == 0) by {
            reveal(Seq::filter);
        }
        let m = unnamed(fewer) as int;
        let left_at = if m < left.len() {
            m
        } else {
            left.len() as int
        };
        assert(left.skip(left_at) =~= lua.skip(at));
        assert(merged(native, lua, include_c_stacks) =~= places[0] + merged(
            fewer,
            left,
            include_c_stacks,
        ));
        assert(merged(native, lua, include_c_stacks) =~= places.flatten() + lua_frames(
            lua.skip(at),
            include_c_stacks,
        ));
    }
}

/// The line of a sample shows every frame in its place, from the root to the leaf. A
/// native frame with a name is shown by it, where C stacks are wanted. The native frames
/// without one stand for the Lua events, in turn: each shows the event whose turn it is,
/// and once the events are used up it is unknown. The events whose turn did not come stand
/// behind. What is not shown leaves nothing, and where nothing is shown there is no line.
pub proof fn line_shows_each_frame_in_its_place(
    native: Seq<Option<Seq<char>>>,
    lua: Seq<LuaStackEvent>,
    include_c_stacks: bool,
)
    ensures
        ({
            let events = root_to_leaf(lua);
            let unnamed = native.filter(|f: Option<Seq<char>>| f is None).len() as int;
            let frames = Seq::new(
                native.len(),
                |i: int|
                    match native[i] {
                        Some(name) => if include_c_stacks {
                            seq![name]
                        } else {
                            seq![]
                        },
                        None => {
                            let turn = native.take(i).filter(
                                |f: Option<Seq<char>>| f is None,
                            ).len() as int;
                            if turn < events.len() {
                                match lua_frame(events[turn], include_c_stacks) {
                                    Some(text) => seq![text],
                                    None => seq![],
                                }
                            } else if include_c_stacks {
                                seq!["[unknown]"@]
                            } else {
                                seq![]
                            }
                        },
                    },
            ).flatten() + events.skip(
                if unnamed < events.len() {
                    unnamed
                } else {
                    events.len() as int
                },
            ).filter_map(|ev: LuaStackEvent| lua_frame(ev, include_c_stacks));
            folded_stack(native, lua, include_c_stacks) == if frames.len() > 0 {
                Some(joined(frames, seq![';']))
            } else {
                None
            }
        }),
{
    let events = root_to_leaf(lua);
    let unnamed = native.filter(|f: Option<Seq<char>>| f is None).len() as int;
    let at = if unnamed < events.len() {
        unnamed
    } else {
        events.len() as int
    };
    merged_shows_each_in_its_place(native, events, include_c_stacks);
    lua_frames_are_those_shown(events.skip(at), include_c_stacks);
    let places = Seq::new(native.len(), |i: int| shown_at(native, events, include_c_stacks, i));
    assert(places =~= Seq::new(
        native.len(),
        |i: int|
            match native[i] {
                Some(name) => if include_c_stacks {
                    seq![name]
                } else {
                    seq![]
                },
                None => {
                    let turn = native.take(i).filter(|f: Option<Seq<char>>| f is None).len() as int;
                    if turn < events.len() {
                        match lua_frame(events[turn], include_c_stacks) {
                            Some(text) => seq![text],
                            None => seq![],
                        }
                    } else if include_c_stacks {
                        seq!["[unknown]"@]
                    } else {
                        seq![]
                    }
                },
            },
    ));
    reveal_strlit(";");
    assert(";"@ =~= seq![';']);
}

proof fn singles_flatten_to_themselves(singles: Seq<Seq<Seq<char>>>, i: int)
    requires
        forall|j: int| 0 <= j < singles.len() ==> (#[trigger] singles[j]).len() == 1,
    ensures
        singles.flatten().len() == singles.len(),
        0 <= i < singles.len() ==> singles.flatten()[i] == singles[i][0],
    decreases singles.len(),
{
    if singles.len() > 0 {
        let rest = singles.drop_first();
        assert forall|j: int| 0 <= j < rest.len() implies (#[trigger] rest[j]).len() == 1 by {
            assert(rest[j] == singles[j + 1]);
        }
        singles_flatten_to_themselves(rest, i - 1);
        if i > 0 && i < singles.len() {
            assert(rest[i - 1] == singles[i]);
        }
    }
}

proof fn shown_events_stand_one_by_one(lua: Seq<LuaStackEvent>, i: int)
    requires
        forall|j: int| 0 <= j < lua.len() ==> lua_frame(#[trigger] lua[j], true) is Some,
    ensures
        lua_frames(lua, true).len() == lua.len(),
        0 <= i < lua.len() ==> Some(lua_frames(lua, true)[i]) == lua_frame(lua[i], true),
    decreases lua.len(),
{
    if lua.len() > 0 {
        let rest = lua.drop_first();
        assert(lua_frame(lua[0], true) is Some);
        assert forall|j: int| 0 <= j < rest.len() implies lua_frame(
            #[trigger] rest[j],
            true,
        ) is Some by {
            assert(rest[j] == lua[j + 1]);
        }
        shown_events_stand_one_by_one(rest, i - 1);
        if i > 0 && i < lua.len() {
            assert(rest[i - 1] == lua[i]);
        }
    }
}

proof fn unnamed_is_monotone(native: Seq<Option<Seq<char>>>, i: int)
    requires
        0 <= i < native.len(),
    ensures
        unnamed(native.take(i)) <= unnamed(native),
        native[i] is None ==> unnamed(native.take(i)) < unnamed(native),
    decreases native.len(),
{
    reveal(Seq::filter);
    if i < native.len() - 1 {
        unnamed_is_monotone(native.drop_last(), i);
        assert(native.drop_last().take(i) =~= native.take(i));
        assert(native.drop_last()[i] == native[i]);
    } else {
        assert(native.take(i) =~= native.drop_last());
    }
}

/// With C stacks, where every Lua event is shown and there are enough of them, each native
/// frame without a name takes one of its own, in its place: the first one takes the event
/// nearest to the root, the next one the next, and so on. The events that are left come
/// behind the leaf, in their order.
pub proof fn each_unnamed_frame_takes_an_event_of_its_own(
    native: Seq<Option<Seq<char>>>,
    lua: Seq<LuaStackEvent>,
) -> (frames: Seq<Seq<char>>)
    requires
        forall|j: int| 0 <= j < lua.len() ==> lua_frame(#[trigger] lua[j], true) is Some,
        native.filter(|f: Option<Seq<char>>| f is None).len() <= lua.len(),
        native.len() + lua.len() > 0,
    ensures
        folded_stack(native, lua, true) == Some(joined(frames, seq![';'])),
        frames.len() == native.len() + lua.len() - native.filter(
            |f: Option<Seq<char>>| f is None,
        ).len(),
        forall|i: int|
            0 <= i < native.len() ==> Some(#[trigger] frames[i]) == match native[i] {
                Some(name) => Some(name),
                None => lua_frame(
                    root_to_leaf(lua)[native.take(i).filter(
                        |f: Option<Seq<char>>| f is None,
                    ).len() as int],
                    true,
                ),
            },
        forall|i: int|
            native.len() <= i < frames.len() ==> Some(#[trigger] frames[i]) == lua_frame(
                root_to_leaf(lua)[i - native.len() + native.filter(
                    |f: Option<Seq<char>>| f is None,
                ).len()],
                true,
            ),
{
    let events = root_to_leaf(lua);
    let n = unnamed(native) as int;
    root_to_leaf_sorts_and_keeps(lua, 0);
    assert forall|j: int| 0 <= j < events.len() implies lua_frame(
        #[trigger] events[j],
        true,
    ) is Some by {
        broadcast use vstd::seq_lib::group_to_multiset_ensures;

        assert(events.contains(events[j]));
        assert(events.to_multiset().count(events[j]) > 0);
        assert(lua.contains(events[j]));
        let k = lua.index_of(events[j]);
        assert(lua_frame(lua[k], true) is Some);
    }
    merged_shows_each_in_its_place(native, events, true);
    let places = Seq::new(native.len(), |i: int| shown_at(native, events, true, i));
    let rest = events.skip(n);
    let frames = merged(native, events, true);
    assert forall|j: int| 0 <= j < places.len() implies (#[trigger] places[j]).len() == 1 by {
        unnamed_is_monotone(native, j);
        if native[j] is None {
            assert(lua_frame(events[unnamed(native.take(j)) as int], true) is Some);
        }
    }
    assert(events.skip(
        if n < events.len() {
            n
        } else {
            events.len() as int
        },
    ) =~= rest);
    assert forall|j: int| 0 <= j < rest.len() implies lua_frame(#[trigger] rest[j], true) is Some by {
        assert(rest[j] == events[j + n]);
    }
    singles_flatten_to_themselves(places, 0);
    shown_events_stand_one_by_one(rest, 0);
    assert forall|i: int| 0 <= i < native.len() implies Some(#[trigger] frames[i])
        == match native[i] {
        Some(name) => Some(name),
        None => lua_frame(events[unnamed(native.take(i)) as int], true),
    } by {
        singles_flatten_to_themselves(places, i);
        unnamed_is_monotone(native, i);
        assert(frames[i] == places[i][0]);
        if native[i] is None {
            assert(lua_frame(events[unnamed(native.take(i)) as int], true) is Some);
        }
    }
    assert forall|i: int| native.len() <= i < frames.len() implies Some(#[trigger] frames[i])
        == lua_frame(events[i - native.len() + n], true) by {
        shown_events_stand_one_by_one(rest, i - native.len());
        assert(rest[i - native.len()] == events[i - native.len() + n]);
    }
    reveal_strlit(";");
    assert(";"@ =~= seq![';']);
    frames
}

/// The symbol of an address is shown by its name and by how far behind it the address
/// lies, where the name is that of a function.
pub proof fn symbol_is_shown_with_its_distance(name: Seq<char>, offset: u64)
    ensures
        symbol_frame(None) is None,
        symbol_frame(Some((name, offset))) is None <==> name.len() == 0 || is_mapping_symbol(name),
        symbol_frame(Some((name, offset))) is Some ==> symbol_frame(Some((name, offset)))->0
            == name + seq!['+'] + prefixed_hex(offset as nat),
{
    reveal_strlit("+");
    assert("+"@ =~= seq!['+']);
}

/// The addresses that are looked up are those of the native stack from its root to its
/// leaf, without the null ones and without any other change: each comes as often as it is
/// on the stack.
pub proof fn every_address_is_looked_up(ips: Seq<u64>)
    ensures
        looked_up(ips) == ips.filter(|ip: u64| ip != 0).reverse(),
        looked_up(ips).to_multiset() == ips.filter(|ip: u64| ip != 0).to_multiset(),
        looked_up(ips).len() == ips.filter(|ip: u64| ip != 0).len(),
        !ips.contains(0) ==> looked_up(ips).len() == ips.len() && forall|i: int|
            0 <= i < ips.len() ==> #[trigger] looked_up(ips)[i] == ips[ips.len() - 1 - i],
    decreases ips.len(),
{
    looked_up_is_reversed(ips);
    ips.filter(|ip: u64| ip != 0).lemma_reverse_to_multiset();
    if !ips.contains(0) {
        assert forall|i: int| 0 <= i < ips.len() implies ips[i] != 0 by {
            assert(ips.contains(ips[i]));
        }
        nothing_is_filtered(ips);
    }
}

proof fn nothing_is_filtered(ips: Seq<u64>)
    requires
        forall|i: int| 0 <= i < ips.len() ==> ips[i] != 0,
    ensures
        ips.filter(|ip: u64| ip != 0) == ips,
    decreases ips.len(),
{
    reveal(Seq::filter);
    if ips.len() > 0 {
        nothing_is_filtered(ips.drop_last());
        assert(ips =~= ips.drop_last().push(ips.last()));
    }
}

proof fn looked_up_is_reversed(ips: Seq<u64>)
    ensures
        looked_up(ips) == ips.filter(|ip: u64| ip != 0).reverse(),
    decreases ips.len(),
{
    let is_there = |ip: u64| ip != 0;
    if ips.len() > 0 {
        let first = seq![ips[0]];
        looked_up_is_reversed(ips.drop_first());
        assert(ips =~= first + ips.drop_first());
        Seq::filter_distributes_over_add(first, ips.drop_first(), is_there);
        reveal_with_fuel(Seq::filter, 2);
        assert(first.drop_last() =~= Seq::<u64>::empty());
        assert(looked_up(ips) =~= ips.filter(is_there).reverse());
    } else {
        reveal(Seq::filter);
        assert(looked_up(ips) =~= ips.filter(is_there).reverse());
    }
}

/// What is built of a sample, while the symbols do not change. With C stacks every address
/// but the null ones gives a frame, from the root to the leaf, with a name where its symbol
/// is that of a function; without C stacks the native half gives none.
pub proof fn stack_is_built_of_every_address<S: Fn(u64) -> Option<(String, u64)>>(
    symbolize: S,
    table: spec_fn(u64) -> Option<(Seq<char>, u64)>,
    ips: Seq<u64>,
    lua: Seq<LuaStackEvent>,
    include_c_stacks: bool,
    line: Option<Seq<char>>,
)
    requires
        forall|ip: u64, answer: Option<(String, u64)>| #[trigger]
            call_ensures(symbolize, (ip,), answer) ==> table(ip) == match answer {
                Some((name, offset)) => Some((name@, offset)),
                None => None,
            },
        may_build(symbolize, ips, lua, include_c_stacks, line),
    ensures
        include_c_stacks ==> line == folded_stack(
            ips.filter(|ip: u64| ip != 0).reverse().map_values(
                |ip: u64|
                    match table(ip) {
                        Some((name, offset)) => if name.len() == 0 || is_mapping_symbol(name) {
                            None
                        } else {
                            Some(name + seq!['+'] + prefixed_hex(offset as nat))
                        },
                        None => None,
                    },
            ),
            lua,
            true,
        ),
        !include_c_stacks ==> line == folded_stack(seq![], lua, false),
{
    built_line_is_the_one_of_the_symbols(symbolize, table, ips, lua, include_c_stacks, line);
    every_address_is_looked_up(ips);
    reveal_strlit("+");
    assert("+"@ =~= seq!['+']);
    let shown = |ip: u64|
        match table(ip) {
            Some((name, offset)) => if name.len() == 0 || is_mapping_symbol(name) {
                None
            } else {
                Some(name + seq!['+'] + prefixed_hex(offset as nat))
            },
            None => None,
        };
    assert(looked_up(ips).map_values(|ip: u64| symbol_frame(table(ip))) =~= looked_up(
        ips,
    ).map_values(shown));
}

} // verus!
