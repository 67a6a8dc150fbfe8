//! What holds over the cycles in which samples are folded.

use crate::folded::counts_determine_the_lines;
use crate::frames::{
    built_line_is_the_one_of_the_symbols, built_stack, may_build, symbolizes_as,
};
use crate::lineresolve::{
    line_in, reads_image, resolved_line_is_the_one_in_memory, LineResolver, MemoryImage,
};
use crate::pending::{
    counted, due, in_flight, lua_events, may_come_out, may_fold_sample, may_line, may_lines,
    native_ips, orphans, ready, times, Pending, SampleProcessor,
};
use crate::types::{LuaStackEvent, FUNC_TYPE_LUA};
use vstd::prelude::*;

verus! {

broadcast use vstd::std_specs::hash::group_hash_axioms;

/// A sample whose native half is in flight is never folded as a Lua half without one.
pub proof fn sample_with_native_half_is_no_orphan(p: Pending, id: u128)
    requires
        p.native@.contains_key(id),
    ensures
        !orphans(p).contains(id),
{
}

/// Each sample that is due comes out once, of both of its halves as far as they came,
/// and both are gone; a sample that is not due stays as it is.
pub proof fn cycle_folds_a_sample_whole_or_not_at_all<
    M: Fn(u64, u64) -> Option<Vec<u8>>,
    S: Fn(u64) -> Option<(String, u64)>,
>(processor: &SampleProcessor<M, S>, before: Pending, after: Pending, id: u128)
    requires
        processor.may_cycle(before, after),
    ensures
        due(before).contains(id) ==> !in_flight(after).contains(id),
        !due(before).contains(id) ==> {
            &&& after.native@.contains_key(id) == before.native@.contains_key(id)
            &&& after.lua@.contains_key(id) == before.lua@.contains_key(id)
            &&& native_ips(after, id) == native_ips(before, id)
            &&& lua_events(after, id) == lua_events(before, id)
        },
        exists|outcomes: Map<u128, Option<Seq<char>>>|
            {
                &&& #[trigger] may_come_out(
                    before,
                    due(before),
                    processor.resolver,
                    processor.symbolize,
                    processor.include_native_stacks,
                    outcomes,
                )
                &&& counted(before.folded, after.folded, outcomes)
            },
{
}

/// A native half that came in the current cycle is not folded in it: it stays, and so
/// do the Lua events of its sample.
pub proof fn new_native_half_waits_a_cycle<
    M: Fn(u64, u64) -> Option<Vec<u8>>,
    S: Fn(u64) -> Option<(String, u64)>,
>(processor: &SampleProcessor<M, S>, before: Pending, after: Pending, id: u128)
    requires
        processor.may_cycle(before, after),
        before.native@.contains_key(id),
        before.just_arrived@.contains(id),
    ensures
        after.native@.contains_key(id),
        native_ips(after, id) == native_ips(before, id),
        after.lua@.contains_key(id) == before.lua@.contains_key(id),
        lua_events(after, id) == lua_events(before, id),
{
    assert(!due(before).contains(id));
}

/// A Lua half that came in the current cycle is not folded in it without its native
/// half: unless the native half came in an earlier cycle, it stays.
pub proof fn new_lua_half_waits_a_cycle<
    M: Fn(u64, u64) -> Option<Vec<u8>>,
    S: Fn(u64) -> Option<(String, u64)>,
>(processor: &SampleProcessor<M, S>, before: Pending, after: Pending, id: u128)
    requires
        processor.may_cycle(before, after),
        before.lua@.contains_key(id),
        before.lua_just_arrived@.contains(id),
        !ready(before).contains(id),
    ensures
        after.lua@.contains_key(id),
        lua_events(after, id) == lua_events(before, id),
{
    assert(!due(before).contains(id));
}

/// After a cycle only what came in it is still in flight: the native halves that did,
/// and the Lua halves that did or whose native half did. However long the capture,
/// and whatever the channels lose, no more than that is held.
pub proof fn cycle_leaves_only_new_samples<
    M: Fn(u64, u64) -> Option<Vec<u8>>,
    S: Fn(u64) -> Option<(String, u64)>,
>(processor: &SampleProcessor<M, S>, before: Pending, after: Pending)
    requires
        processor.may_cycle(before, after),
    ensures
        after.native@.dom().subset_of(before.just_arrived@),
        after.lua@.dom().subset_of(before.lua_just_arrived@.union(before.just_arrived@)),
{
    assert forall|id: u128| after.native@.dom().contains(id) implies before.just_arrived@.contains(
        id,
    ) by {
        assert(!ready(before).contains(id));
    }
    assert forall|id: u128| after.lua@.dom().contains(id) implies before.lua_just_arrived@.contains(
        id,
    ) || before.just_arrived@.contains(id) by {
        assert(!orphans(before).contains(id));
        assert(!ready(before).contains(id));
    }
}

/// A sample is folded in the second cycle at the latest: where nothing new comes,
/// nothing is in flight after two.
pub proof fn two_cycles_fold_everything<
    M: Fn(u64, u64) -> Option<Vec<u8>>,
    S: Fn(u64) -> Option<(String, u64)>,
>(processor: &SampleProcessor<M, S>, before: Pending, between: Pending, after: Pending)
    requires
        processor.may_cycle(before, between),
        processor.may_cycle(between, after),
    ensures
        in_flight(after) == Set::<u128>::empty(),
{
    cycle_leaves_only_new_samples(processor, between, after);
    assert(in_flight(after) =~= Set::<u128>::empty());
}

/// When the capture has ended, nothing is in flight.
pub proof fn finish_leaves_nothing<
    M: Fn(u64, u64) -> Option<Vec<u8>>,
    S: Fn(u64) -> Option<(String, u64)>,
>(processor: &SampleProcessor<M, S>, before: Pending, after: Pending)
    requires
        processor.may_finish(before, after),
    ensures
        in_flight(after) == Set::<u128>::empty(),
{
    assert(in_flight(after) =~= Set::<u128>::empty());
}

/// Where nothing is due, a cycle folds nothing: it only ends.
pub proof fn idle_cycle_folds_nothing<
    M: Fn(u64, u64) -> Option<Vec<u8>>,
    S: Fn(u64) -> Option<(String, u64)>,
>(processor: &SampleProcessor<M, S>, before: Pending, after: Pending)
    requires
        processor.may_cycle(before, after),
        before.wf(),
        after.wf(),
        due(before) == Set::<u128>::empty(),
    ensures
        after.native@ == before.native@,
        after.lua@ == before.lua@,
        after.folded.sorted() == before.folded.sorted(),
        after.unwind_stats == before.unwind_stats,
        after.lost == before.lost,
{
    let outcomes = choose|outcomes: Map<u128, Option<Seq<char>>>|
        {
            &&& #[trigger] may_come_out(
                before,
                due(before),
                processor.resolver,
                processor.symbolize,
                processor.include_native_stacks,
                outcomes,
            )
            &&& counted(before.folded, after.folded, outcomes)
        };
    assert(after.native@ =~= before.native@);
    assert(after.lua@ =~= before.lua@);
    assert forall|s: Seq<char>| #[trigger] after.folded.count(s) == before.folded.count(s) by {
        assert(outcomes.dom().filter(|id: u128| outcomes[id] == Some(s)) =~= Set::empty());
    }
    counts_determine_the_lines(&after.folded, &before.folded);
}

/// A sample is counted once at most: no stack is counted more often than there are
/// samples that are due.
pub proof fn each_sample_is_counted_once_at_most<
    M: Fn(u64, u64) -> Option<Vec<u8>>,
    S: Fn(u64) -> Option<(String, u64)>,
>(processor: &SampleProcessor<M, S>, before: Pending, after: Pending, stack: Seq<char>)
    requires
        processor.may_cycle(before, after),
    ensures
        before.folded.count(stack) <= after.folded.count(stack) <= before.folded.count(stack) + due(
            before,
        ).len(),
{
    let outcomes = choose|outcomes: Map<u128, Option<Seq<char>>>|
        {
            &&& #[trigger] may_come_out(
                before,
                due(before),
                processor.resolver,
                processor.symbolize,
                processor.include_native_stacks,
                outcomes,
            )
            &&& counted(before.folded, after.folded, outcomes)
        };
    assert(after.folded.count(stack) == before.folded.count(stack) + times(outcomes, stack));
    before.native@.dom().lemma_len_filter(|id: u128| !before.just_arrived@.contains(id));
    before.lua@.dom().lemma_len_filter(
        |id: u128| !before.lua_just_arrived@.contains(id) && !before.native@.contains_key(id),
    );
    assert(due(before).finite());
    outcomes.dom().lemma_len_filter(|id: u128| outcomes[id] == Some(stack));
}

/// `ev` with its line resolved in an unchanging memory.
pub open spec fn event_in<M: Fn(u64, u64) -> Option<Vec<u8>>>(
    resolver: Option<LineResolver<M>>,
    image: MemoryImage,
    ev: LuaStackEvent,
) -> LuaStackEvent {
    match resolver {
        Some(r) if ev.kind == FUNC_TYPE_LUA && ev.line == 0 => LuaStackEvent {
            line: line_in(image, r.layout, ev.proto, ev.savedpc, ev.linedefined),
            ..ev
        },
        _ => ev,
    }
}

/// The line of a sample in an unchanging memory with unchanging symbols.
pub open spec fn sample_line<
    M: Fn(u64, u64) -> Option<Vec<u8>>,
    S: Fn(u64) -> Option<(String, u64)>,
>(
    processor: &SampleProcessor<M, S>,
    image: MemoryImage,
    table: spec_fn(u64) -> Option<(Seq<char>, u64)>,
    ips: Seq<u64>,
    lua: Seq<LuaStackEvent>,
) -> Option<Seq<char>> {
    built_stack(
        table,
        ips,
        lua.map_values(|ev: LuaStackEvent| event_in(processor.resolver, image, ev)),
        processor.include_native_stacks,
    )
}

/// The memory of the target reads as `image` and its symbols are those of `table`.
pub open spec fn stands_still<
    M: Fn(u64, u64) -> Option<Vec<u8>>,
    S: Fn(u64) -> Option<(String, u64)>,
>(
    processor: &SampleProcessor<M, S>,
    image: MemoryImage,
    table: spec_fn(u64) -> Option<(Seq<char>, u64)>,
) -> bool {
    &&& processor.resolver is Some ==> reads_image(processor.resolver->0.mem, image)
    &&& symbolizes_as(processor.symbolize, table)
}

/// While neither the memory nor the symbols of the target change, a sample has one
/// line only.
pub proof fn sample_has_one_line<
    M: Fn(u64, u64) -> Option<Vec<u8>>,
    S: Fn(u64) -> Option<(String, u64)>,
>(
    processor: &SampleProcessor<M, S>,
    image: MemoryImage,
    table: spec_fn(u64) -> Option<(Seq<char>, u64)>,
    ips: Seq<u64>,
    lua: Seq<LuaStackEvent>,
    line: Option<Seq<char>>,
)
    requires
        stands_still(processor, image, table),
        may_fold_sample(
            processor.resolver,
            processor.symbolize,
            ips,
            lua,
            processor.include_native_stacks,
            line,
        ),
    ensures
        line == sample_line(processor, image, table, ips, lua),
{
    let resolver = processor.resolver;
    let events = choose|events: Seq<LuaStackEvent>| #[trigger]
        may_lines(resolver, lua, events) && may_build(
            processor.symbolize,
            ips,
            events,
            processor.include_native_stacks,
            line,
        );
    assert forall|i: int| 0 <= i < lua.len() implies events[i] == event_in(
        resolver,
        image,
        #[trigger] lua[i],
    ) by {
        let ev = lua[i];
        assert(may_line(resolver, ev, events[i]));
        match resolver {
            Some(r) => {
                if ev.kind == FUNC_TYPE_LUA && ev.line == 0 {
                    resolved_line_is_the_one_in_memory(
                        &r,
                        image,
                        ev.proto,
                        ev.savedpc,
                        ev.linedefined,
                        events[i].line,
                    );
                }
            },
            None => {},
        }
    }
    assert(events =~= lua.map_values(|ev: LuaStackEvent| event_in(resolver, image, ev)));
    built_line_is_the_one_of_the_symbols(
        processor.symbolize,
        table,
        ips,
        events,
        processor.include_native_stacks,
        line,
    );
}

/// The same samples are in flight and every stack was seen equally often.
pub open spec fn alike(a: Pending, b: Pending) -> bool {
    &&& a.native@ == b.native@
    &&& a.lua@ == b.lua@
    &&& a.just_arrived@ == b.just_arrived@
    &&& a.lua_just_arrived@ == b.lua_just_arrived@
    &&& forall|s: Seq<char>| #[trigger] a.folded.count(s) == b.folded.count(s)
}

proof fn taking_is_determined<
    M: Fn(u64, u64) -> Option<Vec<u8>>,
    S: Fn(u64) -> Option<(String, u64)>,
>(
    processor: &SampleProcessor<M, S>,
    image: MemoryImage,
    table: spec_fn(u64) -> Option<(Seq<char>, u64)>,
    keys: Set<u128>,
    a: Pending,
    a_after: Pending,
    b: Pending,
    b_after: Pending,
)
    requires
        stands_still(processor, image, table),
        alike(a, b),
        processor.may_take(a, a_after, keys),
        processor.may_take(b, b_after, keys),
    ensures
        a_after.native@ == b_after.native@,
        a_after.lua@ == b_after.lua@,
        forall|s: Seq<char>| #[trigger] a_after.folded.count(s) == b_after.folded.count(s),
{
    let x = choose|outcomes: Map<u128, Option<Seq<char>>>|
        {
            &&& #[trigger] may_come_out(
                a,
                keys,
                processor.resolver,
                processor.symbolize,
                processor.include_native_stacks,
                outcomes,
            )
            &&& counted(a.folded, a_after.folded, outcomes)
        };
    let y = choose|outcomes: Map<u128, Option<Seq<char>>>|
        {
            &&& #[trigger] may_come_out(
                b,
                keys,
                processor.resolver,
                processor.symbolize,
                processor.include_native_stacks,
                outcomes,
            )
            &&& counted(b.folded, b_after.folded, outcomes)
        };
    assert forall|id: u128| keys.contains(id) implies #[trigger] x[id] == y[id] by {
        assert(native_ips(a, id) == native_ips(b, id));
        assert(lua_events(a, id) == lua_events(b, id));
        let ips = native_ips(a, id);
        let lua = lua_events(a, id);
        sample_has_one_line(processor, image, table, ips, lua, x[id]);
        sample_has_one_line(processor, image, table, ips, lua, y[id]);
    }
    assert(x =~= y);
    assert forall|s: Seq<char>| #[trigger] a_after.folded.count(s) == b_after.folded.count(s) by {
        assert(a_after.folded.count(s) == a.folded.count(s) + times(x, s));
        assert(b_after.folded.count(s) == b.folded.count(s) + times(y, s));
    }
}

/// While neither the memory nor the symbols of the target change, what a cycle makes
/// of the samples in flight is determined by them: it does not depend on the order in
/// which they are folded.
pub proof fn cycle_is_determined_by_the_samples<
    M: Fn(u64, u64) -> Option<Vec<u8>>,
    S: Fn(u64) -> Option<(String, u64)>,
>(
    processor: &SampleProcessor<M, S>,
    image: MemoryImage,
    table: spec_fn(u64) -> Option<(Seq<char>, u64)>,
    a: Pending,
    a_after: Pending,
    b: Pending,
    b_after: Pending,
)
    requires
        stands_still(processor, image, table),
        alike(a, b),
        processor.may_cycle(a, a_after),
        processor.may_cycle(b, b_after),
        a_after.wf(),
        b_after.wf(),
    ensures
        alike(a_after, b_after),
        a_after.folded.sorted() == b_after.folded.sorted(),
{
    assert(ready(a) =~= ready(b));
    assert(orphans(a) =~= orphans(b));
    taking_is_determined(processor, image, table, due(a), a, a_after, b, b_after);
    counts_determine_the_lines(&a_after.folded, &b_after.folded);
}

/// While neither the memory nor the symbols of the target change, what is written at
/// the end of a capture is determined by the samples: it does not depend on the order in
/// which they are folded.
pub proof fn end_is_determined_by_the_samples<
    M: Fn(u64, u64) -> Option<Vec<u8>>,
    S: Fn(u64) -> Option<(String, u64)>,
>(
    processor: &SampleProcessor<M, S>,
    image: MemoryImage,
    table: spec_fn(u64) -> Option<(Seq<char>, u64)>,
    a: Pending,
    a_after: Pending,
    b: Pending,
    b_after: Pending,
)
    requires
        stands_still(processor, image, table),
        alike(a, b),
        processor.may_finish(a, a_after),
        processor.may_finish(b, b_after),
        a_after.wf(),
        b_after.wf(),
    ensures
        a_after.folded.sorted() == b_after.folded.sorted(),
{
    taking_is_determined(processor, image, table, in_flight(a), a, a_after, b, b_after);
    counts_determine_the_lines(&a_after.folded, &b_after.folded);
}

/// Without C stacks the line of a sample comes of its Lua half alone: the native half
/// may be lost and nothing changes.
pub proof fn lua_only_ignores_the_native_half<
    M: Fn(u64, u64) -> Option<Vec<u8>>,
    S: Fn(u64) -> Option<(String, u64)>,
>(
    resolver: Option<LineResolver<M>>,
    symbolize: S,
    ips: Seq<u64>,
    other_ips: Seq<u64>,
    lua: Seq<LuaStackEvent>,
    line: Option<Seq<char>>,
)
    requires
        may_fold_sample(resolver, symbolize, ips, lua, false, line),
    ensures
        may_fold_sample(resolver, symbolize, other_ips, lua, false, line),
{
    let events = choose|events: Seq<LuaStackEvent>| #[trigger]
        may_lines(resolver, lua, events) && may_build(symbolize, ips, events, false, line);
    assert(may_lines(resolver, lua, events) && may_build(
        symbolize,
        other_ips,
        events,
        false,
        line,
    ));
}

} // verus!
