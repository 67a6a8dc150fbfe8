//! Samples in flight, and the cycles in which they are folded.
//!
//! The native and the Lua half of a sample come over two channels and may come in
//! different cycles, or one of them not at all. A half that came in the current
//! cycle is left alone for that cycle, so that the other half can still come; in the
//! next one the sample is folded with what there is.

use crate::folded::{count_is_what_stands_behind_the_stack, FoldedStacks};
use crate::frames::{build_stack, can_symbolize, may_build, opt_text};
use crate::lineresolve::{
    reads_image, resolved_line_is_the_one_in_memory, LineResolver, MemoryImage,
};
use crate::types::{kernel_ips, key_id, LuaStackEvent, NativeEvent, SampleKey, FUNC_TYPE_LUA};
use std::collections::{HashMap, HashSet};
use vstd::prelude::*;
use vstd::std_specs::iter::IteratorSpec;

verus! {

broadcast use vstd::std_specs::hash::group_hash_axioms;

/// How the unwinding of native stacks went.
#[derive(Clone, Copy, Debug, PartialEq, Eq, Structural)]
pub struct NativeUnwindStats {
    pub succeeded: u64,
    pub fallback: u64,
    pub snapshot_truncated: u64,
    pub depth_limited: u64,
}

/// How many records the channels lost.
#[derive(Clone, Copy, Debug, PartialEq, Eq, Structural)]
pub struct LostStats {
    pub native: u64,
    pub lua: u64,
}

/// What came of unwinding a native stack from the copy of the user stack.
pub struct UnwindAttempt {
    /// The instruction pointers, leaf first, if it succeeded.
    pub ips: Option<Vec<u64>>,
    /// The copy of the stack ended before the stack did.
    pub snapshot_truncated: bool,
    /// The stack was deeper than what is kept.
    pub depth_limited: bool,
}

/// Samples in flight, keyed by the number of their `SampleKey`.
pub struct Pending {
    pub native: HashMap<u128, Vec<u64>>,
    pub lua: HashMap<u128, Vec<LuaStackEvent>>,
    /// Samples whose native half came in the current cycle.
    pub just_arrived: HashSet<u128>,
    /// Samples of which a Lua event came in the current cycle.
    pub lua_just_arrived: HashSet<u128>,
    pub folded: FoldedStacks,
    pub unwind_stats: NativeUnwindStats,
    pub lost: LostStats,
}

/// The Lua events of the sample `id`, in the order in which they came.
pub open spec fn lua_events(p: Pending, id: u128) -> Seq<LuaStackEvent> {
    if p.lua@.contains_key(id) {
        p.lua@[id]@
    } else {
        seq![]
    }
}

/// The native addresses of the sample `id`, leaf first.
pub open spec fn native_ips(p: Pending, id: u128) -> Seq<u64> {
    if p.native@.contains_key(id) {
        p.native@[id]@
    } else {
        seq![]
    }
}

/// The samples whose native half came in an earlier cycle.
pub open spec fn ready(p: Pending) -> Set<u128> {
    p.native@.dom().filter(|id: u128| !p.just_arrived@.contains(id))
}

/// The samples that have no native half and whose Lua half came in an earlier cycle.
pub open spec fn orphans(p: Pending) -> Set<u128> {
    p.lua@.dom().filter(
        |id: u128| !p.lua_just_arrived@.contains(id) && !p.native@.contains_key(id),
    )
}

/// The counter can take one more, if `b`.
pub open spec fn fits_if(n: u64, b: bool) -> bool {
    b ==> n < u64::MAX
}

/// The statistics can take a native event: no counter that it raises is full.
pub open spec fn stats_have_room(
    s: NativeUnwindStats,
    attempt: Option<UnwindAttempt>,
    collect_native_stacks: bool,
) -> bool {
    match attempt {
        Some(a) => {
            &&& fits_if(s.succeeded, a.ips is Some)
            &&& fits_if(s.fallback, a.ips is None)
            &&& fits_if(s.snapshot_truncated, a.snapshot_truncated)
            &&& fits_if(s.depth_limited, a.depth_limited)
        },
        None => fits_if(s.fallback, collect_native_stacks),
    }
}

/// `n`, or one more if `b`.
pub open spec fn plus_if(n: u64, b: bool) -> u64 {
    if b {
        (n + 1) as u64
    } else {
        n
    }
}

/// The statistics after a native event came.
pub open spec fn stats_after(
    s: NativeUnwindStats,
    attempt: Option<UnwindAttempt>,
    collect_native_stacks: bool,
) -> NativeUnwindStats {
    match attempt {
        Some(a) => NativeUnwindStats {
            succeeded: plus_if(s.succeeded, a.ips is Some),
            fallback: plus_if(s.fallback, a.ips is None),
            snapshot_truncated: plus_if(s.snapshot_truncated, a.snapshot_truncated),
            depth_limited: plus_if(s.depth_limited, a.depth_limited),
        },
        None => NativeUnwindStats { fallback: plus_if(s.fallback, collect_native_stacks), ..s },
    }
}

/// The native stack of a sample: the unwound one, or else what the kernel collected.
pub open spec fn sample_ips(ne: NativeEvent, attempt: Option<UnwindAttempt>) -> Seq<u64> {
    match attempt {
        Some(a) if a.ips is Some => a.ips->0@,
        _ => kernel_ips(ne),
    }
}

impl Pending {
    /// The stacks that have been folded are kept as they should be.
    pub open spec fn wf(&self) -> bool {
        self.folded.wf()
    }

    /// Every sample in flight can be counted before a counter is full.
    pub open spec fn has_room(&self) -> bool {
        self.folded.room_for(self.native@.dom().len() + self.lua@.dom().len())
    }

    /// Nothing is in flight and nothing has been folded.
    pub fn new() -> (r: Self)
        ensures
            r.wf(),
            r.has_room(),
            r.native@ == Map::<u128, Vec<u64>>::empty(),
            r.lua@ == Map::<u128, Vec<LuaStackEvent>>::empty(),
            r.just_arrived@ == Set::<u128>::empty(),
            r.lua_just_arrived@ == Set::<u128>::empty(),
            r.folded.empty(),
            r.unwind_stats == (NativeUnwindStats {
                succeeded: 0,
                fallback: 0,
                snapshot_truncated: 0,
                depth_limited: 0,
            }),
            r.lost == (LostStats { native: 0, lua: 0 }),
    {
        let r = Pending {
            native: HashMap::new(),
            lua: HashMap::new(),
            just_arrived: HashSet::new(),
            lua_just_arrived: HashSet::new(),
            folded: FoldedStacks::new(),
            unwind_stats: NativeUnwindStats {
                succeeded: 0,
                fallback: 0,
                snapshot_truncated: 0,
                depth_limited: 0,
            },
            lost: LostStats { native: 0, lua: 0 },
        };
        assert(r.native@.dom() =~= Set::<u128>::empty());
        assert(r.lua@.dom() =~= Set::<u128>::empty());
        r
    }

    /// Every sample in flight can be counted before a counter is full.
    pub fn can_count(&self) -> (r: bool)
        ensures
            r == self.has_room(),
    {
        let total: u128 = self.native.len() as u128 + self.lua.len() as u128;
        if total > u64::MAX as u128 {
            return false;
        }
        self.folded.can_count(total as u64)
    }

    /// The native addresses of the sample `key`, leaf first, if its native half is in
    /// flight.
    pub fn native_of(&self, key: SampleKey) -> (r: Option<&Vec<u64>>)
        ensures
            r is Some <==> self.native@.contains_key(key_id(key)),
            r is Some ==> *r->0 == self.native@[key_id(key)],
    {
        self.native.get(&key.id())
    }

    /// The Lua events of the sample `key`, if any is in flight.
    pub fn lua_of(&self, key: SampleKey) -> (r: Option<&Vec<LuaStackEvent>>)
        ensures
            r is Some <==> self.lua@.contains_key(key_id(key)),
            r is Some ==> *r->0 == self.lua@[key_id(key)],
    {
        self.lua.get(&key.id())
    }
}

impl Default for Pending {
    fn default() -> (r: Self)
        ensures
            r.wf(),
            r.has_room(),
            r.native@ == Map::<u128, Vec<u64>>::empty(),
            r.lua@ == Map::<u128, Vec<LuaStackEvent>>::empty(),
            r.just_arrived@ == Set::<u128>::empty(),
            r.lua_just_arrived@ == Set::<u128>::empty(),
            r.folded.empty(),
            r.unwind_stats == (NativeUnwindStats {
                succeeded: 0,
                fallback: 0,
                snapshot_truncated: 0,
                depth_limited: 0,
            }),
            r.lost == (LostStats { native: 0, lua: 0 }),
    {
        Pending::new()
    }
}

fn add_if(n: u64, b: bool) -> (r: u64)
    requires
        fits_if(n, b),
    ensures
        r == plus_if(n, b),
{
    if b {
        n + 1
    } else {
        n
    }
}

/// Takes in the native half of a sample. `attempt` is what came of unwinding its
/// stack, where that was tried.
pub fn handle_native(
    ne: &NativeEvent,
    p: &mut Pending,
    attempt: Option<UnwindAttempt>,
    collect_native_stacks: bool,
)
    requires
        stats_have_room(old(p).unwind_stats, attempt, collect_native_stacks),
    ensures
        final(p).native@.dom() == old(p).native@.dom().insert(key_id(ne.key)),
        final(p).native@[key_id(ne.key)]@ == sample_ips(*ne, attempt),
        final(p).native@.remove(key_id(ne.key)) == old(p).native@.remove(key_id(ne.key)),
        final(p).just_arrived@ == old(p).just_arrived@.insert(key_id(ne.key)),
        final(p).lua == old(p).lua,
        final(p).lua_just_arrived == old(p).lua_just_arrived,
        final(p).folded == old(p).folded,
        final(p).unwind_stats == stats_after(
            old(p).unwind_stats,
            attempt,
            collect_native_stacks,
        ),
        final(p).lost == old(p).lost,
{
    let id: u128 = ne.key.id();
    let s = p.unwind_stats;
    let ips: Vec<u64>;
    match attempt {
        Some(a) => {
            let succeeded = a.ips.is_some();
            p.unwind_stats = NativeUnwindStats {
                succeeded: add_if(s.succeeded, succeeded),
                fallback: add_if(s.fallback, !succeeded),
                snapshot_truncated: add_if(s.snapshot_truncated, a.snapshot_truncated),
                depth_limited: add_if(s.depth_limited, a.depth_limited),
            };
            ips = match a.ips {
                Some(ips) => ips,
                None => ne.fallback_ips(),
            };
        },
        None => {
            p.unwind_stats.fallback = add_if(s.fallback, collect_native_stacks);
            ips = ne.fallback_ips();
        },
    }
    p.native.insert(id, ips);
    p.just_arrived.insert(id);
    assert(p.native@.dom() =~= old(p).native@.dom().insert(id));
    assert(p.native@.remove(id) =~= old(p).native@.remove(id));
}

/// Takes in a Lua event of a sample.
pub fn handle_lua(le: LuaStackEvent, p: &mut Pending)
    ensures
        final(p).lua@.dom() == old(p).lua@.dom().insert(key_id(le.key)),
        final(p).lua@[key_id(le.key)]@ == lua_events(*old(p), key_id(le.key)).push(le),
        final(p).lua@.remove(key_id(le.key)) == old(p).lua@.remove(key_id(le.key)),
        final(p).lua_just_arrived@ == old(p).lua_just_arrived@.insert(key_id(le.key)),
        final(p).native == old(p).native,
        final(p).just_arrived == old(p).just_arrived,
        final(p).folded == old(p).folded,
        final(p).unwind_stats == old(p).unwind_stats,
        final(p).lost == old(p).lost,
{
    let id: u128 = le.key.id();
    let mut events = match p.lua.remove(&id) {
        Some(events) => events,
        None => Vec::new(),
    };
    events.push(le);
    p.lua.insert(id, events);
    p.lua_just_arrived.insert(id);
    assert(p.lua@.dom() =~= old(p).lua@.dom().insert(id));
    assert(p.lua@.remove(id) =~= old(p).lua@.remove(id));
}

/// Counts records that the native channel lost.
pub fn record_lost_native(p: &mut Pending, count: u64)
    requires
        old(p).lost.native + count <= u64::MAX,
    ensures
        *final(p) == (Pending {
            lost: LostStats {
                native: (old(p).lost.native + count) as u64,
                lua: old(p).lost.lua,
            },
            ..*old(p)
        }),
{
    p.lost.native = p.lost.native + count;
}

/// Counts records that the Lua channel lost.
pub fn record_lost_lua(p: &mut Pending, count: u64)
    requires
        old(p).lost.lua + count <= u64::MAX,
    ensures
        *final(p) == (Pending {
            lost: LostStats {
                native: old(p).lost.native,
                lua: (old(p).lost.lua + count) as u64,
            },
            ..*old(p)
        }),
{
    p.lost.lua = p.lost.lua + count;
}

/// `after` is `before` with nothing left that came in the current cycle.
pub open spec fn advanced(before: Pending, after: Pending) -> bool {
    &&& after.just_arrived@ == Set::<u128>::empty()
    &&& after.lua_just_arrived@ == Set::<u128>::empty()
    &&& after.native == before.native
    &&& after.lua == before.lua
    &&& after.folded == before.folded
    &&& after.unwind_stats == before.unwind_stats
    &&& after.lost == before.lost
}

/// Ends a cycle: what came in it can be folded in the next one.
pub fn advance_watermarks(p: &mut Pending)
    ensures
        advanced(*old(p), *final(p)),
{
    p.just_arrived.clear();
    p.lua_just_arrived.clear();
}

/// The resolver, where there is one, can be asked for any line.
pub open spec fn can_resolve<M: Fn(u64, u64) -> Option<Vec<u8>>>(
    resolver: Option<LineResolver<M>>,
) -> bool {
    resolver is Some ==> resolver->0.can_read()
}

/// `out` may be `ev` with its line resolved. The line of a Lua function is resolved
/// where it is not known yet and there is a resolver.
pub open spec fn may_line<M: Fn(u64, u64) -> Option<Vec<u8>>>(
    resolver: Option<LineResolver<M>>,
    ev: LuaStackEvent,
    out: LuaStackEvent,
) -> bool {
    match resolver {
        Some(r) if ev.kind == FUNC_TYPE_LUA && ev.line == 0 => {
            &&& out == LuaStackEvent { line: out.line, ..ev }
            &&& r.may_resolve(ev.proto, ev.savedpc, ev.linedefined, out.line)
        },
        _ => out == ev,
    }
}

/// `out` may be `events` with their lines resolved.
pub open spec fn may_lines<M: Fn(u64, u64) -> Option<Vec<u8>>>(
    resolver: Option<LineResolver<M>>,
    events: Seq<LuaStackEvent>,
    out: Seq<LuaStackEvent>,
) -> bool {
    &&& out.len() == events.len()
    &&& forall|i: int| 0 <= i < events.len() ==> may_line(resolver, #[trigger] events[i], out[i])
}

/// Resolves the lines of Lua functions that are not known yet.
pub fn resolve_lines<M: Fn(u64, u64) -> Option<Vec<u8>>>(
    resolver: &Option<LineResolver<M>>,
    events: &mut Vec<LuaStackEvent>,
)
    requires
        can_resolve(*resolver),
    ensures
        may_lines(*resolver, old(events)@, final(events)@),
{
    let ghost given = events@;
    if let Some(r) = resolver {
        let count: usize = events.len();
        for i in 0..count
            invariant
                count == given.len(),
                *resolver == Some(*r),
                r.can_read(),
                events@.len() == given.len(),
                forall|j: int| 0 <= j < i ==> may_line(*resolver, #[trigger] given[j], events@[j]),
                forall|j: int| i <= j < given.len() ==> given[j] == #[trigger] events@[j],
        {
            let mut ev = events[i];
            if ev.kind == FUNC_TYPE_LUA && ev.line == 0 {
                ev.line = r.resolve(ev.proto, ev.savedpc, ev.linedefined);
                events.set(i, ev);
            }
        }
    }
}

/// `line` may be the line of a sample with the native addresses `ips` and the Lua
/// events `lua`: the events may resolve to some that, with the addresses, may build
/// it.
pub open spec fn may_fold_sample<
    M: Fn(u64, u64) -> Option<Vec<u8>>,
    S: Fn(u64) -> Option<(String, u64)>,
>(
    resolver: Option<LineResolver<M>>,
    symbolize: S,
    ips: Seq<u64>,
    lua: Seq<LuaStackEvent>,
    include_c_stacks: bool,
    line: Option<Seq<char>>,
) -> bool {
    exists|events: Seq<LuaStackEvent>| #[trigger]
        may_lines(resolver, lua, events) && may_build(
            symbolize,
            ips,
            events,
            include_c_stacks,
            line,
        )
}

/// How many of the samples came out as the line `stack`.
pub open spec fn times(outcomes: Map<u128, Option<Seq<char>>>, stack: Seq<char>) -> nat {
    outcomes.dom().filter(|id: u128| outcomes[id] == Some(stack)).len()
}

/// Each sample of `keys` may come out as `outcomes` says: as a line, or as none.
pub open spec fn may_come_out<
    M: Fn(u64, u64) -> Option<Vec<u8>>,
    S: Fn(u64) -> Option<(String, u64)>,
>(
    before: Pending,
    keys: Set<u128>,
    resolver: Option<LineResolver<M>>,
    symbolize: S,
    include_c_stacks: bool,
    outcomes: Map<u128, Option<Seq<char>>>,
) -> bool {
    &&& outcomes.dom() == keys
    &&& forall|id: u128| #[trigger]
        keys.contains(id) ==> may_fold_sample(
            resolver,
            symbolize,
            native_ips(before, id),
            lua_events(before, id),
            include_c_stacks,
            outcomes[id],
        )
}

/// `after` has counted, besides what `before` has, every line in `outcomes`.
pub open spec fn counted(
    before: FoldedStacks,
    after: FoldedStacks,
    outcomes: Map<u128, Option<Seq<char>>>,
) -> bool {
    forall|stack: Seq<char>| #[trigger]
        after.count(stack) == before.count(stack) + times(outcomes, stack)
}

/// The samples `keys` of `before` may have been folded in `after`: both of their halves
/// are gone, every line that came out is counted, and the other samples are as they
/// were.
pub open spec fn may_fold<
    M: Fn(u64, u64) -> Option<Vec<u8>>,
    S: Fn(u64) -> Option<(String, u64)>,
>(
    before: Pending,
    after: Pending,
    keys: Set<u128>,
    resolver: Option<LineResolver<M>>,
    symbolize: S,
    include_c_stacks: bool,
) -> bool {
    &&& after.native@ == before.native@.remove_keys(keys)
    &&& after.lua@ == before.lua@.remove_keys(keys)
    &&& after.unwind_stats == before.unwind_stats
    &&& after.lost == before.lost
    &&& exists|outcomes: Map<u128, Option<Seq<char>>>|
        {
            &&& #[trigger] may_come_out(
                before,
                keys,
                resolver,
                symbolize,
                include_c_stacks,
                outcomes,
            )
            &&& counted(before.folded, after.folded, outcomes)
        }
}

/// `after` may come of folding the samples `keys` of `before` and of nothing else.
pub open spec fn may_consume<
    M: Fn(u64, u64) -> Option<Vec<u8>>,
    S: Fn(u64) -> Option<(String, u64)>,
>(
    before: Pending,
    after: Pending,
    keys: Set<u128>,
    resolver: Option<LineResolver<M>>,
    symbolize: S,
    include_c_stacks: bool,
) -> bool {
    &&& may_fold(before, after, keys, resolver, symbolize, include_c_stacks)
    &&& after.just_arrived == before.just_arrived
    &&& after.lua_just_arrived@ == before.lua_just_arrived@.difference(keys)
}

proof fn times_insert(
    outcomes: Map<u128, Option<Seq<char>>>,
    id: u128,
    line: Option<Seq<char>>,
    stack: Seq<char>,
)
    requires
        outcomes.dom().finite(),
        !outcomes.contains_key(id),
    ensures
        times(outcomes.insert(id, line), stack) == times(outcomes, stack) + if line == Some(stack) {
            1int
        } else {
            0
        },
{
    let old_hits = outcomes.dom().filter(|k: u128| outcomes[k] == Some(stack));
    let next = outcomes.insert(id, line);
    let hits = next.dom().filter(|k: u128| next[k] == Some(stack));
    outcomes.dom().lemma_len_filter(|k: u128| outcomes[k] == Some(stack));
    if line == Some(stack) {
        assert(hits =~= old_hits.insert(id));
    } else {
        assert(hits =~= old_hits);
    }
}

/// The keys of a map.
fn keys_of<V>(m: &HashMap<u128, V>) -> (r: Vec<u128>)
    ensures
        r@.no_duplicates(),
        r@.to_set() == m@.dom(),
{
    let mut r: Vec<u128> = Vec::new();
    let ghost all = m.keys().remaining().unref();
    for k in it: m.keys()
        invariant
            it.seq().unref() == all,
            r@ == all.take(it.index() as int),
    {
        r.push(*k);
        assert(r@ =~= all.take(it.index() + 1));
    }
    assert(r@ =~= all);
    r
}

/// The samples that can be folded.
fn ready_keys(p: &Pending) -> (r: Vec<u128>)
    ensures
        r@.no_duplicates(),
        r@.to_set() == ready(*p),
{
    let keys = keys_of(&p.native);
    let mut r: Vec<u128> = Vec::new();
    for i in 0..keys.len()
        invariant
            keys@.no_duplicates(),
            r@.no_duplicates(),
            forall|id: u128| #[trigger]
                r@.contains(id) <==> keys@.take(i as int).contains(id)
                    && !p.just_arrived@.contains(id),
    {
        let id: u128 = keys[i];
        let ghost before = r@;
        if !p.just_arrived.contains(&id) {
            proof {
                fresh_key(keys@, i as int);
                assert(!r@.contains(id));
            }
            r.push(id);
            assert(r@ == before.push(id));
        }
        proof {
            grown_by_one(keys@, i as int, before);
        }
    }
    assert(keys@.take(keys@.len() as int) =~= keys@);
    assert(r@.to_set() =~= ready(*p)) by {
        assert forall|id: u128| #[trigger] r@.to_set().contains(id) <==> ready(*p).contains(id) by {
            assert(keys@.to_set().contains(id) <==> p.native@.dom().contains(id));
        }
    }
    r
}

/// The Lua halves that stay without a native half.
fn orphan_keys(p: &Pending) -> (r: Vec<u128>)
    ensures
        r@.no_duplicates(),
        r@.to_set() == orphans(*p),
{
    let keys = keys_of(&p.lua);
    let mut r: Vec<u128> = Vec::new();
    for i in 0..keys.len()
        invariant
            keys@.no_duplicates(),
            r@.no_duplicates(),
            forall|id: u128| #[trigger]
                r@.contains(id) <==> keys@.take(i as int).contains(id)
                    && !p.lua_just_arrived@.contains(id) && !p.native@.contains_key(id),
    {
        let id: u128 = keys[i];
        let ghost before = r@;
        if !p.lua_just_arrived.contains(&id) && !p.native.contains_key(&id) {
            proof {
                fresh_key(keys@, i as int);
                assert(!r@.contains(id));
            }
            r.push(id);
            assert(r@ == before.push(id));
        }
        proof {
            grown_by_one(keys@, i as int, before);
        }
    }
    assert(keys@.take(keys@.len() as int) =~= keys@);
    assert(r@.to_set() =~= orphans(*p)) by {
        assert forall|id: u128| #[trigger] r@.to_set().contains(id) <==> orphans(*p).contains(
            id,
        ) by {
            assert(keys@.to_set().contains(id) <==> p.lua@.dom().contains(id));
        }
    }
    r
}

proof fn fresh_key(keys: Seq<u128>, i: int)
    requires
        keys.no_duplicates(),
        0 <= i < keys.len(),
    ensures
        !keys.take(i).contains(keys[i]),
{
}

proof fn grown_by_one(keys: Seq<u128>, i: int, chosen: Seq<u128>)
    requires
        0 <= i < keys.len(),
    ensures
        forall|id: u128| #[trigger]
            keys.take(i + 1).contains(id) <==> keys.take(i).contains(id) || id == keys[i],
        forall|id: u128| #[trigger]
            chosen.push(keys[i]).contains(id) <==> chosen.contains(id) || id == keys[i],
{
    let next = keys.take(i + 1);
    assert forall|id: u128| #[trigger] next.contains(id) <==> keys.take(i).contains(id) || id
        == keys[i] by {
        if keys.take(i).contains(id) {
            let j = keys.take(i).index_of(id);
            assert(next[j] == id);
        }
        assert(next[i] == keys[i]);
        if next.contains(id) && id != keys[i] {
            let j = next.index_of(id);
            assert(keys.take(i)[j] == id);
        }
    }
    assert forall|id: u128| #[trigger] chosen.push(keys[i]).contains(id) <==> chosen.contains(id)
        || id == keys[i] by {
        let grown = chosen.push(keys[i]);
        if chosen.contains(id) {
            assert(grown[chosen.index_of(id)] == id);
        }
        assert(grown[chosen.len() as int] == keys[i]);
    }
}

proof fn smaller_room(folded: FoldedStacks, n: nat, m: nat)
    requires
        folded.room_for(n),
        m <= n,
    ensures
        folded.room_for(m),
{
}

/// Folds the sample `id` and takes both of its halves out.
fn fold_key<M: Fn(u64, u64) -> Option<Vec<u8>>, S: Fn(u64) -> Option<(String, u64)>>(
    p: &mut Pending,
    id: u128,
    resolver: &Option<LineResolver<M>>,
    symbolize: &S,
    include_c_stacks: bool,
) -> (line: Ghost<Option<Seq<char>>>)
    requires
        old(p).wf(),
        old(p).has_room(),
        old(p).native@.contains_key(id) || old(p).lua@.contains_key(id),
        can_resolve(*resolver),
        can_symbolize(*symbolize),
    ensures
        final(p).wf(),
        final(p).has_room(),
        final(p).native@ == old(p).native@.remove(id),
        final(p).lua@ == old(p).lua@.remove(id),
        final(p).just_arrived == old(p).just_arrived,
        final(p).lua_just_arrived@ == old(p).lua_just_arrived@.remove(id),
        final(p).unwind_stats == old(p).unwind_stats,
        final(p).lost == old(p).lost,
        may_fold_sample(
            *resolver,
            *symbolize,
            native_ips(*old(p), id),
            lua_events(*old(p), id),
            include_c_stacks,
            line@,
        ),
        forall|s: Seq<char>| #[trigger]
            final(p).folded.count(s) == old(p).folded.count(s) + if line@ == Some(s) {
                1int
            } else {
                0
            },
{
    let ips = match p.native.remove(&id) {
        Some(ips) => ips,
        None => Vec::new(),
    };
    let mut lua = match p.lua.remove(&id) {
        Some(lua) => lua,
        None => Vec::new(),
    };
    p.lua_just_arrived.remove(&id);
    let ghost left = p.native@.dom().len() + p.lua@.dom().len();
    proof {
        let total = old(p).native@.dom().len() + old(p).lua@.dom().len();
        assert(p.native@.dom() =~= old(p).native@.dom().remove(id));
        assert(p.lua@.dom() =~= old(p).lua@.dom().remove(id));
        smaller_room(p.folded, total, left + 1);
        smaller_room(p.folded, left + 1, left);
    }
    assert(ips@ =~= native_ips(*old(p), id));
    assert(lua@ =~= lua_events(*old(p), id));
    resolve_lines(resolver, &mut lua);
    let line = build_stack(ips.as_slice(), lua.as_slice(), symbolize, include_c_stacks);
    let ghost text = opt_text(line);
    if let Some(stack) = line {
        proof {
            p.folded.room_bounds_count(left + 1, stack@);
        }
        p.folded.add(stack);
    }
    Ghost(text)
}

/// Folds the samples `keys` and takes both of their halves out.
fn fold_keys<M: Fn(u64, u64) -> Option<Vec<u8>>, S: Fn(u64) -> Option<(String, u64)>>(
    p: &mut Pending,
    keys: &Vec<u128>,
    resolver: &Option<LineResolver<M>>,
    symbolize: &S,
    include_c_stacks: bool,
)
    requires
        old(p).wf(),
        old(p).has_room(),
        keys@.no_duplicates(),
        forall|id: u128| #[trigger]
            keys@.to_set().contains(id) ==> old(p).native@.contains_key(id)
                || old(p).lua@.contains_key(id),
        can_resolve(*resolver),
        can_symbolize(*symbolize),
    ensures
        final(p).wf(),
        final(p).has_room(),
        may_consume(
            *old(p),
            *final(p),
            keys@.to_set(),
            *resolver,
            *symbolize,
            include_c_stacks,
        ),
{
    let ghost mut outcomes: Map<u128, Option<Seq<char>>> = Map::empty();
    proof {
        assert(keys@.take(0).to_set() =~= Set::<u128>::empty());
        assert(p.native@ =~= old(p).native@.remove_keys(keys@.take(0).to_set()));
        assert(p.lua@ =~= old(p).lua@.remove_keys(keys@.take(0).to_set()));
        assert(p.lua_just_arrived@ =~= old(p).lua_just_arrived@.difference(
            keys@.take(0).to_set(),
        ));
        assert forall|s: Seq<char>| #[trigger] p.folded.count(s) == old(p).folded.count(s) + times(
            outcomes,
            s,
        ) by {
            assert(outcomes.dom().filter(|id: u128| outcomes[id] == Some(s)) =~= Set::empty());
        }
    }
    for i in 0..keys.len()
        invariant
            p.wf(),
            p.has_room(),
            keys@.no_duplicates(),
            forall|id: u128| #[trigger]
                keys@.to_set().contains(id) ==> old(p).native@.contains_key(id)
                    || old(p).lua@.contains_key(id),
            can_resolve(*resolver),
            can_symbolize(*symbolize),
            p.native@ == old(p).native@.remove_keys(keys@.take(i as int).to_set()),
            p.lua@ == old(p).lua@.remove_keys(keys@.take(i as int).to_set()),
            p.just_arrived == old(p).just_arrived,
            p.lua_just_arrived@ == old(p).lua_just_arrived@.difference(
                keys@.take(i as int).to_set(),
            ),
            p.unwind_stats == old(p).unwind_stats,
            p.lost == old(p).lost,
            outcomes.dom().finite(),
            may_come_out(
                *old(p),
                keys@.take(i as int).to_set(),
                *resolver,
                *symbolize,
                include_c_stacks,
                outcomes,
            ),
            counted(old(p).folded, p.folded, outcomes),
    {
        let id: u128 = keys[i];
        let ghost here = *p;
        let ghost done = keys@.take(i as int).to_set();
        proof {
            fresh_key(keys@, i as int);
            grown_by_one(keys@, i as int, seq![]);
            assert(keys@.take(i + 1).to_set() =~= done.insert(id));
            assert(keys@.contains(id));
            assert(keys@.to_set().contains(id));
            assert(native_ips(here, id) == native_ips(*old(p), id));
            assert(lua_events(here, id) == lua_events(*old(p), id));
        }
        let Ghost(line) = fold_key(p, id, resolver, symbolize, include_c_stacks);
        proof {
            let next = outcomes.insert(id, line);
            assert(p.native@ =~= old(p).native@.remove_keys(done.insert(id)));
            assert(p.lua@ =~= old(p).lua@.remove_keys(done.insert(id)));
            assert(p.lua_just_arrived@ =~= old(p).lua_just_arrived@.difference(done.insert(id)));
            assert(next.dom() =~= done.insert(id));
            assert forall|k: u128| #[trigger] done.insert(id).contains(k) implies may_fold_sample(
                *resolver,
                *symbolize,
                native_ips(*old(p), k),
                lua_events(*old(p), k),
                include_c_stacks,
                next[k],
            ) by {
                if k != id {
                    assert(done.contains(k));
                }
            }
            assert forall|s: Seq<char>| #[trigger] p.folded.count(s) == old(p).folded.count(s)
                + times(next, s) by {
                assert(here.folded.count(s) == old(p).folded.count(s) + times(outcomes, s));
                times_insert(outcomes, id, line, s);
            }
            outcomes = next;
        }
    }
    assert(keys@.take(keys@.len() as int) =~= keys@);
}

/// Folds every sample whose native half came in an earlier cycle. Those whose native
/// half came in the current one stay, so that their Lua half can still come.
pub fn process_ready_samples<
    M: Fn(u64, u64) -> Option<Vec<u8>>,
    S: Fn(u64) -> Option<(String, u64)>,
>(
    p: &mut Pending,
    resolver: &Option<LineResolver<M>>,
    symbolize: &S,
    include_c_stacks: bool,
)
    requires
        old(p).wf(),
        old(p).has_room(),
        can_resolve(*resolver),
        can_symbolize(*symbolize),
    ensures
        final(p).wf(),
        final(p).has_room(),
        may_consume(
            *old(p),
            *final(p),
            ready(*old(p)),
            *resolver,
            *symbolize,
            include_c_stacks,
        ),
{
    let keys = ready_keys(p);
    fold_keys(p, &keys, resolver, symbolize, include_c_stacks);
}

/// Folds every Lua half that came in an earlier cycle and has no native half, without
/// native frames. Those that came in the current cycle stay, so that their native half
/// can still come.
pub fn drain_lua_orphans<
    M: Fn(u64, u64) -> Option<Vec<u8>>,
    S: Fn(u64) -> Option<(String, u64)>,
>(
    p: &mut Pending,
    resolver: &Option<LineResolver<M>>,
    symbolize: &S,
    include_c_stacks: bool,
)
    requires
        old(p).wf(),
        old(p).has_room(),
        can_resolve(*resolver),
        can_symbolize(*symbolize),
    ensures
        final(p).wf(),
        final(p).has_room(),
        may_consume(
            *old(p),
            *final(p),
            orphans(*old(p)),
            *resolver,
            *symbolize,
            include_c_stacks,
        ),
{
    let keys = orphan_keys(p);
    fold_keys(p, &keys, resolver, symbolize, include_c_stacks);
}

proof fn times_of_union(
    a: Map<u128, Option<Seq<char>>>,
    b: Map<u128, Option<Seq<char>>>,
    stack: Seq<char>,
)
    requires
        a.dom().finite(),
        b.dom().finite(),
        a.dom().disjoint(b.dom()),
    ensures
        times(a.union_prefer_right(b), stack) == times(a, stack) + times(b, stack),
{
    let u = a.union_prefer_right(b);
    let hits_a = a.dom().filter(|id: u128| a[id] == Some(stack));
    let hits_b = b.dom().filter(|id: u128| b[id] == Some(stack));
    let hits = u.dom().filter(|id: u128| u[id] == Some(stack));
    a.dom().lemma_len_filter(|id: u128| a[id] == Some(stack));
    b.dom().lemma_len_filter(|id: u128| b[id] == Some(stack));
    assert(hits =~= hits_a + hits_b);
    vstd::set_lib::lemma_set_disjoint_lens(hits_a, hits_b);
}

/// Folding some samples and then others is folding all of them.
proof fn fold_both<M: Fn(u64, u64) -> Option<Vec<u8>>, S: Fn(u64) -> Option<(String, u64)>>(
    before: Pending,
    mid: Pending,
    after: Pending,
    first: Set<u128>,
    second: Set<u128>,
    resolver: Option<LineResolver<M>>,
    symbolize: S,
    include_c_stacks: bool,
)
    requires
        may_fold(before, mid, first, resolver, symbolize, include_c_stacks),
        may_fold(mid, after, second, resolver, symbolize, include_c_stacks),
        first.finite(),
        second.finite(),
        first.disjoint(second),
    ensures
        may_fold(before, after, first.union(second), resolver, symbolize, include_c_stacks),
{
    let x = choose|outcomes: Map<u128, Option<Seq<char>>>|
        {
            &&& #[trigger] may_come_out(
                before,
                first,
                resolver,
                symbolize,
                include_c_stacks,
                outcomes,
            )
            &&& counted(before.folded, mid.folded, outcomes)
        };
    let y = choose|outcomes: Map<u128, Option<Seq<char>>>|
        {
            &&& #[trigger] may_come_out(
                mid,
                second,
                resolver,
                symbolize,
                include_c_stacks,
                outcomes,
            )
            &&& counted(mid.folded, after.folded, outcomes)
        };
    let both = first.union(second);
    let outcomes = x.union_prefer_right(y);
    assert(outcomes.dom() =~= both);
    assert(after.native@ =~= before.native@.remove_keys(both));
    assert(after.lua@ =~= before.lua@.remove_keys(both));
    assert forall|id: u128| #[trigger] both.contains(id) implies may_fold_sample(
        resolver,
        symbolize,
        native_ips(before, id),
        lua_events(before, id),
        include_c_stacks,
        outcomes[id],
    ) by {
        if second.contains(id) {
            assert(!first.contains(id));
            assert(native_ips(mid, id) == native_ips(before, id));
            assert(lua_events(mid, id) == lua_events(before, id));
        } else {
            assert(first.contains(id));
        }
    }
    assert(may_come_out(before, both, resolver, symbolize, include_c_stacks, outcomes));
    assert forall|s: Seq<char>| #[trigger] after.folded.count(s) == before.folded.count(s) + times(
        outcomes,
        s,
    ) by {
        assert(mid.folded.count(s) == before.folded.count(s) + times(x, s));
        times_of_union(x, y, s);
    }
}

/// What is new does not matter for what comes of folding samples.
proof fn fold_after_advance<
    M: Fn(u64, u64) -> Option<Vec<u8>>,
    S: Fn(u64) -> Option<(String, u64)>,
>(
    before: Pending,
    start: Pending,
    after: Pending,
    keys: Set<u128>,
    resolver: Option<LineResolver<M>>,
    symbolize: S,
    include_c_stacks: bool,
)
    requires
        advanced(before, start),
        may_fold(start, after, keys, resolver, symbolize, include_c_stacks),
    ensures
        may_fold(before, after, keys, resolver, symbolize, include_c_stacks),
{
    let outcomes = choose|outcomes: Map<u128, Option<Seq<char>>>|
        {
            &&& #[trigger] may_come_out(
                start,
                keys,
                resolver,
                symbolize,
                include_c_stacks,
                outcomes,
            )
            &&& counted(start.folded, after.folded, outcomes)
        };
    assert forall|id: u128| #[trigger] keys.contains(id) implies may_fold_sample(
        resolver,
        symbolize,
        native_ips(before, id),
        lua_events(before, id),
        include_c_stacks,
        outcomes[id],
    ) by {
        assert(native_ips(start, id) == native_ips(before, id));
        assert(lua_events(start, id) == lua_events(before, id));
    }
    assert(may_come_out(before, keys, resolver, symbolize, include_c_stacks, outcomes));
}

/// The samples that are folded in a cycle.
pub open spec fn due(p: Pending) -> Set<u128> {
    ready(p).union(orphans(p))
}

/// The samples of which a half is in flight.
pub open spec fn in_flight(p: Pending) -> Set<u128> {
    p.native@.dom().union(p.lua@.dom())
}

/// What turns samples in flight into folded stacks.
pub struct SampleProcessor<M, S> {
    /// Finds the source lines of Lua functions, where that is possible.
    pub resolver: Option<LineResolver<M>>,
    /// Finds the symbol that a native address lies in, and how far behind it.
    pub symbolize: S,
    pub include_native_stacks: bool,
}

impl<M: Fn(u64, u64) -> Option<Vec<u8>>, S: Fn(u64) -> Option<(String, u64)>> SampleProcessor<
    M,
    S,
> {
    /// The resolver and the symbolizer can be asked for anything.
    pub open spec fn can_run(&self) -> bool {
        can_resolve(self.resolver) && can_symbolize(self.symbolize)
    }

    /// The samples `keys` of `before` may have been folded in `after`.
    pub open spec fn may_take(&self, before: Pending, after: Pending, keys: Set<u128>) -> bool {
        may_fold(
            before,
            after,
            keys,
            self.resolver,
            self.symbolize,
            self.include_native_stacks,
        )
    }

    /// `after` may come of folding what is due in `before`.
    pub open spec fn may_fold_ready(&self, before: Pending, after: Pending) -> bool {
        &&& self.may_take(before, after, due(before))
        &&& after.just_arrived == before.just_arrived
        &&& after.lua_just_arrived@ == before.lua_just_arrived@.difference(due(before))
    }

    /// `after` may come of one cycle on `before`: what is due is folded, and what came
    /// in the cycle is no longer new.
    pub open spec fn may_cycle(&self, before: Pending, after: Pending) -> bool {
        &&& self.may_take(before, after, due(before))
        &&& after.just_arrived@ == Set::<u128>::empty()
        &&& after.lua_just_arrived@ == Set::<u128>::empty()
    }

    /// `after` may come of ending the capture in the state `before`: every sample in
    /// flight is folded, once and with both of its halves, as far as they came.
    pub open spec fn may_finish(&self, before: Pending, after: Pending) -> bool {
        &&& self.may_take(before, after, in_flight(before))
        &&& after.just_arrived@ == Set::<u128>::empty()
        &&& after.lua_just_arrived@ == Set::<u128>::empty()
    }

    /// A processor of its parts.
    pub fn new(
        resolver: Option<LineResolver<M>>,
        symbolize: S,
        include_native_stacks: bool,
    ) -> (r: Self)
        ensures
            r.resolver == resolver,
            r.symbolize == symbolize,
            r.include_native_stacks == include_native_stacks,
    {
        SampleProcessor { resolver, symbolize, include_native_stacks }
    }

    /// Folds what is ready, and the Lua halves that stay without a native one.
    pub fn fold_ready(&self, p: &mut Pending)
        requires
            self.can_run(),
            old(p).wf(),
            old(p).has_room(),
        ensures
            final(p).wf(),
            final(p).has_room(),
            self.may_fold_ready(*old(p), *final(p)),
    {
        process_ready_samples(p, &self.resolver, &self.symbolize, self.include_native_stacks);
        let ghost mid = *p;
        drain_lua_orphans(p, &self.resolver, &self.symbolize, self.include_native_stacks);
        proof {
            let (first, second) = (ready(*old(p)), orphans(*old(p)));
            assert(orphans(mid) =~= second);
            old(p).native@.dom().lemma_len_filter(
                |id: u128| !old(p).just_arrived@.contains(id),
            );
            old(p).lua@.dom().lemma_len_filter(
                |id: u128|
                    !old(p).lua_just_arrived@.contains(id) && !old(p).native@.contains_key(id),
            );
            fold_both(
                *old(p),
                mid,
                *p,
                first,
                second,
                self.resolver,
                self.symbolize,
                self.include_native_stacks,
            );
            assert(p.lua_just_arrived@ =~= old(p).lua_just_arrived@.difference(due(*old(p))));
        }
    }

    /// One cycle: folds what came in earlier cycles, and ends the current one.
    pub fn process_cycle(&self, p: &mut Pending)
        requires
            self.can_run(),
            old(p).wf(),
            old(p).has_room(),
        ensures
            final(p).wf(),
            final(p).has_room(),
            self.may_cycle(*old(p), *final(p)),
    {
        self.fold_ready(p);
        advance_watermarks(p);
    }

    /// Folds all that is in flight.
    pub fn finish(&self, p: &mut Pending)
        requires
            self.can_run(),
            old(p).wf(),
            old(p).has_room(),
        ensures
            final(p).wf(),
            final(p).has_room(),
            self.may_finish(*old(p), *final(p)),
    {
        // Once nothing is new any more, all that is in flight is due.
        advance_watermarks(p);
        let ghost start = *p;
        self.fold_ready(p);
        proof {
            assert(due(start) =~= in_flight(*old(p)));
            fold_after_advance(
                *old(p),
                start,
                *p,
                in_flight(*old(p)),
                self.resolver,
                self.symbolize,
                self.include_native_stacks,
            );
            assert(p.lua_just_arrived@ =~= Set::<u128>::empty());
        }
    }

    /// Takes out the stacks that have been folded.
    pub fn take_folded(&self, p: &mut Pending) -> (r: FoldedStacks)
        ensures
            r == old(p).folded,
            final(p).folded.wf(),
            final(p).folded.empty(),
            final(p).native == old(p).native,
            final(p).lua == old(p).lua,
            final(p).just_arrived == old(p).just_arrived,
            final(p).lua_just_arrived == old(p).lua_just_arrived,
            final(p).unwind_stats == old(p).unwind_stats,
            final(p).lost == old(p).lost,
    {
        let mut r = FoldedStacks::new();
        std::mem::swap(&mut r, &mut p.folded);
        r
    }
}

/// Where there is a resolver, the line of every Lua function that is not known yet is
/// resolved, at whatever level of the stack it stands; nothing else of an event changes,
/// and no other event does.
pub proof fn unknown_lines_are_resolved_at_every_level<M: Fn(u64, u64) -> Option<Vec<u8>>>(
    resolver: Option<LineResolver<M>>,
    events: Seq<LuaStackEvent>,
    out: Seq<LuaStackEvent>,
    i: int,
)
    requires
        may_lines(resolver, events, out),
        0 <= i < events.len(),
    ensures
        out.len() == events.len(),
        out[i] == (LuaStackEvent { line: out[i].line, ..events[i] }),
        resolver is Some && events[i].kind == FUNC_TYPE_LUA && events[i].line == 0
            ==> resolver->0.may_resolve(
            events[i].proto,
            events[i].savedpc,
            events[i].linedefined,
            out[i].line,
        ),
        resolver is None || events[i].kind != FUNC_TYPE_LUA || events[i].line != 0 ==> out[i].line
            == events[i].line,
{
    assert(may_line(resolver, events[i], out[i]));
}

/// Two events of Lua functions whose lines are not known yet, and which differ at most in
/// their level, their key and their name, get the same line while the memory does not
/// change.
pub proof fn line_does_not_depend_on_the_level<M: Fn(u64, u64) -> Option<Vec<u8>>>(
    resolver: LineResolver<M>,
    image: MemoryImage,
    events: Seq<LuaStackEvent>,
    out: Seq<LuaStackEvent>,
    i: int,
    j: int,
)
    requires
        reads_image(resolver.mem, image),
        may_lines(Some(resolver), events, out),
        0 <= i < events.len(),
        0 <= j < events.len(),
        events[i].kind == FUNC_TYPE_LUA && events[i].line == 0,
        events[j].kind == FUNC_TYPE_LUA && events[j].line == 0,
        events[i].proto == events[j].proto,
        events[i].savedpc == events[j].savedpc,
        events[i].linedefined == events[j].linedefined,
    ensures
        out[i].line == out[j].line,
{
    let (a, b) = (events[i], events[j]);
    unknown_lines_are_resolved_at_every_level(Some(resolver), events, out, i);
    unknown_lines_are_resolved_at_every_level(Some(resolver), events, out, j);
    resolved_line_is_the_one_in_memory(
        &resolver,
        image,
        a.proto,
        a.savedpc,
        a.linedefined,
        out[i].line,
    );
    resolved_line_is_the_one_in_memory(
        &resolver,
        image,
        b.proto,
        b.savedpc,
        b.linedefined,
        out[j].line,
    );
}

/// The line of a sample is built of all of its addresses and of all of its events, each
/// with its line resolved where that was not known yet.
pub proof fn sample_is_folded_of_both_halves<
    M: Fn(u64, u64) -> Option<Vec<u8>>,
    S: Fn(u64) -> Option<(String, u64)>,
>(
    resolver: Option<LineResolver<M>>,
    symbolize: S,
    ips: Seq<u64>,
    lua: Seq<LuaStackEvent>,
    include_c_stacks: bool,
    line: Option<Seq<char>>,
) -> (events: Seq<LuaStackEvent>)
    requires
        may_fold_sample(resolver, symbolize, ips, lua, include_c_stacks, line),
    ensures
        may_build(symbolize, ips, events, include_c_stacks, line),
        events.len() == lua.len(),
        forall|i: int|
            0 <= i < lua.len() ==> {
                &&& #[trigger] events[i] == (LuaStackEvent { line: events[i].line, ..lua[i] })
                &&& resolver is Some && lua[i].kind == FUNC_TYPE_LUA && lua[i].line == 0
                    ==> resolver->0.may_resolve(
                    lua[i].proto,
                    lua[i].savedpc,
                    lua[i].linedefined,
                    events[i].line,
                )
                &&& resolver is None || lua[i].kind != FUNC_TYPE_LUA || lua[i].line != 0
                    ==> events[i].line == lua[i].line
            },
{
    let events = choose|events: Seq<LuaStackEvent>| #[trigger]
        may_lines(resolver, lua, events) && may_build(
            symbolize,
            ips,
            events,
            include_c_stacks,
            line,
        );
    assert forall|i: int| 0 <= i < lua.len() implies {
        &&& #[trigger] events[i] == (LuaStackEvent { line: events[i].line, ..lua[i] })
        &&& resolver is Some && lua[i].kind == FUNC_TYPE_LUA && lua[i].line == 0
            ==> resolver->0.may_resolve(
            lua[i].proto,
            lua[i].savedpc,
            lua[i].linedefined,
            events[i].line,
        )
        &&& resolver is None || lua[i].kind != FUNC_TYPE_LUA || lua[i].line != 0 ==> events[i].line
            == lua[i].line
    } by {
        unknown_lines_are_resolved_at_every_level(resolver, lua, events, i);
    }
    events
}

proof fn folding_counts_each_sample_once<
    M: Fn(u64, u64) -> Option<Vec<u8>>,
    S: Fn(u64) -> Option<(String, u64)>,
>(
    before: Pending,
    after: Pending,
    keys: Set<u128>,
    resolver: Option<LineResolver<M>>,
    symbolize: S,
    include_c_stacks: bool,
    lines: spec_fn(u128) -> Option<Seq<char>>,
    stack: Seq<char>,
)
    requires
        may_fold(before, after, keys, resolver, symbolize, include_c_stacks),
        forall|id: u128, ips: Seq<u64>, lua: Seq<LuaStackEvent>, line: Option<Seq<char>>|
            keys.contains(id) && ips == native_ips(before, id) && lua == lua_events(before, id)
                && #[trigger] may_fold_sample(
                resolver,
                symbolize,
                ips,
                lua,
                include_c_stacks,
                line,
            ) ==> line == #[trigger] lines(id),
    ensures
        after.folded.count(stack) == before.folded.count(stack) + keys.filter(
            |id: u128| lines(id) == Some(stack),
        ).len(),
{
    let outcomes = choose|outcomes: Map<u128, Option<Seq<char>>>|
        {
            &&& #[trigger] may_come_out(
                before,
                keys,
                resolver,
                symbolize,
                include_c_stacks,
                outcomes,
            )
            &&& counted(before.folded, after.folded, outcomes)
        };
    assert(after.folded.count(stack) == before.folded.count(stack) + times(outcomes, stack));
    assert forall|id: u128| keys.contains(id) implies #[trigger] outcomes[id] == lines(id) by {
        assert(may_fold_sample(
            resolver,
            symbolize,
            native_ips(before, id),
            lua_events(before, id),
            include_c_stacks,
            outcomes[id],
        ));
    }
    assert(outcomes.dom().filter(|id: u128| outcomes[id] == Some(stack)) =~= keys.filter(
        |id: u128| lines(id) == Some(stack),
    ));
}

/// Folding what is ready takes out every sample whose native half did not come in this
/// cycle, with both of its halves, and no other; each of them is counted once, by its line
/// if it has one. `lines` gives the line of each sample.
pub proof fn ready_samples_are_those_not_new<
    M: Fn(u64, u64) -> Option<Vec<u8>>,
    S: Fn(u64) -> Option<(String, u64)>,
>(
    before: Pending,
    after: Pending,
    resolver: Option<LineResolver<M>>,
    symbolize: S,
    include_c_stacks: bool,
    lines: spec_fn(u128) -> Option<Seq<char>>,
    stack: Seq<char>,
    id: u128,
)
    requires
        may_consume(before, after, ready(before), resolver, symbolize, include_c_stacks),
        forall|id: u128, ips: Seq<u64>, lua: Seq<LuaStackEvent>, line: Option<Seq<char>>|
            (if before.native@.contains_key(id) {
                ips == before.native@[id]@
            } else {
                ips.len() == 0
            }) && (if before.lua@.contains_key(id) {
                lua == before.lua@[id]@
            } else {
                lua.len() == 0
            }) && #[trigger] may_fold_sample(
                resolver,
                symbolize,
                ips,
                lua,
                include_c_stacks,
                line,
            ) ==> line == #[trigger] lines(id),
    ensures
        after.folded.count(stack) == before.folded.count(stack) + before.native@.dom().filter(
            |id: u128| !before.just_arrived@.contains(id) && lines(id) == Some(stack),
        ).len(),
        after.native@.contains_key(id) <==> before.native@.contains_key(id)
            && before.just_arrived@.contains(id),
        after.native@.contains_key(id) ==> after.native@[id] == before.native@[id],
        after.lua@.contains_key(id) <==> before.lua@.contains_key(id) && (
        !before.native@.contains_key(id) || before.just_arrived@.contains(id)),
        after.lua_just_arrived@.contains(id) <==> before.lua_just_arrived@.contains(id) && (
        !before.native@.contains_key(id) || before.just_arrived@.contains(id)),
        after.lua@.contains_key(id) ==> after.lua@[id] == before.lua@[id],
        after.just_arrived@ == before.just_arrived@,
        after.unwind_stats == before.unwind_stats,
        after.lost == before.lost,
{
    let keys = ready(before);
    folding_counts_each_sample_once(
        before,
        after,
        keys,
        resolver,
        symbolize,
        include_c_stacks,
        lines,
        stack,
    );
    assert(keys.filter(|id: u128| lines(id) == Some(stack)) =~= before.native@.dom().filter(
        |id: u128| !before.just_arrived@.contains(id) && lines(id) == Some(stack),
    ));
}

/// Draining takes out every Lua half that has no native half and did not come in this
/// cycle, and no other; each of them is counted once, by its line if it has one.
pub proof fn drained_samples_are_those_without_a_native_half<
    M: Fn(u64, u64) -> Option<Vec<u8>>,
    S: Fn(u64) -> Option<(String, u64)>,
>(
    before: Pending,
    after: Pending,
    resolver: Option<LineResolver<M>>,
    symbolize: S,
    include_c_stacks: bool,
    lines: spec_fn(u128) -> Option<Seq<char>>,
    stack: Seq<char>,
    id: u128,
)
    requires
        may_consume(before, after, orphans(before), resolver, symbolize, include_c_stacks),
        forall|id: u128, ips: Seq<u64>, lua: Seq<LuaStackEvent>, line: Option<Seq<char>>|
            ips.len() == 0 && before.lua@.contains_key(id) && lua == before.lua@[id]@
                && #[trigger] may_fold_sample(
                resolver,
                symbolize,
                ips,
                lua,
                include_c_stacks,
                line,
            ) ==> line == #[trigger] lines(id),
    ensures
        after.folded.count(stack) == before.folded.count(stack) + before.lua@.dom().filter(
            |id: u128|
                !before.lua_just_arrived@.contains(id) && !before.native@.contains_key(id) && lines(
                    id,
                ) == Some(stack),
        ).len(),
        after.native@ == before.native@,
        after.lua@.contains_key(id) <==> before.lua@.contains_key(id) && (
        before.native@.contains_key(id) || before.lua_just_arrived@.contains(id)),
        after.lua_just_arrived@ == before.lua_just_arrived@,
        after.lua@.contains_key(id) ==> after.lua@[id] == before.lua@[id],
        after.just_arrived@ == before.just_arrived@,
        after.unwind_stats == before.unwind_stats,
        after.lost == before.lost,
{
    let keys = orphans(before);
    assert(after.native@ =~= before.native@);
    assert(after.lua_just_arrived@ =~= before.lua_just_arrived@);
    folding_counts_each_sample_once(
        before,
        after,
        keys,
        resolver,
        symbolize,
        include_c_stacks,
        lines,
        stack,
    );
    assert(keys.filter(|id: u128| lines(id) == Some(stack)) =~= before.lua@.dom().filter(
        |id: u128|
            !before.lua_just_arrived@.contains(id) && !before.native@.contains_key(id) && lines(id)
                == Some(stack),
    ));
}

/// What a cycle comes to. A sample is folded if its native half did not come in this cycle,
/// or, where it has none, if its Lua half did not. Each of these is counted once, by its
/// line if it has one, and is gone; the others stay, and are no longer new.
pub proof fn cycle_folds_what_is_not_new<
    M: Fn(u64, u64) -> Option<Vec<u8>>,
    S: Fn(u64) -> Option<(String, u64)>,
>(
    processor: &SampleProcessor<M, S>,
    before: Pending,
    after: Pending,
    lines: spec_fn(u128) -> Option<Seq<char>>,
    stack: Seq<char>,
    id: u128,
)
    requires
        processor.may_cycle(before, after),
        forall|id: u128, ips: Seq<u64>, lua: Seq<LuaStackEvent>, line: Option<Seq<char>>|
            (if before.native@.contains_key(id) {
                ips == before.native@[id]@
            } else {
                ips.len() == 0
            }) && (if before.lua@.contains_key(id) {
                lua == before.lua@[id]@
            } else {
                lua.len() == 0
            }) && #[trigger] may_fold_sample(
                processor.resolver,
                processor.symbolize,
                ips,
                lua,
                processor.include_native_stacks,
                line,
            ) ==> line == #[trigger] lines(id),
    ensures
        after.folded.count(stack) == before.folded.count(stack) + before.native@.dom().union(
            before.lua@.dom(),
        ).filter(
            |id: u128|
                (if before.native@.contains_key(id) {
                    !before.just_arrived@.contains(id)
                } else {
                    !before.lua_just_arrived@.contains(id)
                }) && lines(id) == Some(stack),
        ).len(),
        after.native@.contains_key(id) <==> before.native@.contains_key(id)
            && before.just_arrived@.contains(id),
        after.native@.contains_key(id) ==> after.native@[id] == before.native@[id],
        after.lua@.contains_key(id) <==> before.lua@.contains_key(id) && (
        if before.native@.contains_key(id) {
            before.just_arrived@.contains(id)
        } else {
            before.lua_just_arrived@.contains(id)
        }),
        after.lua@.contains_key(id) ==> after.lua@[id] == before.lua@[id],
        !after.just_arrived@.contains(id),
        !after.lua_just_arrived@.contains(id),
        after.unwind_stats == before.unwind_stats,
        after.lost == before.lost,
{
    let keys = due(before);
    folding_counts_each_sample_once(
        before,
        after,
        keys,
        processor.resolver,
        processor.symbolize,
        processor.include_native_stacks,
        lines,
        stack,
    );
    assert(keys.filter(|id: u128| lines(id) == Some(stack)) =~= before.native@.dom().union(
        before.lua@.dom(),
    ).filter(
        |id: u128|
            (if before.native@.contains_key(id) {
                !before.just_arrived@.contains(id)
            } else {
                !before.lua_just_arrived@.contains(id)
            }) && lines(id) == Some(stack),
    ));
}

/// What the end of a capture comes to: every sample of which a half is in flight is counted
/// once, by its line if it has one, and nothing is left.
pub proof fn end_folds_everything<
    M: Fn(u64, u64) -> Option<Vec<u8>>,
    S: Fn(u64) -> Option<(String, u64)>,
>(
    processor: &SampleProcessor<M, S>,
    before: Pending,
    after: Pending,
    lines: spec_fn(u128) -> Option<Seq<char>>,
    stack: Seq<char>,
)
    requires
        processor.may_finish(before, after),
        forall|id: u128, ips: Seq<u64>, lua: Seq<LuaStackEvent>, line: Option<Seq<char>>|
            (if before.native@.contains_key(id) {
                ips == before.native@[id]@
            } else {
                ips.len() == 0
            }) && (if before.lua@.contains_key(id) {
                lua == before.lua@[id]@
            } else {
                lua.len() == 0
            }) && #[trigger] may_fold_sample(
                processor.resolver,
                processor.symbolize,
                ips,
                lua,
                processor.include_native_stacks,
                line,
            ) ==> line == #[trigger] lines(id),
    ensures
        after.folded.count(stack) == before.folded.count(stack) + before.native@.dom().union(
            before.lua@.dom(),
        ).filter(|id: u128| lines(id) == Some(stack)).len(),
        after.native@ == Map::<u128, Vec<u64>>::empty(),
        after.lua@ == Map::<u128, Vec<LuaStackEvent>>::empty(),
        after.just_arrived@ == Set::<u128>::empty(),
        after.lua_just_arrived@ == Set::<u128>::empty(),
        after.unwind_stats == before.unwind_stats,
        after.lost == before.lost,
{
    folding_counts_each_sample_once(
        before,
        after,
        in_flight(before),
        processor.resolver,
        processor.symbolize,
        processor.include_native_stacks,
        lines,
        stack,
    );
    assert(after.native@ =~= Map::<u128, Vec<u64>>::empty());
    assert(after.lua@ =~= Map::<u128, Vec<LuaStackEvent>>::empty());
}

/// The unwound stack is kept where there is one, and else the kernel's. Every attempt is
/// counted once, as a success or as a fallback, and apart from that where it ended early;
/// without an attempt a fallback is counted if native stacks are wanted.
pub proof fn native_stacks_are_accounted_for(
    ne: NativeEvent,
    s: NativeUnwindStats,
    attempt: Option<UnwindAttempt>,
    collect_native_stacks: bool,
)
    requires
        stats_have_room(s, attempt, collect_native_stacks),
    ensures
        ({
            let after = stats_after(s, attempt, collect_native_stacks);
            match attempt {
                Some(a) => {
                    &&& a.ips is Some ==> sample_ips(ne, attempt) == a.ips->0@
                    &&& a.ips is None ==> sample_ips(ne, attempt) == kernel_ips(ne)
                    &&& after.succeeded + after.fallback == s.succeeded + s.fallback + 1
                    &&& after.succeeded > s.succeeded <==> a.ips is Some
                    &&& after.fallback > s.fallback <==> a.ips is None
                    &&& after.snapshot_truncated - s.snapshot_truncated == if a.snapshot_truncated {
                        1int
                    } else {
                        0
                    }
                    &&& after.depth_limited - s.depth_limited == if a.depth_limited {
                        1int
                    } else {
                        0
                    }
                },
                None => {
                    &&& sample_ips(ne, attempt) == kernel_ips(ne)
                    &&& after.succeeded == s.succeeded
                    &&& after.fallback - s.fallback == if collect_native_stacks {
                        1int
                    } else {
                        0
                    }
                    &&& after.snapshot_truncated == s.snapshot_truncated
                    &&& after.depth_limited == s.depth_limited
                },
            }
        }),
{
}

/// Ending a cycle changes nothing but that nothing is new any more.
pub proof fn ending_a_cycle_keeps_the_samples(before: Pending, after: Pending, id: u128)
    requires
        advanced(before, after),
    ensures
        !after.just_arrived@.contains(id),
        !after.lua_just_arrived@.contains(id),
        after.native@ == before.native@,
        after.lua@ == before.lua@,
        after.folded.sorted() == before.folded.sorted(),
        after.unwind_stats == before.unwind_stats,
        after.lost == before.lost,
{
}

/// There is room exactly if every stack could be seen once more for each half in flight.
pub proof fn room_is_for_each_half_in_flight(p: Pending)
    requires
        p.wf(),
    ensures
        p.has_room() <==> p.native@.dom().len() + p.lua@.dom().len() <= u64::MAX && forall|
            stack: Seq<char>,
        | #[trigger]
            p.folded.count(stack) + p.native@.dom().len() + p.lua@.dom().len() <= u64::MAX,
{
    let n = p.native@.dom().len() + p.lua@.dom().len();
    if p.has_room() {
        assert forall|stack: Seq<char>| #[trigger] p.folded.count(stack) + p.native@.dom().len()
            + p.lua@.dom().len() <= u64::MAX by {
            p.folded.room_bounds_count(n, stack);
        }
    } else if n <= u64::MAX {
        let i = choose|i: int|
            0 <= i < p.folded.sorted().len() && (#[trigger] p.folded.sorted()[i]).1 + n > u64::MAX;
        count_is_what_stands_behind_the_stack(&p.folded, i, p.folded.sorted()[i].0);
        assert(p.folded.count(p.folded.sorted()[i].0) + n > u64::MAX);
    }
}

} // verus!
