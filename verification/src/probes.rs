//! The probes that are attached to the functions of a Lua runtime.

use crate::error::LuaError;
use crate::path::copy_bytes;
use crate::syms::{LuaModule, LuaOffsets};
use vstd::prelude::*;

verus! {

/// A probe at an offset of a file.
#[derive(Clone, Copy, Debug, PartialEq, Eq, Structural)]
pub struct Probe {
    /// The probe is hit when the function returns, and not when it is entered.
    pub at_return: bool,
    pub offset: u64,
}

/// The offset, where the function is there.
pub open spec fn present(offset: u64) -> Seq<u64> {
    if offset != 0 {
        seq![offset]
    } else {
        seq![]
    }
}

/// The offsets of the functions that are there.
pub open spec fn present_offsets(offsets: LuaOffsets) -> Seq<u64> {
    present(offsets.lua_resume) + present(offsets.lua_pcallk) + present(offsets.lua_callk)
}

/// A probe at each of the offsets.
pub open spec fn probes_at(offsets: Seq<u64>, at_return: bool) -> Seq<Probe> {
    offsets.map_values(|offset: u64| Probe { at_return, offset })
}

/// The probes of a runtime: one at the entry of each function that is there, and then
/// one at the return of each.
pub open spec fn planned(offsets: LuaOffsets) -> Seq<Probe> {
    probes_at(present_offsets(offsets), false) + probes_at(present_offsets(offsets), true)
}

fn add_probe(probes: &mut Vec<Probe>, at_return: bool, offset: u64)
    ensures
        final(probes)@ == old(probes)@ + probes_at(present(offset), at_return),
{
    if offset != 0 {
        probes.push(Probe { at_return, offset });
    }
    assert(probes@ =~= old(probes)@ + probes_at(present(offset), at_return));
}

fn add_probes(probes: &mut Vec<Probe>, at_return: bool, offsets: LuaOffsets)
    ensures
        final(probes)@ == old(probes)@ + probes_at(present_offsets(offsets), at_return),
{
    add_probe(probes, at_return, offsets.lua_resume);
    add_probe(probes, at_return, offsets.lua_pcallk);
    add_probe(probes, at_return, offsets.lua_callk);
    assert(probes@ =~= old(probes)@ + probes_at(present_offsets(offsets), at_return));
}

/// The probes to attach to a module, in their order.
pub fn plan_probes(module: &LuaModule) -> (r: Result<Vec<Probe>, LuaError>)
    ensures
        if present_offsets(module.offsets).len() > 0 {
            r matches Ok(probes) && probes@ == planned(module.offsets)
        } else {
            r matches Err(LuaError::NoProbes(path)) && path@ == module.path@
        },
{
    let mut probes: Vec<Probe> = Vec::new();
    add_probes(&mut probes, false, module.offsets);
    add_probes(&mut probes, true, module.offsets);
    assert(probes@ =~= planned(module.offsets));
    assert(planned(module.offsets).len() == 2 * present_offsets(module.offsets).len());
    if probes.len() == 0 {
        return Err(LuaError::NoProbes(copy_bytes(module.path.as_slice())));
    }
    Ok(probes)
}

/// Every entry that is probed has its return probed, and the other way round.
pub proof fn entries_and_returns_are_paired(offsets: LuaOffsets, offset: u64)
    ensures
        planned(offsets).contains(Probe { at_return: false, offset }) <==> planned(
            offsets,
        ).contains(Probe { at_return: true, offset }),
{
    let all = present_offsets(offsets);
    let plan = planned(offsets);
    let n = all.len() as int;
    if plan.contains(Probe { at_return: false, offset }) {
        let i = plan.index_of(Probe { at_return: false, offset });
        assert(plan[n + i] == Probe { at_return: true, offset });
    }
    if plan.contains(Probe { at_return: true, offset }) {
        let i = plan.index_of(Probe { at_return: true, offset });
        assert(plan[i - n] == Probe { at_return: false, offset });
    }
}

/// The functions that are probed are those that are there, in the order `lua_resume`,
/// `lua_pcallk`, `lua_callk`; all entries come before all returns.
pub proof fn every_function_that_is_there_is_probed(offsets: LuaOffsets)
    ensures
        ({
            let there = seq![offsets.lua_resume, offsets.lua_pcallk, offsets.lua_callk].filter(
                |offset: u64| offset != 0,
            );
            &&& present_offsets(offsets) == there
            &&& planned(offsets).len() == 2 * there.len()
            &&& forall|i: int|
                0 <= i < there.len() ==> {
                    &&& #[trigger] planned(offsets)[i] == Probe {
                        at_return: false,
                        offset: there[i],
                    }
                    &&& planned(offsets)[there.len() + i] == Probe {
                        at_return: true,
                        offset: there[i],
                    }
                }
        }),
{
    let three = seq![offsets.lua_resume, offsets.lua_pcallk, offsets.lua_callk];
    reveal_with_fuel(Seq::filter, 4);
    assert(three.drop_last() =~= seq![offsets.lua_resume, offsets.lua_pcallk]);
    assert(three.drop_last().drop_last() =~= seq![offsets.lua_resume]);
    assert(three.drop_last().drop_last().drop_last() =~= Seq::<u64>::empty());
    assert(present_offsets(offsets) =~= three.filter(|offset: u64| offset != 0));
}

} // verus!
