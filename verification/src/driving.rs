//! What drives a net: closed switches, and the passes of the solver.

use vstd::prelude::*;

use crate::graph::{lemma_closed_holds_reached, lemma_start_reached, lemma_step_reached};
use crate::sim::{conducts, driven, driver_start, driver_step, held_at, initial_levels, is_held};
use crate::sim::{joins, lemma_last_pass, levels_after, linked_by, next_levels, Logic, MAX_ITERS};
use crate::transistors::{Transistor, TransistorKind};

verus! {

/// The level that gates `t`; X if its gate is no net of the circuit.
pub open spec fn gate_level(t: Transistor, val: Seq<Logic>) -> Logic {
    if t.gate_net < val.len() {
        val[t.gate_net as int]
    } else {
        Logic::X
    }
}

/// The switch is closed: an NMOS with its gate at 1, or a PMOS with its gate
/// at 0. With `maybe`, it counts as closed with its gate at X too.
pub open spec fn is_closed(t: Transistor, val: Seq<Logic>, maybe: bool) -> bool {
    ||| t.kind == TransistorKind::Nmos && gate_level(t, val) == Logic::One
    ||| t.kind == TransistorKind::Pmos && gate_level(t, val) == Logic::Zero
    ||| maybe && gate_level(t, val) == Logic::X
}

/// A closed switch of the circuit leads from net `a` to net `b`, in either
/// direction.
pub open spec fn leads(
    ts: Seq<Transistor>,
    val: Seq<Logic>,
    maybe: bool,
    k: int,
    a: int,
    b: int,
) -> bool {
    &&& 0 <= k < ts.len()
    &&& 0 <= a < val.len() && 0 <= b < val.len()
    &&& ts[k].source_net is Some && ts[k].drain_net is Some
    &&& (ts[k].source_net->0 == a && ts[k].drain_net->0 == b) || (ts[k].source_net->0 == b
        && ts[k].drain_net->0 == a)
    &&& is_closed(ts[k], val, maybe)
}

/// Net `n` is held at `level`.
pub open spec fn is_driver(fixed: Map<u32, Logic>, level: Logic, n: int) -> bool {
    0 <= n <= u32::MAX && fixed.contains_key(n as u32) && fixed[n as u32] == level
}

/// Net `n` is held at another level than `level`.
pub open spec fn is_clamped(fixed: Map<u32, Logic>, level: Logic, n: int) -> bool {
    0 <= n <= u32::MAX && fixed.contains_key(n as u32) && fixed[n as u32] != level
}

/// A driver at a level drives its own net, and what it drives drives on: a
/// level passes a closed switch, unless the net that it comes from is held at
/// another one.
pub proof fn law_levels_pass_closed_switches(
    ts: Seq<Transistor>,
    fixed: Map<u32, Logic>,
    val: Seq<Logic>,
    level: Logic,
    maybe: bool,
    k: int,
    a: int,
    b: int,
)
    ensures
        0 <= a < val.len() && is_driver(fixed, level, a) ==> driven(
            ts,
            fixed,
            val,
            level,
            maybe,
            a,
        ),
        driven(ts, fixed, val, level, maybe, a) && !is_clamped(fixed, level, a) && leads(
            ts,
            val,
            maybe,
            k,
            a,
            b,
        ) ==> driven(ts, fixed, val, level, maybe, b),
{
    let start = driver_start(fixed, val.len(), level);
    let step = driver_step(ts, fixed, val, level, maybe);
    if 0 <= a < val.len() && is_driver(fixed, level, a) {
        assert(start(a));
        lemma_start_reached(start, step, a);
    }
    if driven(ts, fixed, val, level, maybe, a) && !is_clamped(fixed, level, a) && leads(
        ts,
        val,
        maybe,
        k,
        a,
        b,
    ) {
        assert(joins(ts[k], a, b) && conducts(ts[k], val, maybe));
        assert(linked_by(ts, ts.len() as int, val, maybe, a, b));
        assert(step(a, b));
        lemma_step_reached(start, step, a, b);
    }
}

/// Nothing else drives a net: any set of nets that holds the drivers at a
/// level, and with a net every net to which the level passes from it, holds
/// every net that is driven to the level.
pub proof fn law_nothing_else_drives(
    ts: Seq<Transistor>,
    fixed: Map<u32, Logic>,
    val: Seq<Logic>,
    level: Logic,
    maybe: bool,
    set: spec_fn(int) -> bool,
    n: int,
)
    requires
        driven(ts, fixed, val, level, maybe, n),
        forall|a: int| 0 <= a < val.len() && #[trigger] is_driver(fixed, level, a) ==> set(a),
        forall|k: int, a: int, b: int|
            set(a) && !is_clamped(fixed, level, a) && #[trigger] leads(ts, val, maybe, k, a, b)
                ==> set(b),
    ensures
        set(n),
        0 <= n < val.len(),
{
    let start = driver_start(fixed, val.len(), level);
    let step = driver_step(ts, fixed, val, level, maybe);
    let held = |a: int| set(a) && 0 <= a < val.len();
    assert forall|a: int| #[trigger] start(a) implies held(a) by {
        assert(held_at(fixed, level, a));
        assert(is_driver(fixed, level, a));
    }
    assert forall|a: int, b: int| held(a) && #[trigger] step(a, b) implies held(b) by {
        let k = choose|k: int|
            0 <= k < ts.len() && joins(#[trigger] ts[k], a, b) && conducts(ts[k], val, maybe);
        assert(leads(ts, val, maybe, k, a, b));
        assert(!is_clamped(fixed, level, a));
    }
    lemma_closed_holds_reached(start, step, held, n);
}

/// A held net is at its level after every pass, and every net has one.
pub proof fn law_held_nets_stay(
    ts: Seq<Transistor>,
    fixed: Map<u32, Logic>,
    val: Seq<Logic>,
    n: int,
)
    ensures
        next_levels(ts, fixed, val).len() == val.len(),
        0 <= n < val.len() && n <= u32::MAX && fixed.contains_key(n as u32) ==> next_levels(
            ts,
            fixed,
            val,
        )[n] == fixed[n as u32],
{
    if 0 <= n < val.len() && n <= u32::MAX && fixed.contains_key(n as u32) {
        assert(is_held(fixed, n));
    }
}

/// Before the first pass the held nets are at their levels and all others at
/// X.
pub proof fn law_nets_start_unknown(fixed: Map<u32, Logic>, net_count: nat, n: int)
    ensures
        initial_levels(fixed, net_count).len() == net_count,
        0 <= n < net_count ==> initial_levels(fixed, net_count)[n] == if n <= u32::MAX
            && fixed.contains_key(n as u32) {
            fixed[n as u32]
        } else {
            Logic::X
        },
{
}

/// The passes follow each other: each starts from what the one before gave.
/// The solver makes 200 of them.
pub proof fn law_passes_follow_each_other(
    ts: Seq<Transistor>,
    fixed: Map<u32, Logic>,
    val: Seq<Logic>,
    k: nat,
)
    ensures
        levels_after(ts, fixed, val, 0) == val,
        levels_after(ts, fixed, val, k + 1) == next_levels(
            ts,
            fixed,
            levels_after(ts, fixed, val, k),
        ),
        levels_after(ts, fixed, val, MAX_ITERS as nat) == levels_after(ts, fixed, val, 200),
{
    lemma_last_pass(ts, fixed, val, k);
}

} // verus!
