//! What changes nothing in a simulated circuit: the order of its transistors,
//! an exchange of source and drain, a transistor that lacks a terminal; and
//! what mirrors it: the exchange of the two polarities and of the two levels.

use vstd::prelude::*;

use crate::sim::{conducts, driven, driver_start, driver_step, held_at, initial_levels, is_held};
use crate::sim::{joins, levels_after, linked_by, next_level, next_levels, Logic};
use crate::transistors::{Transistor, TransistorKind};

verus! {

/// `other` is `t` with source and drain exchanged, or `t` itself.
pub open spec fn same_device(t: Transistor, other: Transistor) -> bool {
    &&& t.kind == other.kind
    &&& t.gate_net == other.gate_net
    &&& (t.source_net == other.source_net && t.drain_net == other.drain_net) || (t.source_net
        == other.drain_net && t.drain_net == other.source_net)
}

/// The channel of `t` runs between two nets of the circuit.
pub open spec fn is_switch(t: Transistor, net_count: nat) -> bool {
    match (t.source_net, t.drain_net) {
        (Some(s), Some(d)) => s < net_count && d < net_count,
        _ => false,
    }
}

/// The list holds the device `t`.
pub open spec fn has_device(ts: Seq<Transistor>, t: Transistor) -> bool {
    exists|k: int| 0 <= k < ts.len() && same_device(t, #[trigger] ts[k])
}

/// Every switch of `ts` is in `us` too.
pub open spec fn covers(us: Seq<Transistor>, ts: Seq<Transistor>, net_count: nat) -> bool {
    forall|k: int|
        0 <= k < ts.len() && is_switch(#[trigger] ts[k], net_count) ==> has_device(us, ts[k])
}

/// Two lists with the same switches give the same levels, whatever the order
/// of the switches, which of their terminals is called the source, and which
/// transistors without two terminals are listed besides.
pub proof fn law_same_switches_give_same_levels(
    ts: Seq<Transistor>,
    us: Seq<Transistor>,
    fixed: Map<u32, Logic>,
    val: Seq<Logic>,
    passes: nat,
)
    requires
        covers(us, ts, val.len()),
        covers(ts, us, val.len()),
    ensures
        levels_after(ts, fixed, val, passes) == levels_after(us, fixed, val, passes),
    decreases passes,
{
    if passes > 0 {
        lemma_same_drive(ts, us, fixed, val, Logic::One, false);
        lemma_same_drive(ts, us, fixed, val, Logic::Zero, false);
        lemma_same_drive(ts, us, fixed, val, Logic::One, true);
        lemma_same_drive(ts, us, fixed, val, Logic::Zero, true);
        assert(next_levels(ts, fixed, val) =~= next_levels(us, fixed, val));
        law_same_switches_give_same_levels(
            ts,
            us,
            fixed,
            next_levels(ts, fixed, val),
            (passes - 1) as nat,
        );
    }
}

proof fn lemma_link_covered(
    ts: Seq<Transistor>,
    us: Seq<Transistor>,
    val: Seq<Logic>,
    maybe: bool,
    a: int,
    b: int,
)
    requires
        covers(us, ts, val.len()),
        linked_by(ts, ts.len() as int, val, maybe, a, b),
    ensures
        linked_by(us, us.len() as int, val, maybe, a, b),
{
    let k = choose|k: int|
        0 <= k < ts.len() && joins(#[trigger] ts[k], a, b) && conducts(ts[k], val, maybe);
    assert(is_switch(ts[k], val.len()));
    let l = choose|l: int| 0 <= l < us.len() && same_device(ts[k], #[trigger] us[l]);
    assert(joins(us[l], a, b) && conducts(us[l], val, maybe));
}

proof fn lemma_same_drive(
    ts: Seq<Transistor>,
    us: Seq<Transistor>,
    fixed: Map<u32, Logic>,
    val: Seq<Logic>,
    level: Logic,
    maybe: bool,
)
    requires
        covers(us, ts, val.len()),
        covers(ts, us, val.len()),
    ensures
        driver_step(ts, fixed, val, level, maybe) == driver_step(us, fixed, val, level, maybe),
{
    let n = ts.len() as int;
    let m = us.len() as int;
    assert forall|a: int, b: int| #[trigger] linked_by(ts, n, val, maybe, a, b) == linked_by(
        us,
        m,
        val,
        maybe,
        a,
        b,
    ) by {
        if linked_by(ts, n, val, maybe, a, b) {
            lemma_link_covered(ts, us, val, maybe, a, b);
        }
        if linked_by(us, m, val, maybe, a, b) {
            lemma_link_covered(us, ts, val, maybe, a, b);
        }
    }
    assert(driver_step(ts, fixed, val, level, maybe) =~= driver_step(
        us,
        fixed,
        val,
        level,
        maybe,
    ));
}

/// A transistor is symmetric: exchanging the sources and drains of any of
/// them changes no level.
pub proof fn law_source_and_drain_are_alike(
    ts: Seq<Transistor>,
    us: Seq<Transistor>,
    fixed: Map<u32, Logic>,
    val: Seq<Logic>,
    passes: nat,
)
    requires
        ts.len() == us.len(),
        forall|k: int| 0 <= k < ts.len() ==> same_device(#[trigger] ts[k], us[k]),
    ensures
        levels_after(ts, fixed, val, passes) == levels_after(us, fixed, val, passes),
{
    assert forall|k: int| 0 <= k < ts.len() && is_switch(
        #[trigger] ts[k],
        val.len(),
    ) implies has_device(us, ts[k]) by {
        assert(same_device(ts[k], us[k]));
    }
    assert forall|k: int| 0 <= k < us.len() && is_switch(
        #[trigger] us[k],
        val.len(),
    ) implies has_device(ts, us[k]) by {
        let t = ts[k];
        assert(same_device(us[k], t));
    }
    law_same_switches_give_same_levels(ts, us, fixed, val, passes);
}

/// The order in which the transistors are listed changes no level.
pub proof fn law_order_of_transistors_does_not_matter(
    ts: Seq<Transistor>,
    us: Seq<Transistor>,
    fixed: Map<u32, Logic>,
    val: Seq<Logic>,
    passes: nat,
)
    requires
        ts.to_multiset() == us.to_multiset(),
    ensures
        levels_after(ts, fixed, val, passes) == levels_after(us, fixed, val, passes),
{
    lemma_reordered_covers(us, ts, val.len());
    lemma_reordered_covers(ts, us, val.len());
    law_same_switches_give_same_levels(ts, us, fixed, val, passes);
}

proof fn lemma_reordered_covers(us: Seq<Transistor>, ts: Seq<Transistor>, net_count: nat)
    requires
        ts.to_multiset() == us.to_multiset(),
    ensures
        covers(us, ts, net_count),
{
    ts.to_multiset_ensures();
    us.to_multiset_ensures();
    assert forall|k: int| 0 <= k < ts.len() && is_switch(
        #[trigger] ts[k],
        net_count,
    ) implies has_device(us, ts[k]) by {
        assert(ts.contains(ts[k]));
        assert(us.to_multiset().count(ts[k]) > 0);
        assert(us.contains(ts[k]));
        let l = choose|l: int| 0 <= l < us.len() && us[l] == ts[k];
        assert(same_device(ts[k], us[l]));
    }
}

/// A transistor that lacks a terminal, or whose terminal is no net of the
/// circuit, changes no level, wherever it stands in the list.
pub proof fn law_half_connected_transistors_do_nothing(
    ts: Seq<Transistor>,
    t: Transistor,
    at: int,
    fixed: Map<u32, Logic>,
    val: Seq<Logic>,
    passes: nat,
)
    requires
        0 <= at <= ts.len(),
        !is_switch(t, val.len()),
    ensures
        levels_after(ts.insert(at, t), fixed, val, passes) == levels_after(
            ts,
            fixed,
            val,
            passes,
        ),
{
    lemma_insert_covers(ts, t, at, val.len());
    law_same_switches_give_same_levels(ts.insert(at, t), ts, fixed, val, passes);
}

/// The list with one more transistor that is no switch has the same switches.
proof fn lemma_insert_covers(ts: Seq<Transistor>, t: Transistor, at: int, net_count: nat)
    requires
        0 <= at <= ts.len(),
        !is_switch(t, net_count),
    ensures
        covers(ts.insert(at, t), ts, net_count),
        covers(ts, ts.insert(at, t), net_count),
{
    let us = ts.insert(at, t);
    ts.insert_ensures(at, t);
    assert forall|k: int| 0 <= k < ts.len() && is_switch(
        #[trigger] ts[k],
        net_count,
    ) implies has_device(us, ts[k]) by {
        lemma_listed(us, if k < at { k } else { k + 1 }, ts[k]);
    }
    assert forall|k: int| 0 <= k < us.len() && is_switch(
        #[trigger] us[k],
        net_count,
    ) implies has_device(ts, us[k]) by {
        assert(k != at);
        lemma_listed(ts, if k < at { k } else { k - 1 }, us[k]);
    }
}

/// A list holds the devices at its places.
proof fn lemma_listed(ts: Seq<Transistor>, k: int, t: Transistor)
    requires
        0 <= k < ts.len(),
        ts[k] == t,
    ensures
        has_device(ts, t),
{
    assert(same_device(t, ts[k]));
}

// ---- the dual circuit ----

/// The opposite level; X is its own opposite.
pub open spec fn opposite(level: Logic) -> Logic {
    match level {
        Logic::Zero => Logic::One,
        Logic::One => Logic::Zero,
        Logic::X => Logic::X,
    }
}

/// The levels with 0 and 1 exchanged.
pub open spec fn opposites(val: Seq<Logic>) -> Seq<Logic> {
    Seq::new(val.len(), |n: int| opposite(val[n]))
}

/// The drivers with 0 and 1 exchanged.
pub open spec fn opposite_drivers(fixed: Map<u32, Logic>) -> Map<u32, Logic> {
    Map::new(|n: u32| fixed.contains_key(n), |n: u32| opposite(fixed[n]))
}

/// The transistor with the other polarity.
pub open spec fn dual(t: Transistor) -> Transistor {
    Transistor {
        kind: match t.kind {
            TransistorKind::Nmos => TransistorKind::Pmos,
            TransistorKind::Pmos => TransistorKind::Nmos,
        },
        ..t
    }
}

/// The circuit with NMOS and PMOS exchanged.
pub open spec fn duals(ts: Seq<Transistor>) -> Seq<Transistor> {
    Seq::new(ts.len(), |k: int| dual(ts[k]))
}

/// Exchanging NMOS and PMOS, and 0 and 1 at the drivers, exchanges 0 and 1 on
/// every net and keeps each X.
pub proof fn law_dual_circuit_has_opposite_levels(
    ts: Seq<Transistor>,
    fixed: Map<u32, Logic>,
    net_count: nat,
    passes: nat,
)
    ensures
        levels_after(
            duals(ts),
            opposite_drivers(fixed),
            initial_levels(opposite_drivers(fixed), net_count),
            passes,
        ) == opposites(levels_after(ts, fixed, initial_levels(fixed, net_count), passes)),
{
    assert(initial_levels(opposite_drivers(fixed), net_count) =~= opposites(
        initial_levels(fixed, net_count),
    ));
    lemma_dual_levels(ts, fixed, initial_levels(fixed, net_count), passes);
}

proof fn lemma_dual_levels(
    ts: Seq<Transistor>,
    fixed: Map<u32, Logic>,
    val: Seq<Logic>,
    passes: nat,
)
    ensures
        levels_after(duals(ts), opposite_drivers(fixed), opposites(val), passes) == opposites(
            levels_after(ts, fixed, val, passes),
        ),
    decreases passes,
{
    if passes > 0 {
        let (us, dfixed, dval) = (duals(ts), opposite_drivers(fixed), opposites(val));
        let next = next_levels(ts, fixed, val);
        assert forall|n: int| 0 <= n < val.len() implies next_level(us, dfixed, dval, n)
            == opposite(#[trigger] next_level(ts, fixed, val, n)) by {
            lemma_dual_drive(ts, fixed, val, Logic::One, false, n);
            lemma_dual_drive(ts, fixed, val, Logic::Zero, false, n);
            lemma_dual_drive(ts, fixed, val, Logic::One, true, n);
            lemma_dual_drive(ts, fixed, val, Logic::Zero, true, n);
        }
        assert forall|n: int| 0 <= n < val.len() implies next_levels(us, dfixed, dval)[n]
            == opposites(next)[n] by {
            assert(next[n] == next_level(ts, fixed, val, n));
        }
        assert(next_levels(us, dfixed, dval) =~= opposites(next));
        lemma_dual_levels(ts, fixed, next, (passes - 1) as nat);
    }
}

proof fn lemma_dual_drive(
    ts: Seq<Transistor>,
    fixed: Map<u32, Logic>,
    val: Seq<Logic>,
    level: Logic,
    maybe: bool,
    n: int,
)
    requires
        level != Logic::X,
    ensures
        driven(duals(ts), opposite_drivers(fixed), opposites(val), opposite(level), maybe, n)
            == driven(ts, fixed, val, level, maybe, n),
{
    let (us, dfixed, dval, dlevel) = (
        duals(ts),
        opposite_drivers(fixed),
        opposites(val),
        opposite(level),
    );
    assert forall|a: int| held_at(dfixed, dlevel, a) == #[trigger] held_at(fixed, level, a)
        && is_held(dfixed, a) == is_held(fixed, a) by {}
    assert forall|k: int| 0 <= k < ts.len() implies conducts(#[trigger] us[k], dval, maybe)
        == conducts(ts[k], val, maybe) by {
        assert(us[k] == dual(ts[k]));
    }
    assert forall|a: int, b: int|
        linked_by(us, us.len() as int, dval, maybe, a, b) == #[trigger] linked_by(
            ts,
            ts.len() as int,
            val,
            maybe,
            a,
            b,
        ) by {
        if linked_by(ts, ts.len() as int, val, maybe, a, b) {
            let k = choose|k: int|
                0 <= k < ts.len() && joins(#[trigger] ts[k], a, b) && conducts(ts[k], val, maybe);
            assert(joins(us[k], a, b) && conducts(us[k], dval, maybe));
        }
        if linked_by(us, us.len() as int, dval, maybe, a, b) {
            let k = choose|k: int|
                0 <= k < us.len() && joins(#[trigger] us[k], a, b) && conducts(us[k], dval, maybe);
            assert(joins(ts[k], a, b) && conducts(ts[k], val, maybe));
        }
    }
    assert(driver_start(dfixed, dval.len(), dlevel) =~= driver_start(fixed, val.len(), level));
    assert(driver_step(us, dfixed, dval, dlevel, maybe) =~= driver_step(
        ts,
        fixed,
        val,
        level,
        maybe,
    ));
}

} // verus!
