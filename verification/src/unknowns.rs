//! What a simulation says while an input is unknown: levels that stay, once
//! the input is known.

use vstd::prelude::*;

use crate::graph::{lemma_closed_holds_reached, lemma_reached_mono, lemma_start_reached};
use crate::graph::{lemma_step_reached, reached};
use crate::sim::{conducts, driven, driver_start, driver_step, initial_levels, is_held};
use crate::sim::{joins, lemma_last_pass, levels_after, next_level, next_levels, Logic};
use crate::symmetry::opposite;
use crate::transistors::Transistor;

verus! {

/// Net `g` is the source or the drain of no transistor.
pub open spec fn is_gate_only(ts: Seq<Transistor>, g: u32) -> bool {
    forall|k: int|
        0 <= k < ts.len() ==> (#[trigger] ts[k]).source_net != Some(g) && ts[k].drain_net != Some(g)
}

/// The levels `val` are the levels `unknown`, where those are known.
pub open spec fn refines(val: Seq<Logic>, unknown: Seq<Logic>) -> bool {
    &&& val.len() == unknown.len()
    &&& forall|n: int|
        0 <= n < val.len() && #[trigger] unknown[n] != Logic::X ==> val[n] == unknown[n]
}

/// With `g` unknown, a strong driver of net `n` beats drivers at the opposite
/// level that reach it over switches that maybe conduct; with `g` known,
/// these switches are closed, and the drivers fight.
pub open spec fn fights(
    ts: Seq<Transistor>,
    unknown: Map<u32, Logic>,
    before: Seq<Logic>,
    known: Map<u32, Logic>,
    after: Seq<Logic>,
    level: Logic,
    n: int,
) -> bool {
    &&& driven(ts, unknown, before, level, false, n)
    &&& !driven(ts, unknown, before, opposite(level), false, n)
    &&& driven(ts, unknown, before, opposite(level), true, n)
    &&& driven(ts, known, after, opposite(level), false, n)
}

/// No net that is not held is fought over in the pass that follows `before`
/// while `g` is unknown, and `after` once it is known.
pub open spec fn is_quiet(
    ts: Seq<Transistor>,
    unknown: Map<u32, Logic>,
    before: Seq<Logic>,
    known: Map<u32, Logic>,
    after: Seq<Logic>,
) -> bool {
    forall|n: int|
        0 <= n < before.len() && !is_held(unknown, n) ==> !(#[trigger] fights(
            ts,
            unknown,
            before,
            known,
            after,
            Logic::One,
            n,
        )) && !fights(ts, unknown, before, known, after, Logic::Zero, n)
}

/// An input that controls gates alone, and whose level becomes known, changes
/// no level that was known without it: unless, in some pass, a strong driver
/// had beaten drivers at the opposite level that now are strong as well.
pub proof fn law_known_input_changes_no_known_level(
    ts: Seq<Transistor>,
    fixed: Map<u32, Logic>,
    g: u32,
    level: Logic,
    net_count: nat,
    passes: nat,
)
    requires
        is_gate_only(ts, g),
        ({
            let unknown = fixed.insert(g, Logic::X);
            let known = fixed.insert(g, level);
            forall|k: nat|
                k < passes ==> is_quiet(
                    ts,
                    unknown,
                    #[trigger] levels_after(ts, unknown, initial_levels(unknown, net_count), k),
                    known,
                    levels_after(ts, known, initial_levels(known, net_count), k),
                )
        }),
    ensures
        ({
            let unknown = fixed.insert(g, Logic::X);
            let known = fixed.insert(g, level);
            refines(
                levels_after(ts, known, initial_levels(known, net_count), passes),
                levels_after(ts, unknown, initial_levels(unknown, net_count), passes),
            )
        }),
    decreases passes,
{
    let unknown = fixed.insert(g, Logic::X);
    let known = fixed.insert(g, level);
    let init1 = initial_levels(unknown, net_count);
    let init2 = initial_levels(known, net_count);
    if passes > 0 {
        let k = (passes - 1) as nat;
        law_known_input_changes_no_known_level(ts, fixed, g, level, net_count, k);
        lemma_last_pass(ts, unknown, init1, k);
        lemma_last_pass(ts, known, init2, k);
        lemma_refined_pass(
            ts,
            fixed,
            g,
            level,
            levels_after(ts, unknown, init1, k),
            levels_after(ts, known, init2, k),
        );
    }
}

/// One pass keeps what is known.
proof fn lemma_refined_pass(
    ts: Seq<Transistor>,
    fixed: Map<u32, Logic>,
    g: u32,
    level: Logic,
    before: Seq<Logic>,
    after: Seq<Logic>,
)
    requires
        is_gate_only(ts, g),
        refines(after, before),
        is_quiet(ts, fixed.insert(g, Logic::X), before, fixed.insert(g, level), after),
    ensures
        refines(
            next_levels(ts, fixed.insert(g, level), after),
            next_levels(ts, fixed.insert(g, Logic::X), before),
        ),
{
    let unknown = fixed.insert(g, Logic::X);
    let known = fixed.insert(g, level);
    let next1 = next_levels(ts, unknown, before);
    let next2 = next_levels(ts, known, after);
    assert forall|n: int| 0 <= n < next2.len() && #[trigger] next1[n] != Logic::X implies next2[n]
        == next1[n] by {
        assert(next1[n] == next_level(ts, unknown, before, n));
        assert(next2[n] == next_level(ts, known, after, n));
        assert(is_held(unknown, n) == is_held(known, n));
        if !is_held(unknown, n) {
            assert(n != g);
            lemma_refined_drive(ts, fixed, g, level, before, after, Logic::One, n);
            lemma_refined_drive(ts, fixed, g, level, before, after, Logic::Zero, n);
            assert(!fights(ts, unknown, before, known, after, Logic::One, n));
            assert(!fights(ts, unknown, before, known, after, Logic::Zero, n));
        }
    }
}

/// Once `g` is known, strong paths remain, and no new path that maybe
/// conducts appears.
proof fn lemma_refined_drive(
    ts: Seq<Transistor>,
    fixed: Map<u32, Logic>,
    g: u32,
    level: Logic,
    before: Seq<Logic>,
    after: Seq<Logic>,
    at: Logic,
    n: int,
)
    requires
        is_gate_only(ts, g),
        refines(after, before),
        at != Logic::X,
        n != g,
    ensures
        driven(ts, fixed.insert(g, Logic::X), before, at, false, n) ==> driven(
            ts,
            fixed.insert(g, level),
            after,
            at,
            false,
            n,
        ),
        driven(ts, fixed.insert(g, level), after, at, true, n) ==> driven(
            ts,
            fixed.insert(g, Logic::X),
            before,
            at,
            true,
            n,
        ),
        driven(ts, fixed.insert(g, level), after, at, false, n) ==> driven(
            ts,
            fixed.insert(g, Logic::X),
            before,
            at,
            true,
            n,
        ),
{
    let unknown = fixed.insert(g, Logic::X);
    let known = fixed.insert(g, level);
    let count = ts.len() as int;
    let start1 = driver_start(unknown, before.len(), at);
    let start2 = driver_start(known, after.len(), at);
    let strong1 = driver_step(ts, unknown, before, at, false);
    let strong2 = driver_step(ts, known, after, at, false);
    let maybe1 = driver_step(ts, unknown, before, at, true);
    let maybe2 = driver_step(ts, known, after, at, true);
    assert forall|a: int, b: int| #[trigger] strong1(a, b) implies strong2(a, b) by {
        let k = choose|k: int|
            0 <= k < count && joins(#[trigger] ts[k], a, b) && conducts(ts[k], before, false);
        assert(joins(ts[k], a, b) && conducts(ts[k], after, false));
        assert(a != g);
    }
    assert forall|a: int, b: int| #[trigger] strong2(a, b) implies maybe2(a, b) by {
        let k = choose|k: int|
            0 <= k < count && joins(#[trigger] ts[k], a, b) && conducts(ts[k], after, false);
        assert(joins(ts[k], a, b) && conducts(ts[k], after, true));
    }
    assert forall|a: int, b: int| #[trigger] maybe2(a, b) implies a != g && maybe1(a, b) by {
        let k = choose|k: int|
            0 <= k < count && joins(#[trigger] ts[k], a, b) && conducts(ts[k], after, true);
        assert(joins(ts[k], a, b) && conducts(ts[k], before, true));
        assert(a != g);
    }
    if driven(ts, unknown, before, at, false, n) {
        assert forall|a: int| #[trigger] start1(a) implies start2(a) by {}
        lemma_reached_mono(start1, strong1, start2, strong2, n);
    }
    if driven(ts, known, after, at, false, n) {
        lemma_reached_mono(start2, strong2, start2, maybe2, n);
    }
    if driven(ts, known, after, at, true, n) {
        let seen = |m: int| m == g || reached(start1, maybe1, m);
        assert forall|a: int| #[trigger] start2(a) implies seen(a) by {
            if a != g {
                assert(start1(a));
                lemma_start_reached(start1, maybe1, a);
            }
        }
        assert forall|a: int, b: int| seen(a) && #[trigger] maybe2(a, b) implies seen(b) by {
            assert(maybe1(a, b));
            lemma_step_reached(start1, maybe1, a, b);
        }
        lemma_closed_holds_reached(start2, maybe2, seen, n);
    }
}

} // verus!
