//! Combinational circuits settle.

use vstd::prelude::*;

use crate::graph::{lemma_closed_holds_reached, lemma_start_reached, lemma_step_reached, reached};
use crate::sim::{conducts, driven, driver_start, driver_step, initial_levels, is_held, joins};
use crate::sim::{law_one_level_per_net, law_settled_levels_are_final, lemma_last_pass};
use crate::sim::{levels_after, next_level, next_levels, Logic, MAX_ITERS};
use crate::symmetry::is_switch;
use crate::transistors::Transistor;

verus! {

/// The switch `t`, which has net `n` at one of its terminals, has a gate that
/// is known before `n` is: unless `n` is held, its gate is held, is no net of
/// the circuit, or has a lower rank.
pub open spec fn decides_before(
    t: Transistor,
    fixed: Map<u32, Logic>,
    net_count: nat,
    rank: spec_fn(int) -> nat,
    n: int,
) -> bool {
    let g = t.gate_net as int;
    is_held(fixed, n) || is_held(fixed, g) || g >= net_count || rank(g) < rank(n)
}

/// `rank` orders the nets of a combinational circuit: nets that a switch joins
/// have the same rank, and its gate has a lower one. Held nets need no rank.
pub open spec fn is_combinational(
    ts: Seq<Transistor>,
    fixed: Map<u32, Logic>,
    net_count: nat,
    rank: spec_fn(int) -> nat,
) -> bool {
    forall|k: int|
        0 <= k < ts.len() && is_switch(#[trigger] ts[k], net_count) ==> {
            let s = ts[k].source_net->0 as int;
            let d = ts[k].drain_net->0 as int;
            &&& is_held(fixed, s) || is_held(fixed, d) || rank(s) == rank(d)
            &&& decides_before(ts[k], fixed, net_count, rank, s)
            &&& decides_before(ts[k], fixed, net_count, rank, d)
        }
}

/// Every net that is not held has a rank below `depth`.
pub open spec fn is_ranked_below(
    fixed: Map<u32, Logic>,
    net_count: nat,
    rank: spec_fn(int) -> nat,
    depth: nat,
) -> bool {
    forall|n: int| 0 <= n < net_count && !is_held(fixed, n) ==> #[trigger] rank(n) < depth
}

/// The levels agree on the held nets, and on those of a rank below `r`.
spec fn agree_below(
    fixed: Map<u32, Logic>,
    rank: spec_fn(int) -> nat,
    r: nat,
    v: Seq<Logic>,
    w: Seq<Logic>,
) -> bool {
    &&& v.len() == w.len()
    &&& forall|n: int|
        0 <= n < v.len() && (is_held(fixed, n) || rank(n) < r) ==> #[trigger] v[n] == w[n]
}

/// A combinational circuit settles in as many passes as it has ranks: no
/// further pass changes a level.
pub proof fn law_combinational_circuits_settle(
    ts: Seq<Transistor>,
    fixed: Map<u32, Logic>,
    net_count: nat,
    rank: spec_fn(int) -> nat,
    depth: nat,
)
    requires
        is_combinational(ts, fixed, net_count, rank),
        is_ranked_below(fixed, net_count, rank, depth),
    ensures
        ({
            let r = levels_after(ts, fixed, initial_levels(fixed, net_count), depth);
            next_levels(ts, fixed, r) == r
        }),
{
    let init = initial_levels(fixed, net_count);
    let r = levels_after(ts, fixed, init, depth);
    let next = next_levels(ts, fixed, r);
    lemma_ranks_settle(ts, fixed, net_count, rank, depth);
    law_one_level_per_net(ts, fixed, init, depth);
    assert forall|n: int| 0 <= n < net_count implies r[n] == #[trigger] next[n] by {
        assert(is_held(fixed, n) || rank(n) < depth);
        assert(r[n] == next[n]);
    }
    assert(next =~= r);
}

/// What the solver gives back for a combinational circuit of at most
/// `MAX_ITERS` ranks is settled, and it is there after as many passes as the
/// circuit has ranks.
pub proof fn law_combinational_results_are_settled(
    ts: Seq<Transistor>,
    fixed: Map<u32, Logic>,
    net_count: nat,
    rank: spec_fn(int) -> nat,
    depth: nat,
)
    requires
        is_combinational(ts, fixed, net_count, rank),
        is_ranked_below(fixed, net_count, rank, depth),
        depth <= MAX_ITERS,
    ensures
        ({
            let init = initial_levels(fixed, net_count);
            let r = levels_after(ts, fixed, init, MAX_ITERS as nat);
            &&& next_levels(ts, fixed, r) == r
            &&& r == levels_after(ts, fixed, init, depth)
        }),
{
    law_combinational_circuits_settle(ts, fixed, net_count, rank, depth);
    law_settled_levels_are_final(
        ts,
        fixed,
        initial_levels(fixed, net_count),
        depth,
        MAX_ITERS as nat,
    );
}

/// After `k` passes the nets of a rank below `k` have settled.
proof fn lemma_ranks_settle(
    ts: Seq<Transistor>,
    fixed: Map<u32, Logic>,
    net_count: nat,
    rank: spec_fn(int) -> nat,
    k: nat,
)
    requires
        is_combinational(ts, fixed, net_count, rank),
    ensures
        ({
            let v = levels_after(ts, fixed, initial_levels(fixed, net_count), k);
            agree_below(fixed, rank, k, v, next_levels(ts, fixed, v))
        }),
    decreases k,
{
    let init = initial_levels(fixed, net_count);
    let v = levels_after(ts, fixed, init, k);
    let next = next_levels(ts, fixed, v);
    law_one_level_per_net(ts, fixed, init, k);
    if k == 0 {
        assert forall|n: int| 0 <= n < v.len() && (is_held(fixed, n) || rank(n) < k) implies
            #[trigger] v[n] == next[n] by {}
    } else {
        let j = (k - 1) as nat;
        let u = levels_after(ts, fixed, init, j);
        lemma_ranks_settle(ts, fixed, net_count, rank, j);
        lemma_last_pass(ts, fixed, init, j);
        law_one_level_per_net(ts, fixed, init, j);
        assert(v == next_levels(ts, fixed, u));
        assert forall|n: int| 0 <= n < v.len() && (is_held(fixed, n) || rank(n) < k) implies
            #[trigger] v[n] == next[n] by {
            assert(v[n] == next_level(ts, fixed, u, n));
            assert(next[n] == next_level(ts, fixed, v, n));
            if !is_held(fixed, n) {
                lemma_same_drivers(ts, fixed, rank, u, v, Logic::One, false, n);
                lemma_same_drivers(ts, fixed, rank, u, v, Logic::Zero, false, n);
                lemma_same_drivers(ts, fixed, rank, u, v, Logic::One, true, n);
                lemma_same_drivers(ts, fixed, rank, u, v, Logic::Zero, true, n);
            }
        }
    }
}

/// The drivers that reach a net depend on the levels below its rank alone.
proof fn lemma_same_drivers(
    ts: Seq<Transistor>,
    fixed: Map<u32, Logic>,
    rank: spec_fn(int) -> nat,
    v: Seq<Logic>,
    w: Seq<Logic>,
    level: Logic,
    maybe: bool,
    n: int,
)
    requires
        is_combinational(ts, fixed, v.len(), rank),
        0 <= n < v.len(),
        !is_held(fixed, n),
        agree_below(fixed, rank, rank(n), v, w),
    ensures
        driven(ts, fixed, v, level, maybe, n) == driven(ts, fixed, w, level, maybe, n),
{
    if driven(ts, fixed, v, level, maybe, n) {
        lemma_drivers_remain(ts, fixed, rank, v, w, level, maybe, n);
    }
    if driven(ts, fixed, w, level, maybe, n) {
        lemma_drivers_remain(ts, fixed, rank, w, v, level, maybe, n);
    }
}

proof fn lemma_drivers_remain(
    ts: Seq<Transistor>,
    fixed: Map<u32, Logic>,
    rank: spec_fn(int) -> nat,
    v: Seq<Logic>,
    w: Seq<Logic>,
    level: Logic,
    maybe: bool,
    n: int,
)
    requires
        is_combinational(ts, fixed, v.len(), rank),
        0 <= n < v.len(),
        !is_held(fixed, n),
        agree_below(fixed, rank, rank(n), v, w),
        driven(ts, fixed, v, level, maybe, n),
    ensures
        driven(ts, fixed, w, level, maybe, n),
{
    let r = rank(n);
    let start = driver_start(fixed, v.len(), level);
    let step1 = driver_step(ts, fixed, v, level, maybe);
    let step2 = driver_step(ts, fixed, w, level, maybe);
    let seen = |a: int| is_held(fixed, a) || rank(a) != r || reached(start, step2, a);
    assert forall|a: int| #[trigger] start(a) implies seen(a) by {}
    assert forall|a: int, b: int| seen(a) && #[trigger] step1(a, b) implies seen(b) by {
        if !is_held(fixed, b) && rank(b) == r {
            let k = choose|k: int|
                0 <= k < ts.len() && joins(#[trigger] ts[k], a, b) && conducts(ts[k], v, maybe);
            assert(is_switch(ts[k], v.len()));
            let g = ts[k].gate_net as int;
            assert(decides_before(ts[k], fixed, v.len(), rank, b));
            if g < v.len() {
                assert(v[g] == w[g]);
            }
            assert(joins(ts[k], a, b) && conducts(ts[k], w, maybe));
            assert(step2(a, b));
            if is_held(fixed, a) {
                assert(start(a));
                lemma_start_reached(start, step2, a);
            } else {
                assert(rank(a) == rank(b));
            }
            lemma_step_reached(start, step2, a, b);
        }
    }
    lemma_closed_holds_reached(start, step1, seen, n);
}

} // verus!
