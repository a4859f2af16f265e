//! Switch-level digital simulation over extracted transistors.
//!
//! Each net is a node, each transistor a gate-controlled switch between its
//! source and drain, and a net's level is decided by which driver (a supply
//! or input net) it can reach through conducting switches.
//!
//!   - NMOS conducts when its gate is 1, PMOS when its gate is 0.
//!   - Driver nets are held fixed; another net is 1 if it can reach a
//!     1-driver through closed switches, 0 if it can reach a 0-driver, X if
//!     it can reach both.
//!   - A gate at X makes its switch maybe-conducting: in a settled circuit it
//!     can spread an unknown but never a definite 0 or 1, so a strong driver
//!     still wins.
//!
//! A switch's state depends on its gate net, which is itself being solved, so
//! the solver iterates. Combinational logic settles in a handful of passes
//! (see [`crate::settling`]). An undriven net holds its previous level, which
//! lets cross-coupled feedback settle. A circuit that does not settle is left
//! as its last pass found it: a net may then show a level that it got from a
//! gate which has changed since.

use std::collections::HashMap;

use vstd::prelude::*;

use crate::graph::reached;
use crate::graph::{lemma_closed_holds_reached, lemma_reached_mono};
use crate::graph::{lemma_start_reached, lemma_step_reached};
use crate::transistors::{Transistor, TransistorKind};

verus! {

broadcast use vstd::std_specs::hash::group_hash_axioms;

/// Three-valued logic level on a net.
#[derive(Debug, Clone, Copy, PartialEq, Eq, Structural)]
pub enum Logic {
    Zero,
    One,
    X,
}

/// Conduction state of a switch given its gate level.
#[derive(Debug, Clone, Copy, PartialEq, Eq, Structural)]
pub enum Conduction {
    Off,
    On,
    Unknown,
}

/// Passes after which the solver gives up on an oscillating circuit.
pub const MAX_ITERS: usize = 200;

// ---- what the solver computes ----

/// The conduction state of a switch of polarity `kind` whose gate is at
/// `gate`.
pub open spec fn conduction_of(kind: TransistorKind, gate: Logic) -> Conduction {
    match (kind, gate) {
        (_, Logic::X) => Conduction::Unknown,
        (TransistorKind::Nmos, Logic::One) => Conduction::On,
        (TransistorKind::Nmos, Logic::Zero) => Conduction::Off,
        (TransistorKind::Pmos, Logic::Zero) => Conduction::On,
        (TransistorKind::Pmos, Logic::One) => Conduction::Off,
    }
}

/// The level of net `n`; a net that does not exist is at X.
pub open spec fn level_at(val: Seq<Logic>, n: int) -> Logic {
    if 0 <= n < val.len() {
        val[n]
    } else {
        Logic::X
    }
}

/// The channel of `t` runs between nets `a` and `b`, in either direction.
pub open spec fn joins(t: Transistor, a: int, b: int) -> bool {
    match (t.source_net, t.drain_net) {
        (Some(s), Some(d)) => (s == a && d == b) || (s == b && d == a),
        _ => false,
    }
}

/// `t` conducts at levels `val`; with `maybe`, it is not known to be off.
pub open spec fn conducts(t: Transistor, val: Seq<Logic>, maybe: bool) -> bool {
    let c = conduction_of(t.kind, level_at(val, t.gate_net as int));
    c == Conduction::On || (maybe && c == Conduction::Unknown)
}

/// One of the first `count` transistors is a conducting switch between the
/// nets `a` and `b`.
pub open spec fn linked_by(
    ts: Seq<Transistor>,
    count: int,
    val: Seq<Logic>,
    maybe: bool,
    a: int,
    b: int,
) -> bool {
    &&& 0 <= a < val.len()
    &&& 0 <= b < val.len()
    &&& exists|k: int|
        0 <= k < count && joins(#[trigger] ts[k], a, b) && conducts(ts[k], val, maybe)
}

/// Net `n` is held at `level`.
pub open spec fn held_at(fixed: Map<u32, Logic>, level: Logic, n: int) -> bool {
    0 <= n <= u32::MAX && fixed.contains_key(n as u32) && fixed[n as u32] == level
}

/// Net `n` is held at some level.
pub open spec fn is_held(fixed: Map<u32, Logic>, n: int) -> bool {
    0 <= n <= u32::MAX && fixed.contains_key(n as u32)
}

/// The nets from which a flood of `level` starts: those held at it.
pub open spec fn driver_start(
    fixed: Map<u32, Logic>,
    net_count: nat,
    level: Logic,
) -> spec_fn(int) -> bool {
    |n: int| 0 <= n < net_count && held_at(fixed, level, n)
}

/// A flood of `level` passes from `a` to `b` through a conducting switch,
/// unless `a` is clamped to another level.
pub open spec fn driver_step(
    ts: Seq<Transistor>,
    fixed: Map<u32, Logic>,
    val: Seq<Logic>,
    level: Logic,
    maybe: bool,
) -> spec_fn(int, int) -> bool {
    |a: int, b: int|
        (is_held(fixed, a) ==> held_at(fixed, level, a)) && linked_by(
            ts,
            ts.len() as int,
            val,
            maybe,
            a,
            b,
        )
}

/// Net `n` reaches a driver held at `level` through conducting switches.
pub open spec fn driven(
    ts: Seq<Transistor>,
    fixed: Map<u32, Logic>,
    val: Seq<Logic>,
    level: Logic,
    maybe: bool,
    n: int,
) -> bool {
    reached(
        driver_start(fixed, val.len(), level),
        driver_step(ts, fixed, val, level, maybe),
        n,
    )
}

/// A net's next level, from which drivers it reaches: the strong ones decide,
/// the others only spread an unknown.
pub open spec fn resolved(
    strong_one: bool,
    strong_zero: bool,
    maybe_one: bool,
    maybe_zero: bool,
    prev: Logic,
) -> Logic {
    if strong_one && !strong_zero {
        Logic::One
    } else if strong_zero && !strong_one {
        Logic::Zero
    } else if strong_one || strong_zero || maybe_one || maybe_zero {
        Logic::X
    } else {
        prev
    }
}

/// The level of net `n` after one pass from levels `val`.
pub open spec fn next_level(
    ts: Seq<Transistor>,
    fixed: Map<u32, Logic>,
    val: Seq<Logic>,
    n: int,
) -> Logic {
    if is_held(fixed, n) {
        fixed[n as u32]
    } else {
        resolved(
            driven(ts, fixed, val, Logic::One, false, n),
            driven(ts, fixed, val, Logic::Zero, false, n),
            driven(ts, fixed, val, Logic::One, true, n),
            driven(ts, fixed, val, Logic::Zero, true, n),
            val[n],
        )
    }
}

/// The levels after one pass from levels `val`.
pub open spec fn next_levels(
    ts: Seq<Transistor>,
    fixed: Map<u32, Logic>,
    val: Seq<Logic>,
) -> Seq<Logic> {
    Seq::new(val.len(), |n: int| next_level(ts, fixed, val, n))
}

/// The levels after `passes` passes from levels `val`.
pub open spec fn levels_after(
    ts: Seq<Transistor>,
    fixed: Map<u32, Logic>,
    val: Seq<Logic>,
    passes: nat,
) -> Seq<Logic>
    decreases passes,
{
    if passes == 0 {
        val
    } else {
        levels_after(ts, fixed, next_levels(ts, fixed, val), (passes - 1) as nat)
    }
}

/// The levels before the first pass: drivers at their level, the rest at X.
pub open spec fn initial_levels(fixed: Map<u32, Logic>, net_count: nat) -> Seq<Logic> {
    Seq::new(
        net_count,
        |n: int|
            if is_held(fixed, n) {
                fixed[n as u32]
            } else {
                Logic::X
            },
    )
}

// ---- the solver ----

/// The conduction state of a switch of polarity `kind` at gate level `gate`.
pub fn conduction(kind: TransistorKind, gate: Logic) -> (c: Conduction)
    ensures
        c == conduction_of(kind, gate),
{
    let on_level = match kind {
        TransistorKind::Nmos => Logic::One,
        TransistorKind::Pmos => Logic::Zero,
    };
    let off_level = match kind {
        TransistorKind::Nmos => Logic::Zero,
        TransistorKind::Pmos => Logic::One,
    };
    if gate == on_level {
        Conduction::On
    } else if gate == off_level {
        Conduction::Off
    } else {
        Conduction::Unknown
    }
}

/// Decides a net's level from its reachability flags. Strong (closed-path)
/// drivers beat unknown ones; an unknown path can only muddy a result to X,
/// never assert a clean 0 or 1. An undriven net holds its level.
pub fn resolve(
    strong_one: bool,
    strong_zero: bool,
    maybe_one: bool,
    maybe_zero: bool,
    prev: Logic,
) -> (level: Logic)
    ensures
        level == resolved(strong_one, strong_zero, maybe_one, maybe_zero, prev),
{
    if strong_one && strong_zero {
        Logic::X
    } else if strong_one {
        Logic::One
    } else if strong_zero {
        Logic::Zero
    } else if maybe_one || maybe_zero {
        Logic::X
    } else {
        prev
    }
}

/// The start nodes of a flood from `sources`.
pub open spec fn flood_start(sources: Seq<usize>, net_count: nat) -> spec_fn(int) -> bool {
    |n: int| 0 <= n < net_count && sources.contains(n as usize)
}

/// The steps of a flood over the adjacency lists `adj` that is not expanded
/// at the nodes flagged in `block`.
pub open spec fn flood_step(
    adj: Seq<Vec<usize>>,
    block: Seq<bool>,
    net_count: nat,
) -> spec_fn(int, int) -> bool {
    |a: int, b: int|
        0 <= a < net_count && 0 <= b < net_count && !block[a] && adj[a]@.contains(b as usize)
}

spec fn unseen(seen: Seq<bool>) -> nat
    decreases seen.len(),
{
    if seen.len() == 0 {
        0
    } else {
        unseen(seen.drop_last()) + if seen.last() {
            0nat
        } else {
            1nat
        }
    }
}

proof fn lemma_unseen_mark(seen: Seq<bool>, m: int)
    requires
        0 <= m < seen.len(),
        !seen[m],
    ensures
        unseen(seen.update(m, true)) + 1 == unseen(seen),
    decreases seen.len(),
{
    let next = seen.update(m, true);
    if m == seen.len() - 1 {
        assert(next.drop_last() =~= seen.drop_last());
    } else {
        lemma_unseen_mark(seen.drop_last(), m);
        assert(next.drop_last() =~= seen.drop_last().update(m, true));
    }
}

/// Marks every node of `next` as seen and pushes the new ones on the stack.
fn spread(next: &Vec<usize>, net_count: usize, seen: &mut Vec<bool>, stack: &mut Vec<usize>)
    requires
        old(seen)@.len() == net_count,
        forall|k: int| 0 <= k < next@.len() ==> #[trigger] next@[k] < net_count,
        forall|k: int|
            0 <= k < old(stack)@.len() ==> #[trigger] old(stack)@[k] < net_count && old(seen)@[old(stack)@[k] as int],
    ensures
        final(seen)@.len() == net_count,
        forall|k: int| 0 <= k < next@.len() ==> final(seen)@[#[trigger] next@[k] as int],
        forall|m: int| 0 <= m < net_count && #[trigger] old(seen)@[m] ==> final(seen)@[m],
        forall|m: int|
            0 <= m < net_count && #[trigger] final(seen)@[m] && !old(seen)@[m] ==> next@.contains(
                m as usize,
            ) && final(stack)@.contains(m as usize),
        forall|k: int|
            0 <= k < final(stack)@.len() ==> #[trigger] final(stack)@[k] < net_count && final(seen)@[final(stack)@[k] as int],
        final(stack)@.len() >= old(stack)@.len(),
        forall|k: int| 0 <= k < old(stack)@.len() ==> #[trigger] final(stack)@[k] == old(stack)@[k],
        unseen(final(seen)@) + final(stack)@.len() == unseen(old(seen)@) + old(stack)@.len(),
{
    let ghost seen0 = seen@;
    let ghost stack0 = stack@;
    let mut j: usize = 0;
    while j < next.len()
        invariant
            j <= next@.len(),
            seen@.len() == net_count,
            forall|k: int| 0 <= k < next@.len() ==> #[trigger] next@[k] < net_count,
            forall|m: int| 0 <= m < net_count && #[trigger] seen0[m] ==> seen@[m],
            forall|m: int|
                0 <= m < net_count && #[trigger] seen@[m] && !seen0[m] ==> next@.contains(
                    m as usize,
                ) && stack@.contains(m as usize),
            stack@.len() >= stack0.len(),
            forall|k: int| 0 <= k < stack0.len() ==> #[trigger] stack@[k] == stack0[k],
            forall|k: int|
                0 <= k < stack@.len() ==> #[trigger] stack@[k] < net_count
                    && seen@[stack@[k] as int],
            forall|k: int| 0 <= k < j ==> seen@[#[trigger] next@[k] as int],
            unseen(seen@) + stack@.len() == unseen(seen0) + stack0.len(),
        decreases next@.len() - j,
    {
        let m = next[j];
        if !seen[m] {
            let ghost stack2 = stack@;
            let ghost seen2 = seen@;
            proof {
                lemma_unseen_mark(seen@, m as int);
            }
            seen.set(m, true);
            stack.push(m);
            proof {
                assert forall|q: int| 0 <= q < net_count && #[trigger] seen@[q] && !seen0[q] implies next@.contains(
                    q as usize,
                ) && stack@.contains(q as usize) by {
                    if q == m {
                        assert(next@[j as int] == m);
                        assert(stack@[stack2.len() as int] == m);
                    } else {
                        assert(seen2[q]);
                        let k = choose|k: int| 0 <= k < stack2.len() && stack2[k] == q as usize;
                        assert(stack@[k] == q as usize);
                    }
                }
            }
        }
        j = j + 1;
    }
}

/// Reachability from `sources` over the adjacency lists `adj`. A node flagged
/// in `block_expand` is recorded as reached but never expanded.
pub fn flood(
    adj: &[Vec<usize>],
    sources: &[usize],
    net_count: usize,
    block_expand: &[bool],
) -> (seen: Vec<bool>)
    requires
        adj@.len() >= net_count,
        block_expand@.len() >= net_count,
        forall|a: int, k: int|
            #![trigger adj@[a]@[k]]
            0 <= a < net_count && 0 <= k < adj@[a]@.len() ==> adj@[a]@[k] < net_count,
    ensures
        seen@.len() == net_count,
        forall|n: int|
            0 <= n < net_count ==> (#[trigger] seen@[n] <==> reached(
                flood_start(sources@, net_count as nat),
                flood_step(adj@, block_expand@, net_count as nat),
                n,
            )),
{
    let ghost start = flood_start(sources@, net_count as nat);
    let ghost step = flood_step(adj@, block_expand@, net_count as nat);
    let mut seen: Vec<bool> = vec![false; net_count];
    let mut stack: Vec<usize> = Vec::new();
    let mut i: usize = 0;
    while i < sources.len()
        invariant
            i <= sources@.len(),
            seen@.len() == net_count,
            start == flood_start(sources@, net_count as nat),
            step == flood_step(adj@, block_expand@, net_count as nat),
            forall|n: int| 0 <= n < net_count && #[trigger] seen@[n] ==> reached(start, step, n),
            forall|n: int|
                0 <= n < net_count && #[trigger] seen@[n] ==> stack@.contains(n as usize),
            forall|k: int|
                0 <= k < stack@.len() ==> #[trigger] stack@[k] < net_count
                    && seen@[stack@[k] as int],
            forall|k: int| 0 <= k < i && #[trigger] sources@[k] < net_count ==> seen@[
                sources@[k] as int
            ],
        decreases sources@.len() - i,
    {
        let s = sources[i];
        if s < net_count && !seen[s] {
            let ghost stack0 = stack@;
            let ghost seen0 = seen@;
            seen.set(s, true);
            stack.push(s);
            proof {
                assert(start(s as int)) by {
                    assert(sources@[i as int] == s);
                }
                lemma_start_reached(start, step, s as int);
                assert forall|n: int| 0 <= n < net_count && #[trigger] seen@[n] implies stack@.contains(
                    n as usize,
                ) by {
                    if n == s {
                        assert(stack@[stack0.len() as int] == s);
                    } else {
                        assert(seen0[n]);
                        let k = choose|k: int| 0 <= k < stack0.len() && stack0[k] == n as usize;
                        assert(stack@[k] == n as usize);
                    }
                }
            }
        }
        i = i + 1;
    }
    // Every seen node that is not on the stack has been expanded or is
    // blocked.
    while stack.len() > 0
        invariant
            adj@.len() >= net_count,
            block_expand@.len() >= net_count,
            forall|a: int, k: int|
                #![trigger adj@[a]@[k]]
                0 <= a < net_count && 0 <= k < adj@[a]@.len() ==> adj@[a]@[k] < net_count,
            seen@.len() == net_count,
            start == flood_start(sources@, net_count as nat),
            step == flood_step(adj@, block_expand@, net_count as nat),
            forall|n: int| 0 <= n < net_count && #[trigger] seen@[n] ==> reached(start, step, n),
            forall|k: int|
                0 <= k < stack@.len() ==> #[trigger] stack@[k] < net_count
                    && seen@[stack@[k] as int],
            forall|k: int| 0 <= k < sources@.len() && #[trigger] sources@[k] < net_count ==> seen@[
                sources@[k] as int
            ],
            forall|a: int, b: int|
                0 <= a < net_count && seen@[a] && !stack@.contains(a as usize) && #[trigger] step(
                    a,
                    b,
                ) ==> seen@[b],
        decreases unseen(seen@), stack@.len(),
    {
        let ghost stack0 = stack@;
        let ghost seen0 = seen@;
        let n: usize = stack.pop().unwrap();
        assert(stack0 == stack@.push(n));
        assert(stack0[stack0.len() - 1] == n);
        assert forall|k: int| 0 <= k < stack@.len() implies #[trigger] stack@[k] < net_count
            && seen@[stack@[k] as int] by {
            assert(stack0[k] == stack@[k]);
        }
        if !block_expand[n] {
            let next: &Vec<usize> = &adj[n];
            assert forall|k: int| 0 <= k < next@.len() implies #[trigger] next@[k] < net_count by {
                assert(adj@[n as int]@[k] == next@[k]);
            }
            spread(next, net_count, &mut seen, &mut stack);
            proof {
                assert forall|m: int| 0 <= m < net_count && #[trigger] seen@[m] implies reached(
                    start,
                    step,
                    m,
                ) by {
                    if !seen0[m] {
                        assert(step(n as int, m));
                        lemma_step_reached(start, step, n as int, m);
                    }
                }
                assert forall|a: int, b: int|
                    0 <= a < net_count && seen@[a] && !stack@.contains(a as usize)
                        && #[trigger] step(a, b) implies seen@[b] by {
                    if a == n {
                        let k = choose|k: int| 0 <= k < next@.len() && next@[k] == b as usize;
                        assert(seen@[next@[k] as int]);
                    } else {
                        assert(seen0[a]);
                        if stack0.contains(a as usize) {
                            let k = choose|k: int| 0 <= k < stack0.len() && stack0[k] == a as usize;
                            assert(stack@[k] == a as usize);
                        }
                    }
                }
            }
        } else {
            proof {
                assert forall|a: int, b: int|
                    0 <= a < net_count && seen@[a] && !stack@.contains(a as usize)
                        && #[trigger] step(a, b) implies seen@[b] by {
                    if a != n && stack0.contains(a as usize) {
                        let k = choose|k: int| 0 <= k < stack0.len() && stack0[k] == a as usize;
                        assert(stack@[k] == a as usize);
                    }
                }
            }
        }
    }
    proof {
        let held = |n: int| 0 <= n < net_count && seen@[n];
        assert forall|a: int| #[trigger] start(a) implies held(a) by {
            let k = choose|k: int| 0 <= k < sources@.len() && sources@[k] == a as usize;
            assert(sources@[k] < net_count);
        }
        assert forall|n: int| 0 <= n < net_count && reached(start, step, n) implies #[trigger] seen@[n] by {
            lemma_closed_holds_reached(start, step, held, n);
        }
    }
    seen
}

/// `is_fixed` with each source cleared: the barrier set for a flood from those
/// sources.
pub fn block_mask(is_fixed: &[bool], sources: &[usize]) -> (b: Vec<bool>)
    ensures
        b@.len() == is_fixed@.len(),
        forall|n: int|
            0 <= n < b@.len() ==> #[trigger] b@[n] == (is_fixed@[n] && !sources@.contains(
                n as usize,
            )),
{
    let mut b: Vec<bool> = Vec::new();
    let mut i: usize = 0;
    while i < is_fixed.len()
        invariant
            i <= is_fixed@.len(),
            b@ == is_fixed@.take(i as int),
        decreases is_fixed@.len() - i,
    {
        b.push(is_fixed[i]);
        assert(is_fixed@.take(i + 1) =~= is_fixed@.take(i as int).push(is_fixed@[i as int]));
        i = i + 1;
    }
    assert(is_fixed@.take(i as int) =~= is_fixed@);
    let mut j: usize = 0;
    while j < sources.len()
        invariant
            j <= sources@.len(),
            b@.len() == is_fixed@.len(),
            forall|n: int|
                0 <= n < b@.len() ==> #[trigger] b@[n] == (is_fixed@[n] && !sources@.take(
                    j as int,
                ).contains(n as usize)),
        decreases sources@.len() - j,
    {
        let s = sources[j];
        let ghost b0 = b@;
        if s < b.len() {
            b.set(s, false);
        }
        proof {
            let before = sources@.take(j as int);
            let after = sources@.take(j + 1);
            assert(after =~= before.push(s));
            assert forall|n: int| 0 <= n < b@.len() implies #[trigger] b@[n] == (is_fixed@[n]
                && !after.contains(n as usize)) by {
                assert(b0[n] == (is_fixed@[n] && !before.contains(n as usize)));
                if n == s {
                    assert(after[j as int] == s);
                } else {
                    if before.contains(n as usize) {
                        let k = choose|k: int| 0 <= k < before.len() && before[k] == n as usize;
                        assert(after[k] == n as usize);
                    }
                    if after.contains(n as usize) {
                        let k = choose|k: int| 0 <= k < after.len() && after[k] == n as usize;
                        assert(before[k] == n as usize);
                    }
                }
            }
        }
        j = j + 1;
    }
    assert(sources@.take(j as int) =~= sources@);
    b
}

/// The held nets below `net_count`, one flag per net.
fn held_flags(fixed: &HashMap<u32, Logic>, net_count: usize) -> (flags: Vec<bool>)
    requires
        net_count <= 0x1_0000_0000,
    ensures
        flags@.len() == net_count,
        forall|n: int| 0 <= n < net_count ==> #[trigger] flags@[n] == is_held(fixed@, n),
{
    let mut flags: Vec<bool> = Vec::new();
    let mut n: usize = 0;
    while n < net_count
        invariant
            n <= net_count <= 0x1_0000_0000,
            flags@.len() == n,
            forall|m: int| 0 <= m < n ==> #[trigger] flags@[m] == is_held(fixed@, m),
        decreases net_count - n,
    {
        let key: u32 = n as u32;
        flags.push(fixed.contains_key(&key));
        n = n + 1;
    }
    flags
}

/// The nets below `net_count` that are held at `level`.
fn drivers(fixed: &HashMap<u32, Logic>, net_count: usize, level: Logic) -> (srcs: Vec<usize>)
    requires
        net_count <= 0x1_0000_0000,
    ensures
        forall|n: int|
            0 <= n < net_count ==> #[trigger] srcs@.contains(n as usize) == held_at(
                fixed@,
                level,
                n,
            ),
{
    let mut srcs: Vec<usize> = Vec::new();
    let mut n: usize = 0;
    while n < net_count
        invariant
            n <= net_count <= 0x1_0000_0000,
            forall|k: int| 0 <= k < srcs@.len() ==> #[trigger] srcs@[k] < n,
            forall|m: int|
                0 <= m < n ==> #[trigger] srcs@.contains(m as usize) == held_at(fixed@, level, m),
        decreases net_count - n,
    {
        let key: u32 = n as u32;
        let ghost before = srcs@;
        let mut here = false;
        if let Some(v) = fixed.get(&key) {
            here = *v == level;
        }
        if here {
            srcs.push(n);
        }
        proof {
            assert(here == held_at(fixed@, level, n as int));
            assert forall|m: int| 0 <= m < n + 1 implies #[trigger] srcs@.contains(m as usize)
                == held_at(fixed@, level, m) by {
                if m == n {
                    if here {
                        assert(srcs@[before.len() as int] == n);
                    }
                } else {
                    assert(before.contains(m as usize) == held_at(fixed@, level, m));
                    if before.contains(m as usize) {
                        let k = choose|k: int| 0 <= k < before.len() && before[k] == m as usize;
                        assert(srcs@[k] == m as usize);
                    }
                    if srcs@.contains(m as usize) {
                        let k = choose|k: int| 0 <= k < srcs@.len() && srcs@[k] == m as usize;
                        assert(before[k] == m as usize);
                    }
                }
            }
        }
        n = n + 1;
    }
    srcs
}

/// `adj` holds `b` in the list of `a` exactly where one of the first `count`
/// transistors links the two.
spec fn lists_links(
    adj: Seq<Vec<usize>>,
    ts: Seq<Transistor>,
    count: int,
    val: Seq<Logic>,
    maybe: bool,
) -> bool {
    &&& adj.len() == val.len()
    &&& forall|a: int, k: int|
        #![trigger adj[a]@[k]]
        0 <= a < adj.len() && 0 <= k < adj[a]@.len() ==> adj[a]@[k] < val.len()
    &&& forall|a: int, b: int|
        0 <= a < val.len() && 0 <= b < val.len() ==> (#[trigger] adj[a]@.contains(b as usize)
            == linked_by(ts, count, val, maybe, a, b))
}

/// Adds `b` to the list of `a` and `a` to the list of `b`.
fn connect(adj: &mut Vec<Vec<usize>>, a: usize, b: usize)
    requires
        a < old(adj)@.len(),
        b < old(adj)@.len(),
    ensures
        final(adj)@.len() == old(adj)@.len(),
        forall|n: int, m: int|
            0 <= n < old(adj)@.len() && 0 <= m < old(adj)@.len() ==> (#[trigger] final(adj)@[n]@.contains(m as usize) == (old(adj)@[n]@.contains(m as usize) || (n == a && m == b)
                || (n == b && m == a))),
        forall|n: int, k: int|
            #![trigger final(adj)@[n]@[k]]
            0 <= n < old(adj)@.len() && 0 <= k < final(adj)@[n]@.len() ==> final(adj)@[n]@[k] == a
                || final(adj)@[n]@[k] == b || old(adj)@[n]@.contains(final(adj)@[n]@[k]),
{
    let len: usize = adj.len();
    let ghost adj0 = adj@;
    assert(adj0.len() == len);
    adj[a].push(b);
    let ghost adj1 = adj@;
    adj[b].push(a);
    proof {
        assert forall|n: int, m: int| 0 <= n < adj0.len() && 0 <= m < adj0.len() implies (
        #[trigger] adj@[n]@.contains(m as usize) == (adj0[n]@.contains(m as usize) || (n == a && m
            == b) || (n == b && m == a))) by {
            lemma_push_contains(adj0[a as int]@, b, m as usize);
            lemma_push_contains(adj1[b as int]@, a, m as usize);
        }
        assert forall|n: int, k: int|
            #![trigger adj@[n]@[k]]
            0 <= n < adj0.len() && 0 <= k < adj@[n]@.len() implies adj@[n]@[k] == a || adj@[n]@[k]
            == b || adj0[n]@.contains(adj@[n]@[k]) by {
            lemma_push_contains(adj0[a as int]@, b, adj@[n]@[k]);
            lemma_push_contains(adj1[b as int]@, a, adj@[n]@[k]);
            assert(adj@[n]@.contains(adj@[n]@[k]));
        }
    }
}

proof fn lemma_push_contains(s: Seq<usize>, x: usize, y: usize)
    ensures
        s.push(x).contains(y) == (s.contains(y) || x == y),
{
    let t = s.push(x);
    if s.contains(y) {
        let k = choose|k: int| 0 <= k < s.len() && s[k] == y;
        assert(t[k] == y);
    }
    if x == y {
        assert(t[s.len() as int] == y);
    }
    if t.contains(y) && x != y {
        let k = choose|k: int| 0 <= k < t.len() && t[k] == y;
        assert(s[k] == y);
    }
}

/// The adjacency lists of the switches that conduct at levels `val`; with
/// `maybe`, of those not known to be off.
fn adjacency(transistors: &[Transistor], val: &Vec<Logic>, maybe: bool) -> (adj: Vec<Vec<usize>>)
    ensures
        lists_links(adj@, transistors@, transistors@.len() as int, val@, maybe),
{
    let net_count: usize = val.len();
    let mut adj: Vec<Vec<usize>> = Vec::new();
    let mut n: usize = 0;
    while n < net_count
        invariant
            n <= net_count,
            adj@.len() == n,
            forall|a: int| 0 <= a < n ==> (#[trigger] adj@[a])@.len() == 0,
        decreases net_count - n,
    {
        adj.push(Vec::new());
        n = n + 1;
    }
    let mut i: usize = 0;
    while i < transistors.len()
        invariant
            i <= transistors@.len(),
            net_count == val@.len(),
            lists_links(adj@, transistors@, i as int, val@, maybe),
        decreases transistors@.len() - i,
    {
        let t = &transistors[i];
        let ghost adj0 = adj@;
        let ghost mut linked = false;
        if let (Some(s), Some(d)) = (t.source_net, t.drain_net) {
            let (s, d): (usize, usize) = (s as usize, d as usize);
            if s < net_count && d < net_count {
                let g: usize = t.gate_net as usize;
                let gate = if g < net_count {
                    val[g]
                } else {
                    Logic::X
                };
                let closed = match conduction(t.kind, gate) {
                    Conduction::On => true,
                    Conduction::Unknown => maybe,
                    Conduction::Off => false,
                };
                assert(closed == conducts(transistors@[i as int], val@, maybe));
                if closed {
                    connect(&mut adj, s, d);
                    proof {
                        linked = true;
                    }
                }
            }
        }
        proof {
            let ts = transistors@;
            assert forall|a: int, b: int| 0 <= a < val@.len() && 0 <= b < val@.len() implies (
            #[trigger] adj@[a]@.contains(b as usize) == linked_by(
                ts,
                i + 1,
                val@,
                maybe,
                a,
                b,
            )) by {
                assert(adj0[a]@.contains(b as usize) == linked_by(ts, i as int, val@, maybe, a, b));
                if linked_by(ts, i as int, val@, maybe, a, b) {
                    let k = choose|k: int|
                        0 <= k < i && joins(#[trigger] ts[k], a, b) && conducts(ts[k], val@, maybe);
                    assert(joins(ts[k], a, b) && conducts(ts[k], val@, maybe));
                }
                if joins(ts[i as int], a, b) && conducts(ts[i as int], val@, maybe) {
                    assert(linked_by(ts, i + 1, val@, maybe, a, b));
                }
                if linked_by(ts, i + 1, val@, maybe, a, b) {
                    let k = choose|k: int|
                        0 <= k < i + 1 && joins(#[trigger] ts[k], a, b) && conducts(
                            ts[k],
                            val@,
                            maybe,
                        );
                    assert(joins(ts[k], a, b) && conducts(ts[k], val@, maybe));
                    if k < i {
                        assert(linked_by(ts, i as int, val@, maybe, a, b));
                    }
                }
            }
            assert forall|a: int, k: int|
                #![trigger adj@[a]@[k]]
                0 <= a < adj@.len() && 0 <= k < adj@[a]@.len() implies adj@[a]@[k] < val@.len() by {
                if adj0[a]@.contains(adj@[a]@[k]) {
                    let q = choose|q: int| 0 <= q < adj0[a]@.len() && adj0[a]@[q] == adj@[a]@[k];
                    assert(adj0[a]@[q] < val@.len());
                } else {
                    assert(adj@[a]@.contains(adj@[a]@[k]));
                }
            }
        }
        i = i + 1;
    }
    adj
}

/// Which nets reach a driver held at `level` through switches that conduct
/// at levels `val`; with `maybe`, through switches not known to be off.
fn driven_flags(
    transistors: &[Transistor],
    fixed: &HashMap<u32, Logic>,
    is_fixed: &Vec<bool>,
    val: &Vec<Logic>,
    level: Logic,
    maybe: bool,
) -> (flags: Vec<bool>)
    requires
        val@.len() <= 0x1_0000_0000,
        is_fixed@.len() == val@.len(),
        forall|n: int| 0 <= n < val@.len() ==> #[trigger] is_fixed@[n] == is_held(fixed@, n),
    ensures
        flags@.len() == val@.len(),
        forall|n: int|
            0 <= n < val@.len() ==> (#[trigger] flags@[n] == driven(
                transistors@,
                fixed@,
                val@,
                level,
                maybe,
                n,
            )),
{
    let net_count: usize = val.len();
    let adj = adjacency(transistors, val, maybe);
    let srcs = drivers(fixed, net_count, level);
    let block = block_mask(is_fixed, &srcs);
    let flags = flood(&adj, &srcs, net_count, &block);
    proof {
        let start1 = flood_start(srcs@, net_count as nat);
        let step1 = flood_step(adj@, block@, net_count as nat);
        let start2 = driver_start(fixed@, val@.len(), level);
        let step2 = driver_step(transistors@, fixed@, val@, level, maybe);
        assert forall|a: int| #[trigger] start1(a) == start2(a) by {
            if 0 <= a < net_count {
                assert(srcs@.contains(a as usize) == held_at(fixed@, level, a));
            }
        }
        assert forall|a: int, b: int| #[trigger] step1(a, b) == step2(a, b) by {
            if 0 <= a < net_count && 0 <= b < net_count {
                assert(block@[a] == (is_fixed@[a] && !srcs@.contains(a as usize)));
                assert(adj@[a]@.contains(b as usize) == linked_by(
                    transistors@,
                    transistors@.len() as int,
                    val@,
                    maybe,
                    a,
                    b,
                ));
            }
        }
        assert forall|n: int| 0 <= n < val@.len() implies (#[trigger] flags@[n] == driven(
            transistors@,
            fixed@,
            val@,
            level,
            maybe,
            n,
        )) by {
            if reached(start1, step1, n) {
                lemma_reached_mono(start1, step1, start2, step2, n);
            }
            if reached(start2, step2, n) {
                assert forall|a: int, b: int| #[trigger] step2(a, b) implies step1(a, b) by {
                    assert(step1(a, b) == step2(a, b));
                }
                assert forall|a: int| #[trigger] start2(a) implies start1(a) by {
                    assert(start1(a) == start2(a));
                }
                lemma_reached_mono(start2, step2, start1, step1, n);
            }
        }
    }
    flags
}

/// One pass of the solver.
fn pass(
    transistors: &[Transistor],
    fixed: &HashMap<u32, Logic>,
    is_fixed: &Vec<bool>,
    val: &Vec<Logic>,
) -> (next: Vec<Logic>)
    requires
        val@.len() <= 0x1_0000_0000,
        is_fixed@.len() == val@.len(),
        forall|n: int| 0 <= n < val@.len() ==> #[trigger] is_fixed@[n] == is_held(fixed@, n),
    ensures
        next@ == next_levels(transistors@, fixed@, val@),
{
    let strong_one = driven_flags(transistors, fixed, is_fixed, val, Logic::One, false);
    let strong_zero = driven_flags(transistors, fixed, is_fixed, val, Logic::Zero, false);
    let maybe_one = driven_flags(transistors, fixed, is_fixed, val, Logic::One, true);
    let maybe_zero = driven_flags(transistors, fixed, is_fixed, val, Logic::Zero, true);
    let net_count: usize = val.len();
    let mut next: Vec<Logic> = Vec::new();
    let mut n: usize = 0;
    while n < net_count
        invariant
            n <= net_count == val@.len() <= 0x1_0000_0000,
            next@.len() == n,
            strong_one@.len() == net_count,
            strong_zero@.len() == net_count,
            maybe_one@.len() == net_count,
            maybe_zero@.len() == net_count,
            forall|m: int|
                0 <= m < val@.len() ==> (#[trigger] strong_one@[m] == driven(
                    transistors@,
                    fixed@,
                    val@,
                    Logic::One,
                    false,
                    m,
                )),
            forall|m: int|
                0 <= m < val@.len() ==> (#[trigger] strong_zero@[m] == driven(
                    transistors@,
                    fixed@,
                    val@,
                    Logic::Zero,
                    false,
                    m,
                )),
            forall|m: int|
                0 <= m < val@.len() ==> (#[trigger] maybe_one@[m] == driven(
                    transistors@,
                    fixed@,
                    val@,
                    Logic::One,
                    true,
                    m,
                )),
            forall|m: int|
                0 <= m < val@.len() ==> (#[trigger] maybe_zero@[m] == driven(
                    transistors@,
                    fixed@,
                    val@,
                    Logic::Zero,
                    true,
                    m,
                )),
            forall|m: int|
                0 <= m < n ==> #[trigger] next@[m] == next_level(transistors@, fixed@, val@, m),
        decreases net_count - n,
    {
        let key: u32 = n as u32;
        let level = match fixed.get(&key) {
            Some(v) => *v,
            None => resolve(strong_one[n], strong_zero[n], maybe_one[n], maybe_zero[n], val[n]),
        };
        next.push(level);
        n = n + 1;
    }
    assert(next@ =~= next_levels(transistors@, fixed@, val@));
    next
}

/// Whether two level vectors agree.
fn same_levels(a: &Vec<Logic>, b: &Vec<Logic>) -> (same: bool)
    ensures
        same == (a@ == b@),
{
    if a.len() != b.len() {
        return false;
    }
    let mut i: usize = 0;
    while i < a.len()
        invariant
            i <= a@.len(),
            a@.len() == b@.len(),
            forall|k: int| 0 <= k < i ==> a@[k] == b@[k],
        decreases a@.len() - i,
    {
        if a[i] != b[i] {
            return false;
        }
        i = i + 1;
    }
    assert(a@ =~= b@);
    true
}

/// Once a pass changes nothing, no further pass does.
proof fn lemma_settled(
    ts: Seq<Transistor>,
    fixed: Map<u32, Logic>,
    val: Seq<Logic>,
    passes: nat,
)
    requires
        next_levels(ts, fixed, val) == val,
    ensures
        levels_after(ts, fixed, val, passes) == val,
    decreases passes,
{
    if passes > 0 {
        lemma_settled(ts, fixed, val, (passes - 1) as nat);
    }
}

/// Solves the net levels of the circuit `transistors` with `net_count` nets,
/// of which those in `fixed` are held. Returns one level per net: the levels
/// after `MAX_ITERS` passes, which no further pass changes unless the circuit
/// oscillates.
pub fn simulate(
    transistors: &[Transistor],
    net_count: usize,
    fixed: &HashMap<u32, Logic>,
) -> (levels: Vec<Logic>)
    requires
        net_count <= 0x1_0000_0000,
    ensures
        levels@ == levels_after(
            transistors@,
            fixed@,
            initial_levels(fixed@, net_count as nat),
            MAX_ITERS as nat,
        ),
{
    let is_fixed = held_flags(fixed, net_count);
    let mut val: Vec<Logic> = Vec::new();
    let mut n: usize = 0;
    while n < net_count
        invariant
            n <= net_count <= 0x1_0000_0000,
            val@ == initial_levels(fixed@, n as nat),
        decreases net_count - n,
    {
        let key: u32 = n as u32;
        let level = match fixed.get(&key) {
            Some(v) => *v,
            None => Logic::X,
        };
        val.push(level);
        assert(val@ =~= initial_levels(fixed@, (n + 1) as nat));
        n = n + 1;
    }
    let ghost init = val@;
    let mut iter: usize = 0;
    while iter < MAX_ITERS
        invariant
            iter <= MAX_ITERS,
            init == initial_levels(fixed@, net_count as nat),
            val@.len() == net_count <= 0x1_0000_0000,
            is_fixed@.len() == net_count,
            forall|n: int| 0 <= n < net_count ==> #[trigger] is_fixed@[n] == is_held(fixed@, n),
            levels_after(transistors@, fixed@, val@, (MAX_ITERS - iter) as nat) == levels_after(
                transistors@,
                fixed@,
                init,
                MAX_ITERS as nat,
            ),
        decreases MAX_ITERS - iter,
    {
        let next = pass(transistors, fixed, &is_fixed, &val);
        if same_levels(&next, &val) {
            proof {
                lemma_settled(transistors@, fixed@, val@, (MAX_ITERS - iter) as nat);
            }
            return next;
        }
        val = next;
        iter = iter + 1;
    }
    val
}

// ---- laws ----

/// The solver keeps one level per net.
pub proof fn law_one_level_per_net(
    ts: Seq<Transistor>,
    fixed: Map<u32, Logic>,
    val: Seq<Logic>,
    passes: nat,
)
    ensures
        levels_after(ts, fixed, val, passes).len() == val.len(),
    decreases passes,
{
    if passes > 0 {
        law_one_level_per_net(ts, fixed, next_levels(ts, fixed, val), (passes - 1) as nat);
    }
}

/// A driver keeps its level, whatever the switches do.
pub proof fn law_drivers_keep_their_level(
    ts: Seq<Transistor>,
    fixed: Map<u32, Logic>,
    net_count: nat,
    passes: nat,
    n: int,
)
    requires
        0 <= n < net_count,
        is_held(fixed, n),
    ensures
        levels_after(ts, fixed, initial_levels(fixed, net_count), passes)[n] == fixed[n as u32],
{
    lemma_driver_kept(ts, fixed, initial_levels(fixed, net_count), passes, n);
}

proof fn lemma_driver_kept(
    ts: Seq<Transistor>,
    fixed: Map<u32, Logic>,
    val: Seq<Logic>,
    passes: nat,
    n: int,
)
    requires
        0 <= n < val.len(),
        is_held(fixed, n),
        val[n] == fixed[n as u32],
    ensures
        levels_after(ts, fixed, val, passes)[n] == fixed[n as u32],
    decreases passes,
{
    if passes > 0 {
        lemma_driver_kept(ts, fixed, next_levels(ts, fixed, val), (passes - 1) as nat, n);
    }
}

/// What is driven for sure is driven maybe.
pub proof fn law_strong_paths_are_maybe_paths(
    ts: Seq<Transistor>,
    fixed: Map<u32, Logic>,
    val: Seq<Logic>,
    level: Logic,
    n: int,
)
    requires
        driven(ts, fixed, val, level, false, n),
    ensures
        driven(ts, fixed, val, level, true, n),
{
    let start = driver_start(fixed, val.len(), level);
    let strong = driver_step(ts, fixed, val, level, false);
    let maybe = driver_step(ts, fixed, val, level, true);
    assert forall|a: int, b: int| #[trigger] strong(a, b) implies maybe(a, b) by {
        let k = choose|k: int|
            0 <= k < ts.len() && joins(#[trigger] ts[k], a, b) && conducts(ts[k], val, false);
        assert(joins(ts[k], a, b) && conducts(ts[k], val, true));
    }
    lemma_reached_mono(start, strong, start, maybe, n);
}

/// A net that is not held gets a new definite level only over closed
/// switches, from a driver at that level, and only if no driver at the other
/// level reaches it over closed switches too.
pub proof fn law_definite_levels_are_driven(
    ts: Seq<Transistor>,
    fixed: Map<u32, Logic>,
    val: Seq<Logic>,
    n: int,
)
    requires
        0 <= n < val.len(),
        !is_held(fixed, n),
    ensures
        ({
            let next = next_levels(ts, fixed, val)[n];
            &&& next == Logic::One && val[n] != Logic::One ==> driven(
                ts,
                fixed,
                val,
                Logic::One,
                false,
                n,
            ) && !driven(ts, fixed, val, Logic::Zero, false, n)
            &&& next == Logic::Zero && val[n] != Logic::Zero ==> driven(
                ts,
                fixed,
                val,
                Logic::Zero,
                false,
                n,
            ) && !driven(ts, fixed, val, Logic::One, false, n)
        }),
{
}

/// A strong driver wins: a net that is not held and that drivers at one level
/// reach over closed switches takes that level, whatever the switches that
/// maybe conduct; where drivers at both levels reach it so, it is at X. A net
/// that drivers reach only over switches that maybe conduct is at X.
pub proof fn law_strong_drivers_decide(
    ts: Seq<Transistor>,
    fixed: Map<u32, Logic>,
    val: Seq<Logic>,
    n: int,
)
    requires
        0 <= n < val.len(),
        !is_held(fixed, n),
    ensures
        ({
            let next = next_levels(ts, fixed, val)[n];
            let one = driven(ts, fixed, val, Logic::One, false, n);
            let zero = driven(ts, fixed, val, Logic::Zero, false, n);
            let maybe = driven(ts, fixed, val, Logic::One, true, n) || driven(
                ts,
                fixed,
                val,
                Logic::Zero,
                true,
                n,
            );
            &&& one && !zero ==> next == Logic::One
            &&& zero && !one ==> next == Logic::Zero
            &&& one && zero ==> next == Logic::X
            &&& !one && !zero && maybe ==> next == Logic::X
        }),
{
}

/// A net that no driver may reach holds its level.
pub proof fn law_undriven_nets_hold(
    ts: Seq<Transistor>,
    fixed: Map<u32, Logic>,
    val: Seq<Logic>,
    n: int,
)
    requires
        0 <= n < val.len(),
        !is_held(fixed, n),
        !driven(ts, fixed, val, Logic::One, true, n),
        !driven(ts, fixed, val, Logic::Zero, true, n),
    ensures
        next_levels(ts, fixed, val)[n] == val[n],
{
    if driven(ts, fixed, val, Logic::One, false, n) {
        law_strong_paths_are_maybe_paths(ts, fixed, val, Logic::One, n);
    }
    if driven(ts, fixed, val, Logic::Zero, false, n) {
        law_strong_paths_are_maybe_paths(ts, fixed, val, Logic::Zero, n);
    }
}

/// Once a pass changes nothing, the levels are final: more passes give the
/// same.
pub proof fn law_settled_levels_are_final(
    ts: Seq<Transistor>,
    fixed: Map<u32, Logic>,
    val: Seq<Logic>,
    few: nat,
    many: nat,
)
    requires
        few <= many,
        next_levels(ts, fixed, levels_after(ts, fixed, val, few)) == levels_after(
            ts,
            fixed,
            val,
            few,
        ),
    ensures
        levels_after(ts, fixed, val, many) == levels_after(ts, fixed, val, few),
    decreases few,
{
    if few == 0 {
        lemma_settled(ts, fixed, val, many);
    } else {
        law_settled_levels_are_final(
            ts,
            fixed,
            next_levels(ts, fixed, val),
            (few - 1) as nat,
            (many - 1) as nat,
        );
    }
}

/// The passes are counted from either end: the last of them starts from what
/// the others gave.
pub(crate) proof fn lemma_last_pass(
    ts: Seq<Transistor>,
    fixed: Map<u32, Logic>,
    val: Seq<Logic>,
    passes: nat,
)
    ensures
        levels_after(ts, fixed, val, passes + 1) == next_levels(
            ts,
            fixed,
            levels_after(ts, fixed, val, passes),
        ),
    decreases passes,
{
    reveal_with_fuel(levels_after, 2);
    if passes > 0 {
        lemma_last_pass(ts, fixed, next_levels(ts, fixed, val), (passes - 1) as nat);
    }
}

/// Net `n` agrees with the drivers that reach it: a held net is at its level,
/// and another at the level that strong drivers give it, at X where they
/// disagree, and at X where drivers reach it only over switches that maybe
/// conduct. A net that no driver may reach agrees at any level.
pub open spec fn is_settled_at(
    ts: Seq<Transistor>,
    fixed: Map<u32, Logic>,
    val: Seq<Logic>,
    n: int,
) -> bool {
    let one = driven(ts, fixed, val, Logic::One, false, n);
    let zero = driven(ts, fixed, val, Logic::Zero, false, n);
    let maybe = driven(ts, fixed, val, Logic::One, true, n) || driven(
        ts,
        fixed,
        val,
        Logic::Zero,
        true,
        n,
    );
    if is_held(fixed, n) {
        val[n] == fixed[n as u32]
    } else {
        &&& one && !zero ==> val[n] == Logic::One
        &&& zero && !one ==> val[n] == Logic::Zero
        &&& one && zero ==> val[n] == Logic::X
        &&& !one && !zero && maybe ==> val[n] == Logic::X
    }
}

/// A pass changes nothing exactly where every net agrees with the drivers
/// that reach it.
pub proof fn law_when_a_pass_changes_nothing(
    ts: Seq<Transistor>,
    fixed: Map<u32, Logic>,
    val: Seq<Logic>,
)
    ensures
        next_levels(ts, fixed, val) == val <==> forall|n: int|
            0 <= n < val.len() ==> #[trigger] is_settled_at(ts, fixed, val, n),
{
    let next = next_levels(ts, fixed, val);
    if next == val {
        assert forall|n: int| 0 <= n < val.len() implies #[trigger] is_settled_at(
            ts,
            fixed,
            val,
            n,
        ) by {
            assert(next[n] == next_level(ts, fixed, val, n));
        }
    }
    if forall|n: int| 0 <= n < val.len() ==> #[trigger] is_settled_at(ts, fixed, val, n) {
        assert forall|n: int| 0 <= n < val.len() implies #[trigger] next[n] == val[n] by {
            assert(is_settled_at(ts, fixed, val, n));
        }
        assert(next =~= val);
    }
}

/// In a settled circuit a net that is not held has the level of the drivers
/// that reach it over closed switches, where they agree, and is at X where
/// they do not, or where drivers reach it only over switches that maybe
/// conduct. So a definite level comes over closed switches, or is held by a
/// net that no driver may reach.
pub proof fn law_settled_levels_agree_with_drivers(
    ts: Seq<Transistor>,
    fixed: Map<u32, Logic>,
    r: Seq<Logic>,
    n: int,
)
    requires
        next_levels(ts, fixed, r) == r,
        0 <= n < r.len(),
        !is_held(fixed, n),
    ensures
        ({
            let one = driven(ts, fixed, r, Logic::One, false, n);
            let zero = driven(ts, fixed, r, Logic::Zero, false, n);
            let maybe = driven(ts, fixed, r, Logic::One, true, n) || driven(
                ts,
                fixed,
                r,
                Logic::Zero,
                true,
                n,
            );
            &&& one && !zero ==> r[n] == Logic::One
            &&& zero && !one ==> r[n] == Logic::Zero
            &&& one && zero ==> r[n] == Logic::X
            &&& !one && !zero && maybe ==> r[n] == Logic::X
            &&& r[n] == Logic::One ==> (one && !zero) || !maybe
            &&& r[n] == Logic::Zero ==> (zero && !one) || !maybe
        }),
{
    law_when_a_pass_changes_nothing(ts, fixed, r);
    assert(is_settled_at(ts, fixed, r, n));
}

/// What the solver gives back is settled, exactly if one of its passes, or
/// one more, changes nothing; then it is what that pass started from.
pub proof fn law_result_is_settled_or_oscillates(
    ts: Seq<Transistor>,
    fixed: Map<u32, Logic>,
    val: Seq<Logic>,
    passes: nat,
)
    ensures
        ({
            let r = levels_after(ts, fixed, val, passes);
            &&& next_levels(ts, fixed, r) == r <==> exists|k: nat|
                k <= passes && settles_at(ts, fixed, val, k)
            &&& forall|k: nat|
                k <= passes && #[trigger] settles_at(ts, fixed, val, k) ==> r == levels_after(
                    ts,
                    fixed,
                    val,
                    k,
                )
        }),
{
    let r = levels_after(ts, fixed, val, passes);
    assert forall|k: nat| k <= passes && #[trigger] settles_at(ts, fixed, val, k) implies r
        == levels_after(ts, fixed, val, k) by {
        law_settled_levels_are_final(ts, fixed, val, k, passes);
    }
    if next_levels(ts, fixed, r) == r {
        assert(settles_at(ts, fixed, val, passes));
    }
}

/// The pass after the first `k` passes changes nothing.
pub open spec fn settles_at(
    ts: Seq<Transistor>,
    fixed: Map<u32, Logic>,
    val: Seq<Logic>,
    k: nat,
) -> bool {
    next_levels(ts, fixed, levels_after(ts, fixed, val, k)) == levels_after(ts, fixed, val, k)
}

} // verus!
