//! Reachability in a directed graph over the integers.
//!
//! A graph is given by a set of starting nodes and a step relation. Both the
//! signal floods of the simulator and the nets of the net builder are stated
//! with the walks defined here.

use vstd::prelude::*;

verus! {

/// `p` is a non-empty walk: it begins at a start node and every node is one
/// step away from the node before it.
pub open spec fn is_walk(
    start: spec_fn(int) -> bool,
    step: spec_fn(int, int) -> bool,
    p: Seq<int>,
) -> bool {
    &&& p.len() > 0
    &&& start(p[0])
    &&& forall|k: int, l: int|
        #![trigger p[k], p[l]]
        0 <= k && l == k + 1 && l < p.len() ==> step(p[k], p[l])
}

/// Some walk ends at `n`.
pub open spec fn reached(
    start: spec_fn(int) -> bool,
    step: spec_fn(int, int) -> bool,
    n: int,
) -> bool {
    exists|p: Seq<int>| is_walk(start, step, p) && p.last() == n
}

/// A start node is reached.
pub proof fn lemma_start_reached(
    start: spec_fn(int) -> bool,
    step: spec_fn(int, int) -> bool,
    n: int,
)
    requires
        start(n),
    ensures
        reached(start, step, n),
{
    let p = seq![n];
    assert(is_walk(start, step, p) && p.last() == n);
}

/// One step from a reached node leads to a reached node.
pub proof fn lemma_step_reached(
    start: spec_fn(int) -> bool,
    step: spec_fn(int, int) -> bool,
    a: int,
    b: int,
)
    requires
        reached(start, step, a),
        step(a, b),
    ensures
        reached(start, step, b),
{
    let p = choose|p: Seq<int>| is_walk(start, step, p) && p.last() == a;
    let q = p.push(b);
    assert forall|k: int, l: int|
        #![trigger q[k], q[l]]
        0 <= k && l == k + 1 && l < q.len() implies step(q[k], q[l]) by {
        if l < p.len() {
            assert(q[k] == p[k] && q[l] == p[l]);
        } else {
            assert(q[k] == p.last());
        }
    }
    assert(q[0] == p[0]);
    assert(is_walk(start, step, q) && q.last() == b);
}

/// A set that holds every start node and is closed under steps holds every
/// reached node.
pub proof fn lemma_closed_holds_reached(
    start: spec_fn(int) -> bool,
    step: spec_fn(int, int) -> bool,
    held: spec_fn(int) -> bool,
    n: int,
)
    requires
        reached(start, step, n),
        forall|a: int| #[trigger] start(a) ==> held(a),
        forall|a: int, b: int| held(a) && #[trigger] step(a, b) ==> held(b),
    ensures
        held(n),
{
    let p = choose|p: Seq<int>| is_walk(start, step, p) && p.last() == n;
    lemma_closed_holds_prefix(start, step, held, p, p.len() - 1);
}

proof fn lemma_closed_holds_prefix(
    start: spec_fn(int) -> bool,
    step: spec_fn(int, int) -> bool,
    held: spec_fn(int) -> bool,
    p: Seq<int>,
    k: int,
)
    requires
        is_walk(start, step, p),
        0 <= k < p.len(),
        forall|a: int| #[trigger] start(a) ==> held(a),
        forall|a: int, b: int| held(a) && #[trigger] step(a, b) ==> held(b),
    ensures
        held(p[k]),
    decreases k,
{
    if k > 0 {
        lemma_closed_holds_prefix(start, step, held, p, k - 1);
        assert(step(p[k - 1], p[k]));
    } else {
        assert(start(p[0]));
    }
}

/// A graph with fewer starts and fewer steps reaches no more.
pub proof fn lemma_reached_mono(
    start1: spec_fn(int) -> bool,
    step1: spec_fn(int, int) -> bool,
    start2: spec_fn(int) -> bool,
    step2: spec_fn(int, int) -> bool,
    n: int,
)
    requires
        reached(start1, step1, n),
        forall|a: int| #[trigger] start1(a) ==> start2(a),
        forall|a: int, b: int| #[trigger] step1(a, b) ==> step2(a, b),
    ensures
        reached(start2, step2, n),
{
    let p = choose|p: Seq<int>| is_walk(start1, step1, p) && p.last() == n;
    assert(start1(p[0]));
    assert forall|k: int, l: int|
        #![trigger p[k], p[l]]
        0 <= k && l == k + 1 && l < p.len() implies step2(p[k], p[l]) by {
        assert(step1(p[k], p[l]));
    }
    assert(is_walk(start2, step2, p));
}

} // verus!
