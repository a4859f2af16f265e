//! The loaded layout, and the queries on it.

use std::collections::HashMap;

use vstd::prelude::*;

use crate::gds::{shapes, Point, Polygon, Shape, Spot};
use crate::geometry::{build_nets, law_no_more_nets_than_polygons, lists_net, Nets};
use crate::sim::{initial_levels, levels_after, simulate, Logic, MAX_ITERS};
use crate::tech::Tech;
use crate::transistors::{device_layout, try_extract, Extraction, Transistor};
use crate::viewport::{hit_test, is_hit, is_miss, PolygonHit};

verus! {

broadcast use vstd::std_specs::hash::group_hash_axioms;

/// The loaded layout with its nets and transistors, kept so that clicks and
/// queries need not parse it again.
#[derive(Debug)]
pub struct Loaded {
    pub polys: Vec<Polygon>,
    pub nets: Nets,
    pub extraction: Extraction,
}

impl Default for Loaded {
    /// Nothing loaded.
    fn default() -> (loaded: Loaded)
        ensures
            loaded.polys@ == Seq::<Polygon>::empty(),
            loaded.extraction.transistors@ == Seq::<Transistor>::empty(),
            loaded.fits(),
            loaded.nets.members@ == Seq::<Vec<u32>>::empty(),
            loaded.extraction.device_nets.members@ == Seq::<Vec<u32>>::empty(),
    {
        Loaded { polys: Vec::new(), nets: Nets::default(), extraction: Extraction::default() }
    }
}

/// A polygon under a click, with its net.
#[derive(Debug)]
pub struct NetHit {
    pub hit: PolygonHit,
    pub net: u32,
}

/// The rings of those of the first `k` listed polygons that exist.
pub open spec fn rings_listed(layout: Seq<Shape>, list: Seq<u32>, k: int) -> Seq<Seq<Point>>
    decreases k,
{
    if k <= 0 {
        Seq::empty()
    } else if list[k - 1] < layout.len() {
        rings_listed(layout, list, k - 1).push(layout[list[k - 1] as int].ring)
    } else {
        rings_listed(layout, list, k - 1)
    }
}

/// The rings of the polygons of a net; none if there is no such net.
pub open spec fn rings_of_net(layout: Seq<Shape>, nets: Nets, net: u32) -> Seq<Seq<Point>> {
    if net < nets.members@.len() {
        let list = nets.members@[net as int]@;
        rings_listed(layout, list, list.len() as int)
    } else {
        Seq::empty()
    }
}

/// The points of each ring of a list.
pub open spec fn rings(list: Seq<Vec<Point>>) -> Seq<Seq<Point>> {
    Seq::new(list.len(), |i: int| list[i]@)
}

/// The levels that a list of pairs asks for: a later pair replaces an earlier
/// one for the same net.
pub open spec fn held_levels(pairs: Seq<(u32, Logic)>, k: int) -> Map<u32, Logic>
    decreases k,
{
    if k <= 0 {
        Map::empty()
    } else {
        held_levels(pairs, k - 1).insert(pairs[k - 1].0, pairs[k - 1].1)
    }
}

/// Collects the rings of the polygons of a net.
fn collect_rings(polys: &[Polygon], nets: &Nets, net: u32) -> (r: Vec<Vec<Point>>)
    ensures
        rings(r@) == rings_of_net(shapes(polys@), *nets, net),
{
    let ghost layout = shapes(polys@);
    let mut r: Vec<Vec<Point>> = Vec::new();
    if net as u64 >= nets.members.len() as u64 {
        assert(rings(r@) =~= Seq::<Seq<Point>>::empty());
        return r;
    }
    let list = &nets.members[net as usize];
    let mut k: usize = 0;
    assert(rings(r@) =~= rings_listed(layout, list@, 0));
    while k < list.len()
        invariant
            k <= list@.len(),
            layout == shapes(polys@),
            rings(r@) == rings_listed(layout, list@, k as int),
        decreases list@.len() - k,
    {
        let i: u32 = list[k];
        if (i as u64) < polys.len() as u64 {
            let points = polys[i as usize].points.clone();
            assert(points@ =~= layout[i as int].ring);
            let ghost before = r@;
            r.push(points);
            assert(rings(r@) =~= rings(before).push(points@));
        }
        k = k + 1;
    }
    r
}

impl Loaded {
    /// These are the nets and the transistors of the polygons.
    pub open spec fn wf(&self, tech: &Tech) -> bool {
        &&& self.nets.nets_of(shapes(self.polys@), tech)
        &&& self.extraction.extracts(shapes(self.polys@), tech)
    }

    /// Every polygon has a net, and 32-bit numbers count the device nets.
    pub open spec fn fits(&self) -> bool {
        &&& self.nets.net_of@.len() == self.polys@.len()
        &&& self.extraction.device_nets.members@.len() <= 0x1_0000_0000
    }

    /// Builds the nets and extracts the transistors of a layout, unless it
    /// has more polygons than 32-bit net numbers can count.
    pub fn load(polys: Vec<Polygon>, tech: &Tech) -> (r: Option<Loaded>)
        ensures
            r is Some <==> polys@.len() <= 0x1_0000_0000 && device_layout(
                shapes(polys@),
                tech,
            ).len() <= 0x1_0000_0000,
            r is Some ==> r->0.polys == polys && r->0.wf(tech) && r->0.fits(),
    {
        if polys.len() as u64 > 0x1_0000_0000 {
            return None;
        }
        let nets = build_nets(&polys, tech);
        match try_extract(&polys, tech) {
            Some(extraction) => {
                proof {
                    law_no_more_nets_than_polygons(
                        extraction.device_nets,
                        device_layout(shapes(polys@), tech),
                        tech,
                    );
                }
                Some(Loaded { polys, nets, extraction })
            },
            None => None,
        }
    }

    /// The extracted transistors.
    pub fn transistors(&self) -> (ts: Vec<Transistor>)
        ensures
            ts@ == self.extraction.transistors@,
    {
        let ts = self.extraction.transistors.clone();
        assert(ts@ =~= self.extraction.transistors@);
        ts
    }

    /// The polygon rings of a net.
    pub fn net_rings(&self, net: u32) -> (r: Vec<Vec<Point>>)
        ensures
            rings(r@) == rings_of_net(shapes(self.polys@), self.nets, net),
    {
        collect_rings(&self.polys, &self.nets, net)
    }

    /// The polygon rings of a device net, where source, drain and internal
    /// nodes are apart.
    pub fn device_net_rings(&self, net: u32) -> (r: Vec<Vec<Point>>)
        ensures
            rings(r@) == rings_of_net(
                shapes(self.extraction.device_polys@),
                self.extraction.device_nets,
                net,
            ),
    {
        collect_rings(&self.extraction.device_polys, &self.extraction.device_nets, net)
    }

    /// The polygon under a click and its net.
    pub fn hit_test(&self, p: Spot) -> (r: Option<NetHit>)
        requires
            self.fits(),
        ensures
            match r {
                Some(h) => is_hit(shapes(self.polys@), p, h.hit) && h.net
                    == self.nets.net_of@[h.hit.index as int],
                None => is_miss(shapes(self.polys@), p),
            },
    {
        match hit_test(&self.polys, p) {
            Some(hit) => {
                let net: u32 = self.nets.net_of[hit.index];
                Some(NetHit { hit, net })
            },
            None => None,
        }
    }

    /// Simulates the extracted transistors with the nets in `fixed` held.
    /// Returns one level per device net.
    pub fn simulate_nets(&self, fixed: Vec<(u32, Logic)>) -> (levels: Vec<Logic>)
        requires
            self.fits(),
        ensures
            levels@ == levels_after(
                self.extraction.transistors@,
                held_levels(fixed@, fixed@.len() as int),
                initial_levels(
                    held_levels(fixed@, fixed@.len() as int),
                    self.extraction.device_nets.members@.len(),
                ),
                MAX_ITERS as nat,
            ),
    {
        let mut map: HashMap<u32, Logic> = HashMap::new();
        let mut k: usize = 0;
        while k < fixed.len()
            invariant
                k <= fixed@.len(),
                map@ == held_levels(fixed@, k as int),
            decreases fixed@.len() - k,
        {
            let pair = fixed[k];
            map.insert(pair.0, pair.1);
            k = k + 1;
        }
        simulate(&self.extraction.transistors, self.extraction.device_nets.count(), &map)
    }
}

/// The rings of a net of a well-formed session are those of its polygons, one
/// for one.
pub proof fn law_net_rings_are_the_members(loaded: Loaded, tech: &Tech, net: u32)
    requires
        loaded.wf(tech),
        net < loaded.nets.members@.len(),
    ensures
        ({
            let list = loaded.nets.members@[net as int]@;
            let found = rings_of_net(shapes(loaded.polys@), loaded.nets, net);
            &&& found.len() == list.len()
            &&& forall|k: int|
                0 <= k < list.len() ==> #[trigger] found[k]
                    == loaded.polys@[list[k] as int].points@
        }),
{
    let layout = shapes(loaded.polys@);
    let list = loaded.nets.members@[net as int]@;
    assert(lists_net(list, loaded.nets.net_of@, layout.len() as int, net as int));
    lemma_all_listed(layout, list, list.len() as int);
}

proof fn lemma_all_listed(layout: Seq<Shape>, list: Seq<u32>, n: int)
    requires
        0 <= n <= list.len(),
        forall|a: int| 0 <= a < list.len() ==> (#[trigger] list[a]) < layout.len(),
    ensures
        rings_listed(layout, list, n).len() == n,
        forall|k: int|
            0 <= k < n ==> #[trigger] rings_listed(layout, list, n)[k]
                == layout[list[k] as int].ring,
    decreases n,
{
    if n > 0 {
        lemma_all_listed(layout, list, n - 1);
        assert(list[n - 1] < layout.len());
    }
}

/// The rings of a device net are those of its pieces, one for one; a net that
/// does not exist has none.
pub proof fn law_device_net_rings_are_the_members(loaded: Loaded, tech: &Tech, net: u32)
    requires
        loaded.wf(tech),
    ensures
        ({
            let nets = loaded.extraction.device_nets;
            let polys = loaded.extraction.device_polys@;
            let found = rings_of_net(shapes(polys), nets, net);
            if net < nets.members@.len() {
                let list = nets.members@[net as int]@;
                &&& found.len() == list.len()
                &&& forall|k: int|
                    0 <= k < list.len() ==> #[trigger] found[k] == polys[list[k] as int].points@
            } else {
                found.len() == 0
            }
        }),
        net >= loaded.nets.members@.len() ==> rings_of_net(
            shapes(loaded.polys@),
            loaded.nets,
            net,
        ).len() == 0,
{
    let nets = loaded.extraction.device_nets;
    if net < nets.members@.len() {
        let layout = shapes(loaded.extraction.device_polys@);
        let list = nets.members@[net as int]@;
        assert(lists_net(list, nets.net_of@, layout.len() as int, net as int));
        lemma_all_listed(layout, list, list.len() as int);
    }
}

/// A net that does not exist has no rings.
pub proof fn law_missing_nets_have_no_rings(layout: Seq<Shape>, nets: Nets, net: u32)
    requires
        net >= nets.members@.len(),
    ensures
        rings_of_net(layout, nets, net).len() == 0,
{
}

/// A net is held exactly if a pair names it, at the level of the last pair
/// that does.
pub proof fn law_last_pair_holds_the_net(pairs: Seq<(u32, Logic)>, net: u32, j: int)
    ensures
        ({
            let held = held_levels(pairs, pairs.len() as int);
            if held.contains_key(net) {
                exists|i: int|
                    0 <= i < pairs.len() && (#[trigger] pairs[i]).0 == net && pairs[i].1
                        == held[net] && (i < j < pairs.len() ==> pairs[j].0 != net)
            } else {
                0 <= j < pairs.len() ==> pairs[j].0 != net
            }
        }),
{
    lemma_last_pair(pairs, pairs.len() as int, net, j);
}

proof fn lemma_last_pair(pairs: Seq<(u32, Logic)>, k: int, net: u32, j: int)
    requires
        0 <= k <= pairs.len(),
    ensures
        ({
            let held = held_levels(pairs, k);
            if held.contains_key(net) {
                exists|i: int|
                    0 <= i < k && (#[trigger] pairs[i]).0 == net && pairs[i].1 == held[net] && (i
                        < j < k ==> pairs[j].0 != net)
            } else {
                0 <= j < k ==> pairs[j].0 != net
            }
        }),
    decreases k,
{
    if k > 0 {
        lemma_last_pair(pairs, k - 1, net, j);
        if pairs[k - 1].0 == net {
            assert(held_levels(pairs, k)[net] == pairs[k - 1].1);
        } else {
            let before = held_levels(pairs, k - 1);
            if before.contains_key(net) {
                let i = choose|i: int|
                    0 <= i < k - 1 && (#[trigger] pairs[i]).0 == net && pairs[i].1 == before[net]
                        && (i < j < k - 1 ==> pairs[j].0 != net);
                assert(pairs[i].1 == held_levels(pairs, k)[net]);
            }
        }
    }
}

} // verus!
