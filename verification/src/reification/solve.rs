//! The least solution of the demand equations: for each demand, the
//! requirements it needs. Ports stay symbolic until a scheme instantiation
//! supplies a callable at that position.
use vstd::prelude::*;

use std::collections::{BTreeMap, BTreeSet};

use super::conventions::{free_parameters_of, members, need_refs, root, well_formed, Edge, Graph, Instance, NeedId, Needs, Requirement, Shape};
use super::interface::requirement_list;
use vstd::std_specs::iter::IteratorSpec;

verus! {

broadcast use vstd::std_specs::btree::group_btree_axioms, vstd::laws_cmp::group_laws_cmp;

/// What the parameter `p` stands for under a renaming: its image where the
/// renaming names it, else itself.
pub open spec fn renaming(substitute: Map<u32, BTreeSet<u32>>, p: u32) -> Set<u32> {
    if substitute.contains_key(p) {
        substitute[p]@
    } else {
        set![p]
    }
}

/// A demand's requirements before any equation is read: its direct
/// parameters, needed unconditionally, and the free parameters of its
/// port, needed through the port its redirects end at.
pub open spec fn seeded(needs: Seq<Needs>, id: int, r: Requirement) -> bool {
    ||| r.0 is None && needs[id].direct@.contains(r.1)
    ||| r.0 == Some(root(needs, id as NeedId)) && port_holds(needs, id, r.1)
}

/// The free parameters of the port of `id` include `p`.
pub open spec fn port_holds(needs: Seq<Needs>, id: int, p: u32) -> bool {
    match free_parameters_of(needs, id as NeedId) {
        Some(ps) => ps.contains(p),
        None => false,
    }
}

/// What the solver has found for each demand.
pub type Demands = spec_fn(int) -> Set<Requirement>;

/// The edge keeps the parameter `p`.
pub open spec fn retained(e: Edge, p: u32) -> bool {
    match e.retain {
        Some(kept) => kept@.contains(p),
        None => true,
    }
}

/// What an edge makes of one requirement of its source: its parameter
/// renamed, where the edge keeps it.
pub open spec fn edge_reads_from(e: Edge, need: Requirement, r: Requirement) -> bool {
    r.0 == need.0 && renaming(e.substitute@, need.1).contains(r.1) && retained(e, r.1)
}

/// An edge reads `r` from what its source needs.
pub open spec fn edge_reads(e: Edge, v: Demands, r: Requirement) -> bool {
    exists|need: Requirement| #![trigger v(e.source as int).contains(need)] v(e.source as int).contains(need) && edge_reads_from(e, need, r)
}

/// The demands an instance supplies for the requirements through `port`:
/// those its ports map to, where a port of the scheme has the same root.
pub open spec fn supplies(needs: Seq<Needs>, inst: Instance, port: Option<NeedId>, t: NeedId) -> bool {
    port is Some && exists|s: NeedId|
        #![trigger inst.ports@.contains_key(s)]
        inst.ports@.contains_key(s) && inst.ports@[s] == t && root(needs, s) == root(needs, port->0)
}

/// What a supplied requirement contributes once its parameter is used: an
/// unconditional one makes every component of the slot needed now, one
/// through a port is needed as it is.
pub open spec fn supplied_reads(ps: Set<u32>, supplied: Requirement, r: Requirement) -> bool {
    ||| supplied.0 is None && r.0 is None && ps.contains(r.1)
    ||| supplied.0 is Some && r == supplied
}

/// An instance reads `r` from the scheme's demand: a requirement of it,
/// renamed; where the instance supplies callables for its port, what those
/// need of the renamed parameters instead.
pub open spec fn instance_reads(needs: Seq<Needs>, inst: Instance, v: Demands, r: Requirement) -> bool {
    exists|need: Requirement|
        #![trigger v(inst.source as int).contains(need)]
        v(inst.source as int).contains(need) && instance_reads_from(needs, inst, v, need, r)
}

/// What an instance makes of one requirement of the scheme's demand.
pub open spec fn instance_reads_from(needs: Seq<Needs>, inst: Instance, v: Demands, need: Requirement, r: Requirement) -> bool {
    let ps = renaming(inst.substitute@, need.1);
    if exists|t: NeedId| #[trigger] supplies(needs, inst, need.0, t) {
        exists|t: NeedId, supplied: Requirement|
            #![trigger supplies(needs, inst, need.0, t), v(t as int).contains(supplied)]
            supplies(needs, inst, need.0, t) && v(t as int).contains(supplied) && ps.contains(supplied.1) && supplied_reads(ps, supplied, r)
    } else {
        r.0 == need.0 && ps.contains(r.1)
    }
}

/// The equation of `id` derives `r` from the requirements found so far.
pub open spec fn derives(needs: Seq<Needs>, v: Demands, id: int, r: Requirement) -> bool {
    ||| (needs[id].redirect matches Some(s) && v(s as int).contains(r))
    ||| (exists|k: int| 0 <= k < needs[id].edges@.len() && edge_reads(#[trigger] needs[id].edges@[k], v, r))
    ||| (needs[id].instance matches Some(inst) && instance_reads(needs, inst, v, r))
}

/// The requirements found hold every seeded one and every one an equation
/// derives from them.
pub open spec fn closed(needs: Seq<Needs>, v: Demands) -> bool {
    forall|id: int, r: Requirement|
        #![trigger v(id).contains(r)]
        0 <= id < needs.len() && (seeded(needs, id, r) || derives(needs, v, id, r)) ==> v(id).contains(r)
}

/// `v` holds no requirement that `w` does not.
pub open spec fn within(count: nat, v: Demands, w: Demands) -> bool {
    forall|id: int| 0 <= id < count ==> (#[trigger] v(id)).subset_of(w(id))
}

/// The least solution: closed, and within every closed one.
pub open spec fn least_demands(needs: Seq<Needs>, v: Demands) -> bool {
    &&& closed(needs, v)
    &&& forall|w: Demands| #[trigger] closed(needs, w) ==> within(needs.len(), v, w)
}

/// The demands the sets hold; nothing past their end.
pub open spec fn held(values: Seq<BTreeSet<Requirement>>) -> Demands {
    |id: int|
        if 0 <= id < values.len() {
            values[id]@
        } else {
            Set::empty()
        }
}

/// Every requirement whose port, if any, is one of `count` demands.
pub open spec fn universe(count: nat) -> Set<Requirement> {
    Set::new(|r: Requirement| r.0 is None || r.0->0 < count)
}

/// The requirement a number in `0 .. (count + 1) * 2^32` encodes.
pub open spec fn decoded(i: int) -> Requirement {
    (
        if i / 0x1_0000_0000 == 0 {
            None
        } else {
            Some((i / 0x1_0000_0000 - 1) as u32)
        },
        (i % 0x1_0000_0000) as u32,
    )
}

proof fn lemma_universe_finite(count: nat)
    ensures
        universe(count).finite(),
{
    let top: int = ((count + 1) * 0x1_0000_0000) as int;
    let base = vstd::set_lib::set_int_range(0, top);
    vstd::set_lib::lemma_int_range(0, top);
    base.lemma_map_finite(|i: int| decoded(i));
    let image = base.map(|i: int| decoded(i));
    assert forall|r: Requirement| universe(count).contains(r) implies image.contains(r) by {
        let q: int = match r.0 {
            None => 0,
            Some(x) => x + 1,
        };
        let i = q * 0x1_0000_0000 + r.1;
        vstd::arithmetic::div_mod::lemma_fundamental_div_mod_converse(i, 0x1_0000_0000, q, r.1 as int);
        assert(0 <= i < top) by (nonlinear_arith)
            requires
                0 <= q <= count,
                0 <= r.1 < 0x1_0000_0000,
                i == q * 0x1_0000_0000 + r.1,
                top == (count + 1) * 0x1_0000_0000,
        ;
        assert(base.contains(i));
        assert(decoded(i) == r);
    }
    vstd::set_lib::lemma_set_subset_finite(image, universe(count));
}

/// The renaming of one parameter.
fn renamed(substitute: &BTreeMap<u32, BTreeSet<u32>>, p: u32) -> (ps: BTreeSet<u32>)
    ensures
        ps@ == renaming(substitute@, p),
{
    match substitute.get(&p) {
        Some(image) => image.clone(),
        None => {
            let mut ps: BTreeSet<u32> = BTreeSet::new();
            ps.insert(p);
            ps
        },
    }
}

/// The ports an instance maps, with the demands it maps them to.
fn port_pairs(ports: &BTreeMap<NeedId, NeedId>) -> (pairs: Vec<(NeedId, NeedId)>)
    ensures
        forall|s: NeedId, t: NeedId| pairs@.contains((s, t)) <==> ports@.contains_key(s) && ports@[s] == t,
{
    let mut pairs: Vec<(NeedId, NeedId)> = Vec::new();
    for kv in it: ports.iter()
        invariant
            pairs@ == it.seq().take(it.index() as int).map_values(|kv: (&NeedId, &NeedId)| (*kv.0, *kv.1)),
            it.seq() == vstd::std_specs::btree::spec_btree_map_iter(ports).remaining(),
    {
        pairs.push((*kv.0, *kv.1));
    }
    proof {
        let v = vstd::std_specs::btree::spec_btree_map_iter(ports).remaining();
        assert(pairs@ =~= v.map_values(|kv: (&NeedId, &NeedId)| (*kv.0, *kv.1)));
        assert forall|s: NeedId, t: NeedId| pairs@.contains((s, t)) <==> ports@.contains_key(s) && ports@[s] == t by {
            if pairs@.contains((s, t)) {
                let i = choose|i: int| 0 <= i < pairs@.len() && pairs@[i] == (s, t);
                assert(ports@.contains_key(*v[i].0) && ports@[*v[i].0] == *v[i].1);
            }
            if ports@.contains_key(s) && ports@[s] == t {
                assert(v.contains((&s, &ports@[s])));
                let i = choose|i: int| 0 <= i < v.len() && v[i] == (&s, &ports@[s]);
                assert(pairs@[i] == (s, t));
            }
        }
    }
    pairs
}

/// Adds to `a` the requirement with the given port for each of `ps`.
fn add_all(a: &mut BTreeSet<Requirement>, port: Option<NeedId>, ps: &BTreeSet<u32>)
    ensures
        forall|r: Requirement| #[trigger] final(a)@.contains(r) <==> old(a)@.contains(r) || (r.0 == port && ps@.contains(r.1)),
{
    let items = members(ps);
    let mut i: usize = 0;
    while i < items.len()
        invariant
            i <= items.len(),
            items@.to_set() == ps@,
            forall|r: Requirement| #[trigger] a@.contains(r) <==> old(a)@.contains(r) || (r.0 == port && exists|k: int| 0 <= k < i && items@[k] == r.1),
        decreases items.len() - i,
    {
        a.insert((port, items[i]));
        i = i + 1;
    }
    proof {
        assert forall|r: Requirement| #[trigger] a@.contains(r) <==> old(a)@.contains(r) || (r.0 == port && ps@.contains(r.1)) by {
            if r.0 == port && ps@.contains(r.1) {
                assert(items@.to_set().contains(r.1));
            }
        }
    }
}

/// The parameters of `ps` that `kept` holds too.
fn keep(ps: &BTreeSet<u32>, kept: &BTreeSet<u32>) -> (r: BTreeSet<u32>)
    ensures
        r@ == ps@.intersect(kept@),
{
    let items = members(ps);
    let mut r: BTreeSet<u32> = BTreeSet::new();
    let mut i: usize = 0;
    while i < items.len()
        invariant
            i <= items.len(),
            items@.to_set() == ps@,
            forall|p: u32| r@.contains(p) <==> kept@.contains(p) && exists|k: int| 0 <= k < i && items@[k] == p,
        decreases items.len() - i,
    {
        if kept.contains(&items[i]) {
            r.insert(items[i]);
        }
        i = i + 1;
    }
    proof {
        assert forall|p: u32| r@.contains(p) <==> ps@.intersect(kept@).contains(p) by {
            if ps@.contains(p) {
                assert(items@.to_set().contains(p));
            }
        }
        assert(r@ =~= ps@.intersect(kept@));
    }
    r
}

/// What one edge makes of one requirement of its source, added to `a`.
fn read_edge(a: &mut BTreeSet<Requirement>, e: &Edge, need: Requirement)
    ensures
        forall|r: Requirement| #[trigger] final(a)@.contains(r) <==> old(a)@.contains(r) || edge_reads_from(*e, need, r),
{
    let ps = renamed(&e.substitute, need.1);
    match &e.retain {
        Some(kept) => {
            let both = keep(&ps, kept);
            add_all(a, need.0, &both);
        },
        None => {
            add_all(a, need.0, &ps);
        },
    }
}

/// What the edges read from the requirements found so far.
fn edge_part(edges: &Vec<Edge>, values: &Vec<BTreeSet<Requirement>>) -> (a: BTreeSet<Requirement>)
    requires
        forall|k: int| 0 <= k < edges@.len() ==> (#[trigger] edges@[k]).source < values@.len(),
    ensures
        forall|r: Requirement| a@.contains(r) <==> exists|k: int| 0 <= k < edges@.len() && edge_reads(#[trigger] edges@[k], held(values@), r),
{
    let ghost v = held(values@);
    let mut a: BTreeSet<Requirement> = BTreeSet::new();
    let mut k: usize = 0;
    while k < edges.len()
        invariant
            k <= edges.len(),
            v == held(values@),
            forall|j: int| 0 <= j < edges@.len() ==> (#[trigger] edges@[j]).source < values@.len(),
            forall|r: Requirement| #[trigger] a@.contains(r) <==> exists|j: int| 0 <= j < k && edge_reads(#[trigger] edges@[j], v, r),
        decreases edges.len() - k,
    {
        let e = &edges[k];
        let list = requirement_list(&values[e.source as usize]);
        let ghost before = a@;
        let mut i: usize = 0;
        while i < list.len()
            invariant
                i <= list.len(),
                k < edges.len(),
                *e == edges@[k as int],
                e.source < values@.len(),
                v == held(values@),
                list@.to_set() == values@[e.source as int]@,
                forall|r: Requirement| #[trigger] a@.contains(r) <==> before.contains(r) || exists|q: int| 0 <= q < i && edge_reads_from(*e, #[trigger] list@[q], r),
            decreases list.len() - i,
        {
            let ghost prior = a@;
            let need = list[i];
            read_edge(&mut a, e, need);
            proof {
                assert forall|r: Requirement| a@.contains(r) implies before.contains(r) || exists|q: int| 0 <= q < i + 1 && edge_reads_from(*e, #[trigger] list@[q], r) by {
                    if prior.contains(r) {
                        if !before.contains(r) {
                            let q = choose|q: int| 0 <= q < i && edge_reads_from(*e, #[trigger] list@[q], r);
                            assert(0 <= q < i + 1 && edge_reads_from(*e, list@[q], r));
                        }
                    } else {
                        assert(edge_reads_from(*e, list@[i as int], r));
                    }
                }
                assert forall|r: Requirement| (before.contains(r) || exists|q: int| 0 <= q < i + 1 && edge_reads_from(*e, #[trigger] list@[q], r)) implies a@.contains(r) by {
                    if before.contains(r) {
                        assert(prior.contains(r));
                    } else {
                        let q = choose|q: int| 0 <= q < i + 1 && edge_reads_from(*e, #[trigger] list@[q], r);
                        if q < i {
                            assert(prior.contains(r));
                        } else {
                            assert(edge_reads_from(*e, need, r));
                        }
                    }
                }
            }
            i = i + 1;
        }
        proof {
            assert forall|r: Requirement| a@.contains(r) <==> exists|j: int| 0 <= j < k + 1 && edge_reads(#[trigger] edges@[j], v, r) by {
                if a@.contains(r) {
                    if before.contains(r) {
                        let j = choose|j: int| 0 <= j < k && edge_reads(#[trigger] edges@[j], v, r);
                        assert(0 <= j < k + 1 && edge_reads(edges@[j], v, r));
                    } else {
                        let q = choose|q: int| 0 <= q < i && edge_reads_from(*e, #[trigger] list@[q], r);
                        assert(list@.to_set().contains(list@[q]));
                        assert(v(e.source as int).contains(list@[q]));
                        assert(edge_reads(edges@[k as int], v, r));
                    }
                }
                if exists|j: int| 0 <= j < k + 1 && edge_reads(#[trigger] edges@[j], v, r) {
                    let j = choose|j: int| 0 <= j < k + 1 && edge_reads(#[trigger] edges@[j], v, r);
                    if j == k {
                        let need = choose|need: Requirement| v(e.source as int).contains(need) && edge_reads_from(*e, need, r);
                        assert(list@.to_set().contains(need));
                        let q = choose|q: int| 0 <= q < list@.len() && list@[q] == need;
                        assert(edge_reads_from(*e, list@[q], r));
                    } else {
                        assert(before.contains(r));
                    }
                }
            }
        }
        k = k + 1;
    }
    a
}

/// Every requirement found has its port, if any, among the demands.
pub open spec fn ports_in_range(values: Seq<BTreeSet<Requirement>>, count: nat) -> bool {
    forall|id: int, r: Requirement| 0 <= id < values.len() && #[trigger] values[id]@.contains(r) ==> r.0 is None || r.0->0 < count
}

/// What one supplied requirement contributes, added to `a`.
fn read_supplied(a: &mut BTreeSet<Requirement>, ps: &BTreeSet<u32>, supplied: Requirement)
    ensures
        forall|r: Requirement| #[trigger] final(a)@.contains(r) <==> old(a)@.contains(r) || (ps@.contains(supplied.1) && supplied_reads(
            ps@,
            supplied,
            r,
        )),
{
    if ps.contains(&supplied.1) {
        match supplied.0 {
            None => add_all(a, None, ps),
            Some(_) => {
                a.insert(supplied);
            },
        }
    }
}

/// What the supplied demands need of the renamed parameters, added to `a`.
fn read_targets(a: &mut BTreeSet<Requirement>, ps: &BTreeSet<u32>, targets: &Vec<NeedId>, values: &Vec<BTreeSet<Requirement>>)
    requires
        forall|k: int| 0 <= k < targets@.len() ==> (#[trigger] targets@[k]) < values@.len(),
    ensures
        forall|r: Requirement| #[trigger] final(a)@.contains(r) <==> old(a)@.contains(r) || exists|t: NeedId, supplied: Requirement|
            #![trigger targets@.contains(t), held(values@)(t as int).contains(supplied)]
            targets@.contains(t) && held(values@)(t as int).contains(supplied) && ps@.contains(supplied.1) && supplied_reads(ps@, supplied, r),
{
    let ghost v = held(values@);
    let ghost start = a@;
    let mut j: usize = 0;
    while j < targets.len()
        invariant
            j <= targets.len(),
            v == held(values@),
            forall|k: int| 0 <= k < targets@.len() ==> (#[trigger] targets@[k]) < values@.len(),
            forall|r: Requirement| #[trigger] a@.contains(r) <==> start.contains(r) || exists|q: int, supplied: Requirement|
                #![trigger targets@[q], v(targets@[q] as int).contains(supplied)]
                0 <= q < j && v(targets@[q] as int).contains(supplied) && ps@.contains(supplied.1) && supplied_reads(ps@, supplied, r),
        decreases targets.len() - j,
    {
        let t = targets[j];
        let list = requirement_list(&values[t as usize]);
        let ghost before = a@;
        let mut i: usize = 0;
        while i < list.len()
            invariant
                i <= list.len(),
                j < targets.len(),
                t == targets@[j as int],
                list@.to_set() == values@[t as int]@,
                forall|r: Requirement| #[trigger] a@.contains(r) <==> before.contains(r) || exists|q: int|
                    0 <= q < i && ps@.contains((#[trigger] list@[q]).1) && supplied_reads(ps@, list@[q], r),
            decreases list.len() - i,
        {
            let ghost prior = a@;
            let supplied = list[i];
            read_supplied(a, ps, supplied);
            proof {
                assert forall|r: Requirement| #[trigger] a@.contains(r) <==> before.contains(r) || exists|q: int|
                    0 <= q < i + 1 && ps@.contains((#[trigger] list@[q]).1) && supplied_reads(ps@, list@[q], r) by {
                    if a@.contains(r) && !prior.contains(r) {
                        assert(ps@.contains(list@[i as int].1) && supplied_reads(ps@, list@[i as int], r));
                    }
                    if exists|q: int| 0 <= q < i + 1 && ps@.contains((#[trigger] list@[q]).1) && supplied_reads(ps@, list@[q], r) {
                        let q = choose|q: int| 0 <= q < i + 1 && ps@.contains((#[trigger] list@[q]).1) && supplied_reads(ps@, list@[q], r);
                        if q < i {
                            assert(prior.contains(r));
                        }
                    }
                }
            }
            i = i + 1;
        }
        proof {
            assert forall|r: Requirement| #[trigger] a@.contains(r) <==> start.contains(r) || exists|q: int, supplied: Requirement|
                #![trigger targets@[q], v(targets@[q] as int).contains(supplied)]
                0 <= q < j + 1 && v(targets@[q] as int).contains(supplied) && ps@.contains(supplied.1) && supplied_reads(ps@, supplied, r) by {
                if a@.contains(r) && !before.contains(r) {
                    let q = choose|q: int| 0 <= q < i && ps@.contains((#[trigger] list@[q]).1) && supplied_reads(ps@, list@[q], r);
                    assert(list@.to_set().contains(list@[q]));
                    assert(v(targets@[j as int] as int).contains(list@[q]));
                }
                if exists|q: int, supplied: Requirement| 0 <= q < j + 1 && v(targets@[q] as int).contains(supplied) && ps@.contains(supplied.1)
                    && supplied_reads(ps@, supplied, r) {
                    let (q, supplied) = choose|q: int, supplied: Requirement| 0 <= q < j + 1 && v(targets@[q] as int).contains(supplied)
                        && ps@.contains(supplied.1) && supplied_reads(ps@, supplied, r);
                    if q == j {
                        assert(list@.to_set().contains(supplied));
                        let k = choose|k: int| 0 <= k < list@.len() && list@[k] == supplied;
                        assert(ps@.contains((list@[k]).1) && supplied_reads(ps@, list@[k], r));
                    } else {
                        assert(before.contains(r));
                    }
                }
            }
        }
        j = j + 1;
    }
    proof {
        assert forall|r: Requirement| #[trigger] a@.contains(r) <==> start.contains(r) || exists|t: NeedId, supplied: Requirement|
            #![trigger targets@.contains(t), v(t as int).contains(supplied)]
            targets@.contains(t) && v(t as int).contains(supplied) && ps@.contains(supplied.1) && supplied_reads(ps@, supplied, r) by {
            if exists|q: int, supplied: Requirement| 0 <= q < j && v(targets@[q] as int).contains(supplied) && ps@.contains(supplied.1)
                && supplied_reads(ps@, supplied, r) {
                let (q, supplied) = choose|q: int, supplied: Requirement| 0 <= q < j && v(targets@[q] as int).contains(supplied)
                    && ps@.contains(supplied.1) && supplied_reads(ps@, supplied, r);
                assert(targets@.contains(targets@[q]));
            }
            if exists|t: NeedId, supplied: Requirement| targets@.contains(t) && v(t as int).contains(supplied) && ps@.contains(supplied.1)
                && supplied_reads(ps@, supplied, r) {
                let (t, supplied) = choose|t: NeedId, supplied: Requirement| targets@.contains(t) && v(t as int).contains(supplied)
                    && ps@.contains(supplied.1) && supplied_reads(ps@, supplied, r);
                let q = choose|q: int| 0 <= q < targets@.len() && targets@[q] == t;
                assert(0 <= q < j && v(targets@[q] as int).contains(supplied));
            }
        }
    }
}

impl Graph {
    /// The demands an instance supplies for requirements through `port`.
    fn supplied_targets(&self, pairs: &Vec<(NeedId, NeedId)>, Ghost(inst): Ghost<Instance>, port: Option<NeedId>) -> (targets: Vec<NeedId>)
        requires
            well_formed(self.shapes@, self.needs@),
            forall|s: NeedId, t: NeedId| pairs@.contains((s, t)) <==> inst.ports@.contains_key(s) && inst.ports@[s] == t,
            forall|s: NeedId| #[trigger] inst.ports@.contains_key(s) ==> s < self.needs.len() && inst.ports@[s] < self.needs.len(),
            port matches Some(q) ==> q < self.needs.len(),
        ensures
            forall|t: NeedId| targets@.contains(t) <==> supplies(self.needs@, inst, port, t),
            forall|k: int| 0 <= k < targets@.len() ==> (#[trigger] targets@[k]) < self.needs.len(),
    {
        let ghost needs = self.needs@;
        let mut targets: Vec<NeedId> = Vec::new();
        match port {
            None => {
                proof {
                    assert forall|t: NeedId| targets@.contains(t) <==> supplies(needs, inst, port, t) by {}
                }
            },
            Some(q) => {
                let home = self.need_root(q);
                let mut k: usize = 0;
                while k < pairs.len()
                    invariant
                        k <= pairs.len(),
                        needs == self.needs@,
                        well_formed(self.shapes@, self.needs@),
                        home == root(needs, q),
                        forall|s: NeedId, t: NeedId| pairs@.contains((s, t)) <==> inst.ports@.contains_key(s) && inst.ports@[s] == t,
                        forall|s: NeedId| #[trigger] inst.ports@.contains_key(s) ==> s < self.needs.len() && inst.ports@[s] < self.needs.len(),
                        forall|t: NeedId| targets@.contains(t) <==> exists|j: int|
                            0 <= j < k && (#[trigger] pairs@[j]).1 == t && root(needs, pairs@[j].0) == home,
                        forall|j: int| 0 <= j < targets@.len() ==> (#[trigger] targets@[j]) < self.needs.len(),
                    decreases pairs.len() - k,
                {
                    let (s, t) = pairs[k];
                    proof {
                        assert(pairs@.contains((s, t)));
                    }
                    let ghost before = targets@;
                    if self.need_root(s) == home {
                        targets.push(t);
                    }
                    proof {
                        assert forall|x: NeedId| targets@.contains(x) <==> exists|j: int|
                            0 <= j < k + 1 && (#[trigger] pairs@[j]).1 == x && root(needs, pairs@[j].0) == home by {
                            if targets@.contains(x) && !before.contains(x) {
                                let i = choose|i: int| 0 <= i < targets@.len() && targets@[i] == x;
                                assert(i == before.len());
                                assert(pairs@[k as int].1 == x);
                            }
                            if exists|j: int| 0 <= j < k + 1 && (#[trigger] pairs@[j]).1 == x && root(needs, pairs@[j].0) == home {
                                let j = choose|j: int| 0 <= j < k + 1 && (#[trigger] pairs@[j]).1 == x && root(needs, pairs@[j].0) == home;
                                if j == k {
                                    assert(targets@[targets@.len() - 1] == x);
                                } else {
                                    assert(before.contains(x));
                                    let i = choose|i: int| 0 <= i < before.len() && before[i] == x;
                                    assert(targets@[i] == x);
                                }
                            }
                        }
                    }
                    k = k + 1;
                }
                proof {
                    assert forall|t: NeedId| targets@.contains(t) <==> supplies(needs, inst, port, t) by {
                        if targets@.contains(t) {
                            let j = choose|j: int| 0 <= j < k && (#[trigger] pairs@[j]).1 == t && root(needs, pairs@[j].0) == home;
                            assert(pairs@.contains(pairs@[j]));
                            assert(inst.ports@.contains_key(pairs@[j].0));
                        }
                        if supplies(needs, inst, port, t) {
                            let s = choose|s: NeedId| inst.ports@.contains_key(s) && inst.ports@[s] == t && root(needs, s) == root(needs, q);
                            assert(pairs@.contains((s, t)));
                            let j = choose|j: int| 0 <= j < pairs@.len() && pairs@[j] == (s, t);
                            assert((pairs@[j]).1 == t && root(needs, pairs@[j].0) == home);
                        }
                    }
                }
            },
        }
        targets
    }

    /// What an instance reads from the requirements found so far.
    fn instance_part(&self, inst: &Instance, values: &Vec<BTreeSet<Requirement>>) -> (a: BTreeSet<Requirement>)
        requires
            well_formed(self.shapes@, self.needs@),
            values@.len() == self.needs.len(),
            ports_in_range(values@, self.needs.len() as nat),
            inst.source < self.needs.len(),
            forall|s: NeedId| #[trigger] inst.ports@.contains_key(s) ==> s < self.needs.len() && inst.ports@[s] < self.needs.len(),
        ensures
            forall|r: Requirement| #[trigger] a@.contains(r) <==> instance_reads(self.needs@, *inst, held(values@), r),
    {
        let ghost needs = self.needs@;
        let ghost v = held(values@);
        let list = requirement_list(&values[inst.source as usize]);
        let pairs = port_pairs(&inst.ports);
        let mut a: BTreeSet<Requirement> = BTreeSet::new();
        let mut i: usize = 0;
        while i < list.len()
            invariant
                i <= list.len(),
                needs == self.needs@,
                v == held(values@),
                well_formed(self.shapes@, self.needs@),
                values@.len() == self.needs.len(),
                ports_in_range(values@, self.needs.len() as nat),
                inst.source < self.needs.len(),
                forall|s: NeedId| #[trigger] inst.ports@.contains_key(s) ==> s < self.needs.len() && inst.ports@[s] < self.needs.len(),
                forall|s: NeedId, t: NeedId| pairs@.contains((s, t)) <==> inst.ports@.contains_key(s) && inst.ports@[s] == t,
                list@.to_set() == values@[inst.source as int]@,
                forall|r: Requirement| #[trigger] a@.contains(r) <==> exists|q: int|
                    0 <= q < i && instance_reads_from(needs, *inst, v, #[trigger] list@[q], r),
            decreases list.len() - i,
        {
            let need = list[i];
            proof {
                assert(list@.to_set().contains(need));
                assert(values@[inst.source as int]@.contains(need));
            }
            let ps = renamed(&inst.substitute, need.1);
            let targets = self.supplied_targets(&pairs, Ghost(*inst), need.0);
            let ghost prior = a@;
            if targets.len() == 0 {
                add_all(&mut a, need.0, &ps);
                proof {
                    assert(!(exists|t: NeedId| #[trigger] supplies(needs, *inst, need.0, t))) by {
                        if exists|t: NeedId| #[trigger] supplies(needs, *inst, need.0, t) {
                            let t = choose|t: NeedId| #[trigger] supplies(needs, *inst, need.0, t);
                            assert(targets@.contains(t));
                        }
                    }
                    assert forall|r: Requirement| #[trigger] a@.contains(r) <==> prior.contains(r) || instance_reads_from(needs, *inst, v, need, r) by {}
                }
            } else {
                read_targets(&mut a, &ps, &targets, values);
                proof {
                    assert(targets@.contains(targets@[0]));
                    assert(supplies(needs, *inst, need.0, targets@[0]));
                    assert forall|r: Requirement| #[trigger] a@.contains(r) <==> prior.contains(r) || instance_reads_from(needs, *inst, v, need, r) by {
                        if a@.contains(r) && !prior.contains(r) {
                            let (t, supplied) = choose|t: NeedId, supplied: Requirement|
                                targets@.contains(t) && held(values@)(t as int).contains(supplied) && ps@.contains(supplied.1) && supplied_reads(ps@, supplied, r);
                            assert(supplies(needs, *inst, need.0, t));
                            assert(v(t as int).contains(supplied));
                            assert(instance_reads_from(needs, *inst, v, need, r));
                        }
                        if instance_reads_from(needs, *inst, v, need, r) {
                            let (t, supplied) = choose|t: NeedId, supplied: Requirement|
                                supplies(needs, *inst, need.0, t) && v(t as int).contains(supplied) && renaming(inst.substitute@, need.1).contains(supplied.1)
                                    && supplied_reads(renaming(inst.substitute@, need.1), supplied, r);
                            assert(targets@.contains(t));
                            assert(held(values@)(t as int).contains(supplied));
                        }
                    }
                }
            }
            proof {
                assert forall|r: Requirement| #[trigger] a@.contains(r) <==> exists|q: int|
                    0 <= q < i + 1 && instance_reads_from(needs, *inst, v, #[trigger] list@[q], r) by {
                    if a@.contains(r) && !prior.contains(r) {
                        assert(instance_reads_from(needs, *inst, v, list@[i as int], r));
                    }
                    if a@.contains(r) && prior.contains(r) {
                        let q = choose|q: int| 0 <= q < i && instance_reads_from(needs, *inst, v, #[trigger] list@[q], r);
                        assert(0 <= q < i + 1 && instance_reads_from(needs, *inst, v, list@[q], r));
                    }
                    if exists|q: int| 0 <= q < i + 1 && instance_reads_from(needs, *inst, v, #[trigger] list@[q], r) {
                        let q = choose|q: int| 0 <= q < i + 1 && instance_reads_from(needs, *inst, v, #[trigger] list@[q], r);
                        if q < i {
                            assert(prior.contains(r));
                        }
                    }
                }
            }
            i = i + 1;
        }
        proof {
            assert forall|r: Requirement| #[trigger] a@.contains(r) <==> instance_reads(needs, *inst, v, r) by {
                if a@.contains(r) {
                    let q = choose|q: int| 0 <= q < i && instance_reads_from(needs, *inst, v, #[trigger] list@[q], r);
                    assert(list@.to_set().contains(list@[q]));
                    assert(v(inst.source as int).contains(list@[q]));
                    assert(instance_reads(needs, *inst, v, r));
                }
                if instance_reads(needs, *inst, v, r) {
                    let need = choose|need: Requirement| v(inst.source as int).contains(need) && instance_reads_from(needs, *inst, v, need, r);
                    assert(list@.to_set().contains(need));
                    let q = choose|q: int| 0 <= q < list@.len() && list@[q] == need;
                    assert(instance_reads_from(needs, *inst, v, list@[q], r));
                }
            }
        }
        a
    }
}

/// Adds every requirement of `b` to `a`.
fn add_set(a: &mut BTreeSet<Requirement>, b: &BTreeSet<Requirement>)
    ensures
        forall|r: Requirement| #[trigger] final(a)@.contains(r) <==> old(a)@.contains(r) || b@.contains(r),
{
    let items = requirement_list(b);
    let mut i: usize = 0;
    while i < items.len()
        invariant
            i <= items.len(),
            items@.to_set() == b@,
            forall|r: Requirement| #[trigger] a@.contains(r) <==> old(a)@.contains(r) || exists|k: int| 0 <= k < i && items@[k] == r,
        decreases items.len() - i,
    {
        a.insert(items[i]);
        i = i + 1;
    }
    proof {
        assert forall|r: Requirement| #[trigger] a@.contains(r) <==> old(a)@.contains(r) || b@.contains(r) by {
            if b@.contains(r) {
                assert(items@.to_set().contains(r));
            }
        }
    }
}

/// Where the equation of `id` refers, the graph has a demand.
proof fn lemma_refs_in_range(shapes: Seq<Shape>, needs: Seq<Needs>, id: int)
    requires
        well_formed(shapes, needs),
        0 <= id < needs.len(),
    ensures
        forall|k: int| 0 <= k < needs[id].edges@.len() ==> (#[trigger] needs[id].edges@[k]).source < needs.len(),
        needs[id].redirect matches Some(s) ==> s < needs.len(),
        needs[id].instance matches Some(inst) ==> inst.source < needs.len(),
        needs[id].instance matches Some(inst) ==> forall|s: NeedId| #[trigger] inst.ports@.contains_key(s) ==> s < needs.len() && inst.ports@[s] < needs.len(),
{
    let row = needs[id];
    let refs = need_refs(row);
    let e = row.edges@.map_values(|e: Edge| e.source);
    assert forall|k: int| 0 <= k < row.edges@.len() implies (#[trigger] row.edges@[k]).source < needs.len() by {
        assert(refs[k] == e[k]);
    }
    if let Some(s) = row.redirect {
        assert(refs[e.len() as int] == s);
    }
    if let Some(inst) = row.instance {
        let at = e.len() + if row.redirect is Some { 1int } else { 0int };
        assert(refs[at] == inst.source);
    }
}

impl Graph {
    /// What the equation of `id` derives from the requirements found so
    /// far.
    fn derived(&self, values: &Vec<BTreeSet<Requirement>>, id: usize) -> (a: BTreeSet<Requirement>)
        requires
            well_formed(self.shapes@, self.needs@),
            values@.len() == self.needs.len(),
            ports_in_range(values@, self.needs.len() as nat),
            id < self.needs.len(),
        ensures
            forall|r: Requirement| #[trigger] a@.contains(r) <==> derives(self.needs@, held(values@), id as int, r),
    {
        let ghost needs = self.needs@;
        let ghost v = held(values@);
        let row = &self.needs[id];
        proof {
            lemma_refs_in_range(self.shapes@, needs, id as int);
        }
        let mut a = edge_part(&row.edges, values);
        let ghost edges_read = a@;
        match row.redirect {
            Some(s) => {
                add_set(&mut a, &values[s as usize]);
            },
            None => {},
        }
        let ghost redirected = a@;
        match &row.instance {
            Some(inst) => {
                let b = self.instance_part(inst, values);
                add_set(&mut a, &b);
            },
            None => {},
        }
        proof {
            assert forall|r: Requirement| #[trigger] a@.contains(r) <==> derives(needs, v, id as int, r) by {
                if let Some(s) = row.redirect {
                    assert(v(s as int) == values@[s as int]@);
                }
            }
        }
        a
    }
}

/// The requirements of `a` join `cur`; says whether any was new.
fn absorb_into(cur: &mut BTreeSet<Requirement>, a: &BTreeSet<Requirement>, Ghost(count): Ghost<nat>) -> (grew: bool)
    requires
        old(cur)@.subset_of(universe(count)),
        a@.subset_of(universe(count)),
    ensures
        final(cur)@ == old(cur)@.union(a@),
        grew == !a@.subset_of(old(cur)@),
        grew ==> final(cur)@.len() > old(cur)@.len(),
{
    proof {
        lemma_universe_finite(count);
        vstd::set_lib::lemma_set_subset_finite(universe(count), old(cur)@);
    }
    let items = requirement_list(a);
    let mut grew = false;
    let mut i: usize = 0;
    while i < items.len()
        invariant
            i <= items.len(),
            items@.to_set() == a@,
            universe(count).finite(),
            a@.subset_of(universe(count)),
            old(cur)@.subset_of(universe(count)),
            old(cur)@.finite(),
            cur@ == old(cur)@.union(items@.take(i as int).to_set()),
            grew == !items@.take(i as int).to_set().subset_of(old(cur)@),
            grew ==> cur@.len() > old(cur)@.len(),
            cur@.subset_of(universe(count)),
        decreases items.len() - i,
    {
        let r = items[i];
        proof {
            assert(items@.to_set().contains(r));
            vstd::set_lib::lemma_set_subset_finite(universe(count), cur@);
        }
        let ghost before = cur@;
        if !cur.contains(&r) {
            cur.insert(r);
            grew = true;
            proof {
                assert(cur@.len() == before.len() + 1);
                vstd::set_lib::lemma_len_subset(old(cur)@, before);
            }
        }
        proof {
            assert(items@.take(i + 1) == items@.take(i as int) + seq![r]);
            Seq::lemma_to_set_insert_commutes(items@.take(i as int), r);
            assert(items@.take(i + 1).to_set() =~= items@.take(i as int).to_set().insert(r));
            assert(cur@ =~= old(cur)@.union(items@.take(i + 1).to_set()));
        }
        i = i + 1;
    }
    proof {
        assert(items@.take(i as int) == items@);
    }
    grew
}

/// The spare room the sets leave in the universe, summed.
pub open spec fn spare(values: Seq<BTreeSet<Requirement>>, count: nat) -> int
    decreases values.len(),
{
    if values.len() == 0 {
        0
    } else {
        spare(values.drop_last(), count) + (universe(count).len() - values.last()@.len())
    }
}

proof fn lemma_spare_update(values: Seq<BTreeSet<Requirement>>, count: nat, at: int, s: BTreeSet<Requirement>)
    requires
        0 <= at < values.len(),
    ensures
        spare(values.update(at, s), count) == spare(values, count) + values[at]@.len() - s@.len(),
    decreases values.len(),
{
    let u = values.update(at, s);
    if at < values.len() - 1 {
        assert(u.drop_last() =~= values.drop_last().update(at, s));
        lemma_spare_update(values.drop_last(), count, at, s);
    } else {
        assert(u.drop_last() =~= values.drop_last());
    }
}

proof fn lemma_spare_nonnegative(values: Seq<BTreeSet<Requirement>>, count: nat)
    requires
        forall|id: int| 0 <= id < values.len() ==> (#[trigger] values[id])@.subset_of(universe(count)),
    ensures
        spare(values, count) >= 0,
    decreases values.len(),
{
    if values.len() > 0 {
        lemma_spare_nonnegative(values.drop_last(), count);
        lemma_universe_finite(count);
        assert(values[values.len() - 1]@.subset_of(universe(count)));
        vstd::set_lib::lemma_len_subset(values.last()@, universe(count));
    }
}

/// A derived requirement's port is one the found requirements name, or
/// none.
proof fn lemma_derived_in_range(shapes: Seq<Shape>, needs: Seq<Needs>, values: Seq<BTreeSet<Requirement>>, id: int, r: Requirement)
    requires
        well_formed(shapes, needs),
        values.len() == needs.len(),
        ports_in_range(values, needs.len() as nat),
        0 <= id < needs.len(),
        derives(needs, held(values), id, r),
    ensures
        r.0 is None || r.0->0 < needs.len(),
{
    let v = held(values);
    lemma_refs_in_range(shapes, needs, id);
    if needs[id].redirect matches Some(s) && v(s as int).contains(r) {
    } else if exists|k: int| 0 <= k < needs[id].edges@.len() && edge_reads(#[trigger] needs[id].edges@[k], v, r) {
        let k = choose|k: int| 0 <= k < needs[id].edges@.len() && edge_reads(#[trigger] needs[id].edges@[k], v, r);
        let e = needs[id].edges@[k];
        let need = choose|need: Requirement| v(e.source as int).contains(need) && edge_reads_from(e, need, r);
    } else {
        let inst = needs[id].instance->0;
        let need = choose|need: Requirement| v(inst.source as int).contains(need) && instance_reads_from(needs, inst, v, need, r);
        let ps = renaming(inst.substitute@, need.1);
        if exists|t: NeedId| #[trigger] supplies(needs, inst, need.0, t) {
            let (t, supplied) = choose|t: NeedId, supplied: Requirement|
                supplies(needs, inst, need.0, t) && v(t as int).contains(supplied) && ps.contains(supplied.1) && supplied_reads(ps, supplied, r);
        }
    }
}

/// Reading more requirements derives more.
proof fn lemma_derives_monotone(shapes: Seq<Shape>, needs: Seq<Needs>, v: Demands, w: Demands, id: int, r: Requirement)
    requires
        well_formed(shapes, needs),
        0 <= id < needs.len(),
        within(needs.len(), v, w),
        derives(needs, v, id, r),
    ensures
        derives(needs, w, id, r),
{
    lemma_refs_in_range(shapes, needs, id);
    if needs[id].redirect is Some && v(needs[id].redirect->0 as int).contains(r) {
        let s = needs[id].redirect->0;
        assert(v(s as int).subset_of(w(s as int)));
    } else if exists|k: int| 0 <= k < needs[id].edges@.len() && edge_reads(#[trigger] needs[id].edges@[k], v, r) {
        let k = choose|k: int| 0 <= k < needs[id].edges@.len() && edge_reads(#[trigger] needs[id].edges@[k], v, r);
        let e = needs[id].edges@[k];
        let need = choose|need: Requirement| v(e.source as int).contains(need) && edge_reads_from(e, need, r);
        assert(v(e.source as int).subset_of(w(e.source as int)));
        assert(w(e.source as int).contains(need));
        assert(edge_reads(needs[id].edges@[k], w, r));
    } else {
        let inst = needs[id].instance->0;
        let need = choose|need: Requirement| v(inst.source as int).contains(need) && instance_reads_from(needs, inst, v, need, r);
        assert(v(inst.source as int).subset_of(w(inst.source as int)));
        assert(w(inst.source as int).contains(need));
        let ps = renaming(inst.substitute@, need.1);
        if exists|t: NeedId| #[trigger] supplies(needs, inst, need.0, t) {
            let (t, supplied) = choose|t: NeedId, supplied: Requirement|
                supplies(needs, inst, need.0, t) && v(t as int).contains(supplied) && ps.contains(supplied.1) && supplied_reads(ps, supplied, r);
            let s = choose|s: NeedId| inst.ports@.contains_key(s) && inst.ports@[s] == t && root(needs, s) == root(needs, need.0->0);
            assert(t < needs.len());
            assert(v(t as int).subset_of(w(t as int)));
            assert(w(t as int).contains(supplied));
            assert(instance_reads_from(needs, inst, w, need, r));
        }
        assert(instance_reads(needs, inst, w, r));
    }
}

impl Graph {
    /// The requirements of `id` before any equation is read.
    fn seed(&self, id: usize) -> (a: BTreeSet<Requirement>)
        requires
            well_formed(self.shapes@, self.needs@),
            id < self.needs.len(),
        ensures
            forall|r: Requirement| #[trigger] a@.contains(r) <==> seeded(self.needs@, id as int, r),
            forall|r: Requirement| #[trigger] a@.contains(r) ==> r.0 is None || r.0->0 < self.needs.len(),
    {
        let ghost needs = self.needs@;
        let mut a: BTreeSet<Requirement> = BTreeSet::new();
        add_all(&mut a, None, &self.needs[id].direct);
        let home = self.need_root(id as NeedId);
        match self.free_parameters(id as NeedId) {
            Some(ps) => {
                add_all(&mut a, Some(home), &ps);
            },
            None => {},
        }
        a
    }

    /// Solves the demand equations: for each demand, the least set of
    /// requirements that holds what it needs directly and through its port,
    /// and everything its redirect, edges and instance read.
    pub fn solve(&self) -> (values: Vec<BTreeSet<Requirement>>)
        requires
            well_formed(self.shapes@, self.needs@),
        ensures
            values@.len() == self.needs.len(),
            least_demands(self.needs@, held(values@)),
    {
        let ghost needs = self.needs@;
        let n = self.needs.len();
        let mut values: Vec<BTreeSet<Requirement>> = Vec::new();
        let mut id: usize = 0;
        while id < n
            invariant
                id <= n,
                n == self.needs.len(),
                needs == self.needs@,
                well_formed(self.shapes@, self.needs@),
                values@.len() == id,
                forall|x: int, r: Requirement| 0 <= x < id ==> (#[trigger] values@[x]@.contains(r) <==> seeded(needs, x, r)),
                forall|x: int, r: Requirement| 0 <= x < id && #[trigger] values@[x]@.contains(r) ==> r.0 is None || r.0->0 < n,
            decreases n - id,
        {
            let a = self.seed(id);
            values.push(a);
            id = id + 1;
        }
        proof {
            let v = held(values@);
            assert forall|w: Demands| #[trigger] closed(needs, w) implies within(n as nat, v, w) by {
                assert forall|x: int| 0 <= x < n implies (#[trigger] v(x)).subset_of(w(x)) by {
                    assert forall|r: Requirement| #[trigger] v(x).contains(r) implies w(x).contains(r) by {
                        assert(seeded(needs, x, r));
                    }
                }
            }
        }
        loop
            invariant
                n == self.needs.len(),
                needs == self.needs@,
                well_formed(self.shapes@, self.needs@),
                values@.len() == n,
                ports_in_range(values@, n as nat),
                forall|x: int, r: Requirement| 0 <= x < n && #[trigger] seeded(needs, x, r) ==> values@[x]@.contains(r),
                forall|w: Demands| #[trigger] closed(needs, w) ==> within(n as nat, held(values@), w),
            ensures
                forall|x: int, r: Requirement| 0 <= x < n && #[trigger] derives(needs, held(values@), x, r) ==> values@[x]@.contains(r),
            decreases spare(values@, n as nat),
        {
            proof {
                assert forall|x: int| 0 <= x < values@.len() implies (#[trigger] values@[x])@.subset_of(universe(n as nat)) by {
                    assert forall|r: Requirement| values@[x]@.contains(r) implies universe(n as nat).contains(r) by {}
                }
                lemma_spare_nonnegative(values@, n as nat);
            }
            let ghost start = values@;
            let mut changed = false;
            let mut at: usize = 0;
            while at < n
                invariant
                    at <= n,
                    n == self.needs.len(),
                    needs == self.needs@,
                    well_formed(self.shapes@, self.needs@),
                    values@.len() == n,
                    start.len() == n,
                    ports_in_range(values@, n as nat),
                    forall|x: int, r: Requirement| 0 <= x < n && #[trigger] seeded(needs, x, r) ==> values@[x]@.contains(r),
                    forall|w: Demands| #[trigger] closed(needs, w) ==> within(n as nat, held(values@), w),
                    spare(values@, n as nat) <= spare(start, n as nat),
                    changed ==> spare(values@, n as nat) < spare(start, n as nat),
                    !changed ==> held(values@) == held(start),
                    !changed ==> forall|x: int, r: Requirement| 0 <= x < at && #[trigger] derives(needs, held(values@), x, r) ==> values@[x]@.contains(r),
                decreases n - at,
            {
                let a = self.derived(&values, at);
                let mut cur = values[at].clone();
                let ghost v = held(values@);
                proof {
                    assert forall|r: Requirement| a@.contains(r) implies universe(n as nat).contains(r) by {
                        lemma_derived_in_range(self.shapes@, needs, values@, at as int, r);
                    }
                    assert forall|r: Requirement| cur@.contains(r) implies universe(n as nat).contains(r) by {}
                }
                let grew = absorb_into(&mut cur, &a, Ghost(n as nat));
                let ghost before = values@;
                proof {
                    lemma_spare_update(before, n as nat, at as int, cur);
                }
                values.set(at, cur);
                proof {
                    let u = held(values@);
                    assert(values@ == before.update(at as int, cur));
                    assert forall|w: Demands| #[trigger] closed(needs, w) implies within(n as nat, u, w) by {
                        assert(within(n as nat, v, w));
                        assert forall|x: int| 0 <= x < n implies (#[trigger] u(x)).subset_of(w(x)) by {
                            if x == at {
                                assert forall|r: Requirement| #[trigger] u(x).contains(r) implies w(x).contains(r) by {
                                    if a@.contains(r) {
                                        lemma_derives_monotone(self.shapes@, needs, v, w, x, r);
                                    } else {
                                        assert(v(x).contains(r));
                                    }
                                }
                            } else {
                                assert(u(x) == v(x));
                            }
                        }
                    }
                    assert forall|x: int, r: Requirement| 0 <= x < values@.len() && #[trigger] values@[x]@.contains(r) implies r.0 is None || r.0->0 < n by {
                        if x == at && a@.contains(r) {
                            lemma_derived_in_range(self.shapes@, needs, before, at as int, r);
                        } else {
                            assert(before[x]@.contains(r));
                        }
                    }
                    if !grew {
                        assert(cur@ =~= before[at as int]@);
                        assert(held(values@) =~= held(before));
                        assert(spare(values@, n as nat) == spare(before, n as nat));
                    } else {
                        assert(spare(values@, n as nat) < spare(before, n as nat));
                    }
                }
                if grew {
                    changed = true;
                }
                at = at + 1;
            }
            proof {
                assert forall|x: int| 0 <= x < values@.len() implies (#[trigger] values@[x])@.subset_of(universe(n as nat)) by {
                    assert forall|r: Requirement| values@[x]@.contains(r) implies universe(n as nat).contains(r) by {}
                }
                lemma_spare_nonnegative(values@, n as nat);
            }
            if !changed {
                break;
            }
        }
        proof {
            let v = held(values@);
            assert forall|x: int, r: Requirement| 0 <= x < needs.len() && (seeded(needs, x, r) || derives(needs, v, x, r)) implies #[trigger] v(x).contains(r) by {}
        }
        values
    }
}

} // verus!
