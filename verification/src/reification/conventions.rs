//! Callable evidence interfaces. Shapes follow values; requirements describe
//! invocation, independently of the computation that constructs that value.
//!
//! Requirement equations contain only finite sets of solved type parameters
//! and edges between a finite collection of demand ports. Substitution maps a
//! parameter to the free parameters of its instantiated type, never to an
//! expanding type expression.
use vstd::prelude::*;

use super::fixpoint::{lemma_mark, lemma_marked_bound, marked_count};
use std::collections::BTreeMap;
use std::collections::BTreeSet;
use vstd::std_specs::iter::IteratorSpec;

verus! {

broadcast use vstd::std_specs::btree::group_btree_axioms;

/// The members of a set, each once, in ascending order.
pub(crate) fn members(set: &BTreeSet<u32>) -> (items: Vec<u32>)
    ensures
        items@.to_set() == set@,
        items@.no_duplicates(),
{
    let mut items: Vec<u32> = Vec::new();
    for p in it: set.iter()
        invariant
            items@ == it.seq().take(it.index() as int).map_values(|r: &u32| *r),
            it.seq() == vstd::std_specs::btree::spec_btree_keys_iter(set).remaining(),
    {
        items.push(*p);
    }
    proof {
        let keys = vstd::std_specs::btree::spec_btree_keys_iter(set).remaining();
        assert(keys.unref().to_set() == set@);
        assert(items@ =~= keys.unref());
    }
    items
}


pub type ShapeId = u32;

pub type NeedId = u32;

/// The callable convention of a value, one layer of it.
#[derive(Debug, Clone)]
pub enum Shape {
    Value,
    /// An unobserved component forwards its caller's callable convention.
    Lazy,
    /// A value crossing reflection has a canonical, descriptor-free callable
    /// convention.
    Sealed,
    Parameter(u32),
    Array(ShapeId),
    Cell(ShapeId),
    /// Members by name, each name once.
    Record(Vec<(String, ShapeId)>),
    Sum(Vec<(String, ShapeId)>),
    Arrow { argument: ShapeId, result: ShapeId, needs: NeedId },
    Alias(ShapeId),
}

/// A requirement: the parameter whose evidence is needed, and the quantified
/// port its presence depends on, if any.
pub type Requirement = (Option<NeedId>, u32);

/// An equation's dependence on another demand: what it needs, its parameters
/// renamed by `substitute` and, where `retain` is given, only those kept.
#[derive(Debug)]
pub struct Edge {
    pub source: NeedId,
    pub substitute: BTreeMap<u32, BTreeSet<u32>>,
    pub retain: Option<BTreeSet<u32>>,
}

/// A use of a scheme: the scheme's demand, its parameters renamed, and its
/// ports specialized.
#[derive(Debug)]
pub struct Instance {
    pub source: NeedId,
    pub substitute: BTreeMap<u32, BTreeSet<u32>>,
    pub ports: BTreeMap<NeedId, NeedId>,
}

/// One demand equation. A quantified port represents the requirements of an
/// incoming callable; its possible slots are the parameters in `port`.
#[derive(Debug)]
pub struct Needs {
    pub variable: bool,
    pub redirect: Option<NeedId>,
    pub direct: BTreeSet<u32>,
    pub port: Option<BTreeSet<u32>>,
    pub edges: Vec<Edge>,
    pub instance: Option<Instance>,
}

/// Where an expression's value flows: its shape, and the demand its
/// evaluation has.
#[derive(Debug, Clone, Copy)]
pub struct Flow {
    pub value: ShapeId,
    pub evaluation: NeedId,
}

/// The shapes of values and the demand equations between callables.
#[derive(Debug)]
pub struct Graph {
    pub shapes: Vec<Shape>,
    pub needs: Vec<Needs>,
}

/// An equation with nothing in it.
pub open spec fn blank(n: Needs) -> bool {
    &&& !n.variable
    &&& n.redirect is None
    &&& n.direct@ == Set::<u32>::empty()
    &&& n.port is None
    &&& n.edges@.len() == 0
    &&& n.instance is None
}

/// An edge that reads its source unchanged.
pub open spec fn plain_edge(e: Edge, source: NeedId) -> bool {
    &&& e.source == source
    &&& e.substitute@ == Map::<u32, BTreeSet<u32>>::empty()
    &&& e.retain is None
}

impl Default for Needs {
    fn default() -> (n: Needs)
        ensures
            blank(n),
    {
        Needs {
            variable: false,
            redirect: None,
            direct: BTreeSet::new(),
            port: None,
            edges: Vec::new(),
            instance: None,
        }
    }
}

impl Default for Edge {
    fn default() -> (e: Edge)
        ensures
            plain_edge(e, 0),
    {
        Edge { source: 0, substitute: BTreeMap::new(), retain: None }
    }
}

impl Default for Graph {
    fn default() -> (g: Graph)
        ensures
            g.shapes@.len() == 0,
            g.needs@.len() == 0,
    {
        Graph { shapes: Vec::new(), needs: Vec::new() }
    }
}

/// The shapes a shape refers to.
pub open spec fn shape_refs(shape: Shape) -> Seq<ShapeId> {
    match shape {
        Shape::Array(e) | Shape::Cell(e) | Shape::Alias(e) => seq![e],
        Shape::Record(fields) | Shape::Sum(fields) => fields@.map_values(|f: (String, ShapeId)| f.1),
        Shape::Arrow { argument, result, .. } => seq![argument, result],
        _ => Seq::empty(),
    }
}

/// The demands an equation refers to.
pub open spec fn need_refs(n: Needs) -> Seq<NeedId> {
    n.edges@.map_values(|e: Edge| e.source) + match n.redirect {
        Some(r) => seq![r],
        None => Seq::empty(),
    } + match n.instance {
        Some(i) => seq![i.source],
        None => Seq::empty(),
    }
}

/// Every shape and demand the graph refers to is one of its own.
pub open spec fn graph_in_range(shapes: Seq<Shape>, needs: Seq<Needs>) -> bool {
    &&& forall|x: int, k: int| 0 <= x < shapes.len() && 0 <= k < shape_refs(shapes[x]).len()
        ==> #[trigger] shape_refs(shapes[x])[k] < shapes.len()
    &&& forall|x: int| 0 <= x < shapes.len() && (#[trigger] shapes[x]) is Arrow ==> shapes[x]->needs < needs.len()
    &&& forall|x: int, k: int| 0 <= x < needs.len() && 0 <= k < need_refs(needs[x]).len()
        ==> #[trigger] need_refs(needs[x])[k] < needs.len()
    &&& forall|x: int, s: NeedId| 0 <= x < needs.len() && needs[x].instance is Some
        && #[trigger] needs[x].instance->0.ports@.contains_key(s) ==> s < needs.len() && needs[x].instance->0.ports@[s] < needs.len()
}

/// Redirects lead down a ranking, so every chain of them ends.
pub open spec fn ranked(needs: Seq<Needs>, rank: spec_fn(NeedId) -> nat) -> bool {
    forall|x: int| 0 <= x < needs.len() && (#[trigger] needs[x]).redirect is Some ==> rank(
        needs[x].redirect->0,
    ) < rank(x as NeedId)
}

pub open spec fn redirects_end(needs: Seq<Needs>) -> bool {
    exists|rank: spec_fn(NeedId) -> nat| ranked(needs, rank)
}

/// A graph whose references are its own and whose redirects end.
pub open spec fn well_formed(shapes: Seq<Shape>, needs: Seq<Needs>) -> bool {
    graph_in_range(shapes, needs) && redirects_end(needs)
}

/// Where `k` redirects lead from `x`.
pub open spec fn follow(needs: Seq<Needs>, x: NeedId, k: nat) -> NeedId
    decreases k,
{
    if k == 0 {
        x
    } else {
        match needs[x as int].redirect {
            Some(next) => follow(needs, next, (k - 1) as nat),
            None => x,
        }
    }
}

/// `r` is where the redirects from `x` end.
pub open spec fn is_root_of(needs: Seq<Needs>, x: NeedId, r: NeedId) -> bool {
    &&& needs[r as int].redirect is None
    &&& exists|k: nat| follow(needs, x, k) == r
}

/// Where the redirects from `x` end.
pub open spec fn root(needs: Seq<Needs>, x: NeedId) -> NeedId {
    choose|r: NeedId| is_root_of(needs, x, r)
}

proof fn lemma_follow_add(needs: Seq<Needs>, x: NeedId, a: nat, b: nat)
    ensures
        follow(needs, x, a + b) == follow(needs, follow(needs, x, a), b),
    decreases a,
{
    if a > 0 {
        match needs[x as int].redirect {
            Some(next) => {
                lemma_follow_add(needs, next, (a - 1) as nat, b);
                assert((a + b - 1) as nat == (a - 1) as nat + b);
            },
            None => {
                lemma_follow_still(needs, x, b);
            },
        }
    }
}

proof fn lemma_follow_still(needs: Seq<Needs>, x: NeedId, k: nat)
    requires
        needs[x as int].redirect is None,
    ensures
        follow(needs, x, k) == x,
    decreases k,
{
}

/// The redirects from a node end in one place.
pub(crate) proof fn lemma_root_unique(needs: Seq<Needs>, x: NeedId, r1: NeedId, r2: NeedId)
    requires
        is_root_of(needs, x, r1),
        is_root_of(needs, x, r2),
    ensures
        r1 == r2,
{
    let k1 = choose|k: nat| follow(needs, x, k) == r1;
    let k2 = choose|k: nat| follow(needs, x, k) == r2;
    if k1 <= k2 {
        lemma_follow_add(needs, x, k1, (k2 - k1) as nat);
        lemma_follow_still(needs, r1, (k2 - k1) as nat);
    } else {
        lemma_follow_add(needs, x, k2, (k1 - k2) as nat);
        lemma_follow_still(needs, r2, (k1 - k2) as nat);
    }
}

/// The walk along aliases from `x`, `k` steps of it.
pub open spec fn alias_walk(shapes: Seq<Shape>, x: ShapeId, k: nat) -> ShapeId
    decreases k,
{
    if k == 0 {
        x
    } else {
        let y = alias_walk(shapes, x, (k - 1) as nat);
        match shapes[y as int] {
            Shape::Alias(next) => next,
            _ => y,
        }
    }
}

/// The walk stops at step `k`: no alias is there, or one seen before.
pub open spec fn walk_stops(shapes: Seq<Shape>, x: ShapeId, k: nat) -> bool {
    ||| !(shapes[alias_walk(shapes, x, k) as int] is Alias)
    ||| exists|j: nat| j < k && alias_walk(shapes, x, j) == alias_walk(shapes, x, k)
}

/// `r` is where the alias walk from `x` first stops.
pub open spec fn exposed_at(shapes: Seq<Shape>, x: ShapeId, r: ShapeId) -> bool {
    exists|k: nat|
        walk_stops(shapes, x, k) && (forall|i: nat| i < k ==> !#[trigger] walk_stops(shapes, x, i)) && alias_walk(
            shapes,
            x,
            k,
        ) == r
}

/// The shape that stands for `x` once its aliases are looked through.
pub open spec fn exposed_of(shapes: Seq<Shape>, x: ShapeId) -> ShapeId {
    choose|r: ShapeId| exposed_at(shapes, x, r)
}

proof fn lemma_exposed_unique(shapes: Seq<Shape>, x: ShapeId, r1: ShapeId, r2: ShapeId)
    requires
        exposed_at(shapes, x, r1),
        exposed_at(shapes, x, r2),
    ensures
        r1 == r2,
{
    let k1 = choose|k: nat|
        walk_stops(shapes, x, k) && (forall|i: nat| i < k ==> !#[trigger] walk_stops(shapes, x, i)) && alias_walk(shapes, x, k) == r1;
    let k2 = choose|k: nat|
        walk_stops(shapes, x, k) && (forall|i: nat| i < k ==> !#[trigger] walk_stops(shapes, x, i)) && alias_walk(shapes, x, k) == r2;
    if k1 < k2 {
        assert(!walk_stops(shapes, x, k1));
    } else if k2 < k1 {
        assert(!walk_stops(shapes, x, k2));
    }
}

/// A set with each parameter replaced by what the substitution maps it to;
/// one it does not map stays.
pub open spec fn substituted(set: Set<u32>, substitute: Map<u32, BTreeSet<u32>>) -> Set<u32> {
    Set::new(
        |q: u32|
            exists|p: u32|
                #![trigger set.contains(p)]
                set.contains(p) && if substitute.contains_key(p) {
                    substitute[p]@.contains(q)
                } else {
                    q == p
                },
    )
}

/// The parameters a port at root `r` ranges over, following at most `fuel`
/// instantiations back to the scheme that quantified it: none where the
/// chain has no port, or does not end.
pub open spec fn port_parameters(needs: Seq<Needs>, r: NeedId, fuel: nat) -> Option<Set<u32>>
    decreases fuel,
{
    if fuel == 0 {
        None
    } else {
        match needs[r as int].port {
            None => None,
            Some(ps) => match needs[r as int].instance {
                None => Some(ps@),
                Some(instance) => match port_parameters(needs, root(needs, instance.source), (fuel - 1) as nat) {
                    None => None,
                    Some(inner) => Some(substituted(inner, instance.substitute@)),
                },
            },
        }
    }
}

/// The free parameters of the port a demand stands for. A chain of
/// instantiations longer than the graph has demands goes round a cycle.
pub open spec fn free_parameters_of(needs: Seq<Needs>, x: NeedId) -> Option<Set<u32>> {
    port_parameters(needs, root(needs, x), needs.len() as nat)
}

/// The substitutions of the instances along a chain, innermost first.
pub open spec fn wrapped(needs: Seq<Needs>, chain: Seq<NeedId>, inner: Option<Set<u32>>) -> Option<Set<u32>>
    decreases chain.len(),
{
    if chain.len() == 0 {
        inner
    } else {
        match inner {
            None => None,
            Some(s) => wrapped(
                needs,
                chain.drop_last(),
                Some(substituted(s, needs[chain.last() as int].instance->0.substitute@)),
            ),
        }
    }
}

proof fn lemma_wrapped_none(needs: Seq<Needs>, chain: Seq<NeedId>)
    ensures
        wrapped(needs, chain, None) is None,
    decreases chain.len(),
{
}

/// A set replaced member by member through a substitution.
fn substitute_set(set: &BTreeSet<u32>, substitute: &BTreeMap<u32, BTreeSet<u32>>) -> (r: BTreeSet<u32>)
    ensures
        r@ == substituted(set@, substitute@),
{
    let items = members(set);
    let mut r: BTreeSet<u32> = BTreeSet::new();
    let mut i: usize = 0;
    while i < items.len()
        invariant
            i <= items.len(),
            items@.to_set() == set@,
            forall|q: u32| #[trigger] r@.contains(q) <==> exists|k: int|
                0 <= k < i && if substitute@.contains_key(items@[k]) {
                    substitute@[items@[k]]@.contains(q)
                } else {
                    q == items@[k]
                },
        decreases items.len() - i,
    {
        let p = items[i];
        match substitute.get(&p) {
            Some(image) => {
                super::construction::extend_set(&mut r, image);
            },
            None => {
                r.insert(p);
            },
        }
        proof {
            assert forall|q: u32| #[trigger] r@.contains(q) <==> exists|k: int|
                0 <= k < i + 1 && if substitute@.contains_key(items@[k]) {
                    substitute@[items@[k]]@.contains(q)
                } else {
                    q == items@[k]
                } by {
                if exists|k: int| 0 <= k < i + 1 && if substitute@.contains_key(items@[k]) {
                    substitute@[items@[k]]@.contains(q)
                } else {
                    q == items@[k]
                } {
                    let k = choose|k: int| 0 <= k < i + 1 && if substitute@.contains_key(items@[k]) {
                        substitute@[items@[k]]@.contains(q)
                    } else {
                        q == items@[k]
                    };
                    if k < i {
                        assert(exists|k2: int| 0 <= k2 < i && if substitute@.contains_key(items@[k2]) {
                            substitute@[items@[k2]]@.contains(q)
                        } else {
                            q == items@[k2]
                        });
                    }
                }
            }
        }
        i = i + 1;
    }
    proof {
        assert forall|q: u32| r@.contains(q) <==> substituted(set@, substitute@).contains(q) by {
            if r@.contains(q) {
                let k = choose|k: int| 0 <= k < items.len() && if substitute@.contains_key(items@[k]) {
                    substitute@[items@[k]]@.contains(q)
                } else {
                    q == items@[k]
                };
                assert(items@.to_set().contains(items@[k]));
            }
            if substituted(set@, substitute@).contains(q) {
                let p = choose|p: u32| set@.contains(p) && if substitute@.contains_key(p) {
                    substitute@[p]@.contains(q)
                } else {
                    q == p
                };
                assert(items@.to_set().contains(p));
                let k = choose|k: int| 0 <= k < items.len() && items@[k] == p;
            }
        }
        assert(r@ =~= substituted(set@, substitute@));
    }
    r
}


proof fn lemma_follow_step(needs: Seq<Needs>, x: NeedId, k: nat)
    ensures
        follow(needs, x, k + 1) == match needs[follow(needs, x, k) as int].redirect {
            Some(next) => next,
            None => follow(needs, x, k),
        },
{
    lemma_follow_add(needs, x, k, 1);
    let y = follow(needs, x, k);
    match needs[y as int].redirect {
        Some(next) => {
            assert(follow(needs, y, 1) == follow(needs, next, 0));
        },
        None => {},
    }
}

impl Graph {
    /// Adds a shape and names it.
    pub fn shape(&mut self, shape: Shape) -> (id: ShapeId)
        requires
            old(self).shapes.len() < u32::MAX,
        ensures
            id == old(self).shapes.len(),
            final(self).shapes@ == old(self).shapes@.push(shape),
            final(self).needs@ == old(self).needs@,
    {
        let id = self.shapes.len() as ShapeId;
        self.shapes.push(shape);
        id
    }

    /// Adds a demand equation and names it.
    pub fn need(&mut self, needs: Needs) -> (id: NeedId)
        requires
            old(self).needs.len() < u32::MAX,
        ensures
            id == old(self).needs.len(),
            final(self).needs@ == old(self).needs@.push(needs),
            final(self).shapes@ == old(self).shapes@,
    {
        let id = self.needs.len() as NeedId;
        self.needs.push(needs);
        id
    }

    /// A demand that needs what each of the sources does.
    pub fn union(&mut self, sources: Vec<NeedId>) -> (id: NeedId)
        requires
            old(self).needs.len() < u32::MAX,
        ensures
            id == old(self).needs.len(),
            final(self).shapes@ == old(self).shapes@,
            final(self).needs@.len() == old(self).needs@.len() + 1,
            forall|x: int| 0 <= x < old(self).needs@.len() ==> final(self).needs@[x] == old(self).needs@[x],
            ({
                let n = final(self).needs@[id as int];
                &&& !n.variable
                &&& n.redirect is None
                &&& n.direct@ == Set::<u32>::empty()
                &&& n.port is None
                &&& n.instance is None
                &&& n.edges@.len() == sources@.len()
                &&& forall|k: int| 0 <= k < sources@.len() ==> plain_edge(#[trigger] n.edges@[k], sources@[k])
            }),
    {
        let mut edges: Vec<Edge> = Vec::new();
        let mut k: usize = 0;
        while k < sources.len()
            invariant
                k <= sources.len(),
                edges@.len() == k,
                forall|j: int| 0 <= j < k ==> plain_edge(#[trigger] edges@[j], sources@[j]),
            decreases sources.len() - k,
        {
            edges.push(Edge { source: sources[k], substitute: BTreeMap::new(), retain: None });
            k = k + 1;
        }
        let mut needs = Needs::default();
        needs.edges = edges;
        self.need(needs)
    }

    /// A demand that needs what the source does, only the given parameters
    /// of it.
    pub fn select(&mut self, source: NeedId, parameters: BTreeSet<u32>) -> (id: NeedId)
        requires
            old(self).needs.len() < u32::MAX,
        ensures
            id == old(self).needs.len(),
            final(self).shapes@ == old(self).shapes@,
            final(self).needs@.len() == old(self).needs@.len() + 1,
            forall|x: int| 0 <= x < old(self).needs@.len() ==> final(self).needs@[x] == old(self).needs@[x],
            ({
                let n = final(self).needs@[id as int];
                &&& !n.variable
                &&& n.redirect is None
                &&& n.direct@ == Set::<u32>::empty()
                &&& n.port is None
                &&& n.instance is None
                &&& n.edges@.len() == 1
                &&& n.edges@[0].source == source
                &&& n.edges@[0].substitute@ == Map::<u32, BTreeSet<u32>>::empty()
                &&& n.edges@[0].retain == Some(parameters)
            }),
    {
        let mut edges: Vec<Edge> = Vec::new();
        edges.push(Edge { source, substitute: BTreeMap::new(), retain: Some(parameters) });
        let mut needs = Needs::default();
        needs.edges = edges;
        self.need(needs)
    }

    /// Where the redirects from a demand end.
    pub(crate) fn need_root(&self, id: NeedId) -> (r: NeedId)
        requires
            well_formed(self.shapes@, self.needs@),
            id < self.needs.len(),
        ensures
            r < self.needs.len(),
            is_root_of(self.needs@, id, r),
            r == root(self.needs@, id),
    {
        let ghost needs = self.needs@;
        let ghost rank = choose|rank: spec_fn(NeedId) -> nat| ranked(needs, rank);
        let mut at = id;
        let ghost mut k: nat = 0;
        loop
            invariant
                needs == self.needs@,
                well_formed(self.shapes@, needs),
                ranked(needs, rank),
                at < needs.len(),
                follow(needs, id, k) == at,
            decreases rank(at),
        {
            match self.needs[at as usize].redirect {
                Some(next) => {
                    proof {
                        lemma_follow_step(needs, id, k);
                        assert(need_refs(needs[at as int]).contains(next)) by {
                            let m = needs[at as int].edges@.map_values(|e: Edge| e.source);
                            assert(need_refs(needs[at as int])[m.len() as int] == next);
                        }
                        let j = choose|j: int| 0 <= j < need_refs(needs[at as int]).len() && need_refs(needs[at as int])[j] == next;
                        k = k + 1;
                    }
                    at = next;
                },
                None => {
                    proof {
                        assert(is_root_of(needs, id, at));
                        lemma_root_unique(needs, id, at, root(needs, id));
                    }
                    return at;
                },
            }
        }
    }

    /// The shape standing for a shape once its aliases are looked through.
    /// A cycle of aliases stands for itself where it closes.
    pub fn exposed_id(&self, id: ShapeId) -> (r: ShapeId)
        requires
            graph_in_range(self.shapes@, self.needs@),
            id < self.shapes.len(),
        ensures
            r < self.shapes.len(),
            exposed_at(self.shapes@, id, r),
            r == exposed_of(self.shapes@, id),
    {
        let ghost shapes = self.shapes@;
        let n = self.shapes.len();
        let mut seen: Vec<bool> = Vec::new();
        let mut z: usize = 0;
        while z < n
            invariant
                z <= n,
                seen@.len() == z,
                forall|x: int| 0 <= x < z ==> !seen@[x],
            decreases n - z,
        {
            seen.push(false);
            z = z + 1;
        }
        proof {
            super::fixpoint::lemma_zero_marks(seen@, seen@.len() as int);
            assert(seen@.take(seen@.len() as int) =~= seen@);
        }
        let mut at = id;
        let ghost mut k: nat = 0;
        loop
            invariant
                shapes == self.shapes@,
                n == shapes.len(),
                graph_in_range(shapes, self.needs@),
                seen@.len() == n,
                at < n,
                alias_walk(shapes, id, k) == at,
                forall|i: nat| i < k ==> !#[trigger] walk_stops(shapes, id, i),
                forall|j: nat| j <= k ==> #[trigger] alias_walk(shapes, id, j) < n,
                forall|j: nat| j < k ==> seen@[#[trigger] alias_walk(shapes, id, j) as int],
                forall|y: int| 0 <= y < n && #[trigger] seen@[y] ==> exists|j: nat| j < k && alias_walk(shapes, id, j) == y,
                marked_count(seen@) == k,
            decreases n - k,
        {
            proof {
                lemma_marked_bound(seen@);
            }
            match &self.shapes[at as usize] {
                Shape::Alias(next) => {
                    if seen[at as usize] {
                        proof {
                            assert(walk_stops(shapes, id, k));
                            assert(exposed_at(shapes, id, at));
                            lemma_exposed_unique(shapes, id, at, exposed_of(shapes, id));
                        }
                        return at;
                    }
                    proof {
                        lemma_mark(seen@, at as int);
                        assert(!walk_stops(shapes, id, k));
                        assert(shape_refs(shapes[at as int])[0] == *next);
                        assert(alias_walk(shapes, id, k + 1) == *next);
                    }
                    let ghost before = seen@;
                    seen.set(at as usize, true);
                    proof {
                        lemma_marked_bound(seen@);
                        assert forall|j: nat| j < k + 1 implies seen@[#[trigger] alias_walk(shapes, id, j) as int] by {
                            if j < k {
                                assert(alias_walk(shapes, id, j) < n);
                                assert(before[alias_walk(shapes, id, j) as int]);
                            }
                        }
                        assert forall|y: int| 0 <= y < n && #[trigger] seen@[y] implies exists|j: nat| j < k + 1 && alias_walk(shapes, id, j) == y by {
                            if y != at as int {
                                let j = choose|j: nat| j < k && alias_walk(shapes, id, j) == y;
                            }
                        }
                        assert forall|j: nat| j <= k + 1 implies #[trigger] alias_walk(shapes, id, j) < n by {
                            if j == k + 1 {
                                assert(alias_walk(shapes, id, j) == *next);
                            }
                        }
                        k = k + 1;
                    }
                    at = *next;
                },
                _ => {
                    proof {
                        assert(walk_stops(shapes, id, k));
                        assert(exposed_at(shapes, id, at));
                        lemma_exposed_unique(shapes, id, at, exposed_of(shapes, id));
                    }
                    return at;
                },
            }
        }
    }

    /// The shape a shape exposes once its aliases are looked through.
    pub fn exposed(&self, id: ShapeId) -> (s: &Shape)
        requires
            graph_in_range(self.shapes@, self.needs@),
            id < self.shapes.len(),
        ensures
            exposed_of(self.shapes@, id) < self.shapes.len(),
            *s == self.shapes@[exposed_of(self.shapes@, id) as int],
    {
        let at = self.exposed_id(id);
        &self.shapes[at as usize]
    }

    /// The parameters the port a demand stands for ranges over, renamed
    /// through every instantiation between it and the scheme that
    /// quantified it; none where there is no port or the chain is cyclic.
    pub(crate) fn free_parameters(&self, id: NeedId) -> (r: Option<BTreeSet<u32>>)
        requires
            well_formed(self.shapes@, self.needs@),
            id < self.needs.len(),
        ensures
            match r {
                Some(set) => free_parameters_of(self.needs@, id) == Some(set@),
                None => free_parameters_of(self.needs@, id) is None,
            },
    {
        let ghost needs = self.needs@;
        let start = self.need_root(id);
        proof {
            assert(follow(needs, start, 0) == start);
            assert(is_root_of(needs, start, start));
            lemma_root_unique(needs, start, start, root(needs, start));
        }
        let mut at = start;
        let mut chain: Vec<NeedId> = Vec::new();
        let mut fuel: usize = self.needs.len();
        loop
            invariant
                needs == self.needs@,
                well_formed(self.shapes@, needs),
                at < needs.len(),
                fuel <= needs.len(),
                needs[at as int].redirect is None,
                at == root(needs, at),
                forall|k: int| 0 <= k < chain@.len() ==> (#[trigger] chain@[k]) < needs.len() && needs[chain@[k] as int].instance is Some,
                free_parameters_of(needs, id) == wrapped(needs, chain@, port_parameters(needs, at, fuel as nat)),
            decreases fuel,
        {
            if fuel == 0 {
                proof {
                    lemma_wrapped_none(needs, chain@);
                }
                return None;
            }
            let parameters = match &self.needs[at as usize].port {
                Some(parameters) => parameters,
                None => {
                    proof {
                        lemma_wrapped_none(needs, chain@);
                    }
                    return None;
                },
            };
            match &self.needs[at as usize].instance {
                Some(instance) => {
                    proof {
                        let refs = need_refs(needs[at as int]);
                        let m = needs[at as int].edges@.map_values(|e: Edge| e.source);
                        assert(refs[refs.len() - 1] == instance.source);
                    }
                    let next = self.need_root(instance.source);
                    proof {
                        assert(is_root_of(needs, next, next)) by {
                            assert(follow(needs, next, 0) == next);
                        }
                        lemma_root_unique(needs, next, next, root(needs, next));
                        let inner = port_parameters(needs, next, (fuel - 1) as nat);
                        assert(chain@.push(at).drop_last() == chain@);
                        if inner is None {
                            lemma_wrapped_none(needs, chain@.push(at));
                            lemma_wrapped_none(needs, chain@);
                        }
                    }
                    chain.push(at);
                    at = next;
                    fuel = fuel - 1;
                },
                None => {
                    let mut result = substitute_identity(parameters);
                    let mut k = chain.len();
                    proof {
                        assert(chain@.take(k as int) == chain@);
                        assert(port_parameters(needs, at, fuel as nat) == Some(parameters@));
                    }
                    while k > 0
                        invariant
                            needs == self.needs@,
                            k <= chain@.len(),
                            forall|j: int| 0 <= j < chain@.len() ==> (#[trigger] chain@[j]) < needs.len() && needs[chain@[j] as int].instance is Some,
                            free_parameters_of(needs, id) == wrapped(needs, chain@.take(k as int), Some(result@)),
                        decreases k,
                    {
                        k = k - 1;
                        let link = chain[k];
                        let substitution = match &self.needs[link as usize].instance {
                            Some(instance) => &instance.substitute,
                            None => {
                                proof {
                                    assert(false);
                                }
                                return None;
                            },
                        };
                        proof {
                            assert(chain@.take(k + 1).drop_last() == chain@.take(k as int));
                            assert(chain@.take(k + 1).last() == link);
                        }
                        result = substitute_set(&result, substitution);
                    }
                    proof {
                        assert(chain@.take(0) == Seq::<NeedId>::empty());
                    }
                    return Some(result);
                },
            }
        }
    }
}

/// A copy of a set.
fn substitute_identity(set: &BTreeSet<u32>) -> (r: BTreeSet<u32>)
    ensures
        r@ == set@,
{
    set.clone()
}

} // verus!
