//! Portable callable interfaces. Solver equations never cross a bundle
//! boundary: the interface contains only value-shape sharing and solved,
//! quantified demand ports.
use vstd::prelude::*;

use super::conventions::{
    exposed_of, free_parameters_of, root, well_formed, Edge, Graph, NeedId, Needs, Shape, ShapeId,
};
use super::fixpoint::{lemma_mark, lemma_marked_bound, lemma_zero_marks, marked_count};
use std::collections::BTreeMap;
use std::collections::HashMap;
use std::collections::BTreeSet;
use vstd::std_specs::iter::IteratorSpec;

verus! {

broadcast use vstd::std_specs::btree::group_btree_axioms, vstd::laws_cmp::group_laws_cmp, vstd::std_specs::hash::group_hash_axioms;

/// A requirement of an exported callable: the port its presence depends
/// on, if any, and the parameter.
pub type Requirement = (Option<u32>, u32);

/// A callable interface: shapes by index, the root among them, and the
/// parameters each quantified port ranges over.
#[derive(Debug)]
pub struct Interface {
    pub root: u32,
    pub nodes: Vec<Node>,
    pub ports: Vec<BTreeSet<u32>>,
}

#[derive(Debug)]
pub enum Node {
    Value,
    Lazy,
    Sealed,
    Parameter(u32),
    Array(u32),
    Cell(u32),
    /// Members by name, each name once.
    Record(Vec<(String, u32)>),
    Sum(Vec<(String, u32)>),
    Arrow {
        argument: u32,
        result: u32,
        /// An incoming callable's own quantified requirements, if any.
        port: Option<u32>,
        requirements: BTreeSet<Requirement>,
    },
}

/// The nodes a node refers to.
pub open spec fn node_refs(node: Node) -> Seq<u32> {
    match node {
        Node::Array(e) | Node::Cell(e) => seq![e],
        Node::Record(fields) | Node::Sum(fields) => fields@.map_values(|f: (String, u32)| f.1),
        Node::Arrow { argument, result, .. } => seq![argument, result],
        _ => Seq::empty(),
    }
}

/// A parameter an interface may name: not a presence, and one of the
/// count.
pub open spec fn valid_parameter(p: u32, count: u32, presences: u32) -> bool {
    presences <= p < count
}

/// The requirements a port binds: each of its parameters, under it.
pub open spec fn port_requirements(port: u32, parameters: Set<u32>) -> Set<Requirement> {
    Set::new(|r: Requirement| r.0 == Some(port) && parameters.contains(r.1))
}

/// A node names valid parameters and ports, and an arrow's own port is
/// exactly what its requirements say.
pub open spec fn node_sound(node: Node, ports: Seq<BTreeSet<u32>>, count: u32, presences: u32) -> bool {
    match node {
        Node::Parameter(p) => valid_parameter(p, count, presences),
        Node::Arrow { port, requirements, .. } => {
            &&& (port matches Some(q) ==> q < ports.len() && requirements@ == port_requirements(q, ports[q as int]@))
            &&& forall|r: Requirement| #[trigger] requirements@.contains(r) ==> valid_parameter(r.1, count, presences)
                && (r.0 matches Some(q) ==> q < ports.len() && ports[q as int]@.contains(r.1))
        },
        _ => true,
    }
}

/// `path` leads from the root to `x` through the nodes' references.
pub open spec fn reached_by(nodes: Seq<Node>, root: u32, path: Seq<u32>, x: u32) -> bool {
    &&& path.len() > 0
    &&& path[0] == root
    &&& path.last() == x
    &&& forall|i: int| 0 <= i < path.len() - 1 ==> (#[trigger] path[i]) < nodes.len() && node_refs(nodes[path[i] as int]).contains(path[i + 1])
}

pub open spec fn reached(nodes: Seq<Node>, root: u32, x: u32) -> bool {
    exists|path: Seq<u32>| reached_by(nodes, root, path, x)
}

/// The node is an arrow whose own port is `port`.
pub open spec fn binds(node: Node, port: u32) -> bool {
    match node {
        Node::Arrow { port: Some(q), .. } => q == port,
        _ => false,
    }
}

/// Some arrow binds the port.
pub open spec fn port_bound(nodes: Seq<Node>, port: u32) -> bool {
    exists|x: int| 0 <= x < nodes.len() && binds(#[trigger] nodes[x], port)
}

/// An interface that can be imported: every reference resolves, every
/// parameter is one of the count and no presence, every node is reached
/// from the root, and every port is bound by an arrow whose requirements
/// are the port's.
pub open spec fn sound(root: u32, nodes: Seq<Node>, ports: Seq<BTreeSet<u32>>, count: u32, presences: u32) -> bool {
    &&& root < nodes.len()
    &&& forall|k: int, p: u32| 0 <= k < ports.len() && #[trigger] ports[k]@.contains(p) ==> valid_parameter(p, count, presences)
    &&& forall|x: int, k: int| 0 <= x < nodes.len() && 0 <= k < node_refs(nodes[x]).len() ==> #[trigger] node_refs(nodes[x])[k] < nodes.len()
    &&& forall|x: int| 0 <= x < nodes.len() ==> node_sound(#[trigger] nodes[x], ports, count, presences)
    &&& forall|x: u32| x < nodes.len() ==> #[trigger] reached(nodes, root, x)
    &&& forall|k: u32| k < ports.len() ==> #[trigger] port_bound(nodes, k)
}

/// Every port names valid parameters only.
pub open spec fn ports_valid(ports: Seq<BTreeSet<u32>>, count: u32, presences: u32) -> bool {
    forall|k: int, p: u32| 0 <= k < ports.len() && #[trigger] ports[k]@.contains(p) ==> valid_parameter(p, count, presences)
}

/// Every shape reached from the root exists and is sound.
pub open spec fn reach_sound(root: u32, nodes: Seq<Node>, ports: Seq<BTreeSet<u32>>, count: u32, presences: u32) -> bool {
    forall|x: u32| #[trigger] reached(nodes, root, x) ==> x < nodes.len() && node_sound(nodes[x as int], ports, count, presences)
}

/// The members of a set of requirements, each once, in ascending order.
pub(crate) fn requirement_list(set: &BTreeSet<Requirement>) -> (items: Vec<Requirement>)
    ensures
        items@.to_set() == set@,
        items@.no_duplicates(),
{
    let mut items: Vec<Requirement> = Vec::new();
    for r in it: set.iter()
        invariant
            items@ == it.seq().take(it.index() as int).map_values(|q: &Requirement| *q),
            it.seq() == vstd::std_specs::btree::spec_btree_keys_iter(set).remaining(),
    {
        items.push(*r);
    }
    proof {
        let keys = vstd::std_specs::btree::spec_btree_keys_iter(set).remaining();
        assert(keys.unref().to_set() == set@);
        assert(items@ =~= keys.unref());
    }
    items
}


/// The first problem of a node, in the order the checks are made.
fn node_problem(node: &Node, ports: &Vec<BTreeSet<u32>>, count: u32, presences: u32) -> (r: Option<&'static str>)
    ensures
        r is None <==> node_sound(*node, ports@, count, presences),
        r matches Some(e) ==> (node is Parameter && e@ == "invalid callable shape parameter"@) || (node is Arrow
            && (e@ == "invalid callable demand port"@ || e@ == "inconsistent callable demand port"@
            || e@ == "invalid callable requirement parameter"@ || e@ == "invalid callable requirement port"@)),
{
    match node {
        Node::Parameter(p) => {
            if !(*p >= presences && *p < count) {
                return Some("invalid callable shape parameter");
            }
            None
        },
        Node::Arrow { port, requirements, .. } => {
            let listed = requirement_list(requirements);
            if let Some(q) = port {
                if *q as usize >= ports.len() {
                    return Some("invalid callable demand port");
                }
                let parameters = &ports[*q as usize];
                let expected = super::conventions::members(parameters);
                let mut i: usize = 0;
                while i < listed.len()
                    invariant
                        i <= listed.len(),
                        listed@.to_set() == requirements@,
                        *node is Arrow,
                        node->port == Some(*q),
                        node->requirements == *requirements,
                        *q < ports@.len(),
                        parameters == ports@[*q as int],
                        forall|j: int| 0 <= j < i ==> port_requirements(*q, parameters@).contains(#[trigger] listed@[j]),
                    decreases listed.len() - i,
                {
                    let r = listed[i];
                    let inside = match r.0 {
                        Some(owner) => owner == *q && parameters.contains(&r.1),
                        None => false,
                    };
                    if !inside {
                        proof {
                            assert(listed@.to_set().contains(r));
                            assert(requirements@.contains(r));
                            assert(!port_requirements(*q, parameters@).contains(r));
                            assert(requirements@ != port_requirements(*q, parameters@));
                            assert(!node_sound(*node, ports@, count, presences));
                        }
                        return Some("inconsistent callable demand port");
                    }
                    i = i + 1;
                }
                let mut j: usize = 0;
                while j < expected.len()
                    invariant
                        j <= expected.len(),
                        *node is Arrow,
                        node->port == Some(*q),
                        node->requirements == *requirements,
                        *q < ports@.len(),
                        parameters == ports@[*q as int],
                        expected@.to_set() == parameters@,
                        listed@.to_set() == requirements@,
                        forall|k: int| 0 <= k < j ==> requirements@.contains((Some(*q), #[trigger] expected@[k])),
                    decreases expected.len() - j,
                {
                    if !requirements.contains(&(Some(*q), expected[j])) {
                        proof {
                            assert(expected@.to_set().contains(expected@[j as int]));
                            assert(port_requirements(*q, parameters@).contains((Some(*q), expected@[j as int])));
                            assert(requirements@ != port_requirements(*q, parameters@));
                            assert(!node_sound(*node, ports@, count, presences));
                        }
                        return Some("inconsistent callable demand port");
                    }
                    j = j + 1;
                }
                proof {
                    assert forall|r: Requirement| requirements@.contains(r) <==> port_requirements(*q, parameters@).contains(r) by {
                        if requirements@.contains(r) {
                            assert(listed@.to_set().contains(r));
                            let k = choose|k: int| 0 <= k < listed@.len() && listed@[k] == r;
                        }
                        if port_requirements(*q, parameters@).contains(r) {
                            assert(expected@.to_set().contains(r.1));
                            let k = choose|k: int| 0 <= k < expected@.len() && expected@[k] == r.1;
                        }
                    }
                    assert(requirements@ =~= port_requirements(*q, parameters@));
                }
            }
            let mut i: usize = 0;
            while i < listed.len()
                invariant
                    i <= listed.len(),
                    listed@.to_set() == requirements@,
                    *node is Arrow,
                    node->requirements == *requirements,
                    forall|j: int| 0 <= j < i ==> valid_parameter((#[trigger] listed@[j]).1, count, presences)
                        && (listed@[j].0 matches Some(q) ==> q < ports@.len() && ports@[q as int]@.contains(listed@[j].1)),
                decreases listed.len() - i,
            {
                let r = listed[i];
                proof {
                    assert(listed@.to_set().contains(r));
                    assert(requirements@.contains(r));
                }
                if !(r.1 >= presences && r.1 < count) {
                    proof {
                        assert(!node_sound(*node, ports@, count, presences));
                    }
                    return Some("invalid callable requirement parameter");
                }
                if let Some(q) = r.0 {
                    let known = (q as usize) < ports.len() && ports[q as usize].contains(&r.1);
                    if !known {
                        proof {
                            assert(!node_sound(*node, ports@, count, presences));
                        }
                        return Some("invalid callable requirement port");
                    }
                }
                i = i + 1;
            }
            proof {
                assert forall|r: Requirement| #[trigger] requirements@.contains(r) implies valid_parameter(r.1, count, presences)
                    && (r.0 matches Some(q) ==> q < ports@.len() && ports@[q as int]@.contains(r.1)) by {
                    assert(listed@.to_set().contains(r));
                    let k = choose|k: int| 0 <= k < listed@.len() && listed@[k] == r;
                }
            }
            None
        },
        _ => None,
    }
}


/// Every mark is set exactly when the count of them is the length.
proof fn lemma_all_marked(marks: Seq<bool>)
    ensures
        marked_count(marks) == marks.len() <==> forall|i: int| 0 <= i < marks.len() ==> marks[i],
    decreases marks.len(),
{
    lemma_marked_bound(marks);
    if marks.len() > 0 {
        let rest = marks.drop_last();
        lemma_all_marked(rest);
        lemma_marked_bound(rest);
        if forall|i: int| 0 <= i < marks.len() ==> marks[i] {
            assert forall|i: int| 0 <= i < rest.len() implies rest[i] by {
                assert(marks[i]);
            }
            assert(marks[marks.len() - 1]);
        }
        if marked_count(marks) == marks.len() {
            assert forall|i: int| 0 <= i < marks.len() implies marks[i] by {
                if i < rest.len() {
                    assert(rest[i]);
                }
            }
        }
    }
}

/// A path from the root runs through visited nodes when the root is
/// visited and every visited node's references are.
proof fn lemma_path_visited(nodes: Seq<Node>, root: u32, visited: Seq<bool>, path: Seq<u32>, x: u32, i: int)
    requires
        visited.len() == nodes.len(),
        root < nodes.len(),
        visited[root as int],
        forall|y: int, k: int| #![trigger visited[y], node_refs(nodes[y])[k]] 0 <= y < nodes.len() && visited[y] && 0 <= k < node_refs(nodes[y]).len()
            ==> node_refs(nodes[y])[k] < nodes.len() && visited[node_refs(nodes[y])[k] as int],
        reached_by(nodes, root, path, x),
        0 <= i < path.len(),
    ensures
        path[i] < nodes.len(),
        visited[path[i] as int],
    decreases i,
{
    if i > 0 {
        lemma_path_visited(nodes, root, visited, path, x, i - 1);
        let prev = path[i - 1];
        let refs = node_refs(nodes[prev as int]);
        assert(refs.contains(path[i]));
        let k = choose|k: int| 0 <= k < refs.len() && refs[k] == path[i];
        assert(visited[prev as int]);
    }
}

/// A path extended by a reference of its last node.
proof fn lemma_reach_ref(nodes: Seq<Node>, root: u32, x: u32, k: int)
    requires
        reached(nodes, root, x),
        x < nodes.len(),
        0 <= k < node_refs(nodes[x as int]).len(),
    ensures
        reached(nodes, root, node_refs(nodes[x as int])[k]),
{
    let path = choose|path: Seq<u32>| reached_by(nodes, root, path, x);
    let y = node_refs(nodes[x as int])[k];
    let p2 = path.push(y);
    assert forall|i: int| 0 <= i < p2.len() - 1 implies (#[trigger] p2[i]) < nodes.len() && node_refs(nodes[p2[i] as int]).contains(p2[i + 1]) by {
        if i < path.len() - 1 {
            assert(p2[i] == path[i] && p2[i + 1] == path[i + 1]);
        } else {
            assert(p2[i] == x);
        }
    }
    assert(reached_by(nodes, root, p2, y));
}

/// The search's bookkeeping while validating: what has been visited is
/// reached and sound, its references are visited or pending, and the ports
/// marked are those the visited arrows bind.
spec fn search_state(root: u32, nodes: Seq<Node>, ports: Seq<BTreeSet<u32>>, count: u32, presences: u32, visited: Seq<bool>, bound: Seq<bool>, pending: Seq<u32>) -> bool {
    &&& visited.len() == nodes.len()
    &&& bound.len() == ports.len()
    &&& root < nodes.len()
    &&& visited[root as int] || pending.contains(root)
    &&& forall|i: int| 0 <= i < pending.len() ==> #[trigger] reached(nodes, root, pending[i])
    &&& forall|y: int| 0 <= y < nodes.len() && #[trigger] visited[y] ==> reached(nodes, root, y as u32) && node_sound(nodes[y], ports, count, presences)
    &&& forall|y: int, k: int| #![trigger visited[y], node_refs(nodes[y])[k]] 0 <= y < nodes.len() && visited[y] && 0 <= k < node_refs(nodes[y]).len()
        ==> pending.contains(node_refs(nodes[y])[k]) || (node_refs(nodes[y])[k] < nodes.len() && visited[node_refs(nodes[y])[k] as int])
    &&& forall|y: int, q: u32| 0 <= y < nodes.len() && visited[y] && #[trigger] binds(nodes[y], q) ==> q < ports.len() && bound[q as int]
    &&& forall|q: int| 0 <= q < ports.len() && #[trigger] bound[q] ==> exists|y: int| 0 <= y < nodes.len() && visited[y] && binds(#[trigger] nodes[y], q as u32)
}

/// The two messages the first checks give differ from every other.
proof fn lemma_messages_differ()
    ensures
        "invalid callable interface root"@ != "invalid callable demand parameter"@,
        "invalid callable interface root"@ != "invalid callable shape reference"@,
        "invalid callable interface root"@ != "invalid callable shape parameter"@,
        "invalid callable interface root"@ != "invalid callable demand port"@,
        "invalid callable interface root"@ != "inconsistent callable demand port"@,
        "invalid callable interface root"@ != "invalid callable requirement parameter"@,
        "invalid callable interface root"@ != "invalid callable requirement port"@,
        "invalid callable interface root"@ != "unreachable callable shape"@,
        "invalid callable interface root"@ != "unbound callable demand port"@,
        "invalid callable demand parameter"@ != "invalid callable shape reference"@,
        "invalid callable demand parameter"@ != "invalid callable shape parameter"@,
        "invalid callable demand parameter"@ != "invalid callable demand port"@,
        "invalid callable demand parameter"@ != "inconsistent callable demand port"@,
        "invalid callable demand parameter"@ != "invalid callable requirement parameter"@,
        "invalid callable demand parameter"@ != "invalid callable requirement port"@,
        "invalid callable demand parameter"@ != "unreachable callable shape"@,
        "invalid callable demand parameter"@ != "unbound callable demand port"@,
{
    reveal_strlit("invalid callable interface root");
    reveal_strlit("invalid callable demand parameter");
    reveal_strlit("invalid callable shape reference");
    reveal_strlit("invalid callable shape parameter");
    reveal_strlit("invalid callable demand port");
    reveal_strlit("inconsistent callable demand port");
    reveal_strlit("invalid callable requirement parameter");
    reveal_strlit("invalid callable requirement port");
    reveal_strlit("unreachable callable shape");
    reveal_strlit("unbound callable demand port");
    assert("invalid callable demand parameter"@[2] != "inconsistent callable demand port"@[2]);
    assert("invalid callable interface root"@[17] != "invalid callable shape reference"@[17]);
    assert("invalid callable demand parameter"@[25] != "invalid callable demand port"@[25]);
    assert("invalid callable interface root"@[17] != "invalid callable shape parameter"@[17]);
    assert("invalid callable demand parameter"@[17] != "invalid callable requirement port"@[17]);
}

/// The messages the later checks give differ from one another.
proof fn lemma_late_messages_differ()
    ensures
        "unreachable callable shape"@ != "invalid callable shape reference"@,
        "unreachable callable shape"@ != "invalid callable shape parameter"@,
        "unreachable callable shape"@ != "invalid callable demand port"@,
        "unreachable callable shape"@ != "inconsistent callable demand port"@,
        "unreachable callable shape"@ != "invalid callable requirement parameter"@,
        "unreachable callable shape"@ != "invalid callable requirement port"@,
        "unreachable callable shape"@ != "unbound callable demand port"@,
        "unbound callable demand port"@ != "invalid callable shape reference"@,
        "unbound callable demand port"@ != "invalid callable shape parameter"@,
        "unbound callable demand port"@ != "invalid callable demand port"@,
        "unbound callable demand port"@ != "inconsistent callable demand port"@,
        "unbound callable demand port"@ != "invalid callable requirement parameter"@,
        "unbound callable demand port"@ != "invalid callable requirement port"@,
        "invalid callable shape reference"@ != "invalid callable shape parameter"@,
        "invalid callable shape reference"@ != "invalid callable demand port"@,
        "invalid callable shape reference"@ != "inconsistent callable demand port"@,
        "invalid callable shape reference"@ != "invalid callable requirement parameter"@,
        "invalid callable shape reference"@ != "invalid callable requirement port"@,
        "invalid callable shape parameter"@ != "invalid callable demand port"@,
        "invalid callable shape parameter"@ != "inconsistent callable demand port"@,
        "invalid callable shape parameter"@ != "invalid callable requirement parameter"@,
        "invalid callable shape parameter"@ != "invalid callable requirement port"@,
{
    reveal_strlit("invalid callable shape reference");
    reveal_strlit("invalid callable shape parameter");
    reveal_strlit("invalid callable demand port");
    reveal_strlit("inconsistent callable demand port");
    reveal_strlit("invalid callable requirement parameter");
    reveal_strlit("invalid callable requirement port");
    reveal_strlit("unreachable callable shape");
    reveal_strlit("unbound callable demand port");
    assert("unreachable callable shape"@[0] != "invalid callable shape reference"@[0]);
    assert("unreachable callable shape"@[0] != "invalid callable shape parameter"@[0]);
    assert("unreachable callable shape"@[0] != "invalid callable demand port"@[0]);
    assert("unreachable callable shape"@[0] != "inconsistent callable demand port"@[0]);
    assert("unreachable callable shape"@[0] != "invalid callable requirement parameter"@[0]);
    assert("unreachable callable shape"@[0] != "invalid callable requirement port"@[0]);
    assert("unbound callable demand port"@[0] != "invalid callable shape reference"@[0]);
    assert("unbound callable demand port"@[0] != "invalid callable shape parameter"@[0]);
    assert("unbound callable demand port"@[0] != "invalid callable demand port"@[0]);
    assert("unbound callable demand port"@[0] != "inconsistent callable demand port"@[0]);
    assert("unbound callable demand port"@[0] != "invalid callable requirement parameter"@[0]);
    assert("unbound callable demand port"@[0] != "invalid callable requirement port"@[0]);
    assert("invalid callable shape reference"@[23] != "invalid callable shape parameter"@[23]);
    assert("unreachable callable shape"@[2] != "unbound callable demand port"@[2]);
}

impl Interface {
    /// Validates references and quantified positions before an imported
    /// interface can reach evidence inference. Cycles are permitted through
    /// constructors.
    pub fn validate(&self, count: u32, presences: u32) -> (r: Result<(), String>)
        requires
            self.nodes.len() <= u32::MAX,
            self.ports.len() <= u32::MAX,
        ensures
            r is Ok <==> sound(self.root, self.nodes@, self.ports@, count, presences),
            (r matches Err(e) && e@ == "invalid callable interface root"@) <==> self.root >= self.nodes.len(),
            (r matches Err(e) && e@ == "invalid callable demand parameter"@) <==> (self.root < self.nodes.len() && exists|k: int, p: u32|
                0 <= k < self.ports.len() && #[trigger] self.ports@[k]@.contains(p) && !valid_parameter(p, count, presences)),
            r matches Err(e) ==> e@ == "invalid callable interface root"@ || e@ == "invalid callable demand parameter"@
                || e@ == "invalid callable shape reference"@ || e@ == "invalid callable shape parameter"@
                || e@ == "invalid callable demand port"@ || e@ == "inconsistent callable demand port"@
                || e@ == "invalid callable requirement parameter"@ || e@ == "invalid callable requirement port"@
                || e@ == "unreachable callable shape"@ || e@ == "unbound callable demand port"@,
            (r matches Err(e) && e@ == "unreachable callable shape"@) <==> (self.root < self.nodes.len()
                && ports_valid(self.ports@, count, presences) && reach_sound(self.root, self.nodes@, self.ports@, count, presences)
                && exists|x: u32| x < self.nodes.len() && !#[trigger] reached(self.nodes@, self.root, x)),
            (r matches Err(e) && e@ == "unbound callable demand port"@) <==> (self.root < self.nodes.len()
                && ports_valid(self.ports@, count, presences) && reach_sound(self.root, self.nodes@, self.ports@, count, presences)
                && (forall|x: u32| x < self.nodes.len() ==> #[trigger] reached(self.nodes@, self.root, x))
                && exists|k: u32| k < self.ports.len() && !#[trigger] port_bound(self.nodes@, k)),
            (r matches Err(e) && e@ == "invalid callable shape reference"@) ==> exists|x: u32|
                #[trigger] reached(self.nodes@, self.root, x) && x >= self.nodes.len(),
            (r matches Err(e) && e@ == "invalid callable shape parameter"@) ==> exists|x: u32|
                #[trigger] reached(self.nodes@, self.root, x) && x < self.nodes.len() && self.nodes@[x as int] is Parameter
                && !node_sound(self.nodes@[x as int], self.ports@, count, presences),
            (r matches Err(e) && (e@ == "invalid callable demand port"@ || e@ == "inconsistent callable demand port"@
                || e@ == "invalid callable requirement parameter"@ || e@ == "invalid callable requirement port"@)) ==> exists|x: u32|
                #[trigger] reached(self.nodes@, self.root, x) && x < self.nodes.len() && self.nodes@[x as int] is Arrow
                && !node_sound(self.nodes@[x as int], self.ports@, count, presences),
    {
        let ghost nodes = self.nodes@;
        let ghost ports = self.ports@;
        let n = self.nodes.len();
        if self.root as usize >= n {
            let e = "invalid callable interface root".to_owned();
            proof {
                lemma_messages_differ();
                lemma_late_messages_differ();
            }
            return Err(e);
        }
        let mut k: usize = 0;
        while k < self.ports.len()
            invariant
                k <= self.ports.len(),
                self.root < self.nodes.len(),
                forall|j: int, p: u32| 0 <= j < k && #[trigger] self.ports@[j]@.contains(p) ==> valid_parameter(p, count, presences),
            decreases self.ports.len() - k,
        {
            let items = super::conventions::members(&self.ports[k]);
            let mut i: usize = 0;
            while i < items.len()
                invariant
                    i <= items.len(),
                    k < self.ports.len(),
                    self.root < self.nodes.len(),
                    items@.to_set() == self.ports@[k as int]@,
                    forall|j: int| 0 <= j < i ==> valid_parameter(#[trigger] items@[j], count, presences),
                decreases items.len() - i,
            {
                let p = items[i];
                if !(p >= presences && p < count) {
                    let e = "invalid callable demand parameter".to_owned();
                    proof {
                        assert(items@.to_set().contains(p));
                        assert(self.ports@[k as int]@.contains(p));
                        lemma_messages_differ();
                lemma_late_messages_differ();
                    }
                    return Err(e);
                }
                i = i + 1;
            }
            proof {
                assert forall|j: int, p: u32| 0 <= j < k + 1 && #[trigger] self.ports@[j]@.contains(p) implies valid_parameter(p, count, presences) by {
                    if j == k {
                        assert(items@.to_set().contains(p));
                        let m = choose|m: int| 0 <= m < items@.len() && items@[m] == p;
                    }
                }
            }
            k = k + 1;
        }
        assert(!(exists|k: int, p: u32| 0 <= k < self.ports.len() && #[trigger] self.ports@[k]@.contains(p) && !valid_parameter(p, count, presences)));
        let mut visited: Vec<bool> = Vec::new();
        let mut z: usize = 0;
        while z < n
            invariant
                z <= n,
                visited@.len() == z,
                forall|x: int| 0 <= x < z ==> !visited@[x],
            decreases n - z,
        {
            visited.push(false);
            z = z + 1;
        }
        let mut bound: Vec<bool> = Vec::new();
        let mut z: usize = 0;
        while z < self.ports.len()
            invariant
                z <= self.ports.len(),
                bound@.len() == z,
                forall|x: int| 0 <= x < z ==> !bound@[x],
            decreases self.ports.len() - z,
        {
            bound.push(false);
            z = z + 1;
        }
        proof {
            lemma_zero_marks(visited@, visited@.len() as int);
            assert(visited@.take(visited@.len() as int) =~= visited@);
            lemma_zero_marks(bound@, bound@.len() as int);
            assert(bound@.take(bound@.len() as int) =~= bound@);
            let p = seq![self.root];
            assert(reached_by(nodes, self.root, p, self.root));
        }
        let mut visited_count: usize = 0;
        let mut bound_count: usize = 0;
        let mut pending: Vec<u32> = Vec::new();
        pending.push(self.root);
        while pending.len() > 0
            invariant
                nodes == self.nodes@,
                ports == self.ports@,
                n == nodes.len(),
                n <= u32::MAX,
                ports.len() <= u32::MAX,
                search_state(self.root, nodes, ports, count, presences, visited@, bound@, pending@),
                visited_count == marked_count(visited@),
                bound_count == marked_count(bound@),
                forall|j: int, p: u32| 0 <= j < ports.len() && #[trigger] ports[j]@.contains(p) ==> valid_parameter(p, count, presences),
            decreases n - visited_count, pending.len(),
        {
            proof {
                lemma_marked_bound(visited@);
                lemma_marked_bound(bound@);
            }
            let ghost before = pending@;
            let id = match pending.pop() {
                Some(id) => id,
                None => {
                    proof {
                        assert(false);
                    }
                    return Err("invalid callable shape reference".to_owned());
                },
            };
            proof {
                assert(before.last() == id);
                assert(pending@ == before.drop_last());
                assert(reached(nodes, self.root, id)) by {
                    assert(before[before.len() - 1] == id);
                }
                assert forall|y: u32| before.contains(y) implies pending@.contains(y) || y == id by {
                    let i = choose|i: int| 0 <= i < before.len() && before[i] == y;
                    if i < before.len() - 1 {
                        assert(pending@[i] == y);
                    }
                }
            }
            if id as usize >= n {
                let e = "invalid callable shape reference".to_owned();
                proof {
                    lemma_messages_differ();
                lemma_late_messages_differ();
                    let path = choose|path: Seq<u32>| reached_by(nodes, self.root, path, id);
                    if path.len() > 1 {
                        let prev = path[path.len() - 2];
                        let refs = node_refs(nodes[prev as int]);
                        assert(refs.contains(id));
                        let j = choose|j: int| 0 <= j < refs.len() && refs[j] == id;
                    }
                    assert(!sound(self.root, nodes, ports, count, presences));
                }
                return Err(e);
            }
            if visited[id as usize] {
                proof {
                    assert forall|y: int, k: int| #![trigger visited@[y], node_refs(nodes[y])[k]] 0 <= y < nodes.len() && visited@[y] && 0 <= k < node_refs(nodes[y]).len()
                        implies pending@.contains(node_refs(nodes[y])[k]) || (node_refs(nodes[y])[k] < nodes.len() && visited@[node_refs(nodes[y])[k] as int]) by {
                        let t = node_refs(nodes[y])[k];
                        if before.contains(t) && t != id {
                            assert(pending@.contains(t));
                        }
                    }
                    assert(visited@[self.root as int] || pending@.contains(self.root)) by {
                        if !visited@[self.root as int] {
                            assert(before.contains(self.root));
                        }
                    }
                    assert forall|i: int| 0 <= i < pending@.len() implies #[trigger] reached(nodes, self.root, pending@[i]) by {
                        assert(pending@[i] == before[i]);
                    }
                }
                continue;
            }
            let problem = node_problem(&self.nodes[id as usize], &self.ports, count, presences);
            if let Some(e) = problem {
                proof {
                    assert(!node_sound(nodes[id as int], ports, count, presences));
                    assert(!sound(self.root, nodes, ports, count, presences));
                    lemma_messages_differ();
                lemma_late_messages_differ();
                }
                return Err(e.to_owned());
            }
            let ghost visited_before = visited@;
            let ghost bound_before = bound@;
            let ghost pending_mid = pending@;
            proof {
                lemma_mark(visited@, id as int);
            }
            visited.set(id as usize, true);
            proof {
                lemma_marked_bound(visited@);
            }
            visited_count = visited_count + 1;
            match &self.nodes[id as usize] {
                Node::Array(element) | Node::Cell(element) => {
                    pending.push(*element);
                },
                Node::Record(fields) | Node::Sum(fields) => {
                    let mut f: usize = 0;
                    while f < fields.len()
                        invariant
                            f <= fields.len(),
                            pending@.len() == pending_mid.len() + f,
                            forall|i: int| 0 <= i < pending_mid.len() ==> pending@[i] == pending_mid[i],
                            forall|i: int| 0 <= i < f ==> pending@[pending_mid.len() + i] == (#[trigger] fields@[i]).1,
                        decreases fields.len() - f,
                    {
                        pending.push(fields[f].1);
                        f = f + 1;
                    }
                },
                Node::Arrow { argument, result, port, .. } => {
                    pending.push(*argument);
                    pending.push(*result);
                    if let Some(q) = port {
                        if !bound[*q as usize] {
                            let ghost old_bound = bound@;
                            proof {
                                lemma_mark(bound@, *q as int);
                            }
                            bound.set(*q as usize, true);
                            proof {
                                assert(bound@ == old_bound.update(*q as int, true));
                                lemma_marked_bound(bound@);
                                assert(bound_count + 1 == marked_count(bound@));
                            }
                            bound_count = bound_count + 1;
                        }
                    }
                },
                _ => {},
            }
            proof {
                let refs = node_refs(nodes[id as int]);
                assert(pending@ =~= pending_mid + refs);
                assert forall|k: int| 0 <= k < refs.len() implies pending@.contains(#[trigger] refs[k]) by {
                    assert(pending@[pending_mid.len() + k] == refs[k]);
                }
                assert forall|i: int| 0 <= i < pending_mid.len() implies pending@.contains(#[trigger] pending_mid[i]) by {
                    assert(pending@[i] == pending_mid[i]);
                }
                assert forall|i: int| 0 <= i < pending@.len() implies #[trigger] reached(nodes, self.root, pending@[i]) by {
                    if i < pending_mid.len() {
                        assert(pending@[i] == pending_mid[i]);
                        assert(pending_mid[i] == before[i]);
                    } else {
                        assert(pending@[i] == refs[i - pending_mid.len()]);
                        lemma_reach_ref(nodes, self.root, id, i - pending_mid.len());
                    }
                }
                assert forall|y: int| 0 <= y < nodes.len() && #[trigger] visited@[y] implies reached(nodes, self.root, y as u32) && node_sound(nodes[y], ports, count, presences) by {
                    if y != id as int {
                        assert(visited_before[y]);
                    }
                }
                assert forall|y: int, k: int| #![trigger visited@[y], node_refs(nodes[y])[k]] 0 <= y < nodes.len() && visited@[y] && 0 <= k < node_refs(nodes[y]).len()
                    implies pending@.contains(node_refs(nodes[y])[k]) || (node_refs(nodes[y])[k] < nodes.len() && visited@[node_refs(nodes[y])[k] as int]) by {
                    if y != id as int {
                        assert(visited_before[y]);
                        let t = node_refs(nodes[y])[k];
                        if before.contains(t) && t != id {
                            assert(pending_mid.contains(t));
                            let i = choose|i: int| 0 <= i < pending_mid.len() && pending_mid[i] == t;
                            assert(pending@.contains(pending_mid[i]));
                        }
                    } else {
                        assert(pending@.contains(refs[k]));
                    }
                }
                assert forall|y: int, q: u32| 0 <= y < nodes.len() && visited@[y] && #[trigger] binds(nodes[y], q) implies q < ports.len() && bound@[q as int] by {
                    if y != id as int {
                        assert(visited_before[y]);
                        assert(bound_before[q as int]);
                    } else {
                        assert(node_sound(nodes[y], ports, count, presences));
                    }
                }
                assert forall|q: int| 0 <= q < ports.len() && #[trigger] bound@[q] implies exists|y: int| 0 <= y < nodes.len() && visited@[y] && binds(#[trigger] nodes[y], q as u32) by {
                    if bound_before[q] {
                        let y = choose|y: int| 0 <= y < nodes.len() && visited_before[y] && binds(#[trigger] nodes[y], q as u32);
                        assert(visited@[y]);
                    } else {
                        assert(binds(nodes[id as int], q as u32));
                        assert(visited@[id as int]);
                    }
                }
                assert(visited@[self.root as int] || pending@.contains(self.root)) by {
                    if !visited@[self.root as int] {
                        assert(before.contains(self.root));
                        assert(self.root != id);
                        let i = choose|i: int| 0 <= i < before.len() && before[i] == self.root;
                        assert(pending_mid[i] == self.root);
                        assert(pending@.contains(pending_mid[i]));
                    }
                }
            }
        }
        proof {
            lemma_all_marked(visited@);
            lemma_all_marked(bound@);
            assert(visited@[self.root as int]);
            assert forall|y: int, k: int| #![trigger visited@[y], node_refs(nodes[y])[k]] 0 <= y < nodes.len() && visited@[y] && 0 <= k < node_refs(nodes[y]).len()
                implies node_refs(nodes[y])[k] < nodes.len() && visited@[node_refs(nodes[y])[k] as int] by {
                assert(!pending@.contains(node_refs(nodes[y])[k]));
            }
            assert forall|x: u32| #[trigger] reached(nodes, self.root, x) implies x < nodes.len() && visited@[x as int] by {
                let path = choose|path: Seq<u32>| reached_by(nodes, self.root, path, x);
                lemma_path_visited(nodes, self.root, visited@, path, x, path.len() - 1);
            }
            assert(reach_sound(self.root, nodes, ports, count, presences));
            lemma_messages_differ();
                lemma_late_messages_differ();
        }
        if visited_count != n {
            proof {
                let i = choose|i: int| 0 <= i < visited@.len() && !visited@[i];
                assert(!reached(nodes, self.root, i as u32));
                if sound(self.root, nodes, ports, count, presences) {
                    assert forall|x: int| 0 <= x < visited@.len() implies visited@[x] by {
                        assert(reached(nodes, self.root, x as u32));
                        assert((x as u32) < nodes.len());
                        assert(visited@[(x as u32) as int]);
                    }
                }
            }
            return Err("unreachable callable shape".to_owned());
        }
        if bound_count != self.ports.len() {
            proof {
                assert forall|x: u32| x < nodes.len() implies #[trigger] reached(nodes, self.root, x) by {
                    assert(visited@[x as int]);
                }
                let q = choose|q: int| 0 <= q < bound@.len() && !bound@[q];
                if port_bound(nodes, q as u32) {
                    let y = choose|y: int| 0 <= y < nodes.len() && binds(#[trigger] nodes[y], q as u32);
                    assert(visited@[y]);
                }
                assert(!port_bound(nodes, q as u32));
                if sound(self.root, nodes, ports, count, presences) {
                    assert forall|q: int| 0 <= q < bound@.len() implies bound@[q] by {
                        assert(port_bound(nodes, q as u32));
                        let y = choose|y: int| 0 <= y < nodes.len() && binds(#[trigger] nodes[y], q as u32);
                        assert(visited@[y]);
                    }
                }
            }
            return Err("unbound callable demand port".to_owned());
        }
        proof {
            assert forall|x: u32| x < nodes.len() implies #[trigger] reached(nodes, self.root, x) by {
                assert(visited@[x as int]);
            }
            assert forall|q: u32| q < ports.len() implies #[trigger] port_bound(nodes, q) by {
                assert(bound@[q as int]);
                let y = choose|y: int| 0 <= y < nodes.len() && visited@[y] && binds(#[trigger] nodes[y], q);
            }
            assert forall|x: int| 0 <= x < nodes.len() implies node_sound(#[trigger] nodes[x], ports, count, presences) by {
                assert(visited@[x]);
            }
            assert forall|x: int, k: int| 0 <= x < nodes.len() && 0 <= k < node_refs(nodes[x]).len() implies #[trigger] node_refs(nodes[x])[k] < nodes.len() by {
                assert(visited@[x]);
            }
        }
        Ok(())
    }
}


/// Every reference of an interface resolves: its root, its nodes'
/// references, and the ports its arrows name.
pub open spec fn resolves(root: u32, nodes: Seq<Node>, ports: Seq<BTreeSet<u32>>) -> bool {
    &&& root < nodes.len()
    &&& forall|x: int, k: int| 0 <= x < nodes.len() && 0 <= k < node_refs(nodes[x]).len() ==> #[trigger] node_refs(nodes[x])[k] < nodes.len()
    &&& forall|x: int| 0 <= x < nodes.len() && (#[trigger] nodes[x]) is Arrow ==> {
        &&& (nodes[x]->port matches Some(q) ==> q < ports.len())
        &&& forall|r: Requirement| #[trigger] nodes[x]->requirements@.contains(r) && r.0 is Some ==> r.0->0 < ports.len()
    }
}

/// The parameters the requirements name under a port, or under none.
pub open spec fn under(requirements: Set<Requirement>, port: Option<u32>) -> Set<u32> {
    Set::new(|p: u32| requirements.contains((port, p)))
}

/// The equation of an arrow that binds no port: its requirements under no
/// port directly, and for each port its requirements name, in ascending
/// order, an edge from that port's equation keeping those parameters.
pub open spec fn requirement_demand(n: Needs, requirements: Set<Requirement>, base: u32) -> bool {
    &&& !n.variable
    &&& n.redirect is None
    &&& n.port is None
    &&& n.instance is None
    &&& n.direct@ == under(requirements, None)
    &&& forall|i: int, j: int| 0 <= i < j < n.edges@.len() ==> n.edges@[i].source < n.edges@[j].source
    &&& forall|i: int| 0 <= i < n.edges@.len() ==> {
        let e = #[trigger] n.edges@[i];
        &&& e.source >= base
        &&& e.substitute@ == Map::<u32, BTreeSet<u32>>::empty()
        &&& e.retain matches Some(kept) && kept@ == under(requirements, Some((e.source - base) as u32)) && !kept@.is_empty()
    }
    &&& forall|r: Requirement| #[trigger] requirements.contains(r) && r.0 is Some ==> exists|i: int|
        0 <= i < n.edges@.len() && #[trigger] n.edges@[i].source == base + r.0->0
}

/// A port's own equation: a variable ranging over its parameters.
pub open spec fn port_demand(n: Needs, parameters: Set<u32>) -> bool {
    &&& n.variable
    &&& n.redirect is None
    &&& n.direct@ == Set::<u32>::empty()
    &&& n.port matches Some(ps) && ps@ == parameters
    &&& n.edges@.len() == 0
    &&& n.instance is None
}

/// Members carried over under their names, their shapes offset.
pub open spec fn fields_imported(a: Seq<(String, u32)>, b: Seq<(String, ShapeId)>, shapes: u32) -> bool {
    &&& b.len() == a.len()
    &&& forall|i: int| 0 <= i < a.len() ==> (#[trigger] b[i]).0@ == a[i].0@ && b[i].1 == shapes + a[i].1
}

/// The shape an interface node becomes in a graph whose shapes for the
/// interface begin at `shapes` and whose port equations begin at `base`.
pub open spec fn imported(node: Node, shape: Shape, shapes: u32, base: u32, ports: nat, needs: Seq<Needs>) -> bool {
    match (node, shape) {
        (Node::Value, Shape::Value) | (Node::Lazy, Shape::Lazy) | (Node::Sealed, Shape::Sealed) => true,
        (Node::Parameter(p), Shape::Parameter(q)) => p == q,
        (Node::Array(e), Shape::Array(f)) | (Node::Cell(e), Shape::Cell(f)) => f == shapes + e,
        (Node::Record(a), Shape::Record(b)) => fields_imported(a@, b@, shapes),
        (Node::Sum(a), Shape::Sum(b)) => fields_imported(a@, b@, shapes),
        (Node::Arrow { argument, result, port, requirements }, Shape::Arrow { argument: a, result: r, needs: m }) => {
            &&& a == shapes + argument
            &&& r == shapes + result
            &&& match port {
                Some(q) => m == base + q,
                None => base + ports <= m < needs.len() && requirement_demand(needs[m as int], requirements@, base),
            }
        },
        _ => false,
    }
}

/// The equation of an arrow that binds no port.
fn requirement_needs(requirements: &BTreeSet<Requirement>, base: u32, ports: usize) -> (n: Needs)
    requires
        base + ports <= u32::MAX,
        forall|r: Requirement| #[trigger] requirements@.contains(r) && r.0 is Some ==> r.0->0 < ports,
    ensures
        requirement_demand(n, requirements@, base),
        forall|i: int| 0 <= i < n.edges@.len() ==> (#[trigger] n.edges@[i]).source < base + ports,
{
    let listed = requirement_list(requirements);
    let mut direct: BTreeSet<u32> = BTreeSet::new();
    let mut i: usize = 0;
    while i < listed.len()
        invariant
            i <= listed.len(),
            listed@.to_set() == requirements@,
            forall|p: u32| #[trigger] direct@.contains(p) <==> exists|j: int| 0 <= j < i && listed@[j] == (None::<u32>, p),
        decreases listed.len() - i,
    {
        let r = listed[i];
        if r.0.is_none() {
            direct.insert(r.1);
        }
        proof {
            assert forall|p: u32| #[trigger] direct@.contains(p) <==> exists|j: int| 0 <= j < i + 1 && listed@[j] == (None::<u32>, p) by {
                if exists|j: int| 0 <= j < i + 1 && listed@[j] == (None::<u32>, p) {
                    let j = choose|j: int| 0 <= j < i + 1 && listed@[j] == (None::<u32>, p);
                    if j < i {
                        assert(exists|j2: int| 0 <= j2 < i && listed@[j2] == (None::<u32>, p));
                    }
                }
            }
        }
        i = i + 1;
    }
    proof {
        assert forall|p: u32| direct@.contains(p) <==> under(requirements@, None).contains(p) by {
            if under(requirements@, None).contains(p) {
                assert(listed@.to_set().contains((None::<u32>, p)));
                let j = choose|j: int| 0 <= j < listed@.len() && listed@[j] == (None::<u32>, p);
            }
            if direct@.contains(p) {
                let j = choose|j: int| 0 <= j < listed@.len() && listed@[j] == (None::<u32>, p);
                assert(listed@.to_set().contains(listed@[j]));
            }
        }
        assert(direct@ =~= under(requirements@, None));
    }
    let mut edges: Vec<Edge> = Vec::new();
    let mut q: usize = 0;
    while q < ports
        invariant
            q <= ports,
            base + ports <= u32::MAX,
            listed@.to_set() == requirements@,
            forall|i: int, j: int| 0 <= i < j < edges@.len() ==> edges@[i].source < edges@[j].source,
            forall|i: int| 0 <= i < edges@.len() ==> {
                let e = #[trigger] edges@[i];
                &&& base <= e.source < base + q
                &&& e.substitute@ == Map::<u32, BTreeSet<u32>>::empty()
                &&& e.retain matches Some(kept) && kept@ == under(requirements@, Some((e.source - base) as u32)) && !kept@.is_empty()
            },
            forall|r: Requirement| #[trigger] requirements@.contains(r) && r.0 is Some && r.0->0 < q ==> exists|i: int|
                0 <= i < edges@.len() && #[trigger] edges@[i].source == base + r.0->0,
        decreases ports - q,
    {
        let mut kept: BTreeSet<u32> = BTreeSet::new();
        let mut i: usize = 0;
        while i < listed.len()
            invariant
                i <= listed.len(),
                q < ports,
                forall|p: u32| #[trigger] kept@.contains(p) <==> exists|j: int| 0 <= j < i && listed@[j] == (Some(q as u32), p),
            decreases listed.len() - i,
        {
            let r = listed[i];
            if r.0 == Some(q as u32) {
                kept.insert(r.1);
            }
            proof {
                assert forall|p: u32| #[trigger] kept@.contains(p) <==> exists|j: int| 0 <= j < i + 1 && listed@[j] == (Some(q as u32), p) by {
                    if exists|j: int| 0 <= j < i + 1 && listed@[j] == (Some(q as u32), p) {
                        let j = choose|j: int| 0 <= j < i + 1 && listed@[j] == (Some(q as u32), p);
                        if j < i {
                            assert(exists|j2: int| 0 <= j2 < i && listed@[j2] == (Some(q as u32), p));
                        }
                    }
                }
            }
            i = i + 1;
        }
        proof {
            assert forall|p: u32| kept@.contains(p) <==> under(requirements@, Some(q as u32)).contains(p) by {
                if under(requirements@, Some(q as u32)).contains(p) {
                    assert(listed@.to_set().contains((Some(q as u32), p)));
                    let j = choose|j: int| 0 <= j < listed@.len() && listed@[j] == (Some(q as u32), p);
                }
                if kept@.contains(p) {
                    let j = choose|j: int| 0 <= j < listed@.len() && listed@[j] == (Some(q as u32), p);
                    assert(listed@.to_set().contains(listed@[j]));
                }
            }
            assert(kept@ =~= under(requirements@, Some(q as u32)));
        }
        let ghost before = edges@;
        if !kept.is_empty() {
            let ghost kept_view = kept@;
            let edge = Edge { source: base + q as u32, substitute: BTreeMap::new(), retain: Some(kept) };
            proof {
                assert(edge.source - base == q);
                assert(((edge.source - base) as u32) == q as u32);
            }
            edges.push(edge);
        }
        proof {
            assert forall|r: Requirement| #[trigger] requirements@.contains(r) && r.0 is Some && r.0->0 < q + 1 implies exists|i: int|
                0 <= i < edges@.len() && #[trigger] edges@[i].source == base + r.0->0 by {
                if r.0->0 < q {
                    let i = choose|i: int| 0 <= i < before.len() && #[trigger] before[i].source == base + r.0->0;
                    assert(edges@[i] == before[i]);
                } else {
                    assert(under(requirements@, Some(q as u32)).contains(r.1));
                    assert(edges@[before.len() as int].source == base + r.0->0);
                }
            }
        }
        q = q + 1;
    }
    Needs { variable: false, redirect: None, direct, port: None, edges, instance: None }
}


impl Interface {
    /// Adds the interface to a graph: an equation for each port, then a
    /// shape for each node, and the shape that stands for the root.
    pub fn import(&self, graph: &mut Graph) -> (root: ShapeId)
        requires
            resolves(self.root, self.nodes@, self.ports@),
            old(graph).needs.len() + self.ports.len() + self.nodes.len() <= u32::MAX,
            old(graph).shapes.len() + self.nodes.len() <= u32::MAX,
        ensures
            root == old(graph).shapes.len() + self.root,
            final(graph).shapes@.len() == old(graph).shapes@.len() + self.nodes.len(),
            final(graph).needs@.len() >= old(graph).needs@.len() + self.ports.len(),
            forall|x: int| 0 <= x < old(graph).shapes@.len() ==> final(graph).shapes@[x] == old(graph).shapes@[x],
            forall|x: int| 0 <= x < old(graph).needs@.len() ==> final(graph).needs@[x] == old(graph).needs@[x],
            forall|k: int| 0 <= k < self.ports.len() ==> port_demand(
                #[trigger] final(graph).needs@[old(graph).needs@.len() + k],
                self.ports@[k]@,
            ),
            forall|x: int| 0 <= x < self.nodes.len() ==> imported(
                #[trigger] self.nodes@[x],
                final(graph).shapes@[old(graph).shapes@.len() + x],
                old(graph).shapes@.len() as u32,
                old(graph).needs@.len() as u32,
                self.ports@.len(),
                final(graph).needs@,
            ),
    {
        let ghost old_shapes = graph.shapes@;
        let ghost old_needs = graph.needs@;
        let shapes_base = graph.shapes.len() as u32;
        let base = graph.needs.len() as u32;
        let mut k: usize = 0;
        while k < self.ports.len()
            invariant
                k <= self.ports.len(),
                base == old_needs.len(),
                graph.shapes@ == old_shapes,
                graph.needs@.len() == old_needs.len() + k,
                old_needs.len() + self.ports.len() + self.nodes.len() <= u32::MAX,
                forall|x: int| 0 <= x < old_needs.len() ==> graph.needs@[x] == old_needs[x],
                forall|j: int| 0 <= j < k ==> port_demand(#[trigger] graph.needs@[old_needs.len() + j], self.ports@[j]@),
            decreases self.ports.len() - k,
        {
            let parameters = self.ports[k].clone();
            let needs = Needs {
                variable: true,
                redirect: None,
                direct: BTreeSet::new(),
                port: Some(parameters),
                edges: Vec::new(),
                instance: None,
            };
            graph.need(needs);
            k = k + 1;
        }
        let mut x: usize = 0;
        while x < self.nodes.len()
            invariant
                x <= self.nodes.len(),
                shapes_base == old_shapes.len(),
                graph.shapes@.len() == old_shapes.len() + x,
                old_shapes.len() + self.nodes.len() <= u32::MAX,
                forall|y: int| 0 <= y < old_shapes.len() ==> graph.shapes@[y] == old_shapes[y],
                graph.needs@.len() == old_needs.len() + self.ports.len(),
                forall|y: int| 0 <= y < old_needs.len() ==> graph.needs@[y] == old_needs[y],
                forall|j: int| 0 <= j < self.ports.len() ==> port_demand(#[trigger] graph.needs@[old_needs.len() + j], self.ports@[j]@),
            decreases self.nodes.len() - x,
        {
            graph.shape(Shape::Value);
            x = x + 1;
        }
        let mut x: usize = 0;
        while x < self.nodes.len()
            invariant
                x <= self.nodes.len(),
                resolves(self.root, self.nodes@, self.ports@),
                shapes_base == old_shapes.len(),
                base == old_needs.len(),
                graph.shapes@.len() == old_shapes.len() + self.nodes.len(),
                old_shapes.len() + self.nodes.len() <= u32::MAX,
                forall|y: int| 0 <= y < old_shapes.len() ==> graph.shapes@[y] == old_shapes[y],
                graph.needs@.len() >= old_needs.len() + self.ports.len(),
                graph.needs@.len() <= old_needs.len() + self.ports.len() + x,
                old_needs.len() + self.ports.len() + self.nodes.len() <= u32::MAX,
                forall|y: int| 0 <= y < old_needs.len() ==> graph.needs@[y] == old_needs[y],
                forall|j: int| 0 <= j < self.ports.len() ==> port_demand(#[trigger] graph.needs@[old_needs.len() + j], self.ports@[j]@),
                forall|y: int| 0 <= y < x ==> imported(
                    #[trigger] self.nodes@[y],
                    graph.shapes@[old_shapes.len() + y],
                    shapes_base,
                    base,
                    self.ports@.len(),
                    graph.needs@,
                ),
            decreases self.nodes.len() - x,
        {
            let ghost needs_before = graph.needs@;
            proof {
                assert forall|k: int| 0 <= k < node_refs(self.nodes@[x as int]).len() implies #[trigger] node_refs(self.nodes@[x as int])[k] < self.nodes.len() by {}
            }
            let shape = match &self.nodes[x] {
                Node::Value => Shape::Value,
                Node::Lazy => Shape::Lazy,
                Node::Sealed => Shape::Sealed,
                Node::Parameter(p) => Shape::Parameter(*p),
                Node::Array(element) => {
                    proof {
                        assert(node_refs(self.nodes@[x as int])[0] == *element);
                    }
                    Shape::Array(shapes_base + *element)
                },
                Node::Cell(element) => {
                    proof {
                        assert(node_refs(self.nodes@[x as int])[0] == *element);
                    }
                    Shape::Cell(shapes_base + *element)
                },
                Node::Record(fields) | Node::Sum(fields) => {
                    proof {
                        assert forall|i: int| 0 <= i < fields.len() implies (#[trigger] fields@[i]).1 < self.nodes.len() by {
                            assert(node_refs(self.nodes@[x as int])[i] == fields@[i].1);
                        }
                    }
                    let mut members: Vec<(String, ShapeId)> = Vec::new();
                    let mut f: usize = 0;
                    while f < fields.len()
                        invariant
                            f <= fields.len(),
                            shapes_base + self.nodes.len() <= u32::MAX,
                            forall|i: int| 0 <= i < fields.len() ==> (#[trigger] fields@[i]).1 < self.nodes.len(),
                            members@.len() == f,
                            forall|i: int| 0 <= i < f ==> (#[trigger] members@[i]).0@ == fields@[i].0@ && members@[i].1 == shapes_base + fields@[i].1,
                        decreases fields.len() - f,
                    {
                        members.push((fields[f].0.clone(), shapes_base + fields[f].1));
                        f = f + 1;
                    }
                    match &self.nodes[x] {
                        Node::Record(_) => Shape::Record(members),
                        _ => Shape::Sum(members),
                    }
                },
                Node::Arrow { argument, result, port, requirements } => {
                    proof {
                        assert(node_refs(self.nodes@[x as int])[0] == *argument);
                        assert(node_refs(self.nodes@[x as int])[1] == *result);
                    }
                    let needs = match port {
                        Some(q) => base + *q,
                        None => {
                            let n = requirement_needs(requirements, base, self.ports.len());
                            graph.need(n)
                        },
                    };
                    Shape::Arrow { argument: shapes_base + *argument, result: shapes_base + *result, needs }
                },
            };
            let ghost shapes_before = graph.shapes@;
            let ghost shape_g = shape;
            graph.shapes.set((shapes_base + x as u32) as usize, shape);
            proof {
                assert(graph.needs@.len() >= needs_before.len());
                assert forall|m: int| 0 <= m < needs_before.len() implies graph.needs@[m] == needs_before[m] by {}
                assert forall|y: int| 0 <= y < x + 1 implies imported(
                    #[trigger] self.nodes@[y],
                    graph.shapes@[old_shapes.len() + y],
                    shapes_base,
                    base,
                    self.ports@.len(),
                    graph.needs@,
                ) by {
                    if y < x {
                        assert(graph.shapes@[old_shapes.len() + y] == shapes_before[old_shapes.len() + y]);
                        assert(imported(self.nodes@[y], shapes_before[old_shapes.len() + y], shapes_base, base, self.ports@.len(), needs_before));
                        match self.nodes@[y] {
                            Node::Arrow { port: None, requirements, .. } => {
                                let m = shapes_before[old_shapes.len() + y]->needs;
                                assert(m < needs_before.len());
                                assert(graph.needs@[m as int] == needs_before[m as int]);
                                assert(requirement_demand(graph.needs@[m as int], requirements@, base));
                            },
                            _ => {},
                        }
                    } else {
                        assert(graph.shapes@[old_shapes.len() + y] == shape_g);
                    }
                }
            }

            x = x + 1;
        }
        shapes_base + self.root
    }
}


/// Every port an arrow names, as its own or under a requirement, is one of
/// the interface's.
pub open spec fn ports_resolve(nodes: Seq<Node>, ports: nat) -> bool {
    forall|x: int| 0 <= x < nodes.len() && (#[trigger] nodes[x]) is Arrow ==> {
        &&& (nodes[x]->port matches Some(q) ==> q < ports)
        &&& forall|r: Requirement| #[trigger] nodes[x]->requirements@.contains(r) && r.0 is Some ==> r.0->0 < ports
    }
}

/// How many of the ports below `q` an arrow binds: the number a bound port
/// is given once the unbound ones are dropped.
pub open spec fn bound_below(nodes: Seq<Node>, q: nat) -> nat
    decreases q,
{
    if q == 0 {
        0
    } else {
        bound_below(nodes, (q - 1) as nat) + if port_bound(nodes, (q - 1) as u32) {
            1nat
        } else {
            0nat
        }
    }
}

/// The number a port keeps: its rank among the bound ones, or none.
pub open spec fn renumbered(nodes: Seq<Node>, q: u32) -> Option<u32> {
    if port_bound(nodes, q) {
        Some(bound_below(nodes, q as nat) as u32)
    } else {
        None
    }
}

/// A node with its ports renumbered: an arrow keeps its own port under
/// the new number, and a requirement under a port no arrow binds is
/// published under none.
pub open spec fn renumbered_node(before: Node, after: Node, nodes: Seq<Node>) -> bool {
    match before {
        Node::Arrow { argument, result, port, requirements } => after matches Node::Arrow {
            argument: a,
            result: r,
            port: p,
            requirements: rs,
        } && a == argument && r == result && p == (match port {
            Some(q) => renumbered(nodes, q),
            None => None,
        }) && rs@ == requirements@.map(
            |need: Requirement|
                (
                    match need.0 {
                        Some(q) => renumbered(nodes, q),
                        None => None,
                    },
                    need.1,
                ),
        ),
        _ => after == before,
    }
}

proof fn lemma_bound_below_step(nodes: Seq<Node>, q: nat)
    ensures
        bound_below(nodes, q + 1) == bound_below(nodes, q) + if port_bound(nodes, q as u32) { 1nat } else { 0nat },
{
}

proof fn lemma_bound_below_monotone(nodes: Seq<Node>, a: nat, b: nat)
    requires
        a <= b,
    ensures
        bound_below(nodes, a) <= bound_below(nodes, b),
    decreases b - a,
{
    if a < b {
        lemma_bound_below_monotone(nodes, a, (b - 1) as nat);
    }
}

/// A requirement with its port renumbered.
pub open spec fn renumber_with(numbers: Seq<Option<u32>>, need: Requirement) -> Requirement {
    (
        match need.0 {
            Some(q) => numbers[q as int],
            None => None,
        },
        need.1,
    )
}

/// The requirements with their ports renumbered.
fn renumber_requirements(requirements: &BTreeSet<Requirement>, numbers: &Vec<Option<u32>>) -> (r: BTreeSet<Requirement>)
    requires
        forall|need: Requirement| #[trigger] requirements@.contains(need) && need.0 is Some ==> need.0->0 < numbers.len(),
    ensures
        r@ == requirements@.map(|need: Requirement| renumber_with(numbers@, need)),
{
    let listed = requirement_list(requirements);
    let mut r: BTreeSet<Requirement> = BTreeSet::new();
    let mut i: usize = 0;
    while i < listed.len()
        invariant
            i <= listed.len(),
            listed@.to_set() == requirements@,
            forall|need: Requirement| #[trigger] requirements@.contains(need) && need.0 is Some ==> need.0->0 < numbers.len(),
            forall|x: Requirement| #[trigger] r@.contains(x) <==> exists|j: int| 0 <= j < i && renumber_with(numbers@, listed@[j]) == x,
        decreases listed.len() - i,
    {
        let need = listed[i];
        proof {
            assert(listed@.to_set().contains(need));
        }
        let port = match need.0 {
            Some(q) => numbers[q as usize],
            None => None,
        };
        r.insert((port, need.1));
        proof {
            assert(renumber_with(numbers@, need) == (port, need.1));
            assert forall|x: Requirement| #[trigger] r@.contains(x) <==> exists|j: int| 0 <= j < i + 1 && renumber_with(numbers@, listed@[j]) == x by {
                if exists|j: int| 0 <= j < i + 1 && renumber_with(numbers@, listed@[j]) == x {
                    let j = choose|j: int| 0 <= j < i + 1 && renumber_with(numbers@, listed@[j]) == x;
                    if j < i {
                        assert(exists|j2: int| 0 <= j2 < i && renumber_with(numbers@, listed@[j2]) == x);
                    }
                }
            }
        }
        i = i + 1;
    }
    proof {
        let f = |need: Requirement| renumber_with(numbers@, need);
        assert forall|x: Requirement| r@.contains(x) <==> requirements@.map(f).contains(x) by {
            if r@.contains(x) {
                let j = choose|j: int| 0 <= j < listed@.len() && renumber_with(numbers@, listed@[j]) == x;
                assert(listed@.to_set().contains(listed@[j]));
                assert(requirements@.contains(listed@[j]));
                assert(f(listed@[j]) == x);
            }
            if requirements@.map(f).contains(x) {
                let need = choose|need: Requirement| requirements@.contains(need) && f(need) == x;
                assert(listed@.to_set().contains(need));
                let j = choose|j: int| 0 <= j < listed@.len() && listed@[j] == need;
            }
        }
        assert(r@ =~= requirements@.map(f));
    }
    r
}

impl Interface {
    /// Only an incoming callable's own port can be communicated across the
    /// bundle boundary. A requirement qualified by any other port still
    /// reserves an evidence slot in the exporter's lowering, so it is
    /// published unconditionally, and only the ports an arrow binds are
    /// kept, renumbered in order.
    fn normalize(&mut self)
        requires
            ports_resolve(old(self).nodes@, old(self).ports@.len()),
            old(self).ports@.len() <= u32::MAX,
        ensures
            final(self).root == old(self).root,
            final(self).nodes@.len() == old(self).nodes@.len(),
            forall|x: int| 0 <= x < old(self).nodes@.len() ==> renumbered_node(
                #[trigger] old(self).nodes@[x],
                final(self).nodes@[x],
                old(self).nodes@,
            ),
            final(self).ports@.len() == bound_below(old(self).nodes@, old(self).ports@.len() as nat),
            forall|q: u32| q < old(self).ports@.len() && #[trigger] port_bound(old(self).nodes@, q) ==> final(self).ports@[bound_below(
                old(self).nodes@,
                q as nat,
            ) as int]@ == old(self).ports@[q as int]@,
    {
        let ghost nodes = self.nodes@;
        let count = self.ports.len();
        let mut bound: Vec<bool> = Vec::new();
        let mut q: usize = 0;
        while q < count
            invariant
                q <= count,
                bound@.len() == q,
                forall|k: int| 0 <= k < q ==> !bound@[k],
            decreases count - q,
        {
            bound.push(false);
            q = q + 1;
        }
        let mut x: usize = 0;
        while x < self.nodes.len()
            invariant
                x <= self.nodes.len(),
                nodes == self.nodes@,
                count == self.ports@.len(),
                ports_resolve(nodes, count as nat),
                bound@.len() == count,
                forall|k: u32| k < count ==> (bound@[k as int] <==> exists|y: int| 0 <= y < x && binds(#[trigger] nodes[y], k)),
            decreases self.nodes.len() - x,
        {
            if let Node::Arrow { port: Some(q), .. } = &self.nodes[x] {
                bound.set(*q as usize, true);
            }
            proof {
                assert forall|k: u32| k < count implies (bound@[k as int] <==> exists|y: int| 0 <= y < x + 1 && binds(#[trigger] nodes[y], k)) by {
                    if exists|y: int| 0 <= y < x + 1 && binds(#[trigger] nodes[y], k) {
                        let y = choose|y: int| 0 <= y < x + 1 && binds(#[trigger] nodes[y], k);
                        if y < x {
                            assert(exists|y2: int| 0 <= y2 < x && binds(#[trigger] nodes[y2], k));
                        }
                    }
                }
            }
            x = x + 1;
        }
        let mut numbers: Vec<Option<u32>> = Vec::new();
        let mut kept: Vec<BTreeSet<u32>> = Vec::new();
        let mut q: usize = 0;
        while q < count
            invariant
                q <= count,
                count <= u32::MAX,
                nodes == self.nodes@,
                count == self.ports@.len(),
                bound@.len() == count,
                forall|k: u32| k < count ==> (bound@[k as int] <==> #[trigger] port_bound(nodes, k)),
                numbers@.len() == q,
                kept@.len() == bound_below(nodes, q as nat),
                forall|k: u32| k < q ==> numbers@[k as int] == #[trigger] renumbered(nodes, k),
                forall|k: u32| k < q && #[trigger] port_bound(nodes, k) ==> kept@[bound_below(nodes, k as nat) as int]@ == self.ports@[k as int]@,
            decreases count - q,
        {
            proof {
                lemma_bound_below_step(nodes, q as nat);
                lemma_bound_below_monotone(nodes, q as nat, count as nat);
                lemma_bound_below_monotone(nodes, (q + 1) as nat, count as nat);
                assert(bound_below(nodes, count as nat) <= count) by {
                    lemma_bound_below_at_most(nodes, count as nat);
                }
            }
            if bound[q] {
                numbers.push(Some(kept.len() as u32));
                kept.push(self.ports[q].clone());
            } else {
                numbers.push(None);
            }
            proof {
                assert forall|k: u32| k < q + 1 && #[trigger] port_bound(nodes, k) implies kept@[bound_below(nodes, k as nat) as int]@ == self.ports@[k as int]@ by {
                    if k < q {
                        lemma_bound_below_monotone(nodes, (k + 1) as nat, q as nat);
                        lemma_bound_below_step(nodes, k as nat);
                    }
                }
            }
            q = q + 1;
        }
        let ghost root = self.root;
        let mut x: usize = 0;
        while x < self.nodes.len()
            invariant
                x <= self.nodes.len(),
                self.root == root,
                nodes.len() == self.nodes@.len(),
                ports_resolve(nodes, count as nat),
                count == numbers@.len(),
                forall|k: u32| k < count ==> numbers@[k as int] == #[trigger] renumbered(nodes, k),
                forall|y: int| 0 <= y < x ==> renumbered_node(#[trigger] nodes[y], self.nodes@[y], nodes),
                forall|y: int| x <= y < nodes.len() ==> #[trigger] self.nodes@[y] == nodes[y],
            decreases self.nodes.len() - x,
        {
            let replaced = match &self.nodes[x] {
                Node::Arrow { argument, result, port, requirements } => {
                    let own = match port {
                        Some(q) => numbers[*q as usize],
                        None => None,
                    };
                    let renamed = renumber_requirements(requirements, &numbers);
                    proof {
                        let f1 = |need: Requirement| renumber_with(numbers@, need);
                        let f2 = |need: Requirement| (match need.0 { Some(q) => renumbered(nodes, q), None => None }, need.1);
                        assert forall|need: Requirement| requirements@.contains(need) implies f1(need) == f2(need) by {
                            if need.0 is Some {
                                assert(nodes[x as int] is Arrow);
                            }
                        }
                        assert(requirements@.map(f1) =~= requirements@.map(f2)) by {
                            assert forall|y: Requirement| requirements@.map(f1).contains(y) <==> requirements@.map(f2).contains(y) by {
                                if requirements@.map(f1).contains(y) {
                                    let need = choose|need: Requirement| requirements@.contains(need) && f1(need) == y;
                                    assert(f2(need) == y);
                                }
                                if requirements@.map(f2).contains(y) {
                                    let need = choose|need: Requirement| requirements@.contains(need) && f2(need) == y;
                                    assert(f1(need) == y);
                                }
                            }
                        }
                    }
                    Some(Node::Arrow { argument: *argument, result: *result, port: own, requirements: renamed })
                },
                _ => None,
            };
            if let Some(node) = replaced {
                self.nodes.set(x, node);
            }
            x = x + 1;
        }
        self.ports = kept;
    }
}

proof fn lemma_bound_below_at_most(nodes: Seq<Node>, q: nat)
    ensures
        bound_below(nodes, q) <= q,
    decreases q,
{
    if q > 0 {
        lemma_bound_below_at_most(nodes, (q - 1) as nat);
    }
}


/// The parameters of a set that the exported numbering names, renamed.
pub open spec fn mapped(set: Set<u32>, parameters: Map<u32, u32>) -> Set<u32> {
    Set::new(|q: u32| exists|p: u32| #![trigger set.contains(p)] set.contains(p) && parameters.contains_key(p) && parameters[p] == q)
}

/// What an exported port ranges over: the free parameters of the demand
/// it stands for, renamed, or nothing.
pub open spec fn port_content(needs: Seq<Needs>, parameters: Map<u32, u32>, r: NeedId) -> Set<u32> {
    match free_parameters_of(needs, r) {
        Some(set) => mapped(set, parameters),
        None => Set::empty(),
    }
}

/// A solved row that says exactly that the port `s` is needed, each of
/// its free parameters.
pub open spec fn solved_by_port(row: Set<super::conventions::Requirement>, needs: Seq<Needs>, s: NeedId) -> bool {
    &&& exists|x: super::conventions::Requirement| row.contains(x)
    &&& free_parameters_of(needs, s) matches Some(fp) && row == Set::new(
        |x: super::conventions::Requirement| x.0 == Some(s) && fp.contains(x.1),
    )
}

/// The demand an arrow's own port stands for: its equation's, where that
/// is an incoming callable's port, or the port its solution names, where
/// supplying an instantiated callable left an identity equation.
pub open spec fn own_port(needs: Seq<Needs>, solved: Seq<BTreeSet<super::conventions::Requirement>>, m: NeedId) -> Option<NeedId> {
    if free_parameters_of(needs, m) is Some {
        Some(m)
    } else if !needs[root(needs, m) as int].variable {
        None
    } else if exists|s: NeedId| s < needs.len() && solved_by_port(solved[m as int]@, needs, s) {
        Some(choose|s: NeedId| s < needs.len() && solved_by_port(solved[m as int]@, needs, s))
    } else {
        None
    }
}

/// The number of the exported port standing for demand `r`, if one does.
pub open spec fn port_number(origins: Seq<NeedId>, r: NeedId) -> Option<u32> {
    if exists|k: int| 0 <= k < origins.len() && origins[k] == r {
        Some((choose|k: int| 0 <= k < origins.len() && origins[k] == r) as u32)
    } else {
        None
    }
}

/// The requirements an arrow publishes: each solved one whose parameter
/// the numbering names, renamed, under the exported port of its own port.
pub open spec fn exported_requirements(
    row: Set<super::conventions::Requirement>,
    parameters: Map<u32, u32>,
    needs: Seq<Needs>,
    origins: Seq<NeedId>,
) -> Set<Requirement> {
    Set::new(
        |x: Requirement|
            exists|need: super::conventions::Requirement|
                #![trigger row.contains(need)]
                row.contains(need) && parameters.contains_key(need.1) && x == (
                    match need.0 {
                        Some(q) => port_number(origins, root(needs, q)),
                        None => None,
                    },
                    parameters[need.1],
                ),
    )
}

/// An exported node copies the exposed shape it stands for, its children
/// the exported nodes of theirs.
pub open spec fn exported_node(
    node: Node,
    shape: Shape,
    shapes: Seq<Shape>,
    needs: Seq<Needs>,
    parameters: Map<u32, u32>,
    solved: Seq<BTreeSet<super::conventions::Requirement>>,
    nodes: Seq<ShapeId>,
    origins: Seq<NeedId>,
) -> bool {
    match shape {
        Shape::Value | Shape::Alias(_) => node is Value,
        Shape::Lazy => node is Lazy,
        Shape::Sealed => node is Sealed,
        Shape::Parameter(index) => if parameters.contains_key(index) {
            node == Node::Parameter(parameters[index])
        } else {
            node is Value
        },
        Shape::Array(e) => node matches Node::Array(j) && j < nodes.len() && nodes[j as int] == exposed_of(shapes, e),
        Shape::Cell(e) => node matches Node::Cell(j) && j < nodes.len() && nodes[j as int] == exposed_of(shapes, e),
        Shape::Record(fields) => node matches Node::Record(members) && members_exported(fields@, members@, shapes, nodes),
        Shape::Sum(fields) => node matches Node::Sum(members) && members_exported(fields@, members@, shapes, nodes),
        Shape::Arrow { argument, result, needs: m } => node matches Node::Arrow { argument: a, result: b, port, requirements } && {
            &&& a < nodes.len() && nodes[a as int] == exposed_of(shapes, argument)
            &&& b < nodes.len() && nodes[b as int] == exposed_of(shapes, result)
            &&& port == match own_port(needs, solved, m) {
                Some(s) => port_number(origins, root(needs, s)),
                None => None,
            }
            &&& requirements@ == exported_requirements(solved[m as int]@, parameters, needs, origins)
        },
    }
}

/// Members carried over under their names, each to the exported node of
/// its exposed shape.
pub open spec fn members_exported(fields: Seq<(String, ShapeId)>, members: Seq<(String, u32)>, shapes: Seq<Shape>, nodes: Seq<ShapeId>) -> bool {
    &&& members.len() == fields.len()
    &&& forall|i: int| 0 <= i < fields.len() ==> (#[trigger] members[i]).0@ == fields[i].0@ && members[i].1 < nodes.len()
        && nodes[members[i].1 as int] == exposed_of(shapes, fields[i].1)
}

/// The parameters of a set the numbering names, renamed.
fn mapped_set(set: &BTreeSet<u32>, parameters: &HashMap<u32, u32>) -> (r: BTreeSet<u32>)
    ensures
        r@ == mapped(set@, parameters@),
{
    let items = super::conventions::members(set);
    let mut r: BTreeSet<u32> = BTreeSet::new();
    let mut i: usize = 0;
    while i < items.len()
        invariant
            i <= items.len(),
            items@.to_set() == set@,
            forall|q: u32| #[trigger] r@.contains(q) <==> exists|j: int| 0 <= j < i && parameters@.contains_key(items@[j]) && parameters@[items@[j]] == q,
        decreases items.len() - i,
    {
        let p = items[i];
        if let Some(q) = parameters.get(&p) {
            r.insert(*q);
        }
        proof {
            assert forall|q: u32| #[trigger] r@.contains(q) <==> exists|j: int| 0 <= j < i + 1 && parameters@.contains_key(items@[j]) && parameters@[items@[j]] == q by {
                if exists|j: int| 0 <= j < i + 1 && parameters@.contains_key(items@[j]) && parameters@[items@[j]] == q {
                    let j = choose|j: int| 0 <= j < i + 1 && parameters@.contains_key(items@[j]) && parameters@[items@[j]] == q;
                    if j < i {
                        assert(exists|j2: int| 0 <= j2 < i && parameters@.contains_key(items@[j2]) && parameters@[items@[j2]] == q);
                    }
                }
            }
        }
        i = i + 1;
    }
    proof {
        assert forall|q: u32| r@.contains(q) <==> mapped(set@, parameters@).contains(q) by {
            if r@.contains(q) {
                let j = choose|j: int| 0 <= j < items@.len() && parameters@.contains_key(items@[j]) && parameters@[items@[j]] == q;
                assert(items@.to_set().contains(items@[j]));
            }
            if mapped(set@, parameters@).contains(q) {
                let p = choose|p: u32| set@.contains(p) && parameters@.contains_key(p) && parameters@[p] == q;
                assert(items@.to_set().contains(p));
                let j = choose|j: int| 0 <= j < items@.len() && items@[j] == p;
            }
        }
        assert(r@ =~= mapped(set@, parameters@));
    }
    r
}


/// Every solved row names ports of the graph.
pub open spec fn rows_in_range(solved: Seq<BTreeSet<super::conventions::Requirement>>, needs: nat) -> bool {
    forall|m: int, x: super::conventions::Requirement| 0 <= m < solved.len() && #[trigger] solved[m]@.contains(x) && x.0 is Some ==> x.0->0 < needs
}

/// The demand an arrow with equation `m` publishes as its own port.
fn own_need(graph: &Graph, solved: &[BTreeSet<super::conventions::Requirement>], m: NeedId) -> (r: Option<NeedId>)
    requires
        well_formed(graph.shapes@, graph.needs@),
        m < graph.needs.len(),
        solved@.len() == graph.needs@.len(),
        rows_in_range(solved@, graph.needs@.len()),
    ensures
        r == own_port(graph.needs@, solved@, m),
        r matches Some(s) ==> s < graph.needs@.len(),
{
    let ghost needs = graph.needs@;
    if graph.free_parameters(m).is_some() {
        return Some(m);
    }
    let r = graph.need_root(m);
    if !graph.needs[r as usize].variable {
        return None;
    }
    let row = &solved[m as usize];
    let listed = requirement_list(row);
    let ghost spec_row = row@;
    proof {
        assert(spec_row == solved@[m as int]@);
    }
    if listed.len() == 0 {
        proof {
            assert forall|s: NeedId| !(s < needs.len() && solved_by_port(spec_row, needs, s)) by {
                if exists|x: super::conventions::Requirement| spec_row.contains(x) {
                    let x = choose|x: super::conventions::Requirement| spec_row.contains(x);
                    assert(listed@.to_set().contains(x));
                }
            }
        }
        return None;
    }
    let first = listed[0];
    proof {
        assert(listed@.to_set().contains(first));
        assert(spec_row.contains(first));
    }
    let source = match first.0 {
        Some(source) => source,
        None => {
            proof {
                assert forall|s: NeedId| !(s < needs.len() && solved_by_port(spec_row, needs, s)) by {
                    if s < needs.len() && solved_by_port(spec_row, needs, s) {
                        let fp = free_parameters_of(needs, s)->0;
                        assert(Set::new(|x: super::conventions::Requirement| x.0 == Some(s) && fp.contains(x.1)).contains(first));
                    }
                }
            }
            return None;
        },
    };
    proof {
        assert(source < needs.len());
    }
    let fp = match graph.free_parameters(source) {
        Some(fp) => fp,
        None => {
            proof {
                assert forall|s: NeedId| !(s < needs.len() && solved_by_port(spec_row, needs, s)) by {
                    if s < needs.len() && solved_by_port(spec_row, needs, s) {
                        let fs = free_parameters_of(needs, s)->0;
                        assert(Set::new(|x: super::conventions::Requirement| x.0 == Some(s) && fs.contains(x.1)).contains(first));
                    }
                }
            }
            return None;
        },
    };
    let ghost expected = Set::new(|x: super::conventions::Requirement| x.0 == Some(source) && fp@.contains(x.1));
    let mut i: usize = 0;
    while i < listed.len()
        invariant
            i <= listed.len(),
            listed@.to_set() == spec_row,
            spec_row.contains(first),
            first.0 == Some(source),
            needs == graph.needs@,
            free_parameters_of(needs, m) is None,
            needs[root(needs, m) as int].variable,
            spec_row == solved@[m as int]@,
            free_parameters_of(needs, source) == Some(fp@),
            expected == Set::new(|x: super::conventions::Requirement| x.0 == Some(source) && fp@.contains(x.1)),
            forall|j: int| 0 <= j < i ==> expected.contains(#[trigger] listed@[j]),
        decreases listed.len() - i,
    {
        let x = listed[i];
        if !(x.0 == Some(source) && fp.contains(&x.1)) {
            proof {
                assert(listed@.to_set().contains(x));
                assert forall|s: NeedId| !(s < needs.len() && solved_by_port(spec_row, needs, s)) by {
                    if s < needs.len() && solved_by_port(spec_row, needs, s) {
                        let fs = free_parameters_of(needs, s)->0;
                        assert(Set::new(|y: super::conventions::Requirement| y.0 == Some(s) && fs.contains(y.1)).contains(first));
                        assert(s == source);
                        assert(Set::new(|y: super::conventions::Requirement| y.0 == Some(s) && fs.contains(y.1)).contains(x));
                    }
                }
            }
            return None;
        }
        i = i + 1;
    }
    let expected_members = super::conventions::members(&fp);
    let mut j: usize = 0;
    while j < expected_members.len()
        invariant
            j <= expected_members.len(),
            expected_members@.to_set() == fp@,
            spec_row == row@,
            spec_row.contains(first),
            first.0 == Some(source),
            needs == graph.needs@,
            free_parameters_of(needs, m) is None,
            needs[root(needs, m) as int].variable,
            spec_row == solved@[m as int]@,
            free_parameters_of(needs, source) == Some(fp@),
            forall|k: int| 0 <= k < j ==> spec_row.contains((Some(source), #[trigger] expected_members@[k])),
        decreases expected_members.len() - j,
    {
        if !row.contains(&(Some(source), expected_members[j])) {
            proof {
                assert(expected_members@.to_set().contains(expected_members@[j as int]));
                assert forall|s: NeedId| !(s < needs.len() && solved_by_port(spec_row, needs, s)) by {
                    if s < needs.len() && solved_by_port(spec_row, needs, s) {
                        let fs = free_parameters_of(needs, s)->0;
                        assert(Set::new(|y: super::conventions::Requirement| y.0 == Some(s) && fs.contains(y.1)).contains(first));
                        assert(s == source);
                        assert(Set::new(|y: super::conventions::Requirement| y.0 == Some(s) && fs.contains(y.1)).contains((Some(source), expected_members@[j as int])));
                    }
                }
            }
            return None;
        }
        j = j + 1;
    }
    proof {
        assert forall|x: super::conventions::Requirement| spec_row.contains(x) <==> expected.contains(x) by {
            if spec_row.contains(x) {
                assert(listed@.to_set().contains(x));
                let k = choose|k: int| 0 <= k < listed@.len() && listed@[k] == x;
            }
            if expected.contains(x) {
                assert(expected_members@.to_set().contains(x.1));
                let k = choose|k: int| 0 <= k < expected_members@.len() && expected_members@[k] == x.1;
            }
        }
        assert(spec_row =~= expected);
        assert(solved_by_port(spec_row, needs, source));
        let c = choose|s: NeedId| s < needs.len() && solved_by_port(spec_row, needs, s);
        let fc = free_parameters_of(needs, c)->0;
        assert(Set::new(|y: super::conventions::Requirement| y.0 == Some(c) && fc.contains(y.1)).contains(first));
    }
    Some(source)
}


/// How many entries are set.
pub open spec fn set_count(index: Seq<Option<u32>>) -> nat
    decreases index.len(),
{
    if index.len() == 0 {
        0
    } else {
        set_count(index.drop_last()) + if index.last() is Some {
            1nat
        } else {
            0nat
        }
    }
}

proof fn lemma_set_entry(index: Seq<Option<u32>>, x: int, v: u32)
    requires
        0 <= x < index.len(),
        index[x] is None,
    ensures
        set_count(index.update(x, Some(v))) == set_count(index) + 1,
    decreases index.len(),
{
    let u = index.update(x, Some(v));
    if x < index.len() - 1 {
        assert(u.drop_last() =~= index.drop_last().update(x, Some(v)));
        lemma_set_entry(index.drop_last(), x, v);
    } else {
        assert(u.drop_last() =~= index.drop_last());
    }
}

proof fn lemma_set_bound(index: Seq<Option<u32>>)
    ensures
        set_count(index) <= index.len(),
    decreases index.len(),
{
    if index.len() > 0 {
        lemma_set_bound(index.drop_last());
    }
}

/// A set entry below the length leaves room: the count is below it.
proof fn lemma_set_room(index: Seq<Option<u32>>, x: int)
    requires
        0 <= x < index.len(),
        index[x] is None,
    ensures
        set_count(index) < index.len(),
{
    lemma_set_entry(index, x, 0);
    lemma_set_bound(index.update(x, Some(0)));
}

fn unset_entries(count: usize) -> (index: Vec<Option<u32>>)
    ensures
        index@.len() == count,
        forall|x: int| 0 <= x < count ==> index@[x] is None,
        set_count(index@) == 0,
{
    let mut index: Vec<Option<u32>> = Vec::new();
    let mut i: usize = 0;
    while i < count
        invariant
            i <= count,
            index@.len() == i,
            forall|x: int| 0 <= x < i ==> index@[x] is None,
            set_count(index@) == 0,
        decreases count - i,
    {
        let ghost before = index@;
        index.push(None);
        proof {
            assert(index@.drop_last() == before);
        }
        i = i + 1;
    }
    index
}

/// The exported nodes so far: each stands for a distinct exposed shape,
/// and the index finds it.
pub open spec fn node_tables(shapes: Seq<Shape>, index: Seq<Option<u32>>, origin: Seq<ShapeId>) -> bool {
    &&& index.len() == shapes.len()
    &&& origin.len() == set_count(index)
    &&& forall|s: int| 0 <= s < index.len() && (#[trigger] index[s]) is Some ==> index[s]->0 < origin.len() && origin[index[s]->0 as int] == s
    &&& forall|i: int| 0 <= i < origin.len() ==> (#[trigger] origin[i]) < shapes.len() && index[origin[i] as int] == Some(i as u32)
}

/// The exported ports so far: each stands for a distinct root demand, the
/// index finds it, and it ranges over that demand's renamed parameters.
pub open spec fn port_tables(needs: Seq<Needs>, parameters: Map<u32, u32>, index: Seq<Option<u32>>, origins: Seq<NeedId>, ports: Seq<BTreeSet<u32>>) -> bool {
    &&& index.len() == needs.len()
    &&& origins.len() == set_count(index)
    &&& ports.len() == origins.len()
    &&& forall|r: int| 0 <= r < index.len() && (#[trigger] index[r]) is Some ==> index[r]->0 < origins.len() && origins[index[r]->0 as int] == r
    &&& forall|k: int| 0 <= k < origins.len() ==> (#[trigger] origins[k]) < needs.len() && index[origins[k] as int] == Some(k as u32)
        && root(needs, origins[k]) == origins[k] && ports[k]@ == port_content(needs, parameters, origins[k])
}

/// The node standing for a shape's exposed shape, made and queued if
/// there is none yet.
fn place(
    graph: &Graph,
    nodes: &mut Vec<Node>,
    index: &mut Vec<Option<u32>>,
    pending: &mut Vec<(ShapeId, u32)>,
    id: ShapeId,
    origin: Ghost<Seq<ShapeId>>,
) -> (r: (u32, Ghost<Seq<ShapeId>>))
    requires
        super::conventions::graph_in_range(graph.shapes@, graph.needs@),
        graph.shapes.len() <= u32::MAX,
        id < graph.shapes.len(),
        node_tables(graph.shapes@, old(index)@, origin@),
        old(nodes)@.len() == origin@.len(),
    ensures
        node_tables(graph.shapes@, final(index)@, r.1@),
        final(nodes)@.len() == r.1@.len(),
        r.0 < r.1@.len(),
        r.1@[r.0 as int] == exposed_of(graph.shapes@, id),
        r.1@.len() >= origin@.len(),
        forall|i: int| 0 <= i < origin@.len() ==> r.1@[i] == origin@[i],
        forall|i: int| 0 <= i < old(nodes)@.len() ==> final(nodes)@[i] == old(nodes)@[i],
        r.1@.len() == origin@.len() ==> final(pending)@ == old(pending)@,
        r.1@.len() > origin@.len() ==> (r.1@.len() == origin@.len() + 1 && r.0 == origin@.len() && final(pending)@ == old(pending)@.push(
            (exposed_of(graph.shapes@, id), r.0),
        ) && final(nodes)@[r.0 as int] is Value),
{
    let e = graph.exposed_id(id);
    match index[e as usize] {
        Some(at) => (at, origin),
        None => {
            proof {
                lemma_set_room(index@, e as int);
            }
            let at = nodes.len() as u32;
            nodes.push(Node::Value);
            pending.push((e, at));
            let ghost before = index@;
            index.set(e as usize, Some(at));
            let ghost grown = origin@.push(e);
            proof {
                lemma_set_entry(before, e as int, at);
                assert forall|s: int| 0 <= s < index@.len() && (#[trigger] index@[s]) is Some implies index@[s]->0 < grown.len() && grown[index@[s]->0 as int] == s by {
                    if s != e as int {
                        assert(before[s] is Some);
                    }
                }
                assert forall|i: int| 0 <= i < grown.len() implies (#[trigger] grown[i]) < graph.shapes@.len() && index@[grown[i] as int] == Some(i as u32) by {
                    if i < origin@.len() {
                        assert(grown[i] == origin@[i]);
                        assert(before[origin@[i] as int] == Some(i as u32));
                        assert(origin@[i] != e) by {
                            if origin@[i] == e {
                                assert(before[e as int] is Some);
                            }
                        }
                    }
                }
            }
            (at, Ghost(grown))
        },
    }
}

/// The port standing for a demand's root, made if there is none yet.
fn place_port(
    graph: &Graph,
    ports: &mut Vec<BTreeSet<u32>>,
    index: &mut Vec<Option<u32>>,
    parameters: &HashMap<u32, u32>,
    id: NeedId,
    origins: Ghost<Seq<NeedId>>,
) -> (r: (u32, Ghost<Seq<NeedId>>))
    requires
        well_formed(graph.shapes@, graph.needs@),
        graph.needs.len() <= u32::MAX,
        id < graph.needs.len(),
        port_tables(graph.needs@, parameters@, old(index)@, origins@, old(ports)@),
    ensures
        port_tables(graph.needs@, parameters@, final(index)@, r.1@, final(ports)@),
        r.0 < r.1@.len(),
        r.1@[r.0 as int] == root(graph.needs@, id),
        r.1@.len() >= origins@.len(),
        forall|i: int| 0 <= i < origins@.len() ==> r.1@[i] == origins@[i],
{
    let r = graph.need_root(id);
    match index[r as usize] {
        Some(at) => (at, origins),
        None => {
            proof {
                lemma_set_room(index@, r as int);
            }
            let at = ports.len() as u32;
            let parameters_of = match graph.free_parameters(r) {
                Some(set) => set,
                None => BTreeSet::new(),
            };
            proof {
                assert(super::conventions::is_root_of(graph.needs@, r, r)) by {
                    assert(super::conventions::follow(graph.needs@, r, 0) == r);
                }
                super::conventions::lemma_root_unique(graph.needs@, r, r, root(graph.needs@, r));
            }
            let content = mapped_set(&parameters_of, parameters);
            ports.push(content);
            let ghost before = index@;
            index.set(r as usize, Some(at));
            let ghost grown = origins@.push(r);
            proof {
                lemma_set_entry(before, r as int, at);
                assert forall|s: int| 0 <= s < index@.len() && (#[trigger] index@[s]) is Some implies index@[s]->0 < grown.len() && grown[index@[s]->0 as int] == s by {
                    if s != r as int {
                        assert(before[s] is Some);
                    }
                }
                assert forall|k: int| 0 <= k < grown.len() implies (#[trigger] grown[k]) < graph.needs@.len() && index@[grown[k] as int] == Some(k as u32)
                    && root(graph.needs@, grown[k]) == grown[k] && ports@[k]@ == port_content(graph.needs@, parameters@, grown[k]) by {
                    if k < origins@.len() {
                        assert(grown[k] == origins@[k]);
                        assert(before[origins@[k] as int] == Some(k as u32));
                        assert(origins@[k] != r) by {
                            if origins@[k] == r {
                                assert(before[r as int] is Some);
                            }
                        }
                    }
                }
            }
            (at, Ghost(grown))
        },
    }
}


/// The ports an exported arrow names are among the exported ones.
pub open spec fn ports_present(
    shape: Shape,
    needs: Seq<Needs>,
    parameters: Map<u32, u32>,
    solved: Seq<BTreeSet<super::conventions::Requirement>>,
    origins: Seq<NeedId>,
) -> bool {
    match shape {
        Shape::Arrow { needs: m, .. } => {
            &&& (own_port(needs, solved, m) matches Some(s) ==> origins.contains(root(needs, s)))
            &&& forall|need: super::conventions::Requirement|
                #![trigger solved[m as int]@.contains(need)]
                solved[m as int]@.contains(need) && parameters.contains_key(need.1) && need.0 is Some ==> origins.contains(
                    root(needs, need.0->0),
                )
        },
        _ => true,
    }
}

/// Each of a sequence's elements is somewhere else only at its own place.
pub open spec fn distinct(origins: Seq<NeedId>) -> bool {
    forall|i: int, j: int| 0 <= i < origins.len() && 0 <= j < origins.len() && origins[i] == origins[j] ==> i == j
}

/// A port number found before stays found, the same, once more ports are
/// made.
proof fn lemma_port_number_kept(origins: Seq<NeedId>, grown: Seq<NeedId>, r: NeedId)
    requires
        origins.contains(r),
        grown.len() >= origins.len(),
        grown.len() <= u32::MAX,
        forall|i: int| 0 <= i < origins.len() ==> grown[i] == origins[i],
        distinct(grown),
    ensures
        port_number(grown, r) == port_number(origins, r),
        port_number(grown, r) is Some,
        grown[port_number(grown, r)->0 as int] == r,
{
    let k = choose|k: int| 0 <= k < origins.len() && origins[k] == r;
    assert(grown[k] == r);
    let a = choose|a: int| 0 <= a < origins.len() && origins[a] == r;
    let b = choose|b: int| 0 <= b < grown.len() && grown[b] == r;
    assert(grown[a] == r);
}

/// A port number given where the port stands at `k`.
proof fn lemma_port_number_at(origins: Seq<NeedId>, k: int)
    requires
        0 <= k < origins.len(),
        origins.len() <= u32::MAX,
        distinct(origins),
    ensures
        port_number(origins, origins[k]) == Some(k as u32),
{
    let b = choose|b: int| 0 <= b < origins.len() && origins[b] == origins[k];
}

/// What an exported node says of its shape stays true once more nodes and
/// ports are made.
proof fn lemma_exported_kept(
    node: Node,
    shape: Shape,
    shapes: Seq<Shape>,
    needs: Seq<Needs>,
    parameters: Map<u32, u32>,
    solved: Seq<BTreeSet<super::conventions::Requirement>>,
    nodes: Seq<ShapeId>,
    nodes2: Seq<ShapeId>,
    origins: Seq<NeedId>,
    origins2: Seq<NeedId>,
)
    requires
        exported_node(node, shape, shapes, needs, parameters, solved, nodes, origins),
        ports_present(shape, needs, parameters, solved, origins),
        nodes2.len() >= nodes.len(),
        forall|i: int| 0 <= i < nodes.len() ==> nodes2[i] == nodes[i],
        origins2.len() >= origins.len(),
        origins2.len() <= u32::MAX,
        forall|i: int| 0 <= i < origins.len() ==> origins2[i] == origins[i],
        distinct(origins2),
    ensures
        exported_node(node, shape, shapes, needs, parameters, solved, nodes2, origins2),
        ports_present(shape, needs, parameters, solved, origins2),
{
    match shape {
        Shape::Record(fields) | Shape::Sum(fields) => {
            match node {
                Node::Record(members) | Node::Sum(members) => {
                    assert forall|i: int| 0 <= i < fields@.len() implies (#[trigger] members@[i]).0@ == fields@[i].0@ && members@[i].1 < nodes2.len()
                        && nodes2[members@[i].1 as int] == exposed_of(shapes, fields@[i].1) by {
                        assert(nodes2[members@[i].1 as int] == nodes[members@[i].1 as int]);
                    }
                },
                _ => {},
            }
        },
        Shape::Arrow { argument, result, needs: m } => {
            match own_port(needs, solved, m) {
                Some(s) => {
                    lemma_port_number_kept(origins, origins2, root(needs, s));
                },
                None => {},
            }
            let row = solved[m as int]@;
            assert forall|need: super::conventions::Requirement|
                #![trigger row.contains(need)]
                row.contains(need) && parameters.contains_key(need.1) && need.0 is Some implies origins2.contains(root(needs, need.0->0)) by {
                let r = root(needs, need.0->0);
                let k = choose|k: int| 0 <= k < origins.len() && origins[k] == r;
                assert(origins2[k] == r);
            }
            assert forall|x: Requirement| exported_requirements(row, parameters, needs, origins).contains(x)
                <==> exported_requirements(row, parameters, needs, origins2).contains(x) by {
                if exported_requirements(row, parameters, needs, origins).contains(x) {
                    let need = choose|need: super::conventions::Requirement| row.contains(need) && parameters.contains_key(need.1) && x == (
                        match need.0 {
                            Some(q) => port_number(origins, root(needs, q)),
                            None => None,
                        },
                        parameters[need.1],
                    );
                    if need.0 is Some {
                        lemma_port_number_kept(origins, origins2, root(needs, need.0->0));
                    }
                }
                if exported_requirements(row, parameters, needs, origins2).contains(x) {
                    let need = choose|need: super::conventions::Requirement| row.contains(need) && parameters.contains_key(need.1) && x == (
                        match need.0 {
                            Some(q) => port_number(origins2, root(needs, q)),
                            None => None,
                        },
                        parameters[need.1],
                    );
                    if need.0 is Some {
                        lemma_port_number_kept(origins, origins2, root(needs, need.0->0));
                    }
                }
            }
            assert(exported_requirements(row, parameters, needs, origins) =~= exported_requirements(row, parameters, needs, origins2));
            match node {
                Node::Arrow { argument: a, result: b, .. } => {
                    assert(nodes2[a as int] == nodes[a as int]);
                    assert(nodes2[b as int] == nodes[b as int]);
                },
                _ => {},
            }
        },
        Shape::Array(_) | Shape::Cell(_) => {
            match node {
                Node::Array(j) | Node::Cell(j) => {
                    assert(nodes2[j as int] == nodes[j as int]);
                },
                _ => {},
            }
        },
        _ => {},
    }
}


/// One of the first `count` members names node `i`.
pub open spec fn names_child(members: Seq<(String, u32)>, count: int, i: u32) -> bool {
    exists|k: int| 0 <= k < count && members[k].1 == i
}

/// The queue entries of the nodes made from `from` on.
pub open spec fn queued(origin: Seq<ShapeId>, from: int) -> Seq<(ShapeId, u32)> {
    Seq::new((origin.len() - from) as nat, |j: int| (origin[from + j], (from + j) as u32))
}

/// The bookkeeping of an export in progress, between one node and the
/// next.
pub open spec fn export_tables(
    graph: Graph,
    parameters: Map<u32, u32>,
    nodes: Seq<Node>,
    node_index: Seq<Option<u32>>,
    origin: Seq<ShapeId>,
    ports: Seq<BTreeSet<u32>>,
    port_index: Seq<Option<u32>>,
    origins: Seq<NeedId>,
) -> bool {
    &&& node_tables(graph.shapes@, node_index, origin)
    &&& nodes.len() == origin.len()
    &&& port_tables(graph.needs@, parameters, port_index, origins, ports)
}

proof fn lemma_tables_distinct(needs: Seq<Needs>, parameters: Map<u32, u32>, index: Seq<Option<u32>>, origins: Seq<NeedId>, ports: Seq<BTreeSet<u32>>)
    requires
        port_tables(needs, parameters, index, origins, ports),
        needs.len() <= u32::MAX,
    ensures
        distinct(origins),
        origins.len() <= needs.len(),
{
    lemma_set_bound(index);
    assert forall|i: int, j: int| 0 <= i < origins.len() && 0 <= j < origins.len() && origins[i] == origins[j] implies i == j by {
        assert(index[origins[i] as int] == Some(i as u32));
        assert(index[origins[j] as int] == Some(j as u32));
    }
}

proof fn lemma_nodes_bound(shapes: Seq<Shape>, index: Seq<Option<u32>>, origin: Seq<ShapeId>)
    requires
        node_tables(shapes, index, origin),
    ensures
        origin.len() <= shapes.len(),
{
    lemma_set_bound(index);
}

/// The exported node copying the exposed shape of `source`, its children
/// placed and its ports made.
fn copy_exposed(
    graph: &Graph,
    parameters: &HashMap<u32, u32>,
    solved: &[BTreeSet<super::conventions::Requirement>],
    source: ShapeId,
    nodes: &mut Vec<Node>,
    node_index: &mut Vec<Option<u32>>,
    pending: &mut Vec<(ShapeId, u32)>,
    ports: &mut Vec<BTreeSet<u32>>,
    port_index: &mut Vec<Option<u32>>,
    origin: Ghost<Seq<ShapeId>>,
    origins: Ghost<Seq<NeedId>>,
) -> (r: (Node, Ghost<Seq<ShapeId>>, Ghost<Seq<NeedId>>))
    requires
        well_formed(graph.shapes@, graph.needs@),
        graph.shapes.len() <= u32::MAX,
        graph.needs.len() <= u32::MAX,
        source < graph.shapes.len(),
        solved@.len() == graph.needs@.len(),
        rows_in_range(solved@, graph.needs@.len()),
        export_tables(*graph, parameters@, old(nodes)@, old(node_index)@, origin@, old(ports)@, old(port_index)@, origins@),
    ensures
        export_tables(*graph, parameters@, final(nodes)@, final(node_index)@, r.1@, final(ports)@, final(port_index)@, r.2@),
        r.1@.len() >= origin@.len(),
        forall|i: int| 0 <= i < origin@.len() ==> r.1@[i] == origin@[i],
        r.2@.len() >= origins@.len(),
        forall|i: int| 0 <= i < origins@.len() ==> r.2@[i] == origins@[i],
        forall|i: int| 0 <= i < old(nodes)@.len() ==> final(nodes)@[i] == old(nodes)@[i],
        forall|i: int| old(nodes)@.len() <= i < final(nodes)@.len() ==> final(nodes)@[i] is Value,
        final(pending)@ == old(pending)@ + queued(r.1@, origin@.len() as int),
        exported_node(
            r.0,
            graph.shapes@[exposed_of(graph.shapes@, source) as int],
            graph.shapes@,
            graph.needs@,
            parameters@,
            solved@,
            r.1@,
            r.2@,
        ),
        ports_present(graph.shapes@[exposed_of(graph.shapes@, source) as int], graph.needs@, parameters@, solved@, r.2@),
        forall|i: u32| origin@.len() <= i < r.1@.len() ==> #[trigger] node_refs(r.0).contains(i),
{
    let ghost shapes = graph.shapes@;
    let ghost needs = graph.needs@;
    let ghost start = origin@.len() as int;
    let ghost pending0 = pending@;
    proof {
        assert(queued(origin@, start) =~= Seq::<(ShapeId, u32)>::empty());
        assert(pending0 + queued(origin@, start) =~= pending0);
    }
    let shape = graph.exposed(source);
    let copied = match shape {
        Shape::Value | Shape::Alias(_) => (Node::Value, origin, origins),
        Shape::Lazy => (Node::Lazy, origin, origins),
        Shape::Sealed => (Node::Sealed, origin, origins),
        Shape::Parameter(index) => match parameters.get(index) {
            Some(p) => (Node::Parameter(*p), origin, origins),
            None => (Node::Value, origin, origins),
        },
        Shape::Cell(element) | Shape::Array(element) => {
            proof {
                let x = exposed_of(shapes, source);
                assert(super::conventions::shape_refs(shapes[x as int])[0] == *element);
            }
            let (j, grown) = place(graph, nodes, node_index, pending, *element, origin);
            proof {
                lemma_nodes_bound(shapes, node_index@, grown@);
                if grown@.len() > origin@.len() {
                    assert(queued(grown@, start) =~= seq![(grown@[start], start as u32)]);
                } else {
                    assert(queued(grown@, start) =~= Seq::<(ShapeId, u32)>::empty());
                }
                assert(pending@ =~= pending0 + queued(grown@, start));
            }
            proof {
                let children = seq![j];
                assert forall|i: u32| origin@.len() <= i < grown@.len() implies #[trigger] children.contains(i) by {
                    assert(children[0] == i);
                }
            }
            match shape {
                Shape::Cell(_) => (Node::Cell(j), grown, origins),
                _ => (Node::Array(j), grown, origins),
            }
        },
        Shape::Record(fields) | Shape::Sum(fields) => {
            proof {
                let x = exposed_of(shapes, source);
                assert forall|k: int| 0 <= k < fields@.len() implies (#[trigger] fields@[k]).1 < shapes.len() by {
                    assert(super::conventions::shape_refs(shapes[x as int])[k] == fields@[k].1);
                }
            }
            let mut members: Vec<(String, u32)> = Vec::new();
            let mut grown = origin;
            let mut f: usize = 0;
            while f < fields.len()
                invariant
                    f <= fields.len(),
                    shapes == graph.shapes@,
                    needs == graph.needs@,
                    start == origin@.len(),
                    well_formed(shapes, needs),
                    shapes.len() <= u32::MAX,
                    *shape == shapes[exposed_of(shapes, source) as int],
                    exposed_of(shapes, source) < shapes.len(),
                    forall|k: int| 0 <= k < fields@.len() ==> (#[trigger] fields@[k]).1 < shapes.len(),
                    export_tables(*graph, parameters@, nodes@, node_index@, grown@, ports@, port_index@, origins@),
                    grown@.len() >= origin@.len(),
                    forall|i: int| 0 <= i < origin@.len() ==> grown@[i] == origin@[i],
                    forall|i: int| 0 <= i < old(nodes)@.len() ==> nodes@[i] == old(nodes)@[i],
                    forall|i: int| old(nodes)@.len() <= i < nodes@.len() ==> nodes@[i] is Value,
                    old(nodes)@.len() == origin@.len(),
                    pending@ == pending0 + queued(grown@, start),
                    members@.len() == f,
                    forall|i: int| 0 <= i < f ==> (#[trigger] members@[i]).0@ == fields@[i].0@ && members@[i].1 < grown@.len()
                        && grown@[members@[i].1 as int] == exposed_of(shapes, fields@[i].1),
                    forall|i: u32| start <= i < grown@.len() ==> #[trigger] names_child(members@, f as int, i),
                decreases fields.len() - f,
            {
                let ghost before = grown@;
                let ghost pending_before = pending@;
                let (j, next) = place(graph, nodes, node_index, pending, fields[f].1, grown);
                grown = next;
                proof {
                    lemma_nodes_bound(shapes, node_index@, grown@);
                    if grown@.len() > before.len() {
                        assert(queued(grown@, start) =~= queued(before, start).push((grown@[before.len() as int], before.len() as u32)));
                    } else {
                        assert(queued(grown@, start) =~= queued(before, start));
                    }
                }
                let ghost members_before = members@;
                members.push((fields[f].0.clone(), j));
                proof {
                    assert forall|i: u32| start <= i < grown@.len() implies #[trigger] names_child(members@, f + 1, i) by {
                        if i < before.len() {
                            assert(names_child(members_before, f as int, i));
                            let k = choose|k: int| 0 <= k < f && members_before[k].1 == i;
                            assert(members@[k] == members_before[k]);
                        } else {
                            assert(members@[f as int].1 == i);
                        }
                    }
                }
                f = f + 1;
            }
            proof {
                let children = members@.map_values(|m: (String, u32)| m.1);
                assert forall|i: u32| origin@.len() <= i < grown@.len() implies #[trigger] children.contains(i) by {
                    assert(names_child(members@, members@.len() as int, i));
                    let k = choose|k: int| 0 <= k < members@.len() && members@[k].1 == i;
                    assert(children[k] == i);
                }
            }
            match shape {
                Shape::Record(_) => (Node::Record(members), grown, origins),
                _ => (Node::Sum(members), grown, origins),
            }
        },
        Shape::Arrow { argument, result, needs: m } => {
            proof {
                let x = exposed_of(shapes, source);
                assert(super::conventions::shape_refs(shapes[x as int])[0] == *argument);
                assert(super::conventions::shape_refs(shapes[x as int])[1] == *result);
            }
            let (a, grown) = place(graph, nodes, node_index, pending, *argument, origin);
            let ghost mid = grown@;
            let ghost pending_mid = pending@;
            proof {
                lemma_nodes_bound(shapes, node_index@, grown@);
            }
            let (b, grown) = place(graph, nodes, node_index, pending, *result, grown);
            proof {
                lemma_nodes_bound(shapes, node_index@, grown@);
                assert(queued(grown@, start) =~= queued(origin@, start) + queued(mid, start) + queued(grown@, mid.len() as int)) by {
                    assert(queued(origin@, start) =~= Seq::<(ShapeId, u32)>::empty());
                    assert forall|i: int| 0 <= i < queued(grown@, start).len() implies queued(grown@, start)[i] == (queued(mid, start) + queued(grown@, mid.len() as int))[i] by {
                        if i < mid.len() - start {
                            assert(grown@[start + i] == mid[start + i]);
                        }
                    }
                }
                assert(pending@ =~= pending0 + queued(grown@, start));
            }
            let own = own_need(graph, solved, *m);
            let (port, grown_ports) = match own {
                Some(id) => {
                    let (k, g) = place_port(graph, ports, port_index, parameters, id, origins);
                    (Some(k), g)
                },
                None => (None, origins),
            };
            let row = &solved[*m as usize];
            let listed = requirement_list(row);
            let mut requirements: BTreeSet<Requirement> = BTreeSet::new();
            let mut all_ports = grown_ports;
            let ghost row_view = solved@[*m as int]@;
            proof {
                lemma_tables_distinct(needs, parameters@, port_index@, all_ports@, ports@);
                if let Some(s) = own {
                    let k = port->0 as int;
                    lemma_port_number_at(all_ports@, k);
                }
            }
            let mut i: usize = 0;
            while i < listed.len()
                invariant
                    i <= listed.len(),
                    needs == graph.needs@,
                    well_formed(graph.shapes@, needs),
                    needs.len() <= u32::MAX,
                    listed@.to_set() == row_view,
                    row_view == solved@[*m as int]@,
                    rows_in_range(solved@, needs.len()),
                    *m < needs.len(),
                    solved@.len() == needs.len(),
                    port_tables(needs, parameters@, port_index@, all_ports@, ports@),
                    all_ports@.len() >= grown_ports@.len(),
                    forall|k: int| 0 <= k < grown_ports@.len() ==> all_ports@[k] == grown_ports@[k],
                    forall|k: int| 0 <= k < origins@.len() ==> grown_ports@[k] == origins@[k],
                    grown_ports@.len() >= origins@.len(),
                    own == own_port(needs, solved@, *m),
                    own matches Some(s) ==> grown_ports@.contains(root(needs, s)) && port == port_number(grown_ports@, root(needs, s)),
                    own is None ==> port is None,
                    forall|j: int| 0 <= j < i && parameters@.contains_key(#[trigger] listed@[j].1) && listed@[j].0 is Some
                        ==> all_ports@.contains(root(needs, listed@[j].0->0)),
                    forall|x: Requirement| #[trigger] requirements@.contains(x) <==> exists|j: int| 0 <= j < i && parameters@.contains_key(listed@[j].1) && x == (
                        match listed@[j].0 {
                            Some(q) => port_number(all_ports@, root(needs, q)),
                            None => None,
                        },
                        parameters@[listed@[j].1],
                    ),
                decreases listed.len() - i,
            {
                let need = listed[i];
                proof {
                    assert(listed@.to_set().contains(need));
                    assert(row_view.contains(need));
                }
                let ghost before_ports = all_ports@;
                if let Some(p) = parameters.get(&need.1) {
                    let number = match need.0 {
                        Some(q) => {
                            let (k, g) = place_port(graph, ports, port_index, parameters, q, all_ports);
                            all_ports = g;
                            Some(k)
                        },
                        None => None,
                    };
                    proof {
                        lemma_tables_distinct(needs, parameters@, port_index@, all_ports@, ports@);
                        if let Some(q) = need.0 {
                            lemma_port_number_at(all_ports@, number->0 as int);
                        }
                    }
                    requirements.insert((number, *p));
                } else {
                    proof {
                        lemma_tables_distinct(needs, parameters@, port_index@, all_ports@, ports@);
                    }
                }
                proof {
                    lemma_tables_distinct(needs, parameters@, port_index@, all_ports@, ports@);
                    assert forall|j: int| 0 <= j < i + 1 && parameters@.contains_key(#[trigger] listed@[j].1) && listed@[j].0 is Some
                        implies all_ports@.contains(root(needs, listed@[j].0->0)) by {
                        if j < i {
                            let r = root(needs, listed@[j].0->0);
                            let k = choose|k: int| 0 <= k < before_ports.len() && before_ports[k] == r;
                            assert(all_ports@[k] == r);
                        } else {
                            let k = port_number(all_ports@, root(needs, need.0->0));
                        }
                    }
                    assert forall|x: Requirement| #[trigger] requirements@.contains(x) <==> exists|j: int| 0 <= j < i + 1 && parameters@.contains_key(listed@[j].1) && x == (
                        match listed@[j].0 {
                            Some(q) => port_number(all_ports@, root(needs, q)),
                            None => None,
                        },
                        parameters@[listed@[j].1],
                    ) by {
                        if exists|j: int| 0 <= j < i + 1 && parameters@.contains_key(listed@[j].1) && x == (
                            match listed@[j].0 {
                                Some(q) => port_number(all_ports@, root(needs, q)),
                                None => None,
                            },
                            parameters@[listed@[j].1],
                        ) {
                            let j = choose|j: int| 0 <= j < i + 1 && parameters@.contains_key(listed@[j].1) && x == (
                                match listed@[j].0 {
                                    Some(q) => port_number(all_ports@, root(needs, q)),
                                    None => None,
                                },
                                parameters@[listed@[j].1],
                            );
                            if j < i {
                                if listed@[j].0 is Some {
                                    lemma_port_number_kept(before_ports, all_ports@, root(needs, listed@[j].0->0));
                                }
                                assert(exists|j2: int| 0 <= j2 < i && parameters@.contains_key(listed@[j2].1) && x == (
                                    match listed@[j2].0 {
                                        Some(q) => port_number(before_ports, root(needs, q)),
                                        None => None,
                                    },
                                    parameters@[listed@[j2].1],
                                ));
                            }
                        }
                        if requirements@.contains(x) {
                            if exists|j: int| 0 <= j < i && parameters@.contains_key(listed@[j].1) && x == (
                                match listed@[j].0 {
                                    Some(q) => port_number(before_ports, root(needs, q)),
                                    None => None,
                                },
                                parameters@[listed@[j].1],
                            ) {
                                let j = choose|j: int| 0 <= j < i && parameters@.contains_key(listed@[j].1) && x == (
                                    match listed@[j].0 {
                                        Some(q) => port_number(before_ports, root(needs, q)),
                                        None => None,
                                    },
                                    parameters@[listed@[j].1],
                                );
                                if listed@[j].0 is Some {
                                    lemma_port_number_kept(before_ports, all_ports@, root(needs, listed@[j].0->0));
                                }
                            }
                        }
                    }
                    if let Some(s) = own {
                        lemma_port_number_kept(grown_ports@, all_ports@, root(needs, s));
                    }
                }
                i = i + 1;
            }
            proof {
                lemma_tables_distinct(needs, parameters@, port_index@, all_ports@, ports@);
                if let Some(s) = own {
                    lemma_port_number_kept(grown_ports@, all_ports@, root(needs, s));
                }
                assert forall|x: Requirement| requirements@.contains(x) <==> exported_requirements(row_view, parameters@, needs, all_ports@).contains(x) by {
                    if exported_requirements(row_view, parameters@, needs, all_ports@).contains(x) {
                        let need = choose|need: super::conventions::Requirement| row_view.contains(need) && parameters@.contains_key(need.1) && x == (
                            match need.0 {
                                Some(q) => port_number(all_ports@, root(needs, q)),
                                None => None,
                            },
                            parameters@[need.1],
                        );
                        assert(listed@.to_set().contains(need));
                        let j = choose|j: int| 0 <= j < listed@.len() && listed@[j] == need;
                    }
                    if requirements@.contains(x) {
                        let j = choose|j: int| 0 <= j < listed@.len() && parameters@.contains_key(listed@[j].1) && x == (
                            match listed@[j].0 {
                                Some(q) => port_number(all_ports@, root(needs, q)),
                                None => None,
                            },
                            parameters@[listed@[j].1],
                        );
                        assert(listed@.to_set().contains(listed@[j]));
                    }
                }
                assert(requirements@ =~= exported_requirements(row_view, parameters@, needs, all_ports@));
                assert forall|need: super::conventions::Requirement|
                    #![trigger row_view.contains(need)]
                    row_view.contains(need) && parameters@.contains_key(need.1) && need.0 is Some implies all_ports@.contains(root(needs, need.0->0)) by {
                    assert(listed@.to_set().contains(need));
                    let j = choose|j: int| 0 <= j < listed@.len() && listed@[j] == need;
                }
            }
            proof {
                let children = seq![a, b];
                assert forall|i: u32| origin@.len() <= i < grown@.len() implies #[trigger] children.contains(i) by {
                    if i < mid.len() {
                        assert(children[0] == i);
                    } else {
                        assert(children[1] == i);
                    }
                }
            }
            (Node::Arrow { argument: a, result: b, port, requirements }, grown, all_ports)
        },
    };
    copied
}


/// Node `i` is a child of a marked node made before it.
pub open spec fn child_of_marked(nodes: Seq<Node>, marks: Seq<bool>, i: int) -> bool {
    exists|j: int| 0 <= j < i && marks[j] && node_refs(nodes[j]).contains(i as u32)
}

/// Node `i` is a child of a node made before it.
pub open spec fn child_of_earlier(nodes: Seq<Node>, i: int) -> bool {
    exists|j: int| 0 <= j < i && node_refs(nodes[j]).contains(i as u32)
}

/// The export in progress: the nodes filled so far copy their shapes, the
/// others wait in the queue once each, and every node but the root is a
/// child of a filled one made before it.
pub open spec fn export_progress(
    graph: Graph,
    parameters: Map<u32, u32>,
    solved: Seq<BTreeSet<super::conventions::Requirement>>,
    nodes: Seq<Node>,
    origin: Seq<ShapeId>,
    origins: Seq<NeedId>,
    filled: Seq<bool>,
    pending: Seq<(ShapeId, u32)>,
) -> bool {
    &&& filled.len() == nodes.len()
    &&& nodes.len() == origin.len()
    &&& forall|i: int| 0 <= i < nodes.len() && #[trigger] filled[i] ==> exported_node(
        nodes[i],
        graph.shapes@[exposed_of(graph.shapes@, origin[i]) as int],
        graph.shapes@,
        graph.needs@,
        parameters,
        solved,
        origin,
        origins,
    ) && ports_present(graph.shapes@[exposed_of(graph.shapes@, origin[i]) as int], graph.needs@, parameters, solved, origins)
    &&& forall|t: int| 0 <= t < pending.len() ==> (#[trigger] pending[t]).1 < nodes.len() && origin[pending[t].1 as int] == pending[t].0
        && !filled[pending[t].1 as int]
    &&& forall|a: int, b: int| 0 <= a < pending.len() && 0 <= b < pending.len() && a != b ==> (#[trigger] pending[a]).1 != (#[trigger] pending[b]).1
    &&& forall|i: int| 0 <= i < nodes.len() && !(#[trigger] filled[i]) ==> exists|t: int| 0 <= t < pending.len() && pending[t].1 == i
    &&& forall|i: int| 0 < i < nodes.len() ==> #[trigger] child_of_marked(nodes, filled, i)
}


/// Every node made copies its shape, and every node is a child of one made
/// before it, the first excepted.
pub open spec fn gathered(
    graph: Graph,
    parameters: Map<u32, u32>,
    solved: Seq<BTreeSet<super::conventions::Requirement>>,
    root: ShapeId,
    nodes: Seq<Node>,
    ports: Seq<BTreeSet<u32>>,
    origin: Seq<ShapeId>,
    origins: Seq<NeedId>,
) -> bool {
    &&& nodes.len() > 0
    &&& nodes.len() == origin.len()
    &&& origin.len() <= u32::MAX
    &&& origin[0] == exposed_of(graph.shapes@, root)
    &&& forall|i: int, j: int| 0 <= i < origin.len() && 0 <= j < origin.len() && origin[i] == origin[j] ==> i == j
    &&& ports.len() == origins.len()
    &&& origins.len() <= u32::MAX
    &&& distinct(origins)
    &&& forall|k: int| 0 <= k < origins.len() ==> (#[trigger] ports[k])@ == port_content(graph.needs@, parameters, origins[k])
    &&& forall|i: int| 0 <= i < nodes.len() ==> exported_node(
        #[trigger] nodes[i],
        graph.shapes@[exposed_of(graph.shapes@, origin[i]) as int],
        graph.shapes@,
        graph.needs@,
        parameters,
        solved,
        origin,
        origins,
    ) && ports_present(graph.shapes@[exposed_of(graph.shapes@, origin[i]) as int], graph.needs@, parameters, solved, origins)
    &&& forall|i: int| 0 < i < nodes.len() ==> #[trigger] child_of_earlier(nodes, i)
}

/// The nodes and ports reached from the root, each exposed shape once.
fn gather(
    graph: &Graph,
    root: ShapeId,
    parameters: &HashMap<u32, u32>,
    solved: &[BTreeSet<super::conventions::Requirement>],
) -> (r: (Vec<Node>, Vec<BTreeSet<u32>>, Ghost<Seq<ShapeId>>, Ghost<Seq<NeedId>>))
    requires
        well_formed(graph.shapes@, graph.needs@),
        graph.shapes.len() <= u32::MAX,
        graph.needs.len() <= u32::MAX,
        root < graph.shapes.len(),
        solved@.len() == graph.needs@.len(),
        rows_in_range(solved@, graph.needs@.len()),
    ensures
        gathered(*graph, parameters@, solved@, root, r.0@, r.1@, r.2@, r.3@),
{
    let mut nodes: Vec<Node> = Vec::new();
    let mut ports: Vec<BTreeSet<u32>> = Vec::new();
    let mut node_index = unset_entries(graph.shapes.len());
    let mut port_index = unset_entries(graph.needs.len());
    let mut pending: Vec<(ShapeId, u32)> = Vec::new();
    let ghost empty_origin: Seq<ShapeId> = Seq::empty();
    let ghost empty_origins: Seq<NeedId> = Seq::empty();
    let (first, origin) = place(graph, &mut nodes, &mut node_index, &mut pending, root, Ghost(empty_origin));
    let mut origin = origin;
    let mut origins: Ghost<Seq<NeedId>> = Ghost(empty_origins);
    let ghost mut filled: Seq<bool> = seq![false];
    proof {
        assert(first == 0);
        assert(pending@ =~= seq![(exposed_of(graph.shapes@, root), 0u32)]);
        assert(export_progress(*graph, parameters@, solved@, nodes@, origin@, origins@, filled, pending@)) by {
            assert(pending@[0].1 == 0);
        }
    }
    loop
        invariant
            well_formed(graph.shapes@, graph.needs@),
            graph.shapes.len() <= u32::MAX,
            graph.needs.len() <= u32::MAX,
            solved@.len() == graph.needs@.len(),
            rows_in_range(solved@, graph.needs@.len()),
            export_tables(*graph, parameters@, nodes@, node_index@, origin@, ports@, port_index@, origins@),
            export_progress(*graph, parameters@, solved@, nodes@, origin@, origins@, filled, pending@),
            nodes@.len() > 0,
            origin@[0] == exposed_of(graph.shapes@, root),
        ensures
            export_tables(*graph, parameters@, nodes@, node_index@, origin@, ports@, port_index@, origins@),
            export_progress(*graph, parameters@, solved@, nodes@, origin@, origins@, filled, pending@),
            nodes@.len() > 0,
            origin@[0] == exposed_of(graph.shapes@, root),
            forall|i: int| 0 <= i < nodes@.len() ==> #[trigger] filled[i],
        decreases graph.shapes.len() - nodes@.len(), pending@.len(),
    {
        proof {
            lemma_nodes_bound(graph.shapes@, node_index@, origin@);
        }
        let ghost before_pending = pending@;
        let (source, target) = match pending.pop() {
            Some(entry) => entry,
            None => {
                proof {
                    assert forall|i: int| 0 <= i < nodes@.len() implies #[trigger] filled[i] by {
                        if !filled[i] {
                            let t = choose|t: int| 0 <= t < before_pending.len() && before_pending[t].1 == i;
                        }
                    }
                }
                break;
            },
        };
        proof {
            assert(before_pending.last() == (source, target));
            assert(before_pending[before_pending.len() - 1] == (source, target));
            lemma_nodes_bound(graph.shapes@, node_index@, origin@);
            assert(source < graph.shapes.len());
        }
        let ghost old_nodes = nodes@;
        let ghost old_origin = origin@;
        let ghost old_origins = origins@;
        let ghost mid_pending = pending@;
        let (copied, grown, grown_ports) = copy_exposed(
            graph,
            parameters,
            solved,
            source,
            &mut nodes,
            &mut node_index,
            &mut pending,
            &mut ports,
            &mut port_index,
            origin,
            origins,
        );
        let ghost copied_g = copied;
        let ghost copied_nodes = nodes@;
        nodes.set(target as usize, copied);
        origin = grown;
        origins = grown_ports;
        proof {
            lemma_nodes_bound(graph.shapes@, node_index@, origin@);
            lemma_tables_distinct(graph.needs@, parameters@, port_index@, origins@, ports@);
            let added = (origin@.len() - old_origin.len()) as nat;
            let filled2 = filled.update(target as int, true) + Seq::new(added, |j: int| false);
            lemma_progress_step(
                *graph,
                parameters@,
                solved@,
                old_nodes,
                old_origin,
                old_origins,
                filled,
                before_pending,
                source,
                target,
                copied_g,
                copied_nodes,
                nodes@,
                origin@,
                origins@,
                mid_pending,
                pending@,
            );
            filled = filled2;
        }
    }
    proof {
        lemma_tables_distinct(graph.needs@, parameters@, port_index@, origins@, ports@);
        lemma_nodes_bound(graph.shapes@, node_index@, origin@);
        assert forall|i: int, j: int| 0 <= i < origin@.len() && 0 <= j < origin@.len() && origin@[i] == origin@[j] implies i == j by {
            assert(node_index@[origin@[i] as int] == Some(i as u32));
            assert(node_index@[origin@[j] as int] == Some(j as u32));
        }
        assert forall|i: int| 0 <= i < nodes@.len() implies exported_node(
            #[trigger] nodes@[i],
            graph.shapes@[exposed_of(graph.shapes@, origin@[i]) as int],
            graph.shapes@,
            graph.needs@,
            parameters@,
            solved@,
            origin@,
            origins@,
        ) && ports_present(graph.shapes@[exposed_of(graph.shapes@, origin@[i]) as int], graph.needs@, parameters@, solved@, origins@) by {
            assert(filled[i]);
        }
        assert forall|i: int| 0 < i < nodes@.len() implies #[trigger] child_of_earlier(nodes@, i) by {
            assert(child_of_marked(nodes@, filled, i));
            let j = choose|j: int| 0 <= j < i && filled[j] && node_refs(nodes@[j]).contains(i as u32);
        }
        assert forall|k: int| 0 <= k < origins@.len() implies (#[trigger] ports@[k])@ == port_content(graph.needs@, parameters@, origins@[k]) by {
            assert(origins@[k] < graph.needs@.len());
        }
        assert(nodes@.len() > 0);
        assert(nodes@.len() == origin@.len());
        assert(origin@[0] == exposed_of(graph.shapes@, root));
        assert(ports@.len() == origins@.len());
        assert(origins@.len() <= u32::MAX);
        assert(distinct(origins@));
        assert(gathered(*graph, parameters@, solved@, root, nodes@, ports@, origin@, origins@));
    }
    (nodes, ports, origin, origins)
}


/// One step of the export keeps its progress: the popped node filled with
/// its copy, the nodes made for it queued.
proof fn lemma_progress_step(
    graph: Graph,
    parameters: Map<u32, u32>,
    solved: Seq<BTreeSet<super::conventions::Requirement>>,
    old_nodes: Seq<Node>,
    old_origin: Seq<ShapeId>,
    old_origins: Seq<NeedId>,
    filled: Seq<bool>,
    before_pending: Seq<(ShapeId, u32)>,
    source: ShapeId,
    target: u32,
    copied: Node,
    copied_nodes: Seq<Node>,
    nodes: Seq<Node>,
    origin: Seq<ShapeId>,
    origins: Seq<NeedId>,
    mid_pending: Seq<(ShapeId, u32)>,
    pending: Seq<(ShapeId, u32)>,
)
    requires
        export_progress(graph, parameters, solved, old_nodes, old_origin, old_origins, filled, before_pending),
        before_pending.len() > 0,
        before_pending.last() == (source, target),
        mid_pending == before_pending.drop_last(),
        origin.len() >= old_origin.len(),
        forall|i: int| 0 <= i < old_origin.len() ==> origin[i] == old_origin[i],
        origins.len() >= old_origins.len(),
        origins.len() <= u32::MAX,
        forall|i: int| 0 <= i < old_origins.len() ==> origins[i] == old_origins[i],
        distinct(origins),
        copied_nodes.len() == origin.len(),
        origin.len() <= u32::MAX,
        forall|i: int| 0 <= i < old_nodes.len() ==> copied_nodes[i] == old_nodes[i],
        nodes == copied_nodes.update(target as int, copied),
        pending == mid_pending + queued(origin, old_origin.len() as int),
        exported_node(
            copied,
            graph.shapes@[exposed_of(graph.shapes@, source) as int],
            graph.shapes@,
            graph.needs@,
            parameters,
            solved,
            origin,
            origins,
        ),
        ports_present(graph.shapes@[exposed_of(graph.shapes@, source) as int], graph.needs@, parameters, solved, origins),
        forall|i: u32| old_origin.len() <= i < origin.len() ==> #[trigger] node_refs(copied).contains(i),
    ensures
        export_progress(
            graph,
            parameters,
            solved,
            nodes,
            origin,
            origins,
            filled.update(target as int, true) + Seq::new((origin.len() - old_origin.len()) as nat, |j: int| false),
            pending,
        ),
{
    let added = (origin.len() - old_origin.len()) as nat;
    let filled2 = filled.update(target as int, true) + Seq::new(added, |j: int| false);
    assert(before_pending[before_pending.len() - 1] == (source, target));
    assert(target < old_nodes.len());
    assert(old_origin[target as int] == source);
    assert(filled2.len() == nodes.len());

            assert forall|i: int| 0 <= i < nodes.len() && #[trigger] filled2[i] implies exported_node(
                nodes[i],
                graph.shapes@[exposed_of(graph.shapes@, origin[i]) as int],
                graph.shapes@,
                graph.needs@,
                parameters,
                solved,
                origin,
                origins,
            ) && ports_present(graph.shapes@[exposed_of(graph.shapes@, origin[i]) as int], graph.needs@, parameters, solved, origins) by {
                if i == target as int {
                    assert(origin[i] == old_origin[i]);
                    assert(nodes[i] == copied);
                } else {
                    assert(i < old_origin.len());
                    assert(filled[i]);
                    assert(nodes[i] == old_nodes[i]);
                    assert(origin[i] == old_origin[i]);
                    lemma_exported_kept(
                        old_nodes[i],
                        graph.shapes@[exposed_of(graph.shapes@, old_origin[i]) as int],
                        graph.shapes@,
                        graph.needs@,
                        parameters,
                        solved,
                        old_origin,
                        origin,
                        old_origins,
                        origins,
                    );
                }
            }
            assert forall|t: int| 0 <= t < pending.len() implies (#[trigger] pending[t]).1 < nodes.len() && origin[pending[t].1 as int] == pending[t].0
                && !filled2[pending[t].1 as int] by {
                if t < mid_pending.len() {
                    assert(pending[t] == before_pending[t]);
                    assert(before_pending[t].1 != target) by {
                        assert(before_pending[t].1 != before_pending[before_pending.len() - 1].1);
                    }
                    assert(before_pending[t].1 < old_nodes.len());
                    assert(filled2[pending[t].1 as int] == filled[pending[t].1 as int]);
                } else {
                    let j = t - mid_pending.len();
                    assert(pending[t] == queued(origin, old_origin.len() as int)[j]);
                    assert(filled2[pending[t].1 as int] == false);
                }
            }
            assert forall|a: int, b: int| 0 <= a < pending.len() && 0 <= b < pending.len() && a != b implies (#[trigger] pending[a]).1 != (#[trigger] pending[b]).1 by {
                if a < mid_pending.len() && b < mid_pending.len() {
                    assert(pending[a] == before_pending[a]);
                    assert(pending[b] == before_pending[b]);
                } else if a < mid_pending.len() {
                    assert(pending[a] == before_pending[a]);
                    assert(before_pending[a].1 < old_nodes.len());
                    assert(pending[b] == queued(origin, old_origin.len() as int)[b - mid_pending.len()]);
                } else if b < mid_pending.len() {
                    assert(pending[b] == before_pending[b]);
                    assert(before_pending[b].1 < old_nodes.len());
                    assert(pending[a] == queued(origin, old_origin.len() as int)[a - mid_pending.len()]);
                } else {
                    assert(pending[a] == queued(origin, old_origin.len() as int)[a - mid_pending.len()]);
                    assert(pending[b] == queued(origin, old_origin.len() as int)[b - mid_pending.len()]);
                }
            }
            assert forall|i: int| 0 <= i < nodes.len() && !(#[trigger] filled2[i]) implies exists|t: int| 0 <= t < pending.len() && pending[t].1 == i by {
                if i < old_origin.len() {
                    assert(!filled[i]);
                    let t = choose|t: int| 0 <= t < before_pending.len() && before_pending[t].1 == i;
                    assert(t != before_pending.len() - 1);
                    assert(pending[t] == before_pending[t]);
                } else {
                    let j = i - old_origin.len();
                    assert(pending[mid_pending.len() + j] == queued(origin, old_origin.len() as int)[j]);
                }
            }
            assert forall|i: int| 0 < i < nodes.len() implies #[trigger] child_of_marked(nodes, filled2, i) by {
                if i < old_origin.len() {
                    assert(child_of_marked(old_nodes, filled, i));
                    let j = choose|j: int| 0 <= j < i && filled[j] && node_refs(old_nodes[j]).contains(i as u32);
                    assert(j != target as int);
                    assert(nodes[j] == old_nodes[j]);
                    assert(filled2[j]);
                } else {
                    assert(node_refs(copied).contains(i as u32));
                    assert(nodes[target as int] == copied);
                    assert(filled2[target as int]);
                    assert(0 <= target < i);
                }
            }
    assert(filled2.len() == nodes.len());
    assert(nodes.len() == origin.len());
    assert(forall|i: int| 0 <= i < nodes.len() && #[trigger] filled2[i] ==> exported_node(
        nodes[i],
        graph.shapes@[exposed_of(graph.shapes@, origin[i]) as int],
        graph.shapes@,
        graph.needs@,
        parameters,
        solved,
        origin,
        origins,
    ) && ports_present(graph.shapes@[exposed_of(graph.shapes@, origin[i]) as int], graph.needs@, parameters, solved, origins));
    assert(forall|t: int| 0 <= t < pending.len() ==> (#[trigger] pending[t]).1 < nodes.len() && origin[pending[t].1 as int] == pending[t].0
        && !filled2[pending[t].1 as int]);
    assert(forall|a: int, b: int| 0 <= a < pending.len() && 0 <= b < pending.len() && a != b ==> (#[trigger] pending[a]).1 != (#[trigger] pending[b]).1);
    assert(forall|i: int| 0 <= i < nodes.len() && !(#[trigger] filled2[i]) ==> exists|t: int| 0 <= t < pending.len() && pending[t].1 == i);
}


/// Some bound port below `q` gets number `b`.
pub open spec fn numbered(nodes: Seq<Node>, q: nat, b: int) -> bool {
    exists|k: int| 0 <= k < q && #[trigger] port_bound(nodes, k as u32) && bound_below(nodes, k as nat) == b
}

/// The demands of the ports an arrow binds, in order.
pub open spec fn bound_origins(nodes: Seq<Node>, origins: Seq<NeedId>, q: nat) -> Seq<NeedId>
    decreases q,
{
    if q == 0 {
        Seq::empty()
    } else {
        bound_origins(nodes, origins, (q - 1) as nat) + if port_bound(nodes, (q - 1) as u32) {
            seq![origins[q - 1]]
        } else {
            Seq::empty()
        }
    }
}

proof fn lemma_bound_origins(nodes: Seq<Node>, origins: Seq<NeedId>, q: nat)
    requires
        q <= origins.len(),
        origins.len() <= u32::MAX,
    ensures
        bound_origins(nodes, origins, q).len() == bound_below(nodes, q),
        forall|k: int| 0 <= k < q && #[trigger] port_bound(nodes, k as u32) ==> bound_origins(nodes, origins, q)[bound_below(nodes, k as nat) as int]
            == origins[k],
        forall|b: int| 0 <= b < bound_below(nodes, q) ==> #[trigger] numbered(nodes, q, b),
    decreases q,
{
    if q > 0 {
        lemma_bound_origins(nodes, origins, (q - 1) as nat);
        let prev = bound_origins(nodes, origins, (q - 1) as nat);
        assert forall|k: int| 0 <= k < q && #[trigger] port_bound(nodes, k as u32) implies bound_origins(nodes, origins, q)[bound_below(nodes, k as nat) as int]
            == origins[k] by {
            if k < q - 1 {
                lemma_bound_below_monotone(nodes, (k + 1) as nat, (q - 1) as nat);
                lemma_bound_below_step(nodes, k as nat);
            }
        }
        assert forall|b: int| 0 <= b < bound_below(nodes, q) implies #[trigger] numbered(nodes, q, b) by {
            if b < bound_below(nodes, (q - 1) as nat) {
                assert(numbered(nodes, (q - 1) as nat, b));
                let k = choose|k: int| 0 <= k < q - 1 && #[trigger] port_bound(nodes, k as u32) && bound_below(nodes, k as nat) == b;
            } else {
                assert(bound_below(nodes, (q - 1) as nat) == b);
                assert(port_bound(nodes, (q - 1) as u32));
            }
        }
    }
}

/// The nodes reached from the first node, where each is a child of one
/// before it.
proof fn lemma_reached_from_parents(nodes: Seq<Node>, i: int)
    requires
        0 <= i < nodes.len(),
        nodes.len() <= u32::MAX,
        forall|x: int| 0 < x < nodes.len() ==> #[trigger] child_of_earlier(nodes, x),
    ensures
        reached(nodes, 0, i as u32),
    decreases i,
{
    if i == 0 {
        let p = seq![0u32];
        assert(reached_by(nodes, 0, p, 0));
    } else {
        assert(child_of_earlier(nodes, i));
        let j = choose|j: int| 0 <= j < i && node_refs(nodes[j]).contains(i as u32);
        lemma_reached_from_parents(nodes, j);
        let refs = node_refs(nodes[j]);
        let k = choose|k: int| 0 <= k < refs.len() && refs[k] == i as u32;
        lemma_reach_ref(nodes, 0, j as u32, k);
    }
}

/// What the exported interface is, given the exposed shape each node stands
/// for and the demand each port stands for: the root the graph's root, every
/// node a copy of its shape, every port ranging over its demand's renamed
/// parameters and bound by an arrow, and every node reached from the root.
pub open spec fn exported_with(
    graph: Graph,
    parameters: Map<u32, u32>,
    solved: Seq<BTreeSet<super::conventions::Requirement>>,
    root: ShapeId,
    output: Interface,
    origin: Seq<ShapeId>,
    origins: Seq<NeedId>,
) -> bool {
    &&& output.nodes@.len() == origin.len()
    &&& output.root < output.nodes@.len()
    &&& origin[output.root as int] == exposed_of(graph.shapes@, root)
    &&& forall|i: int, j: int| 0 <= i < origin.len() && 0 <= j < origin.len() && origin[i] == origin[j] ==> i == j
    &&& output.ports@.len() == origins.len()
    &&& origins.len() <= u32::MAX
    &&& distinct(origins)
    &&& forall|k: int| 0 <= k < origins.len() ==> (#[trigger] output.ports@[k])@ == port_content(graph.needs@, parameters, origins[k])
        && port_bound(output.nodes@, k as u32)
    &&& forall|i: int| 0 <= i < output.nodes@.len() ==> exported_node(
        #[trigger] output.nodes@[i],
        graph.shapes@[exposed_of(graph.shapes@, origin[i]) as int],
        graph.shapes@,
        graph.needs@,
        parameters,
        solved,
        origin,
        origins,
    )
    &&& forall|i: u32| i < output.nodes@.len() ==> #[trigger] reached(output.nodes@, output.root, i)
}

/// The interface copies the shapes reached from the root, each exposed shape
/// once, and publishes the ports its arrows bind.
pub open spec fn exports(
    graph: Graph,
    parameters: Map<u32, u32>,
    solved: Seq<BTreeSet<super::conventions::Requirement>>,
    root: ShapeId,
    output: Interface,
) -> bool {
    exists|origin: Seq<ShapeId>, origins: Seq<NeedId>|
        #![trigger exported_with(graph, parameters, solved, root, output, origin, origins)]
        exported_with(graph, parameters, solved, root, output, origin, origins)
}


proof fn lemma_port_number_range(origins: Seq<NeedId>, r: NeedId)
    requires
        origins.len() <= u32::MAX,
    ensures
        port_number(origins, r) matches Some(k) ==> k < origins.len() && origins[k as int] == r,
{
}

/// The ports an exported node names are among the exported ones.
proof fn lemma_exported_resolves(
    node: Node,
    shape: Shape,
    graph: Graph,
    parameters: Map<u32, u32>,
    solved: Seq<BTreeSet<super::conventions::Requirement>>,
    origin: Seq<ShapeId>,
    origins: Seq<NeedId>,
)
    requires
        exported_node(node, shape, graph.shapes@, graph.needs@, parameters, solved, origin, origins),
        origins.len() <= u32::MAX,
    ensures
        node is Arrow ==> {
            &&& (node->port matches Some(q) ==> q < origins.len())
            &&& forall|r: Requirement| #[trigger] node->requirements@.contains(r) && r.0 is Some ==> r.0->0 < origins.len()
        },
{
    match shape {
        Shape::Arrow { needs: m, .. } => {
            match own_port(graph.needs@, solved, m) {
                Some(s) => lemma_port_number_range(origins, root(graph.needs@, s)),
                None => {},
            }
            let row = solved[m as int]@;
            assert forall|r: Requirement| #[trigger] node->requirements@.contains(r) && r.0 is Some implies r.0->0 < origins.len() by {
                let need = choose|need: super::conventions::Requirement| row.contains(need) && parameters.contains_key(need.1) && r == (
                    match need.0 {
                        Some(q) => port_number(origins, root(graph.needs@, q)),
                        None => None,
                    },
                    parameters[need.1],
                );
                lemma_port_number_range(origins, root(graph.needs@, need.0->0));
            }
        },
        _ => {},
    }
}

/// An exported node, its ports renumbered to those its arrows bind, is an
/// exported node under the demands of those ports.
proof fn lemma_renumbered_exported(
    x: int,
    pre_nodes: Seq<Node>,
    node: Node,
    shape: Shape,
    graph: Graph,
    parameters: Map<u32, u32>,
    solved: Seq<BTreeSet<super::conventions::Requirement>>,
    origin: Seq<ShapeId>,
    origins: Seq<NeedId>,
)
    requires
        0 <= x < pre_nodes.len(),
        exported_node(pre_nodes[x], shape, graph.shapes@, graph.needs@, parameters, solved, origin, origins),
        ports_present(shape, graph.needs@, parameters, solved, origins),
        renumbered_node(pre_nodes[x], node, pre_nodes),
        origins.len() <= u32::MAX,
        distinct(origins),
        distinct(bound_origins(pre_nodes, origins, origins.len() as nat)),
    ensures
        exported_node(node, shape, graph.shapes@, graph.needs@, parameters, solved, origin, bound_origins(pre_nodes, origins, origins.len() as nat)),
{
    let fo = bound_origins(pre_nodes, origins, origins.len() as nat);
    lemma_bound_origins(pre_nodes, origins, origins.len() as nat);
    lemma_bound_below_at_most(pre_nodes, origins.len() as nat);
    let needs = graph.needs@;
    // Where a port stands among the old ones and is bound, it stands among
    // the kept ones under its new number; where it is not bound, nowhere.
    assert forall|r: NeedId| #[trigger] origins.contains(r) implies ({
        let k = port_number(origins, r)->0;
        &&& port_number(origins, r) is Some
        &&& port_number(fo, r) == renumbered(pre_nodes, k)
    }) by {
        let i = choose|i: int| 0 <= i < origins.len() && origins[i] == r;
        lemma_port_number_at(origins, i);
        let k = i as u32;
        if port_bound(pre_nodes, k) {
            assert(fo[bound_below(pre_nodes, k as nat) as int] == origins[i]);
            lemma_bound_below_monotone(pre_nodes, (k + 1) as nat, origins.len() as nat);
            lemma_bound_below_step(pre_nodes, k as nat);
            lemma_port_number_at(fo, bound_below(pre_nodes, k as nat) as int);
        } else {
            if exists|b: int| 0 <= b < fo.len() && fo[b] == r {
                let b = choose|b: int| 0 <= b < fo.len() && fo[b] == r;
                assert(numbered(pre_nodes, origins.len() as nat, b));
                let k2 = choose|k2: int| 0 <= k2 < origins.len() && #[trigger] port_bound(pre_nodes, k2 as u32) && bound_below(pre_nodes, k2 as nat) == b;
                assert(fo[b] == origins[k2]);
                assert(k2 == i);
            }
        }
    }
    match shape {
        Shape::Arrow { needs: m, .. } => {
            let row = solved[m as int]@;
            let pre = pre_nodes[x];
            match own_port(needs, solved, m) {
                Some(s) => {
                    let r = root(needs, s);
                    assert(origins.contains(r));
                    let k = port_number(origins, r)->0;
                    lemma_port_number_range(origins, r);
                    assert(binds(pre_nodes[x], k));
                    assert(port_bound(pre_nodes, k));
                },
                None => {},
            }
            let f = |need: Requirement|
                (
                    match need.0 {
                        Some(q) => renumbered(pre_nodes, q),
                        None => None,
                    },
                    need.1,
                );
            let old_set = exported_requirements(row, parameters, needs, origins);
            let new_set = exported_requirements(row, parameters, needs, fo);
            assert forall|y: Requirement| old_set.map(f).contains(y) <==> new_set.contains(y) by {
                if old_set.map(f).contains(y) {
                    let z = choose|z: Requirement| old_set.contains(z) && f(z) == y;
                    let need = choose|need: super::conventions::Requirement| row.contains(need) && parameters.contains_key(need.1) && z == (
                        match need.0 {
                            Some(q) => port_number(origins, root(needs, q)),
                            None => None,
                        },
                        parameters[need.1],
                    );
                    if need.0 is Some {
                        let r = root(needs, need.0->0);
                        assert(origins.contains(r));
                    }
                    assert(new_set.contains(y));
                }
                if new_set.contains(y) {
                    let need = choose|need: super::conventions::Requirement| row.contains(need) && parameters.contains_key(need.1) && y == (
                        match need.0 {
                            Some(q) => port_number(fo, root(needs, q)),
                            None => None,
                        },
                        parameters[need.1],
                    );
                    let z = (
                        match need.0 {
                            Some(q) => port_number(origins, root(needs, q)),
                            None => None,
                        },
                        parameters[need.1],
                    );
                    assert(old_set.contains(z));
                    if need.0 is Some {
                        let r = root(needs, need.0->0);
                        assert(origins.contains(r));
                    }
                    assert(f(z) == y);
                }
            }
            assert(old_set.map(f) =~= new_set);
        },
        _ => {},
    }
}

impl Interface {
    /// The interface of the shape at `root`: the exposed shapes reached from
    /// it, each once, and the ports its arrows bind, with the parameters
    /// the numbering names renamed.
    pub fn export(
        graph: &Graph,
        root: ShapeId,
        parameters: &HashMap<u32, u32>,
        solved: &[BTreeSet<super::conventions::Requirement>],
    ) -> (output: Interface)
        requires
            well_formed(graph.shapes@, graph.needs@),
            graph.shapes.len() <= u32::MAX,
            graph.needs.len() <= u32::MAX,
            root < graph.shapes.len(),
            solved@.len() == graph.needs@.len(),
            rows_in_range(solved@, graph.needs@.len()),
        ensures
            exports(*graph, parameters@, solved@, root, output),
            output.root == 0,
    {
        let (nodes, ports, origin, origins) = gather(graph, root, parameters, solved);
        let mut output = Interface { root: 0, nodes, ports };
        let ghost pre = output.nodes@;
        let ghost pre_ports = output.ports@;
        proof {
            assert forall|x: int| 0 <= x < pre.len() && (#[trigger] pre[x]) is Arrow implies {
                &&& (pre[x]->port matches Some(q) ==> q < pre_ports.len())
                &&& forall|r: Requirement| #[trigger] pre[x]->requirements@.contains(r) && r.0 is Some ==> r.0->0 < pre_ports.len()
            } by {
                lemma_exported_resolves(
                    pre[x],
                    graph.shapes@[exposed_of(graph.shapes@, origin@[x]) as int],
                    *graph,
                    parameters@,
                    solved@,
                    origin@,
                    origins@,
                );
            }
        }
        output.normalize();
        proof {
            let fo = bound_origins(pre, origins@, origins@.len() as nat);
            lemma_bound_origins(pre, origins@, origins@.len() as nat);
            assert(distinct(fo)) by {
                assert forall|a: int, b: int| 0 <= a < fo.len() && 0 <= b < fo.len() && fo[a] == fo[b] implies a == b by {
                    assert(numbered(pre, origins@.len() as nat, a));
                    assert(numbered(pre, origins@.len() as nat, b));
                    let ka = choose|k: int| 0 <= k < origins@.len() && #[trigger] port_bound(pre, k as u32) && bound_below(pre, k as nat) == a;
                    let kb = choose|k: int| 0 <= k < origins@.len() && #[trigger] port_bound(pre, k as u32) && bound_below(pre, k as nat) == b;
                    assert(fo[a] == origins@[ka]);
                    assert(fo[b] == origins@[kb]);
                }
            }
            assert forall|i: int| 0 <= i < output.nodes@.len() implies exported_node(
                #[trigger] output.nodes@[i],
                graph.shapes@[exposed_of(graph.shapes@, origin@[i]) as int],
                graph.shapes@,
                graph.needs@,
                parameters@,
                solved@,
                origin@,
                fo,
            ) by {
                lemma_renumbered_exported(
                    i,
                    pre,
                    output.nodes@[i],
                    graph.shapes@[exposed_of(graph.shapes@, origin@[i]) as int],
                    *graph,
                    parameters@,
                    solved@,
                    origin@,
                    origins@,
                );
            }
            assert forall|k: int| 0 <= k < fo.len() implies (#[trigger] output.ports@[k])@ == port_content(graph.needs@, parameters@, fo[k])
                && port_bound(output.nodes@, k as u32) by {
                assert(numbered(pre, origins@.len() as nat, k));
                let q = choose|q: int| 0 <= q < origins@.len() && #[trigger] port_bound(pre, q as u32) && bound_below(pre, q as nat) == k;
                assert(fo[k] == origins@[q]);
                assert(output.ports@[k]@ == pre_ports[q]@);
                let x = choose|x: int| 0 <= x < pre.len() && binds(#[trigger] pre[x], q as u32);
                assert(renumbered_node(pre[x], output.nodes@[x], pre));
                assert(binds(output.nodes@[x], k as u32));
            }
            assert forall|x: int| 0 < x < output.nodes@.len() implies #[trigger] child_of_earlier(output.nodes@, x) by {
                assert(child_of_earlier(pre, x));
                let j = choose|j: int| 0 <= j < x && node_refs(pre[j]).contains(x as u32);
                assert(renumbered_node(pre[j], output.nodes@[j], pre));
                assert(node_refs(output.nodes@[j]) == node_refs(pre[j]));
            }
            assert forall|i: u32| i < output.nodes@.len() implies #[trigger] reached(output.nodes@, output.root, i) by {
                lemma_reached_from_parents(output.nodes@, i as int);
            }
            lemma_bound_below_at_most(pre, origins@.len() as nat);
            assert(output.nodes@.len() == origin@.len());
            assert(output.root == 0);
            assert(output.root < output.nodes@.len());
            assert(origin@[output.root as int] == exposed_of(graph.shapes@, root));
            assert(output.ports@.len() == fo.len());
            assert(fo.len() <= u32::MAX);
            assert(exported_with(*graph, parameters@, solved@, root, output, origin@, fo));
        }
        output
    }
}

} // verus!
