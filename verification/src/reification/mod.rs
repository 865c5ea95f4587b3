//! Structural runtime type representations. A representation is a finite
//! graph of nodes, and aliases stay edges of it, so a recursive type never
//! unfolds into an infinite tree.
pub mod construction;
pub mod conventions;
pub mod fitting;
pub mod fixpoint;
pub mod interface;
pub mod recipe;
pub mod solve;

use vstd::prelude::*;

use crate::types::FixedInt;

verus! {

#[derive(Debug, Clone, Copy, PartialEq, Eq, Structural)]
pub enum Intrinsic {
    Upcast,
    Downcast,
    Decode,
}

#[derive(Debug, Clone, Copy, PartialEq, Eq, Structural)]
pub enum Direction {
    ToJs,
    FromJs,
}

/// A runtime type descriptor: its nodes, the first of them the root.
#[derive(Debug, Clone, PartialEq, Eq)]
pub struct Descriptor {
    pub nodes: Vec<Node>,
}

#[derive(Debug, Clone, PartialEq, Eq)]
pub enum Node {
    Nat,
    Int,
    Fixed(FixedInt),
    Real,
    String,
    Boolean,
    Any,
    JsValue,
    Array(u32),
    Arrow([u32; 2]),
    Extend([u32; 2]),
    Struct(Vec<(String, u32)>),
    Sum(Vec<(String, u32)>),
    Alias(u32),
    Parameter(u32),
}

/// The nodes a node refers to.
pub open spec fn references(node: Node) -> Seq<u32> {
    match node {
        Node::Array(i) | Node::Alias(i) => seq![i],
        Node::Arrow(pair) | Node::Extend(pair) => seq![pair[0], pair[1]],
        Node::Struct(fields) | Node::Sum(fields) => fields@.map_values(|f: (String, u32)| f.1),
        _ => Seq::empty(),
    }
}

/// Whether `a` sorts before `b`, character by character, a proper prefix
/// first.
pub open spec fn text_below(a: Seq<char>, b: Seq<char>) -> bool
    decreases a.len(),
{
    if b.len() == 0 {
        false
    } else if a.len() == 0 {
        true
    } else if a[0] != b[0] {
        a[0] < b[0]
    } else {
        text_below(a.drop_first(), b.drop_first())
    }
}

/// Field names strictly increasing: sorted, and each one once.
pub open spec fn sorted_fields(fields: Seq<(String, u32)>) -> bool {
    forall|i: int| 0 <= i < fields.len() - 1 ==> text_below(#[trigger] fields[i].0@, fields[i + 1].0@)
}

/// The first thing wrong with one node, read on its own.
pub open spec fn node_error(node: Node, parameters: int, count: int) -> Option<Seq<char>> {
    match node {
        Node::Parameter(index) if index >= parameters => Some("invalid runtime type parameter"@),
        Node::Struct(fields) if !sorted_fields(fields@) => Some(
            "runtime type fields must be unique and sorted"@,
        ),
        Node::Sum(fields) if !sorted_fields(fields@) => Some(
            "runtime type fields must be unique and sorted"@,
        ),
        _ => if exists|k: int| 0 <= k < references(node).len() && references(node)[k] >= count {
            Some("invalid runtime type descriptor reference"@)
        } else {
            None
        },
    }
}

/// The first error of the nodes from `i` on.
pub open spec fn first_node_error(nodes: Seq<Node>, i: int, parameters: int) -> Option<Seq<char>>
    decreases nodes.len() - i,
{
    if i >= nodes.len() || i < 0 {
        None
    } else if node_error(nodes[i], parameters, nodes.len() as int) is Some {
        node_error(nodes[i], parameters, nodes.len() as int)
    } else {
        first_node_error(nodes, i + 1, parameters)
    }
}

/// What a node contributes to the head of an extension: a plain value
/// (tag 0), an abstract parameter (tag 1), or a row (tag 2) of a kind
/// (`true` for a record) with the names of its fields.
pub type Head = (u8, bool, Seq<Seq<char>>);

pub open spec fn value_head() -> Head {
    (0u8, false, Seq::empty())
}

pub open spec fn parameter_head() -> Head {
    (1u8, false, Seq::empty())
}

pub open spec fn row_head(record: bool, fields: Seq<Seq<char>>) -> Head {
    (2u8, record, fields)
}

pub open spec fn field_names(fields: Seq<(String, u32)>) -> Seq<Seq<char>> {
    fields.map_values(|f: (String, u32)| f.0@)
}

/// No name in both lists.
pub open spec fn disjoint_names(xs: Seq<Seq<char>>, ys: Seq<Seq<char>>) -> bool {
    forall|i: int, j: int| 0 <= i < xs.len() && 0 <= j < ys.len() ==> #[trigger] xs[i] != #[trigger] ys[j]
}

/// The head of a node, given the heads of the nodes it extends or aliases;
/// `None` where an extension cannot be formed.
pub open spec fn head_step(node: Node, heads: Seq<Head>) -> Option<Head> {
    match node {
        Node::Alias(next) => Some(heads[next as int]),
        Node::Extend(pair) => combine_heads(heads[pair[0] as int], heads[pair[1] as int]),
        Node::Struct(fields) => Some(row_head(true, field_names(fields@))),
        Node::Sum(fields) => Some(row_head(false, field_names(fields@))),
        Node::Parameter(_) => Some(parameter_head()),
        _ => Some(value_head()),
    }
}

/// An extension of one row by another, or by an abstract parameter.
pub open spec fn combine_heads(a: Head, b: Head) -> Option<Head> {
    if a.0 == 2 && b.0 == 1 {
        Some(a)
    } else if a.0 == 1 && b.0 == 2 {
        Some(b)
    } else if a.0 == 2 && b.0 == 2 && a.1 == b.1 && disjoint_names(a.2, b.2) {
        Some(row_head(a.1, a.2 + b.2))
    } else {
        None
    }
}

/// The alias and extension edges out of a node: the ones no constructor
/// guards.
pub open spec fn unguarded(node: Node) -> Seq<u32> {
    match node {
        Node::Alias(next) => seq![next],
        Node::Extend(pair) => seq![pair[0], pair[1]],
        _ => Seq::empty(),
    }
}

/// `b` is the target of an alias or extension edge out of node `a`.
pub open spec fn edge(nodes: Seq<Node>, a: int, b: int) -> bool {
    exists|k: int| 0 <= k < unguarded(nodes[a]).len() && unguarded(nodes[a])[k] as int == b
}

/// A rank that every alias and extension edge decreases.
pub open spec fn rank_decreases(nodes: Seq<Node>, rank: Seq<nat>) -> bool {
    &&& rank.len() == nodes.len()
    &&& forall|x: int, k: int|
        0 <= x < nodes.len() && 0 <= k < unguarded(nodes[x]).len() ==> rank[#[trigger] unguarded(
            nodes[x],
        )[k] as int] < rank[x]
}

/// A head for every node, each following from the heads of its targets.
pub open spec fn heads_follow(nodes: Seq<Node>, heads: Seq<Head>) -> bool {
    &&& heads.len() == nodes.len()
    &&& forall|x: int| 0 <= x < nodes.len() ==> head_step(nodes[x], heads) == Some(#[trigger] heads[x])
}

/// The alias and extension edges have no cycle.
pub open spec fn unguarded_acyclic(nodes: Seq<Node>) -> bool {
    exists|rank: Seq<nat>| rank_decreases(nodes, rank)
}

/// The descriptor's alias and extension edges have no cycle, and every
/// extension joins rows of one kind with no field twice: witnessed by a
/// rank that every unguarded edge decreases, and a head for every node.
pub open spec fn extensions_sound(nodes: Seq<Node>) -> bool {
    exists|heads: Seq<Head>, rank: Seq<nat>|
        #![trigger heads_follow(nodes, heads), rank_decreases(nodes, rank)]
        heads_follow(nodes, heads) && rank_decreases(nodes, rank)
}

/// The texts of a list of strings.
pub open spec fn names_of(s: Seq<String>) -> Seq<Seq<char>> {
    s.map_values(|n: String| n@)
}

/// `a` sorts before `b`.
fn below(a: &String, b: &String) -> (r: bool)
    ensures
        r == text_below(a@, b@),
{
    let x = crate::text::chars_of(a.as_str());
    let y = crate::text::chars_of(b.as_str());
    let mut i: usize = 0;
    proof {
        assert(x@.skip(0) =~= x@);
        assert(y@.skip(0) =~= y@);
    }
    while i < x.len() && i < y.len() && x[i] == y[i]
        invariant
            x@ == a@,
            y@ == b@,
            i <= x.len(),
            i <= y.len(),
            text_below(a@, b@) == text_below(x@.skip(i as int), y@.skip(i as int)),
        decreases x.len() - i,
    {
        proof {
            assert(x@.skip(i as int).drop_first() =~= x@.skip(i + 1));
            assert(y@.skip(i as int).drop_first() =~= y@.skip(i + 1));
        }
        i = i + 1;
    }
    proof {
        assert(x@.skip(0) =~= x@);
        assert(y@.skip(0) =~= y@);
    }
    if i == y.len() {
        false
    } else if i == x.len() {
        true
    } else {
        x[i] < y[i]
    }
}

fn fields_sorted(fields: &Vec<(String, u32)>) -> (r: bool)
    ensures
        r == sorted_fields(fields@),
{
    if fields.len() == 0 {
        return true;
    }
    let mut i: usize = 0;
    while i + 1 < fields.len()
        invariant
            fields.len() > 0,
            i + 1 <= fields.len(),
            forall|k: int| 0 <= k < i ==> text_below(#[trigger] fields@[k].0@, fields@[k + 1].0@),
        decreases fields.len() - i,
    {
        if !below(&fields[i].0, &fields[i + 1].0) {
            return false;
        }
        i = i + 1;
    }
    true
}

/// The first thing wrong with one node, read on its own.
fn node_problem(node: &Node, parameters: usize, count: usize) -> (problem: Option<&'static str>)
    ensures
        problem matches Some(m) ==> node_error(*node, parameters as int, count as int) == Some(m@),
        problem is None ==> node_error(*node, parameters as int, count as int) is None,
{
    match node {
        Node::Parameter(index) => {
            if *index as usize >= parameters {
                return Some("invalid runtime type parameter");
            }
        },
        Node::Struct(fields) | Node::Sum(fields) => {
            if !fields_sorted(fields) {
                return Some("runtime type fields must be unique and sorted");
            }
        },
        _ => {},
    }
    let ghost refs = references(*node);
    let bad = match node {
        Node::Array(i) | Node::Alias(i) => *i as usize >= count,
        Node::Arrow(pair) | Node::Extend(pair) => pair[0] as usize >= count || pair[1] as usize
            >= count,
        Node::Struct(fields) | Node::Sum(fields) => {
            let mut found = false;
            let mut k: usize = 0;
            while k < fields.len()
                invariant
                    k <= fields.len(),
                    refs == fields@.map_values(|f: (String, u32)| f.1),
                    found == exists|j: int| 0 <= j < k && refs[j] >= count,
                decreases fields.len() - k,
            {
                proof {
                    assert(refs[k as int] == fields@[k as int].1);
                }
                if fields[k].1 as usize >= count {
                    found = true;
                }
                k = k + 1;
            }
            found
        },
        _ => false,
    };
    proof {
        if bad {
            match *node {
                Node::Array(i) | Node::Alias(i) => {
                    assert(refs[0] >= count);
                },
                Node::Arrow(pair) | Node::Extend(pair) => {
                    if pair[0] >= count {
                        assert(refs[0] >= count);
                    } else {
                        assert(refs[1] >= count);
                    }
                },
                _ => {},
            }
        }
    }
    if bad {
        Some("invalid runtime type descriptor reference")
    } else {
        None
    }
}

/// A head as validation computes it: field names listed.
enum HeadOf {
    Value,
    Parameter,
    Row(bool, Vec<String>),
}

impl HeadOf {
    spec fn view(&self) -> Head {
        match self {
            HeadOf::Value => value_head(),
            HeadOf::Parameter => parameter_head(),
            HeadOf::Row(record, names) => row_head(*record, names_of(names@)),
        }
    }

    fn copy(&self) -> (c: HeadOf)
        ensures
            c.view() == self.view(),
    {
        match self {
            HeadOf::Value => HeadOf::Value,
            HeadOf::Parameter => HeadOf::Parameter,
            HeadOf::Row(record, names) => HeadOf::Row(*record, copy_names(names, &Vec::new())),
        }
    }
}

/// `prefix`, then copies of `names`.
fn copy_names(names: &Vec<String>, prefix: &Vec<String>) -> (all: Vec<String>)
    ensures
        names_of(all@) == names_of(prefix@) + names_of(names@),
{
    let mut all: Vec<String> = Vec::new();
    let mut i: usize = 0;
    while i < prefix.len()
        invariant
            i <= prefix.len(),
            names_of(all@) == names_of(prefix@.take(i as int)),
        decreases prefix.len() - i,
    {
        all.push(prefix[i].clone());
        proof {
            assert(names_of(prefix@.take(i + 1)) =~= names_of(prefix@.take(i as int)).push(prefix@[i as int]@));
            assert(names_of(all@) =~= names_of(prefix@.take(i as int)).push(prefix@[i as int]@));
        }
        i = i + 1;
    }
    let mut j: usize = 0;
    while j < names.len()
        invariant
            i == prefix.len(),
            j <= names.len(),
            names_of(all@) == names_of(prefix@.take(i as int)) + names_of(names@.take(j as int)),
        decreases names.len() - j,
    {
        let ghost before = all@;
        all.push(names[j].clone());
        proof {
            assert(names_of(all@) =~= names_of(before).push(names@[j as int]@));
            assert(names_of(names@.take(j + 1)) =~= names_of(names@.take(j as int)).push(names@[j as int]@));
            assert(names_of(all@) =~= names_of(prefix@.take(i as int)) + names_of(names@.take(j + 1)));
        }
        j = j + 1;
    }
    proof {
        assert(prefix@.take(i as int) =~= prefix@);
        assert(names@.take(j as int) =~= names@);
    }
    all
}

/// The head of a struct or sum's own fields.
fn row_of(record: bool, fields: &Vec<(String, u32)>) -> (head: HeadOf)
    ensures
        head.view() == row_head(record, field_names(fields@)),
{
    let mut names: Vec<String> = Vec::new();
    let mut i: usize = 0;
    while i < fields.len()
        invariant
            i <= fields.len(),
            names_of(names@) == field_names(fields@.take(i as int)),
        decreases fields.len() - i,
    {
        names.push(fields[i].0.clone());
        proof {
            assert(field_names(fields@.take(i + 1)) =~= field_names(fields@.take(i as int)).push(fields@[i as int].0@));
            assert(names_of(names@) =~= field_names(fields@.take(i as int)).push(fields@[i as int].0@));
        }
        i = i + 1;
    }
    proof {
        assert(fields@.take(fields.len() as int) =~= fields@);
    }
    HeadOf::Row(record, names)
}

/// Whether two name lists share a name.
fn overlap(xs: &Vec<String>, ys: &Vec<String>) -> (r: bool)
    ensures
        r == !disjoint_names(names_of(xs@), names_of(ys@)),
{
    let mut i: usize = 0;
    while i < xs.len()
        invariant
            i <= xs.len(),
            forall|a: int, b: int| 0 <= a < i && 0 <= b < ys.len() ==> #[trigger] xs@[a]@ != #[trigger] ys@[b]@,
        decreases xs.len() - i,
    {
        let mut j: usize = 0;
        while j < ys.len()
            invariant
                i < xs.len(),
                j <= ys.len(),
                forall|a: int, b: int| 0 <= a < i && 0 <= b < ys.len() ==> #[trigger] xs@[a]@ != #[trigger] ys@[b]@,
                forall|b: int| 0 <= b < j ==> #[trigger] ys@[b]@ != xs@[i as int]@,
            decreases ys.len() - j,
        {
            if xs[i] == ys[j] {
                proof {
                    assert(names_of(xs@)[i as int] == names_of(ys@)[j as int]);
                }
                return true;
            }
            j = j + 1;
        }
        i = i + 1;
    }
    proof {
        assert forall|a: int, b: int| 0 <= a < names_of(xs@).len() && 0 <= b < names_of(ys@).len() implies #[trigger] names_of(xs@)[a] != #[trigger] names_of(ys@)[b] by {
            assert(xs@[a]@ != ys@[b]@);
        }
    }
    false
}

/// An extension of one head by another.
fn combine(a: &HeadOf, b: &HeadOf) -> (r: Result<HeadOf, &'static str>)
    ensures
        r matches Ok(h) ==> combine_heads(a.view(), b.view()) == Some(h.view()),
        r is Err ==> combine_heads(a.view(), b.view()) is None,
        r matches Err(e) ==> e@ == "duplicate runtime row field"@ || e@ == "invalid runtime row extension"@,
{
    match (a, b) {
        (HeadOf::Row(_, _), HeadOf::Parameter) => Ok(a.copy()),
        (HeadOf::Parameter, HeadOf::Row(_, _)) => Ok(b.copy()),
        (HeadOf::Row(x, xs), HeadOf::Row(y, ys)) => {
            if *x != *y {
                return Err("invalid runtime row extension");
            }
            if overlap(xs, ys) {
                return Err("duplicate runtime row field");
            }
            Ok(HeadOf::Row(*x, copy_names(ys, xs)))
        },
        _ => Err("invalid runtime row extension"),
    }
}


/// How many nodes a visit table still marks unvisited.
spec fn unvisited(done: Seq<u8>) -> nat
    decreases done.len(),
{
    if done.len() == 0 {
        0
    } else {
        unvisited(done.drop_last()) + if done.last() == 0 {
            1nat
        } else {
            0nat
        }
    }
}

proof fn lemma_unvisited_mark(done: Seq<u8>, i: int, v: u8)
    requires
        0 <= i < done.len(),
        done[i] == 0,
        v != 0,
    ensures
        unvisited(done.update(i, v)) + 1 == unvisited(done),
    decreases done.len(),
{
    if i < done.len() - 1 {
        assert(done.update(i, v).drop_last() =~= done.drop_last().update(i, v));
        lemma_unvisited_mark(done.drop_last(), i, v);
    } else {
        assert(done.update(i, v).drop_last() =~= done.drop_last());
    }
}

proof fn lemma_unvisited_keep(done: Seq<u8>, i: int, v: u8)
    requires
        0 <= i < done.len(),
        done[i] != 0,
        v != 0,
    ensures
        unvisited(done.update(i, v)) == unvisited(done),
    decreases done.len(),
{
    if i < done.len() - 1 {
        assert(done.update(i, v).drop_last() =~= done.drop_last().update(i, v));
        lemma_unvisited_keep(done.drop_last(), i, v);
    } else {
        assert(done.update(i, v).drop_last() =~= done.drop_last());
    }
}

spec fn heads_of(heads: Seq<HeadOf>) -> Seq<Head> {
    heads.map_values(|h: HeadOf| h.view())
}

/// A node whose validation finished: its head follows from its targets',
/// which finished before it, with lower ranks.
spec fn finished(nodes: Seq<Node>, done: Seq<u8>, heads: Seq<Head>, rank: Seq<nat>, x: int) -> bool {
    &&& head_step(nodes[x], heads) == Some(heads[x])
    &&& forall|k: int|
        0 <= k < unguarded(nodes[x]).len() ==> done[#[trigger] unguarded(nodes[x])[k] as int] == 2
            && rank[unguarded(nodes[x])[k] as int] < rank[x]
}

/// Every reference in range.
pub open spec fn references_in_range(nodes: Seq<Node>) -> bool {
    forall|x: int, k: int|
        0 <= x < nodes.len() && 0 <= k < references(nodes[x]).len() ==> #[trigger] references(
            nodes[x],
        )[k] < nodes.len()
}

/// The shape of the depth-first work stack: each entry records in `from`
/// the nearest entry below it that is being finished, whose node has the
/// entry's node as an alias or extension target.
spec fn stack_shaped(nodes: Seq<Node>, work: Seq<(usize, bool)>, from: Seq<int>) -> bool {
    &&& from.len() == work.len()
    &&& forall|i: int| 0 <= i < work.len() ==> (#[trigger] work[i]).0 < nodes.len()
    &&& forall|i: int| 0 <= i < work.len() ==> -1 <= #[trigger] from[i] < i
    &&& forall|i: int|
        0 <= i < work.len() && #[trigger] from[i] >= 0 ==> work[from[i]].1 && edge(
            nodes,
            work[from[i]].0 as int,
            work[i].0 as int,
        )
    &&& forall|i: int, j: int|
        #![trigger from[i], work[j]]
        0 <= i < work.len() && from[i] < j < i ==> !work[j].1
}

/// Every target of a node being finished is finished, or still waits on the
/// stack above it.
spec fn targets_pending(nodes: Seq<Node>, work: Seq<(usize, bool)>, from: Seq<int>, done: Seq<u8>) -> bool {
    forall|q: int, k: int|
        #![trigger work[q], unguarded(nodes[work[q].0 as int])[k]]
        0 <= q < work.len() && work[q].1 && 0 <= k < unguarded(nodes[work[q].0 as int]).len() ==> done[unguarded(
            nodes[work[q].0 as int],
        )[k] as int] == 2 || exists|p: int|
            q < p < work.len() && from[p] == q && work[p].0 as int == unguarded(
                nodes[work[q].0 as int],
            )[k] as int
}

/// The nodes marked in progress are exactly those being finished on the
/// stack, each there once.
spec fn gray_on_stack(n: int, work: Seq<(usize, bool)>, done: Seq<u8>) -> bool {
    &&& forall|x: int|
        0 <= x < n ==> (#[trigger] done[x] == 1 <==> exists|i: int|
            0 <= i < work.len() && work[i] == (x as usize, true))
    &&& forall|i: int, j: int|
        0 <= i < j < work.len() && (#[trigger] work[i]).1 && (#[trigger] work[j]).1 ==> work[i].0
            != work[j].0
}

proof fn lemma_unguarded_referenced(nodes: Seq<Node>, x: int, k: int)
    requires
        references_in_range(nodes),
        0 <= x < nodes.len(),
        0 <= k < unguarded(nodes[x]).len(),
    ensures
        unguarded(nodes[x])[k] < nodes.len(),
{
    assert(references(nodes[x])[k] == unguarded(nodes[x])[k]);
}

/// A head step reads only the heads of the node's targets.
proof fn lemma_head_step_local(node: Node, a: Seq<Head>, b: Seq<Head>)
    requires
        forall|k: int|
            0 <= k < unguarded(node).len() ==> a[#[trigger] unguarded(node)[k] as int] == b[unguarded(
                node,
            )[k] as int],
    ensures
        head_step(node, a) == head_step(node, b),
{
    match node {
        Node::Alias(next) => {
            assert(unguarded(node)[0] == next);
        },
        Node::Extend(pair) => {
            assert(unguarded(node)[0] == pair[0]);
            assert(unguarded(node)[1] == pair[1]);
        },
        _ => {},
    }
}

proof fn lemma_edge_rank(nodes: Seq<Node>, rank: Seq<nat>, a: int, b: int)
    requires
        rank_decreases(nodes, rank),
        0 <= a < nodes.len(),
        edge(nodes, a, b),
    ensures
        rank[b] < rank[a],
{
    let k = choose|k: int| 0 <= k < unguarded(nodes[a]).len() && unguarded(nodes[a])[k] as int == b;
    assert(rank[unguarded(nodes[a])[k] as int] < rank[a]);
}

/// Down the stack, ranks grow: every node being finished below an entry has
/// a higher rank than the entry's node.
proof fn lemma_stack_ranks(
    nodes: Seq<Node>,
    work: Seq<(usize, bool)>,
    from: Seq<int>,
    rank: Seq<nat>,
    p: int,
    q: int,
)
    requires
        rank_decreases(nodes, rank),
        stack_shaped(nodes, work, from),
        0 <= q < p < work.len(),
        work[q].1,
    ensures
        rank[work[p].0 as int] < rank[work[q].0 as int],
    decreases p - q,
{
    let f = from[p];
    if f < q {
        assert(!work[q].1);
    }
    assert(work[f].1 && edge(nodes, work[f].0 as int, work[p].0 as int));
    assert(work[f].0 < nodes.len());
    lemma_edge_rank(nodes, rank, work[f].0 as int, work[p].0 as int);
    if f > q {
        lemma_stack_ranks(nodes, work, from, rank, f, q);
    }
}

/// A node met again while it is being finished closes a cycle of alias and
/// extension edges.
proof fn lemma_cycle(nodes: Seq<Node>, work: Seq<(usize, bool)>, from: Seq<int>, done: Seq<u8>)
    requires
        stack_shaped(nodes, work, from),
        gray_on_stack(nodes.len() as int, work, done),
        work.len() > 0,
        !work.last().1,
        done[work.last().0 as int] == 1,
    ensures
        !unguarded_acyclic(nodes),
{
    let p = work.len() - 1;
    let at = work[p].0 as int;
    assert(0 <= at < nodes.len());
    let i = choose|i: int| 0 <= i < work.len() && work[i] == (at as usize, true);
    if unguarded_acyclic(nodes) {
        let rank = choose|rank: Seq<nat>| rank_decreases(nodes, rank);
        assert(i != p);
        lemma_stack_ranks(nodes, work, from, rank, p, i);
    }
}

/// The heads of a chosen witness of soundness.
spec fn witness_heads(nodes: Seq<Node>) -> Seq<Head> {
    (choose|heads: Seq<Head>, rank: Seq<nat>|
        heads_follow(nodes, heads) && rank_decreases(nodes, rank)).0
}

proof fn lemma_sound_witness(nodes: Seq<Node>) -> (heads: Seq<Head>)
    requires
        extensions_sound(nodes),
    ensures
        heads == witness_heads(nodes),
        heads_follow(nodes, heads),
        unguarded_acyclic(nodes),
{
    let (heads, rank) = choose|heads: Seq<Head>, rank: Seq<nat>|
        heads_follow(nodes, heads) && rank_decreases(nodes, rank);
    heads
}

/// Popping an entry whose node is already finished keeps the stack's shape.
proof fn lemma_pop_stack(nodes: Seq<Node>, work: Seq<(usize, bool)>, from: Seq<int>, done: Seq<u8>, after: Seq<u8>)
    requires
        nodes.len() <= usize::MAX,
        references_in_range(nodes),
        stack_shaped(nodes, work, from),
        targets_pending(nodes, work, from, done),
        gray_on_stack(nodes.len() as int, work, done),
        done.len() == nodes.len(),
        work.len() > 0,
        after.len() == done.len(),
        after[work.last().0 as int] == 2,
        forall|x: int| 0 <= x < done.len() && x != work.last().0 ==> after[x] == done[x],
        !work.last().1 ==> done[work.last().0 as int] == 2,
    ensures
        stack_shaped(nodes, work.drop_last(), from.drop_last()),
        targets_pending(nodes, work.drop_last(), from.drop_last(), after),
        gray_on_stack(nodes.len() as int, work.drop_last(), after),
{
    let p = work.len() - 1;
    let at = work[p].0 as int;
    let w = work.drop_last();
    let f = from.drop_last();
    assert forall|q: int, k: int|
        #![trigger w[q], unguarded(nodes[w[q].0 as int])[k]]
        0 <= q < w.len() && w[q].1 && 0 <= k < unguarded(nodes[w[q].0 as int]).len() implies after[unguarded(
            nodes[w[q].0 as int],
        )[k] as int] == 2 || exists|p2: int|
            q < p2 < w.len() && f[p2] == q && w[p2].0 as int == unguarded(nodes[w[q].0 as int])[k] as int by {
        assert(work[q] == w[q]);
        assert(work[q].0 < nodes.len());
        lemma_unguarded_referenced(nodes, w[q].0 as int, k);
        let c = unguarded(nodes[w[q].0 as int])[k] as int;
        if done[c] == 2 {
            assert(c == at || after[c] == done[c]);
        } else {
            let p2 = choose|p2: int| q < p2 < work.len() && from[p2] == q && work[p2].0 as int == c;
            if p2 == p {
                assert(after[c] == 2);
            } else {
                assert(w[p2] == work[p2] && f[p2] == from[p2]);
            }
        }
    }
    assert forall|x: int| 0 <= x < nodes.len() implies (#[trigger] after[x] == 1 <==> exists|i: int|
        0 <= i < w.len() && w[i] == (x as usize, true)) by {
        if x == at {
            if exists|i: int| 0 <= i < w.len() && w[i] == (x as usize, true) {
                let i = choose|i: int| 0 <= i < w.len() && w[i] == (x as usize, true);
                assert(work[i] == w[i]);
                if work[p].1 {
                    assert(work[i].1 && work[p].1 && i < p);
                } else {
                    assert(done[x] == 1);
                }
            }
        } else {
            assert(after[x] == done[x]);
            if done[x] == 1 {
                assert(exists|i: int| 0 <= i < work.len() && work[i] == (x as usize, true));
                let i = choose|i: int| 0 <= i < work.len() && work[i] == (x as usize, true);
                assert(work[i].0 == x as usize);
                assert(i != p);
                assert(w[i] == work[i]);
            }
            if exists|i: int| 0 <= i < w.len() && w[i] == (x as usize, true) {
                let i = choose|i: int| 0 <= i < w.len() && w[i] == (x as usize, true);
                assert(work[i] == w[i]);
            }
        }
    }
    assert forall|i: int, j: int|
        0 <= i < j < w.len() && (#[trigger] w[i]).1 && (#[trigger] w[j]).1 implies w[i].0 != w[j].0 by {
        assert(work[i] == w[i] && work[j] == w[j]);
    }
    assert forall|i: int| 0 <= i < w.len() && #[trigger] f[i] >= 0 implies w[f[i]].1 && edge(
        nodes,
        w[f[i]].0 as int,
        w[i].0 as int,
    ) by {
        assert(work[i] == w[i] && from[i] == f[i]);
        assert(work[from[i]] == w[f[i]]);
    }
    assert forall|i: int, j: int|
        #![trigger f[i], w[j]]
        0 <= i < w.len() && f[i] < j < i implies !w[j].1 by {
        assert(work[i] == w[i] && from[i] == f[i]);
        assert(work[j] == w[j]);
        assert(!work[j].1);
    }
    assert forall|i: int| 0 <= i < w.len() implies (#[trigger] w[i]).0 < nodes.len() by {
        assert(work[i] == w[i]);
    }
    assert forall|i: int| 0 <= i < w.len() implies -1 <= #[trigger] f[i] < i by {
        assert(from[i] == f[i]);
    }
}

/// The stack after opening its top entry: that entry turns into the entry
/// that finishes its node, and entries for the node's targets go on top.
spec fn opened_work(nodes: Seq<Node>, work: Seq<(usize, bool)>) -> Seq<(usize, bool)> {
    let at = work.last().0;
    work.drop_last().push((at, true)) + unguarded(nodes[at as int]).map_values(
        |c: u32| (c as usize, false),
    )
}

spec fn opened_from(nodes: Seq<Node>, work: Seq<(usize, bool)>, from: Seq<int>) -> Seq<int> {
    let p = work.len() - 1;
    from.drop_last().push(from[p]) + Seq::new(unguarded(nodes[work.last().0 as int]).len(), |i: int| p)
}

proof fn lemma_opened_entries(nodes: Seq<Node>, work: Seq<(usize, bool)>, from: Seq<int>)
    requires
        from.len() == work.len(),
        work.len() > 0,
    ensures
        ({
            let p = work.len() - 1;
            let at = work[p].0;
            let kids = unguarded(nodes[at as int]);
            let w = opened_work(nodes, work);
            let f = opened_from(nodes, work, from);
            &&& w.len() == work.len() + kids.len()
            &&& f.len() == w.len()
            &&& forall|i: int| 0 <= i < p ==> w[i] == work[i] && f[i] == from[i]
            &&& w[p] == (at, true) && f[p] == from[p]
            &&& forall|i: int|
                p < i < w.len() ==> w[i] == (kids[i - p - 1] as usize, false) && f[i] == p
        }),
{
}

proof fn lemma_open_shape(nodes: Seq<Node>, work: Seq<(usize, bool)>, from: Seq<int>)
    requires
        references_in_range(nodes),
        stack_shaped(nodes, work, from),
        work.len() > 0,
    ensures
        stack_shaped(nodes, opened_work(nodes, work), opened_from(nodes, work, from)),
{
    lemma_opened_entries(nodes, work, from);
    let p = work.len() - 1;
    let at = work[p].0;
    let w = opened_work(nodes, work);
    let f = opened_from(nodes, work, from);
    assert forall|i: int| 0 <= i < w.len() implies (#[trigger] w[i]).0 < nodes.len() by {
        if i > p {
            lemma_unguarded_referenced(nodes, at as int, i - p - 1);
        } else if i < p {
            assert(work[i].0 < nodes.len());
        }
    }
    assert forall|i: int| 0 <= i < w.len() && #[trigger] f[i] >= 0 implies w[f[i]].1 && edge(
        nodes,
        w[f[i]].0 as int,
        w[i].0 as int,
    ) by {
        if i > p {
            assert(unguarded(nodes[at as int])[i - p - 1] as int == w[i].0 as int);
        } else {
            assert(from[i] >= 0 ==> work[from[i]].1 && edge(nodes, work[from[i]].0 as int, work[i].0 as int));
            assert(from[i] < i);
            assert(w[f[i]] == work[from[i]]);
        }
    }
    assert forall|i: int, j: int|
        #![trigger f[i], w[j]]
        0 <= i < w.len() && f[i] < j < i implies !w[j].1 by {
        if i <= p {
            assert(from[i] < j < i ==> !work[j].1);
            assert(w[j] == work[j]);
        }
    }
    assert forall|i: int| 0 <= i < w.len() implies -1 <= #[trigger] f[i] < i by {
        if i <= p {
            assert(-1 <= from[i] < i);
        }
    }
}

proof fn lemma_open_pending(nodes: Seq<Node>, work: Seq<(usize, bool)>, from: Seq<int>, done: Seq<u8>)
    requires
        references_in_range(nodes),
        stack_shaped(nodes, work, from),
        targets_pending(nodes, work, from, done),
        done.len() == nodes.len(),
        work.len() > 0,
        done[work.last().0 as int] == 0,
    ensures
        targets_pending(
            nodes,
            opened_work(nodes, work),
            opened_from(nodes, work, from),
            done.update(work.last().0 as int, 1),
        ),
{
    lemma_opened_entries(nodes, work, from);
    let p = work.len() - 1;
    let at = work[p].0;
    let w = opened_work(nodes, work);
    let f = opened_from(nodes, work, from);
    let d = done.update(at as int, 1);
    assert forall|q: int, k: int|
        #![trigger w[q], unguarded(nodes[w[q].0 as int])[k]]
        0 <= q < w.len() && w[q].1 && 0 <= k < unguarded(nodes[w[q].0 as int]).len() implies d[unguarded(
            nodes[w[q].0 as int],
        )[k] as int] == 2 || exists|p2: int|
            q < p2 < w.len() && f[p2] == q && w[p2].0 as int == unguarded(nodes[w[q].0 as int])[k] as int by {
        let c = unguarded(nodes[w[q].0 as int])[k] as int;
        if q == p {
            let p2 = p + 1 + k;
            assert(w[p2].0 as int == c);
            assert(f[p2] == q);
        } else {
            assert(q < p);
            assert(w[q] == work[q]);
            assert(work[q].0 < nodes.len());
            lemma_unguarded_referenced(nodes, w[q].0 as int, k);
            if done[c] == 2 {
                assert(c != at as int);
                assert(d[c] == 2);
            } else {
                assert(work[q].1 && 0 <= k < unguarded(nodes[work[q].0 as int]).len());
                let p2 = choose|p2: int| q < p2 < work.len() && from[p2] == q && work[p2].0 as int == c;
                if p2 == p {
                    assert(w[p].0 as int == c && f[p] == q);
                } else {
                    assert(w[p2] == work[p2] && f[p2] == from[p2]);
                }
            }
        }
    }
}

proof fn lemma_open_gray(nodes: Seq<Node>, work: Seq<(usize, bool)>, from: Seq<int>, done: Seq<u8>)
    requires
        nodes.len() <= usize::MAX,
        from.len() == work.len(),
        gray_on_stack(nodes.len() as int, work, done),
        forall|i: int| 0 <= i < work.len() ==> (#[trigger] work[i]).0 < nodes.len(),
        done.len() == nodes.len(),
        work.len() > 0,
        !work.last().1,
        done[work.last().0 as int] == 0,
    ensures
        gray_on_stack(nodes.len() as int, opened_work(nodes, work), done.update(work.last().0 as int, 1)),
{
    lemma_opened_entries(nodes, work, from);
    let p = work.len() - 1;
    let at = work[p].0;
    let w = opened_work(nodes, work);
    let d = done.update(at as int, 1);
    assert forall|x: int| 0 <= x < nodes.len() implies (#[trigger] d[x] == 1 <==> exists|i: int|
        0 <= i < w.len() && w[i] == (x as usize, true)) by {
        if x == at as int {
            assert(w[p] == (x as usize, true));
        } else {
            assert(d[x] == done[x]);
            if done[x] == 1 {
                assert(exists|i: int| 0 <= i < work.len() && work[i] == (x as usize, true));
                let i = choose|i: int| 0 <= i < work.len() && work[i] == (x as usize, true);
                assert(i != p);
                assert(w[i] == work[i]);
            }
            if exists|i: int| 0 <= i < w.len() && w[i] == (x as usize, true) {
                let i = choose|i: int| 0 <= i < w.len() && w[i] == (x as usize, true);
                if i > p {
                    assert(!w[i].1);
                }
                assert(i != p);
                assert(work[i] == w[i]);
            }
        }
    }
    assert forall|i: int, j: int|
        0 <= i < j < w.len() && (#[trigger] w[i]).1 && (#[trigger] w[j]).1 implies w[i].0 != w[j].0 by {
        if j > p {
            assert(!w[j].1);
        }
        if j == p {
            assert(work[i] == w[i]);
            if work[i].0 == at {
                assert(exists|k: int| 0 <= k < work.len() && work[k] == (at, true));
                assert(done[at as int] == 1);
            }
        } else {
            assert(work[i] == w[i] && work[j] == w[j]);
        }
    }
}

impl Descriptor {
    /// Check the alias and extension edges: no cycle among them, and every
    /// extension joins rows of one kind with no field twice.
    fn check_extensions(&self) -> (r: Result<(), &'static str>)
        requires
            references_in_range(self.nodes@),
        ensures
            r is Ok <==> extensions_sound(self.nodes@),
            r matches Err(e) ==> ((e@ == "unguarded runtime type descriptor cycle"@
                && !unguarded_acyclic(self.nodes@)) || ((e@ == "duplicate runtime row field"@ || e@
                == "invalid runtime row extension"@) && exists|x: int|
                0 <= x < self.nodes.len() && (#[trigger] self.nodes@[x]) is Extend)),
    {
        let n = self.nodes.len();
        let ghost nodes = self.nodes@;
        let mut done: Vec<u8> = Vec::new();
        let mut heads: Vec<HeadOf> = Vec::new();
        let mut k: usize = 0;
        while k < n
            invariant
                n == self.nodes.len(),
                k <= n,
                done@.len() == k,
                heads@.len() == k,
                forall|x: int| 0 <= x < k ==> done@[x] == 0,
            decreases n - k,
        {
            done.push(0);
            heads.push(HeadOf::Value);
            k = k + 1;
        }
        let ghost mut rank: Seq<nat> = Seq::new(n as nat, |x: int| 0nat);
        let ghost mut counter: nat = 0;
        let mut start: usize = 0;
        while start < n
            invariant
                nodes == self.nodes@,
                n == nodes.len(),
                start <= n,
                references_in_range(nodes),
                done@.len() == n,
                heads@.len() == n,
                rank.len() == n,
                forall|x: int| 0 <= x < n ==> #[trigger] done@[x] == 0 || done@[x] == 2,
                forall|x: int| 0 <= x < start ==> #[trigger] done@[x] == 2,
                forall|x: int|
                    0 <= x < n && #[trigger] done@[x] == 2 ==> finished(nodes, done@, heads_of(heads@), rank, x)
                        && rank[x] < counter,
                extensions_sound(nodes) ==> forall|x: int|
                    0 <= x < n && #[trigger] done@[x] == 2 ==> heads_of(heads@)[x] == witness_heads(nodes)[x],
            decreases n - start,
        {
            let mut work: Vec<(usize, bool)> = Vec::new();
            work.push((start, false));
            let ghost mut from: Seq<int> = seq![-1int];
            proof {
                assert(work@ == seq![(start, false)]);
                assert forall|x: int| 0 <= x < n implies (#[trigger] done@[x] == 1 <==> exists|i: int|
                    0 <= i < work@.len() && work@[i] == (x as usize, true)) by {
                    if exists|i: int| 0 <= i < work@.len() && work@[i] == (x as usize, true) {
                        let i = choose|i: int| 0 <= i < work@.len() && work@[i] == (x as usize, true);
                        assert(i == 0);
                    }
                }
            }
            while work.len() > 0
                invariant
                    nodes == self.nodes@,
                    n == nodes.len(),
                    start < n,
                    references_in_range(nodes),
                    done@.len() == n,
                    heads@.len() == n,
                    rank.len() == n,
                    forall|x: int| 0 <= x < n ==> #[trigger] done@[x] <= 2,
                    forall|x: int| 0 <= x < start ==> #[trigger] done@[x] == 2,
                    forall|x: int|
                        0 <= x < n && #[trigger] done@[x] == 2 ==> finished(nodes, done@, heads_of(heads@), rank, x)
                            && rank[x] < counter,
                    extensions_sound(nodes) ==> forall|x: int|
                        0 <= x < n && #[trigger] done@[x] == 2 ==> heads_of(heads@)[x] == witness_heads(nodes)[x],
                    stack_shaped(nodes, work@, from),
                    targets_pending(nodes, work@, from, done@),
                    gray_on_stack(n as int, work@, done@),
                    work@ == seq![(start, false)] || done@[start as int] != 0,
                decreases 3 * unvisited(done@) + work@.len(),
            {
                let ghost w0 = work@;
                let ghost f0 = from;
                let (at, finish) = work.pop().unwrap();
                proof {
                    assert(w0.last() == (at, finish));
                    assert(work@ == w0.drop_last());
                    assert(at < n);
                }
                if finish {
                    let ghost ours = heads_of(heads@);
                    let ghost old_done = done@;
                    proof {
                        assert forall|k: int| 0 <= k < unguarded(nodes[at as int]).len() implies done@[#[trigger] unguarded(
                            nodes[at as int],
                        )[k] as int] == 2 by {
                            let q = w0.len() - 1;
                            assert(w0[q].0 == at && w0[q].1);
                            assert(unguarded(nodes[w0[q].0 as int])[k] == unguarded(nodes[at as int])[k]);
                        }
                        assert(old_done[at as int] == 1) by {
                            assert(w0[w0.len() - 1] == (at, true));
                        }
                        if extensions_sound(nodes) {
                            let wh = lemma_sound_witness(nodes);
                            assert forall|k: int| 0 <= k < unguarded(nodes[at as int]).len() implies ours[#[trigger] unguarded(
                                nodes[at as int],
                            )[k] as int] == witness_heads(nodes)[unguarded(nodes[at as int])[k] as int] by {
                                lemma_unguarded_referenced(nodes, at as int, k);
                                assert(done@[unguarded(nodes[at as int])[k] as int] == 2);
                            }
                            lemma_head_step_local(nodes[at as int], ours, witness_heads(nodes));
                            assert(head_step(nodes[at as int], ours) == Some(witness_heads(nodes)[at as int]));
                        }
                    }
                    proof {
                        assert forall|k: int| 0 <= k < unguarded(nodes[at as int]).len() implies #[trigger] unguarded(
                            nodes[at as int],
                        )[k] < n by {
                            lemma_unguarded_referenced(nodes, at as int, k);
                        }
                    }
                    let head = match &self.nodes[at] {
                        Node::Alias(next) => {
                            proof {
                                assert(unguarded(nodes[at as int])[0] == *next);
                            }
                            heads[*next as usize].copy()
                        },
                        Node::Extend(pair) => {
                            proof {
                                assert(unguarded(nodes[at as int])[0] == pair[0]);
                                assert(unguarded(nodes[at as int])[1] == pair[1]);
                            }
                            match combine(&heads[pair[0] as usize], &heads[pair[1] as usize]) {
                                Ok(h) => h,
                                Err(message) => {
                                    proof {
                                        assert(ours[pair[0] as int] == heads@[pair[0] as int].view());
                                        assert(ours[pair[1] as int] == heads@[pair[1] as int].view());
                                        assert(head_step(nodes[at as int], ours) is None);
                                        assert(self.nodes@[at as int] is Extend);
                                    }
                                    return Err(message);
                                },
                            }
                        },
                        Node::Struct(fields) => row_of(true, fields),
                        Node::Sum(fields) => row_of(false, fields),
                        Node::Parameter(_) => HeadOf::Parameter,
                        _ => HeadOf::Value,
                    };
                    heads.set(at, head);
                    done.set(at, 2);
                    proof {
                        assert(head_step(nodes[at as int], ours) == Some(head.view()));
                        assert(heads_of(heads@) =~= ours.update(at as int, head.view()));
                        let new_heads = heads_of(heads@);
                        lemma_pop_stack(nodes, w0, f0, old_done, done@);
                        from = f0.drop_last();
                        lemma_unvisited_keep(old_done, at as int, 2);
                        let old_rank = rank;
                        rank = rank.update(at as int, counter);
                        counter = counter + 1;
                        assert forall|x: int| 0 <= x < n && #[trigger] done@[x] == 2 implies finished(
                            nodes,
                            done@,
                            new_heads,
                            rank,
                            x,
                        ) && rank[x] < counter by {
                            assert forall|k: int| 0 <= k < unguarded(nodes[x]).len() implies new_heads[#[trigger] unguarded(
                                nodes[x],
                            )[k] as int] == ours[unguarded(nodes[x])[k] as int] by {
                                lemma_unguarded_referenced(nodes, x, k);
                                if x != at as int {
                                    assert(old_done[x] == 2);
                                    assert(old_done[unguarded(nodes[x])[k] as int] == 2);
                                }
                            }
                            lemma_head_step_local(nodes[x], new_heads, ours);
                            if x != at as int {
                                assert(old_done[x] == 2);
                                assert(finished(nodes, old_done, ours, old_rank, x));
                                assert forall|k: int| 0 <= k < unguarded(nodes[x]).len() implies done@[#[trigger] unguarded(
                                    nodes[x],
                                )[k] as int] == 2 && rank[unguarded(nodes[x])[k] as int] < rank[x] by {
                                    lemma_unguarded_referenced(nodes, x, k);
                                    assert(old_done[unguarded(nodes[x])[k] as int] == 2);
                                }
                            } else {
                                assert forall|k: int| 0 <= k < unguarded(nodes[x]).len() implies done@[#[trigger] unguarded(
                                    nodes[x],
                                )[k] as int] == 2 && rank[unguarded(nodes[x])[k] as int] < rank[x] by {
                                    lemma_unguarded_referenced(nodes, x, k);
                                    let c = unguarded(nodes[x])[k] as int;
                                    assert(old_done[c] == 2);
                                    assert(finished(nodes, old_done, ours, old_rank, c));
                                }
                            }
                        }
                        if extensions_sound(nodes) {
                            assert forall|x: int| 0 <= x < n && #[trigger] done@[x] == 2 implies new_heads[x]
                                == witness_heads(nodes)[x] by {
                                if x != at as int {
                                    assert(old_done[x] == 2);
                                }
                            }
                        }
                    }
                } else if done[at] == 2 {
                    proof {
                        lemma_pop_stack(nodes, w0, f0, done@, done@);
                        from = f0.drop_last();
                    }
                } else if done[at] == 1 {
                    proof {
                        lemma_cycle(nodes, w0, f0, done@);
                        if extensions_sound(nodes) {
                            lemma_sound_witness(nodes);
                        }
                    }
                    return Err("unguarded runtime type descriptor cycle");
                } else {
                    let ghost old_done = done@;
                    let ghost old_heads = heads_of(heads@);
                    proof {
                        lemma_open_shape(nodes, w0, f0);
                        lemma_open_pending(nodes, w0, f0, old_done);
                        lemma_open_gray(nodes, w0, f0, old_done);
                    }
                    done.set(at, 1);
                    work.push((at, true));
                    match &self.nodes[at] {
                        Node::Alias(next) => {
                            work.push((*next as usize, false));
                        },
                        Node::Extend(pair) => {
                            work.push((pair[0] as usize, false));
                            work.push((pair[1] as usize, false));
                        },
                        _ => {},
                    }
                    proof {
                        let p = w0.len() - 1;
                        let kids = unguarded(nodes[at as int]);
                        assert(work@ =~= opened_work(nodes, w0));
                        from = opened_from(nodes, w0, f0);
                        lemma_unvisited_mark(old_done, at as int, 1);
                        assert forall|x: int| 0 <= x < n && #[trigger] done@[x] == 2 implies finished(
                            nodes,
                            done@,
                            heads_of(heads@),
                            rank,
                            x,
                        ) && rank[x] < counter by {
                            assert(old_done[x] == 2);
                            assert(finished(nodes, old_done, old_heads, rank, x));
                            assert forall|k: int| 0 <= k < unguarded(nodes[x]).len() implies done@[#[trigger] unguarded(
                                nodes[x],
                            )[k] as int] == 2 && rank[unguarded(nodes[x])[k] as int] < rank[x] by {
                                lemma_unguarded_referenced(nodes, x, k);
                                assert(old_done[unguarded(nodes[x])[k] as int] == 2);
                            }
                        }
                    }
                }
            }
            proof {
                assert forall|x: int| 0 <= x < n implies #[trigger] done@[x] == 0 || done@[x] == 2 by {
                    if done@[x] == 1 {
                        let i = choose|i: int| 0 <= i < work@.len() && work@[i] == (x as usize, true);
                    }
                }
            }
            start = start + 1;
        }
        proof {
            let hs = heads_of(heads@);
            assert forall|x: int| 0 <= x < nodes.len() implies head_step(nodes[x], hs) == Some(#[trigger] hs[x]) by {
                assert(done@[x] == 2);
            }
            assert forall|x: int, k: int|
                0 <= x < nodes.len() && 0 <= k < unguarded(nodes[x]).len() implies rank[#[trigger] unguarded(
                nodes[x],
            )[k] as int] < rank[x] by {
                assert(done@[x] == 2);
            }
            assert(heads_follow(nodes, hs) && rank_decreases(nodes, rank));
        }
        Ok(())
    }

    /// Check references and quantified positions before the descriptor is
    /// trusted: a nonempty node list, parameters below `parameters`, sorted
    /// unique field names, references in range, and alias and extension
    /// edges that form no cycle and join rows soundly.
    pub fn validate(&self, parameters: usize) -> (r: Result<(), &'static str>)
        ensures
            self.nodes.len() == 0 ==> (r matches Err(e) && e@ == "empty runtime type descriptor"@),
            (self.nodes.len() > 0 && first_node_error(self.nodes@, 0, parameters as int) is Some)
                ==> (r matches Err(e) && Some(e@) == first_node_error(self.nodes@, 0, parameters as int)),
            r is Ok <==> (self.nodes.len() > 0 && first_node_error(self.nodes@, 0, parameters as int)
                is None && extensions_sound(self.nodes@)),
            r matches Err(e) ==> (self.nodes.len() == 0 || first_node_error(self.nodes@, 0, parameters as int) is Some
                || (e@ == "unguarded runtime type descriptor cycle"@ && !unguarded_acyclic(self.nodes@))
                || e@ == "duplicate runtime row field"@ || e@ == "invalid runtime row extension"@),
            (self.nodes.len() > 0 && first_node_error(self.nodes@, 0, parameters as int) is None
                && forall|x: int| 0 <= x < self.nodes.len() ==> !((#[trigger] self.nodes@[x]) is Extend))
                ==> ((r is Ok <==> unguarded_acyclic(self.nodes@))
                && (r matches Err(e) ==> e@ == "unguarded runtime type descriptor cycle"@)),
    {
        let n = self.nodes.len();
        if n == 0 {
            return Err("empty runtime type descriptor");
        }
        let mut i: usize = 0;
        while i < n
            invariant
                n == self.nodes.len(),
                i <= n,
                first_node_error(self.nodes@, 0, parameters as int) == first_node_error(
                    self.nodes@,
                    i as int,
                    parameters as int,
                ),
                forall|x: int, k: int|
                    0 <= x < i && 0 <= k < references(self.nodes@[x]).len() ==> #[trigger] references(
                        self.nodes@[x],
                    )[k] < n,
            decreases n - i,
        {
            match node_problem(&self.nodes[i], parameters, n) {
                Some(problem) => return Err(problem),
                None => {},
            }
            proof {
                let node = self.nodes@[i as int];
                assert forall|k: int| 0 <= k < references(node).len() implies #[trigger] references(node)[k] < n by {
                    if references(node)[k] >= n {
                        assert(exists|j: int| 0 <= j < references(node).len() && references(node)[j] >= n);
                    }
                }
            }
            i = i + 1;
        }
        proof {
            assert(first_node_error(self.nodes@, n as int, parameters as int) is None);
        }
        let r = self.check_extensions();
        proof {
            if r is Ok {
                let (hs, rk) = choose|hs: Seq<Head>, rk: Seq<nat>|
                    #![trigger heads_follow(self.nodes@, hs), rank_decreases(self.nodes@, rk)]
                    heads_follow(self.nodes@, hs) && rank_decreases(self.nodes@, rk);
                assert(rank_decreases(self.nodes@, rk));
            }
        }
        r
    }
}

} // verus!
