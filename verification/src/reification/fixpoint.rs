//! The facts of a descriptor's type: whether it is empty, whether a finite
//! value of it can be constructed, and whether every case it has can be.
//! Emptiness is a greatest fixed point, finite construction a least fixed
//! point, and complete constructor support a greatest fixed point, each over
//! the nodes reachable from the root.
use vstd::prelude::*;

use super::construction::{
    consistent, fields_of, fragment_fields, is_tail_node, mentions_only, row, row_traversal, tails_of,
    Condition, Facts, Property,
};
use super::{references, references_in_range, unguarded, edge, Descriptor, Node};

verus! {

/// What a valuation of the nodes says: a truth for each node and
/// assignment.
pub type Valuation = spec_fn(int, Set<(u32, Property)>) -> bool;

/// The meaning of an array of conditions, node by node.
pub open spec fn meaning(values: Seq<Condition>) -> Valuation {
    |x: int, env: Set<(u32, Property)>| values[x].means(env)
}

/// Every condition of the array mentions only parameters in `ps`.
pub open spec fn all_mention_only(values: Seq<Condition>, ps: Set<u32>) -> bool {
    forall|x: int| 0 <= x < values.len() ==> mentions_only(#[trigger] values[x]@, ps)
}

/// Every parameter node names a position of `parameters`.
pub open spec fn parameters_in_range(nodes: Seq<Node>, parameters: Seq<u32>) -> bool {
    forall|x: int| 0 <= x < nodes.len() && (#[trigger] nodes[x]) is Parameter ==> (nodes[x]->Parameter_0 as int)
        < parameters.len()
}

/// A traversal of the row at `at`.
pub open spec fn traversal(nodes: Seq<Node>, at: int) -> Seq<u32> {
    choose|v: Seq<u32>| row_traversal(nodes, at, v)
}

/// A node whose value the fields of the row at `at` hold.
pub open spec fn row_child(nodes: Seq<Node>, at: int, c: u32) -> bool {
    exists|y: u32, i: int|
        #![trigger traversal(nodes, at).contains(y), fields_of(nodes[y as int])[i]]
        traversal(nodes, at).contains(y) && 0 <= i < fields_of(nodes[y as int]).len() && fields_of(
            nodes[y as int],
        )[i].1 == c
}

/// A field, name and node, of the row at `at`.
pub open spec fn row_field(nodes: Seq<Node>, at: int, f: (String, u32)) -> bool {
    exists|y: u32, i: int|
        #![trigger traversal(nodes, at).contains(y), fields_of(nodes[y as int])[i]]
        traversal(nodes, at).contains(y) && 0 <= i < fields_of(nodes[y as int]).len() && fields_of(nodes[y as int])[i] == f
}

/// A tail of the row at `at`.
pub open spec fn row_tail(nodes: Seq<Node>, at: int, t: u32) -> bool {
    traversal(nodes, at).contains(t) && is_tail_node(nodes[t as int])
}

/// Every tail of the row at `at` is a parameter.
pub open spec fn tails_parametric(nodes: Seq<Node>, at: int) -> bool {
    forall|t: u32| row_tail(nodes, at, t) ==> (#[trigger] nodes[t as int]) is Parameter
}

/// A property of the parameter a tail stands for.
pub open spec fn tail_atom(nodes: Seq<Node>, parameters: Seq<u32>, t: u32, property: Property) -> (u32, Property) {
    (parameters[nodes[t as int]->Parameter_0 as int], property)
}

pub open spec fn row_empty_property(record: bool) -> Property {
    if record {
        Property::EmptyRecordRow
    } else {
        Property::EmptySumRow
    }
}

pub open spec fn row_constructible_property(record: bool) -> Property {
    if record {
        Property::ConstructibleRecordRow
    } else {
        Property::ConstructibleSumRow
    }
}

/// A row is empty: a record when a field or its tail is, a sum when every
/// case and its tail are.
pub open spec fn row_empty(nodes: Seq<Node>, parameters: Seq<u32>, at: int, record: bool, e: Valuation, env: Set<(u32, Property)>) -> bool {
    tails_parametric(nodes, at) && if record {
        (exists|c: u32| row_child(nodes, at, c) && #[trigger] e(c as int, env)) || (exists|t: u32|
            row_tail(nodes, at, t) && env.contains(#[trigger] tail_atom(nodes, parameters, t, Property::EmptyRecordRow)))
    } else {
        (forall|c: u32| row_child(nodes, at, c) ==> #[trigger] e(c as int, env)) && (forall|t: u32|
            row_tail(nodes, at, t) ==> env.contains(#[trigger] tail_atom(nodes, parameters, t, Property::EmptySumRow)))
    }
}

/// A row has a finite value: a record when every field and its tail do, a
/// sum when a case or its tail does.
pub open spec fn row_finite(nodes: Seq<Node>, parameters: Seq<u32>, at: int, record: bool, f: Valuation, env: Set<(u32, Property)>) -> bool {
    tails_parametric(nodes, at) && if record {
        (forall|c: u32| row_child(nodes, at, c) ==> #[trigger] f(c as int, env)) && (forall|t: u32|
            row_tail(nodes, at, t) ==> env.contains(#[trigger] tail_atom(nodes, parameters, t, Property::ConstructibleRecordRow)))
    } else {
        (exists|c: u32| row_child(nodes, at, c) && #[trigger] f(c as int, env)) || (exists|t: u32|
            row_tail(nodes, at, t) && env.contains(#[trigger] tail_atom(nodes, parameters, t, Property::ConstructibleSumRow)))
    }
}

/// Every member of a row is empty or supported, and every tail is empty
/// or constructible.
pub open spec fn row_supported(nodes: Seq<Node>, parameters: Seq<u32>, at: int, record: bool, e: Valuation, s: Valuation, env: Set<(u32, Property)>) -> bool {
    tails_parametric(nodes, at) && (forall|c: u32| row_child(nodes, at, c) ==> #[trigger] e(c as int, env) || s(c as int, env))
        && (forall|t: u32|
        row_tail(nodes, at, t) ==> env.contains(#[trigger] tail_atom(nodes, parameters, t, row_empty_property(record)))
            || env.contains(tail_atom(nodes, parameters, t, row_constructible_property(record))))
}

/// Some of the first `u` tails has the property.
pub open spec fn some_tail(nodes: Seq<Node>, parameters: Seq<u32>, tails: Seq<u32>, u: int, p: Property, env: Set<(u32, Property)>) -> bool {
    exists|k: int| 0 <= k < u && env.contains(#[trigger] tail_atom(nodes, parameters, tails[k], p))
}

/// Each of the first `u` tails has the property.
pub open spec fn every_tail(nodes: Seq<Node>, parameters: Seq<u32>, tails: Seq<u32>, u: int, p: Property, env: Set<(u32, Property)>) -> bool {
    forall|k: int| 0 <= k < u ==> env.contains(#[trigger] tail_atom(nodes, parameters, tails[k], p))
}

/// Each of the first `u` tails has one of two properties.
pub open spec fn every_tail_either(nodes: Seq<Node>, parameters: Seq<u32>, tails: Seq<u32>, u: int, p: Property, q: Property, env: Set<(u32, Property)>) -> bool {
    forall|k: int| 0 <= k < u ==> env.contains(#[trigger] tail_atom(nodes, parameters, tails[k], p)) || env.contains(tail_atom(nodes, parameters, tails[k], q))
}

proof fn lemma_tail_step(nodes: Seq<Node>, parameters: Seq<u32>, tails: Seq<u32>, u: int, p: Property, q: Property, env: Set<(u32, Property)>)
    requires
        0 <= u < tails.len(),
    ensures
        some_tail(nodes, parameters, tails, u + 1, p, env) == (some_tail(nodes, parameters, tails, u, p, env) || env.contains(tail_atom(nodes, parameters, tails[u], p))),
        every_tail(nodes, parameters, tails, u + 1, p, env) == (every_tail(nodes, parameters, tails, u, p, env) && env.contains(tail_atom(nodes, parameters, tails[u], p))),
        every_tail_either(nodes, parameters, tails, u + 1, p, q, env) == (every_tail_either(nodes, parameters, tails, u, p, q, env)
            && (env.contains(tail_atom(nodes, parameters, tails[u], p)) || env.contains(tail_atom(nodes, parameters, tails[u], q)))),
{
    if some_tail(nodes, parameters, tails, u + 1, p, env) {
        let k = choose|k: int| 0 <= k < u + 1 && env.contains(#[trigger] tail_atom(nodes, parameters, tails[k], p));
        if k < u {
            assert(some_tail(nodes, parameters, tails, u, p, env));
        }
    }
}

/// Quantifying over a row's tails is quantifying over its tail list.
proof fn lemma_tails_quantified(nodes: Seq<Node>, parameters: Seq<u32>, at: int, tails: Seq<u32>, p: Property, q: Property, env: Set<(u32, Property)>)
    requires
        forall|t: u32| row_tail(nodes, at, t) <==> tails.contains(t),
    ensures
        (exists|t: u32| row_tail(nodes, at, t) && env.contains(#[trigger] tail_atom(nodes, parameters, t, p)))
            == some_tail(nodes, parameters, tails, tails.len() as int, p, env),
        (forall|t: u32| row_tail(nodes, at, t) ==> env.contains(#[trigger] tail_atom(nodes, parameters, t, p)))
            == every_tail(nodes, parameters, tails, tails.len() as int, p, env),
        (forall|t: u32| row_tail(nodes, at, t) ==> env.contains(#[trigger] tail_atom(nodes, parameters, t, p)) || env.contains(tail_atom(nodes, parameters, t, q)))
            == every_tail_either(nodes, parameters, tails, tails.len() as int, p, q, env),
{
    assert forall|k: int| 0 <= k < tails.len() implies row_tail(nodes, at, #[trigger] tails[k]) by {
        assert(tails.contains(tails[k]));
    }
    if exists|t: u32| row_tail(nodes, at, t) && env.contains(#[trigger] tail_atom(nodes, parameters, t, p)) {
        let t = choose|t: u32| row_tail(nodes, at, t) && env.contains(#[trigger] tail_atom(nodes, parameters, t, p));
        assert(tails.contains(t));
        let k = choose|k: int| 0 <= k < tails.len() && tails[k] == t;
        assert(env.contains(tail_atom(nodes, parameters, tails[k], p)));
    }
    if every_tail(nodes, parameters, tails, tails.len() as int, p, env) {
        assert forall|t: u32| row_tail(nodes, at, t) implies env.contains(#[trigger] tail_atom(nodes, parameters, t, p)) by {
            assert(tails.contains(t));
            let k = choose|k: int| 0 <= k < tails.len() && tails[k] == t;
            assert(env.contains(tail_atom(nodes, parameters, tails[k], p)));
        }
    }
    if every_tail_either(nodes, parameters, tails, tails.len() as int, p, q, env) {
        assert forall|t: u32| row_tail(nodes, at, t) implies env.contains(#[trigger] tail_atom(nodes, parameters, t, p)) || env.contains(tail_atom(nodes, parameters, t, q)) by {
            assert(tails.contains(t));
            let k = choose|k: int| 0 <= k < tails.len() && tails[k] == t;
            assert(env.contains(tail_atom(nodes, parameters, tails[k], p)) || env.contains(tail_atom(nodes, parameters, tails[k], q)));
        }
    }
}

/// Every two traversals of a row visit the same nodes.
proof fn lemma_traversals_agree(nodes: Seq<Node>, at: int, v: Seq<u32>, w: Seq<u32>)
    requires
        row_traversal(nodes, at, v),
        row_traversal(nodes, at, w),
    ensures
        forall|x: u32| v.contains(x) <==> w.contains(x),
{
    assert forall|x: u32| v.contains(x) implies w.contains(x) by {
        let i = choose|i: int| 0 <= i < v.len() && v[i] == x;
        lemma_visited_in(nodes, at, v, w, i);
    }
    assert forall|x: u32| w.contains(x) implies v.contains(x) by {
        let i = choose|i: int| 0 <= i < w.len() && w[i] == x;
        lemma_visited_in(nodes, at, w, v, i);
    }
}

proof fn lemma_visited_in(nodes: Seq<Node>, at: int, v: Seq<u32>, w: Seq<u32>, i: int)
    requires
        row_traversal(nodes, at, v),
        row_traversal(nodes, at, w),
        0 <= i < v.len(),
    ensures
        w.contains(v[i]),
    decreases i,
{
    if i == 0 {
        assert(w[0] == v[0]);
    } else {
        let j = choose|j: int| 0 <= j < i && edge(nodes, v[j] as int, #[trigger] v[i] as int);
        lemma_visited_in(nodes, at, v, w, j);
        let m = choose|m: int| 0 <= m < w.len() && w[m] == v[j];
        let k = choose|k: int| 0 <= k < unguarded(nodes[v[j] as int]).len() && unguarded(nodes[v[j] as int])[k] as int == v[i] as int;
        assert(w.contains(unguarded(nodes[w[m] as int])[k]));
    }
}

/// The fields of a traversal's fragments are the fields of its nodes.
proof fn lemma_fragment_fields(nodes: Seq<Node>, v: Seq<u32>, f: (String, u32))
    ensures
        fragment_fields(nodes, v).contains(f) <==> exists|y: int, i: int|
            0 <= y < v.len() && 0 <= i < fields_of(nodes[v[y] as int]).len() && fields_of(nodes[v[y] as int])[i] == f,
    decreases v.len(),
{
    if v.len() > 0 {
        let u = v.drop_last();
        lemma_fragment_fields(nodes, u, f);
        let a = fragment_fields(nodes, u);
        let b = fields_of(nodes[v.last() as int]);
        assert(fragment_fields(nodes, v) == a + b);
        if (a + b).contains(f) {
            let q = choose|q: int| 0 <= q < (a + b).len() && (a + b)[q] == f;
            if q < a.len() {
                assert(a.contains(f));
                let (y, i) = choose|y: int, i: int| 0 <= y < u.len() && 0 <= i < fields_of(nodes[u[y] as int]).len() && fields_of(nodes[u[y] as int])[i] == f;
                assert(v[y] == u[y]);
            } else {
                assert(b[q - a.len()] == f);
                assert(v[v.len() - 1] == v.last());
            }
        }
        if exists|y: int, i: int| 0 <= y < v.len() && 0 <= i < fields_of(nodes[v[y] as int]).len() && fields_of(nodes[v[y] as int])[i] == f {
            let (y, i) = choose|y: int, i: int| 0 <= y < v.len() && 0 <= i < fields_of(nodes[v[y] as int]).len() && fields_of(nodes[v[y] as int])[i] == f;
            if y < u.len() {
                assert(u[y] == v[y]);
                assert(a.contains(f));
                let q = choose|q: int| 0 <= q < a.len() && a[q] == f;
                assert((a + b)[q] == f);
            } else {
                assert((a + b)[a.len() + i] == f);
            }
        }
    }
}

/// The tails of a traversal are its tail nodes.
proof fn lemma_tails_of(nodes: Seq<Node>, v: Seq<u32>, t: u32)
    ensures
        tails_of(nodes, v).contains(t) <==> v.contains(t) && is_tail_node(nodes[t as int]),
    decreases v.len(),
{
    if v.len() > 0 {
        let u = v.drop_last();
        lemma_tails_of(nodes, u, t);
        if u.contains(t) {
            let q = choose|q: int| 0 <= q < u.len() && u[q] == t;
            assert(v[q] == t);
        }
        if v.contains(t) {
            let q = choose|q: int| 0 <= q < v.len() && v[q] == t;
            if q < u.len() {
                assert(u[q] == t);
            }
        }
        if is_tail_node(nodes[v.last() as int]) {
            let tl = tails_of(nodes, u);
            if tl.push(v.last()).contains(t) {
                let q = choose|q: int| 0 <= q < tl.push(v.last()).len() && tl.push(v.last())[q] == t;
                if q < tl.len() {
                    assert(tl[q] == t);
                }
            }
            if tl.contains(t) {
                let q = choose|q: int| 0 <= q < tl.len() && tl[q] == t;
                assert(tl.push(v.last())[q] == t);
            }
            if t == v.last() {
                assert(tl.push(v.last())[tl.len() as int] == t);
            }
        }
    }
}

/// The row children and tails named by the fields and tails the row
/// function returns for one of its traversals.
pub(crate) proof fn lemma_row_parts(nodes: Seq<Node>, at: int, v: Seq<u32>, fields: Seq<(String, u32)>, tails: Seq<u32>)
    requires
        row_traversal(nodes, at, v),
        fields.to_multiset() == fragment_fields(nodes, v).to_multiset(),
        tails == tails_of(nodes, v),
    ensures
        forall|c: u32| row_child(nodes, at, c) <==> exists|q: int| 0 <= q < fields.len() && #[trigger] fields[q].1 == c,
        forall|t: u32| row_tail(nodes, at, t) <==> tails.contains(t),
{
    let w = traversal(nodes, at);
    assert(row_traversal(nodes, at, w));
    lemma_traversals_agree(nodes, at, v, w);
    assert forall|c: u32| row_child(nodes, at, c) <==> exists|q: int| 0 <= q < fields.len() && #[trigger] fields[q].1 == c by {
        if row_child(nodes, at, c) {
            let (y, i) = choose|y: u32, i: int| traversal(nodes, at).contains(y) && 0 <= i < fields_of(nodes[y as int]).len()
                && fields_of(nodes[y as int])[i].1 == c;
            let f = fields_of(nodes[y as int])[i];
            assert(v.contains(y));
            let yi = choose|yi: int| 0 <= yi < v.len() && v[yi] == y;
            lemma_fragment_fields(nodes, v, f);
            assert(fragment_fields(nodes, v).contains(f));
            vstd::seq_lib::to_multiset_contains(fragment_fields(nodes, v), f);
            vstd::seq_lib::to_multiset_contains(fields, f);
            let q = choose|q: int| 0 <= q < fields.len() && fields[q] == f;
            assert(fields[q].1 == c);
        }
        if exists|q: int| 0 <= q < fields.len() && #[trigger] fields[q].1 == c {
            let q = choose|q: int| 0 <= q < fields.len() && #[trigger] fields[q].1 == c;
            let f = fields[q];
            assert(fields.contains(f));
            vstd::seq_lib::to_multiset_contains(fields, f);
            vstd::seq_lib::to_multiset_contains(fragment_fields(nodes, v), f);
            lemma_fragment_fields(nodes, v, f);
            let (y, i) = choose|y: int, i: int| 0 <= y < v.len() && 0 <= i < fields_of(nodes[v[y] as int]).len() && fields_of(nodes[v[y] as int])[i] == f;
            assert(v.contains(v[y]));
            assert(w.contains(v[y]));
            assert(traversal(nodes, at).contains(v[y]) && 0 <= i < fields_of(nodes[v[y] as int]).len() && fields_of(nodes[v[y] as int])[i].1 == c);
        }
    }
    assert forall|t: u32| row_tail(nodes, at, t) <==> tails.contains(t) by {
        lemma_tails_of(nodes, v, t);
    }
}

/// The fields a row computes are the fields of the row, names and all.
pub(crate) proof fn lemma_row_fields(nodes: Seq<Node>, at: int, v: Seq<u32>, fields: Seq<(String, u32)>)
    requires
        row_traversal(nodes, at, v),
        fields.to_multiset() == fragment_fields(nodes, v).to_multiset(),
    ensures
        forall|f: (String, u32)| #[trigger] row_field(nodes, at, f) <==> fields.contains(f),
{
    let w = traversal(nodes, at);
    assert(row_traversal(nodes, at, w));
    lemma_traversals_agree(nodes, at, v, w);
    assert forall|f: (String, u32)| #[trigger] row_field(nodes, at, f) <==> fields.contains(f) by {
        lemma_fragment_fields(nodes, v, f);
        vstd::seq_lib::to_multiset_contains(fragment_fields(nodes, v), f);
        vstd::seq_lib::to_multiset_contains(fields, f);
        if row_field(nodes, at, f) {
            let (y, i) = choose|y: u32, i: int| traversal(nodes, at).contains(y) && 0 <= i < fields_of(nodes[y as int]).len()
                && fields_of(nodes[y as int])[i] == f;
            assert(v.contains(y));
            let yi = choose|yi: int| 0 <= yi < v.len() && v[yi] == y;
            assert(fragment_fields(nodes, v).contains(f));
        }
        if fields.contains(f) {
            assert(fragment_fields(nodes, v).contains(f));
            let (y, i) = choose|y: int, i: int| 0 <= y < v.len() && 0 <= i < fields_of(nodes[v[y] as int]).len() && fields_of(nodes[v[y] as int])[i] == f;
            assert(v.contains(v[y]));
            assert(w.contains(v[y]));
            assert(traversal(nodes, at).contains(v[y]) && 0 <= i < fields_of(nodes[v[y] as int]).len() && fields_of(nodes[v[y] as int])[i] == f);
        }
    }
}

/// What a row's fields and tails name lies in range.
pub(crate) proof fn lemma_row_ranges(nodes: Seq<Node>, at: int, v: Seq<u32>, fields: Seq<(String, u32)>, tails: Seq<u32>)
    requires
        references_in_range(nodes),
        0 <= at < nodes.len(),
        row_traversal(nodes, at, v),
        fields.to_multiset() == fragment_fields(nodes, v).to_multiset(),
        tails == tails_of(nodes, v),
    ensures
        forall|k: int| 0 <= k < fields.len() ==> (#[trigger] fields[k]).1 < nodes.len(),
        forall|k: int| 0 <= k < tails.len() ==> (#[trigger] tails[k]) < nodes.len(),
{
    lemma_row_parts(nodes, at, v, fields, tails);
    let w = traversal(nodes, at);
    assert(row_traversal(nodes, at, w));
    assert forall|k: int| 0 <= k < fields.len() implies (#[trigger] fields[k]).1 < nodes.len() by {
        let c = fields[k].1;
        assert(row_child(nodes, at, c));
        let (y, i) = choose|y: u32, i: int| traversal(nodes, at).contains(y) && 0 <= i < fields_of(nodes[y as int]).len()
            && fields_of(nodes[y as int])[i].1 == c;
        let yi = choose|yi: int| 0 <= yi < w.len() && w[yi] == y;
        assert(y < nodes.len());
        assert(references(nodes[y as int])[i] == c);
    }
    assert forall|k: int| 0 <= k < tails.len() implies (#[trigger] tails[k]) < nodes.len() by {
        assert(tails.contains(tails[k]));
        assert(row_tail(nodes, at, tails[k]));
        let yi = choose|yi: int| 0 <= yi < w.len() && w[yi] == tails[k];
    }
}

/// The emptiness, finite construction and complete support of the row at
/// `at`, read as a record or as a sum: the conditions every field and tail
/// of it contribute.
#[verifier::spinoff_prover]
#[verifier::rlimit(40)]
fn row_facts(
    descriptor: &Descriptor,
    at: u32,
    parameters: &[u32],
    record: bool,
    empty: &Vec<Condition>,
    finite: &Vec<Condition>,
    supported: &Vec<Condition>,
) -> (r: (Condition, Condition, Condition))
    requires
        references_in_range(descriptor.nodes@),
        parameters_in_range(descriptor.nodes@, parameters@),
        at < descriptor.nodes.len(),
        empty@.len() == descriptor.nodes.len(),
        finite@.len() == descriptor.nodes.len(),
        supported@.len() == descriptor.nodes.len(),
    ensures
        forall|env: Set<(u32, Property)>| consistent(env) ==> {
            &&& r.0.means(env) == row_empty(descriptor.nodes@, parameters@, at as int, record, meaning(empty@), env)
            &&& r.1.means(env) == row_finite(descriptor.nodes@, parameters@, at as int, record, meaning(finite@), env)
            &&& r.2.means(env) == row_supported(descriptor.nodes@, parameters@, at as int, record, meaning(empty@), meaning(supported@), env)
        },
        forall|ps: Set<u32>|
            all_mention_only(empty@, ps) && all_mention_only(finite@, ps) && all_mention_only(supported@, ps)
                && (forall|i: int| 0 <= i < parameters@.len() ==> ps.contains(#[trigger] parameters@[i]))
                ==> mentions_only(r.0@, ps) && mentions_only(r.1@, ps) && mentions_only(r.2@, ps),
{
    let ghost nodes = descriptor.nodes@;
    let (_, fields, tails) = row(descriptor, at);
    let ghost v = choose|v: Seq<u32>| row_traversal(nodes, at as int, v) && fields@.to_multiset() == fragment_fields(nodes, v).to_multiset()
        && tails@ == tails_of(nodes, v);
    proof {
        lemma_row_parts(nodes, at as int, v, fields@, tails@);
        lemma_row_ranges(nodes, at as int, v, fields@, tails@);
    }
    let mut emptiness = if record {
        Condition::no()
    } else {
        Condition::yes()
    };
    let mut construction = if record {
        Condition::yes()
    } else {
        Condition::no()
    };
    let mut support = Condition::yes();
    let ghost e = meaning(empty@);
    let ghost f = meaning(finite@);
    let ghost s = meaning(supported@);
    let mut q: usize = 0;
    while q < fields.len()
        invariant
            q <= fields.len(),
            nodes == descriptor.nodes@,
            references_in_range(nodes),
            empty@.len() == nodes.len(),
            finite@.len() == nodes.len(),
            supported@.len() == nodes.len(),
            e == meaning(empty@),
            f == meaning(finite@),
            s == meaning(supported@),
            forall|k: int| 0 <= k < fields.len() ==> (#[trigger] fields@[k]).1 < nodes.len(),
            forall|env: Set<(u32, Property)>| consistent(env) ==> {
                &&& emptiness.means(env) == if record {
                    exists|k: int| 0 <= k < q && #[trigger] e(fields@[k].1 as int, env)
                } else {
                    forall|k: int| 0 <= k < q ==> #[trigger] e(fields@[k].1 as int, env)
                }
                &&& construction.means(env) == if record {
                    forall|k: int| 0 <= k < q ==> #[trigger] f(fields@[k].1 as int, env)
                } else {
                    exists|k: int| 0 <= k < q && #[trigger] f(fields@[k].1 as int, env)
                }
                &&& support.means(env) == forall|k: int| 0 <= k < q ==> #[trigger] e(fields@[k].1 as int, env) || s(fields@[k].1 as int, env)
            },
            forall|ps: Set<u32>|
                all_mention_only(empty@, ps) && all_mention_only(finite@, ps) && all_mention_only(supported@, ps)
                    ==> mentions_only(emptiness@, ps) && mentions_only(construction@, ps) && mentions_only(support@, ps),
        decreases fields.len() - q,
    {
        let child = fields[q].1 as usize;
        emptiness = if record {
            emptiness.or(&empty[child])
        } else {
            emptiness.and(&empty[child])
        };
        construction = if record {
            construction.and(&finite[child])
        } else {
            construction.or(&finite[child])
        };
        let either = empty[child].or(&supported[child]);
        support = support.and(&either);
        proof {
            assert forall|env: Set<(u32, Property)>| consistent(env) implies {
                &&& emptiness.means(env) == if record {
                    exists|k: int| 0 <= k < q + 1 && #[trigger] e(fields@[k].1 as int, env)
                } else {
                    forall|k: int| 0 <= k < q + 1 ==> #[trigger] e(fields@[k].1 as int, env)
                }
                &&& construction.means(env) == if record {
                    forall|k: int| 0 <= k < q + 1 ==> #[trigger] f(fields@[k].1 as int, env)
                } else {
                    exists|k: int| 0 <= k < q + 1 && #[trigger] f(fields@[k].1 as int, env)
                }
                &&& support.means(env) == forall|k: int| 0 <= k < q + 1 ==> #[trigger] e(fields@[k].1 as int, env) || s(fields@[k].1 as int, env)
            } by {
                assert(e(fields@[q as int].1 as int, env) == empty@[child as int].means(env));
                assert(f(fields@[q as int].1 as int, env) == finite@[child as int].means(env));
                assert(s(fields@[q as int].1 as int, env) == supported@[child as int].means(env));
                if record {
                    if exists|k: int| 0 <= k < q + 1 && #[trigger] e(fields@[k].1 as int, env) {
                        let k = choose|k: int| 0 <= k < q + 1 && #[trigger] e(fields@[k].1 as int, env);
                        if k < q {
                            assert(exists|k2: int| 0 <= k2 < q && #[trigger] e(fields@[k2].1 as int, env));
                        }
                    }
                } else {
                    if exists|k: int| 0 <= k < q + 1 && #[trigger] f(fields@[k].1 as int, env) {
                        let k = choose|k: int| 0 <= k < q + 1 && #[trigger] f(fields@[k].1 as int, env);
                        if k < q {
                            assert(exists|k2: int| 0 <= k2 < q && #[trigger] f(fields@[k2].1 as int, env));
                        }
                    }
                }
            }
        }
        q = q + 1;
    }
    let mut u: usize = 0;
    let ghost pe = row_empty_property(record);
    let ghost pc = row_constructible_property(record);
    while u < tails.len()
        invariant
            u <= tails.len(),
            nodes == descriptor.nodes@,
            parameters_in_range(nodes, parameters@),
            pe == row_empty_property(record),
            pc == row_constructible_property(record),
            forall|t: u32| row_tail(nodes, at as int, t) <==> tails@.contains(t),
            forall|k: int| 0 <= k < tails.len() ==> (#[trigger] tails@[k]) < nodes.len(),
            forall|k: int| 0 <= k < u ==> (#[trigger] nodes[tails@[k] as int]) is Parameter,
            forall|env: Set<(u32, Property)>| consistent(env) ==> {
                &&& emptiness.means(env) == if record {
                    (exists|k: int| 0 <= k < fields.len() && #[trigger] e(fields@[k].1 as int, env)) || some_tail(nodes, parameters@, tails@, u as int, pe, env)
                } else {
                    (forall|k: int| 0 <= k < fields.len() ==> #[trigger] e(fields@[k].1 as int, env)) && every_tail(nodes, parameters@, tails@, u as int, pe, env)
                }
                &&& construction.means(env) == if record {
                    (forall|k: int| 0 <= k < fields.len() ==> #[trigger] f(fields@[k].1 as int, env)) && every_tail(nodes, parameters@, tails@, u as int, pc, env)
                } else {
                    (exists|k: int| 0 <= k < fields.len() && #[trigger] f(fields@[k].1 as int, env)) || some_tail(nodes, parameters@, tails@, u as int, pc, env)
                }
                &&& support.means(env) == ((forall|k: int| 0 <= k < fields.len() ==> #[trigger] e(fields@[k].1 as int, env) || s(fields@[k].1 as int, env))
                    && every_tail_either(nodes, parameters@, tails@, u as int, pe, pc, env))
            },
            forall|ps: Set<u32>|
                all_mention_only(empty@, ps) && all_mention_only(finite@, ps) && all_mention_only(supported@, ps)
                    && (forall|i: int| 0 <= i < parameters@.len() ==> ps.contains(#[trigger] parameters@[i]))
                    ==> mentions_only(emptiness@, ps) && mentions_only(construction@, ps) && mentions_only(support@, ps),
        decreases tails.len() - u,
    {
        let t = tails[u];
        let index = match &descriptor.nodes[t as usize] {
            Node::Parameter(index) => *index,
            _ => {
                proof {
                    assert(tails@[u as int] == t);
                    assert(tails@.contains(t));
                    assert(row_tail(nodes, at as int, t));
                    assert(!tails_parametric(nodes, at as int));
                }
                return (Condition::no(), Condition::no(), Condition::no());
            },
        };
        let parameter = parameters[index as usize];
        let e_atom = Condition::atom(
            parameter,
            if record {
                Property::EmptyRecordRow
            } else {
                Property::EmptySumRow
            },
        );
        let c_atom = Condition::atom(
            parameter,
            if record {
                Property::ConstructibleRecordRow
            } else {
                Property::ConstructibleSumRow
            },
        );
        emptiness = if record {
            emptiness.or(&e_atom)
        } else {
            emptiness.and(&e_atom)
        };
        construction = if record {
            construction.and(&c_atom)
        } else {
            construction.or(&c_atom)
        };
        let either = e_atom.or(&c_atom);
        let ghost old_support = support;
        support = support.and(&either);
        proof {
            assert(tails@[u as int] == t);
            assert(tail_atom(nodes, parameters@, t, pe) == (parameter, pe));
            assert(tail_atom(nodes, parameters@, t, pc) == (parameter, pc));
            assert forall|env: Set<(u32, Property)>| consistent(env) implies emptiness.means(env) == if record {
                (exists|k: int| 0 <= k < fields.len() && #[trigger] e(fields@[k].1 as int, env)) || some_tail(nodes, parameters@, tails@, u + 1, pe, env)
            } else {
                (forall|k: int| 0 <= k < fields.len() ==> #[trigger] e(fields@[k].1 as int, env)) && every_tail(nodes, parameters@, tails@, u + 1, pe, env)
            } by {
                lemma_tail_step(nodes, parameters@, tails@, u as int, pe, pc, env);
                assert(e_atom.means(env) == env.contains(tail_atom(nodes, parameters@, t, pe)));
            }
            assert forall|env: Set<(u32, Property)>| consistent(env) implies construction.means(env) == if record {
                (forall|k: int| 0 <= k < fields.len() ==> #[trigger] f(fields@[k].1 as int, env)) && every_tail(nodes, parameters@, tails@, u + 1, pc, env)
            } else {
                (exists|k: int| 0 <= k < fields.len() && #[trigger] f(fields@[k].1 as int, env)) || some_tail(nodes, parameters@, tails@, u + 1, pc, env)
            } by {
                lemma_tail_step(nodes, parameters@, tails@, u as int, pc, pe, env);
                assert(c_atom.means(env) == env.contains(tail_atom(nodes, parameters@, t, pc)));
            }
            assert forall|env: Set<(u32, Property)>| consistent(env) implies support.means(env) == ((forall|k: int| 0 <= k < fields.len() ==> #[trigger] e(fields@[k].1 as int, env) || s(fields@[k].1 as int, env))
                && every_tail_either(nodes, parameters@, tails@, u + 1, pe, pc, env)) by {
                lemma_tail_step(nodes, parameters@, tails@, u as int, pe, pc, env);
                assert(e_atom.means(env) == env.contains(tail_atom(nodes, parameters@, t, pe)));
                assert(c_atom.means(env) == env.contains(tail_atom(nodes, parameters@, t, pc)));
                assert(either.means(env) == (env.contains(tail_atom(nodes, parameters@, t, pe)) || env.contains(tail_atom(nodes, parameters@, t, pc))));
                assert(support.means(env) == (old_support.means(env) && either.means(env)));
                assert(old_support.means(env) == ((forall|k: int| 0 <= k < fields.len() ==> #[trigger] e(fields@[k].1 as int, env) || s(fields@[k].1 as int, env))
                    && every_tail_either(nodes, parameters@, tails@, u as int, pe, pc, env)));
            }
        }
        u = u + 1;
    }
    proof {
        assert(tails_parametric(nodes, at as int)) by {
            assert forall|t: u32| row_tail(nodes, at as int, t) implies (#[trigger] nodes[t as int]) is Parameter by {
                let k = choose|k: int| 0 <= k < tails@.len() && tails@[k] == t;
            }
        }
        assert forall|env: Set<(u32, Property)>| consistent(env) implies {
            &&& emptiness.means(env) == row_empty(nodes, parameters@, at as int, record, e, env)
            &&& construction.means(env) == row_finite(nodes, parameters@, at as int, record, f, env)
            &&& support.means(env) == row_supported(nodes, parameters@, at as int, record, e, s, env)
        } by {
            lemma_row_children_tails(nodes, parameters@, at as int, fields@, tails@, e, f, s, record, env);
            lemma_tails_quantified(nodes, parameters@, at as int, tails@, pe, pc, env);
            lemma_tails_quantified(nodes, parameters@, at as int, tails@, pc, pe, env);
        }
    }
    (emptiness, construction, support)
}

/// Quantifying over a row's field entries and tail list is quantifying over
/// its children and tails.
proof fn lemma_row_children_tails(
    nodes: Seq<Node>,
    parameters: Seq<u32>,
    at: int,
    fields: Seq<(String, u32)>,
    tails: Seq<u32>,
    e: Valuation,
    f: Valuation,
    s: Valuation,
    record: bool,
    env: Set<(u32, Property)>,
)
    requires
        forall|c: u32| row_child(nodes, at, c) <==> exists|q: int| 0 <= q < fields.len() && #[trigger] fields[q].1 == c,
        forall|t: u32| row_tail(nodes, at, t) <==> tails.contains(t),
    ensures
        (exists|c: u32| row_child(nodes, at, c) && #[trigger] e(c as int, env)) == (exists|k: int| 0 <= k < fields.len() && #[trigger] e(fields[k].1 as int, env)),
        (forall|c: u32| row_child(nodes, at, c) ==> #[trigger] e(c as int, env)) == (forall|k: int| 0 <= k < fields.len() ==> #[trigger] e(fields[k].1 as int, env)),
        (exists|c: u32| row_child(nodes, at, c) && #[trigger] f(c as int, env)) == (exists|k: int| 0 <= k < fields.len() && #[trigger] f(fields[k].1 as int, env)),
        (forall|c: u32| row_child(nodes, at, c) ==> #[trigger] f(c as int, env)) == (forall|k: int| 0 <= k < fields.len() ==> #[trigger] f(fields[k].1 as int, env)),
        (forall|c: u32| row_child(nodes, at, c) ==> #[trigger] e(c as int, env) || s(c as int, env)) == (forall|k: int| 0 <= k < fields.len() ==> #[trigger] e(fields[k].1 as int, env) || s(fields[k].1 as int, env)),
{
    assert forall|k: int| 0 <= k < fields.len() implies row_child(nodes, at, #[trigger] fields[k].1) by {}
    assert forall|k: int| 0 <= k < tails.len() implies row_tail(nodes, at, #[trigger] tails[k]) by {
        assert(tails.contains(tails[k]));
    }
}


/// The three fixed points, computed in turn.
#[derive(Debug, Clone, Copy, PartialEq, Eq, Structural)]
pub enum Phase {
    Empty,
    Finite,
    Supported,
}

/// The nodes a node's facts are read from.
pub open spec fn analysed_targets(node: Node) -> Seq<u32> {
    match node {
        Node::Alias(c) | Node::Array(c) => seq![c],
        Node::Struct(fields) | Node::Sum(fields) => fields@.map_values(|f: (String, u32)| f.1),
        Node::Extend(pair) => seq![pair[0], pair[1]],
        _ => Seq::empty(),
    }
}

/// `path` leads from the root to `x` through analysed targets.
pub open spec fn reached_by(nodes: Seq<Node>, path: Seq<u32>, x: u32) -> bool {
    &&& path.len() > 0
    &&& path[0] == 0
    &&& path.last() == x
    &&& forall|i: int| 0 <= i < path.len() - 1 ==> analysed_targets(nodes[#[trigger] path[i] as int]).contains(path[i + 1])
}

/// The nodes reached from the root.
pub open spec fn reachable(nodes: Seq<Node>, x: u32) -> bool {
    exists|path: Seq<u32>| reached_by(nodes, path, x)
}

/// Each node's truth under one of the three readings, from the truths of
/// the nodes it is read from: the equations whose fixed points the facts
/// are. `e` is the emptiness the support reading consults; `kinds` says
/// whether each extension reads as a record.
pub open spec fn step(phase: Phase, nodes: Seq<Node>, parameters: Seq<u32>, kinds: Seq<bool>, e: Valuation, v: Valuation, at: int, env: Set<(u32, Property)>) -> bool {
    match nodes[at] {
        Node::Parameter(index) => {
            let p = parameters[index as int];
            match phase {
                Phase::Empty => env.contains((p, Property::Empty)),
                Phase::Finite => env.contains((p, Property::Constructible)),
                Phase::Supported => env.contains((p, Property::Empty)) || env.contains((p, Property::Constructible)),
            }
        },
        Node::Nat | Node::Int | Node::Fixed(_) | Node::Real | Node::String | Node::Boolean => phase != Phase::Empty,
        Node::Alias(c) => v(c as int, env),
        Node::Array(c) => match phase {
            Phase::Empty => false,
            Phase::Finite => true,
            Phase::Supported => e(c as int, env) || v(c as int, env),
        },
        Node::Struct(fields) => match phase {
            Phase::Empty => exists|k: int| 0 <= k < fields@.len() && #[trigger] v(fields@[k].1 as int, env),
            Phase::Finite => forall|k: int| 0 <= k < fields@.len() ==> #[trigger] v(fields@[k].1 as int, env),
            Phase::Supported => e(at, env) || forall|k: int| 0 <= k < fields@.len() ==> #[trigger] v(fields@[k].1 as int, env),
        },
        Node::Sum(fields) => match phase {
            Phase::Empty => forall|k: int| 0 <= k < fields@.len() ==> #[trigger] v(fields@[k].1 as int, env),
            Phase::Finite => exists|k: int| 0 <= k < fields@.len() && #[trigger] v(fields@[k].1 as int, env),
            Phase::Supported => forall|k: int| 0 <= k < fields@.len() ==> #[trigger] e(fields@[k].1 as int, env) || v(fields@[k].1 as int, env),
        },
        Node::Extend(_) => match phase {
            Phase::Empty => row_empty(nodes, parameters, at, kinds[at], v, env),
            Phase::Finite => row_finite(nodes, parameters, at, kinds[at], v, env),
            Phase::Supported => if kinds[at] {
                e(at, env) || row_supported(nodes, parameters, at, true, e, v, env)
            } else {
                row_supported(nodes, parameters, at, false, e, v, env)
            },
        },
        _ => false,
    }
}

/// `v` implies `w` at every reached node and consistent assignment.
pub open spec fn implies_on(nodes: Seq<Node>, v: Valuation, w: Valuation) -> bool {
    forall|x: u32, env: Set<(u32, Property)>| reachable(nodes, x) && consistent(env) && #[trigger] v(x as int, env) ==> #[trigger] w(x as int, env)
}

/// The equations' reading of `v`, as a valuation.
pub open spec fn stepped(phase: Phase, nodes: Seq<Node>, parameters: Seq<u32>, kinds: Seq<bool>, e: Valuation, v: Valuation) -> Valuation {
    |x: int, env: Set<(u32, Property)>| step(phase, nodes, parameters, kinds, e, v, x, env)
}

/// `v` solves the equations at every reached node.
pub open spec fn solves(phase: Phase, nodes: Seq<Node>, parameters: Seq<u32>, kinds: Seq<bool>, e: Valuation, v: Valuation) -> bool {
    implies_on(nodes, v, stepped(phase, nodes, parameters, kinds, e, v)) && implies_on(nodes, stepped(phase, nodes, parameters, kinds, e, v), v)
}

/// `v` is the greatest solution: every valuation the equations do not
/// shrink lies below it.
pub open spec fn greatest(phase: Phase, nodes: Seq<Node>, parameters: Seq<u32>, kinds: Seq<bool>, e: Valuation, v: Valuation) -> bool {
    &&& solves(phase, nodes, parameters, kinds, e, v)
    &&& forall|w: Valuation| implies_on(nodes, w, stepped(phase, nodes, parameters, kinds, e, w)) ==> implies_on(nodes, w, v)
}

/// `v` is the least solution: it lies below every valuation the equations
/// do not grow.
pub open spec fn least(phase: Phase, nodes: Seq<Node>, parameters: Seq<u32>, kinds: Seq<bool>, e: Valuation, v: Valuation) -> bool {
    &&& solves(phase, nodes, parameters, kinds, e, v)
    &&& forall|w: Valuation| implies_on(nodes, stepped(phase, nodes, parameters, kinds, e, w), w) ==> implies_on(nodes, v, w)
}

/// The kind each extension reads as: that of the first fragment of a
/// traversal of its row.
pub open spec fn kinds_of_rows(nodes: Seq<Node>, kinds: Seq<bool>) -> bool {
    &&& kinds.len() == nodes.len()
    &&& forall|x: int| 0 <= x < nodes.len() && (#[trigger] nodes[x]) is Extend ==> exists|v: Seq<u32>|
        row_traversal(nodes, x, v) && kinds[x] == (super::construction::first_kind(nodes, v) == Some(true))
}

/// A reached node's analysed targets are reached.
proof fn lemma_reach_step(nodes: Seq<Node>, x: u32, k: int)
    requires
        reachable(nodes, x),
        0 <= k < analysed_targets(nodes[x as int]).len(),
    ensures
        reachable(nodes, analysed_targets(nodes[x as int])[k]),
{
    let path = choose|path: Seq<u32>| reached_by(nodes, path, x);
    let c = analysed_targets(nodes[x as int])[k];
    let p2 = path.push(c);
    assert forall|i: int| 0 <= i < p2.len() - 1 implies analysed_targets(nodes[#[trigger] p2[i] as int]).contains(p2[i + 1]) by {
        if i < path.len() - 1 {
            assert(p2[i] == path[i] && p2[i + 1] == path[i + 1]);
        } else {
            assert(p2[i] == x);
            assert(analysed_targets(nodes[x as int])[k] == c);
        }
    }
    assert(reached_by(nodes, p2, c));
}

/// The nodes of a row reached from a reached node are reached.
proof fn lemma_row_reached(nodes: Seq<Node>, at: u32, v: Seq<u32>, i: int)
    requires
        reachable(nodes, at),
        row_traversal(nodes, at as int, v),
        0 <= i < v.len(),
    ensures
        reachable(nodes, v[i]),
    decreases i,
{
    if i > 0 {
        let j = choose|j: int| 0 <= j < i && edge(nodes, v[j] as int, #[trigger] v[i] as int);
        lemma_row_reached(nodes, at, v, j);
        let k = choose|k: int| 0 <= k < unguarded(nodes[v[j] as int]).len() && unguarded(nodes[v[j] as int])[k] as int == v[i] as int;
        match nodes[v[j] as int] {
            Node::Alias(c) => {
                assert(analysed_targets(nodes[v[j] as int])[0] == v[i]);
                lemma_reach_step(nodes, v[j], 0);
            },
            Node::Extend(pair) => {
                assert(analysed_targets(nodes[v[j] as int])[k] == v[i]);
                lemma_reach_step(nodes, v[j], k);
            },
            _ => {},
        }
    }
}

/// The children and tails of a reached node's row are reached.
proof fn lemma_row_members_reached(nodes: Seq<Node>, at: u32)
    requires
        reachable(nodes, at),
        exists|v: Seq<u32>| row_traversal(nodes, at as int, v),
    ensures
        forall|c: u32| row_child(nodes, at as int, c) ==> reachable(nodes, c),
        forall|t: u32| row_tail(nodes, at as int, t) ==> reachable(nodes, t),
{
    let w = traversal(nodes, at as int);
    assert(row_traversal(nodes, at as int, w));
    assert forall|c: u32| row_child(nodes, at as int, c) implies reachable(nodes, c) by {
        let (y, i) = choose|y: u32, i: int| traversal(nodes, at as int).contains(y) && 0 <= i < fields_of(nodes[y as int]).len()
            && fields_of(nodes[y as int])[i].1 == c;
        let yi = choose|yi: int| 0 <= yi < w.len() && w[yi] == y;
        lemma_row_reached(nodes, at, w, yi);
        assert(analysed_targets(nodes[y as int])[i] == c);
        lemma_reach_step(nodes, y, i);
    }
    assert forall|t: u32| row_tail(nodes, at as int, t) implies reachable(nodes, t) by {
        let ti = choose|ti: int| 0 <= ti < w.len() && w[ti] == t;
        lemma_row_reached(nodes, at, w, ti);
    }
}

/// The row readings are monotone in the valuation they read.
proof fn lemma_row_monotone(nodes: Seq<Node>, parameters: Seq<u32>, at: u32, record: bool, e: Valuation, v: Valuation, w: Valuation, env: Set<(u32, Property)>)
    requires
        forall|c: u32| row_child(nodes, at as int, c) ==> (#[trigger] v(c as int, env) ==> w(c as int, env)),
    ensures
        row_empty(nodes, parameters, at as int, record, v, env) ==> row_empty(nodes, parameters, at as int, record, w, env),
        row_finite(nodes, parameters, at as int, record, v, env) ==> row_finite(nodes, parameters, at as int, record, w, env),
        row_supported(nodes, parameters, at as int, record, e, v, env) ==> row_supported(nodes, parameters, at as int, record, e, w, env),
{
    assert forall|c: u32| row_child(nodes, at as int, c) && v(c as int, env) implies #[trigger] w(c as int, env) by {}
    assert forall|c: u32| row_child(nodes, at as int, c) && (e(c as int, env) || v(c as int, env)) implies #[trigger] e(c as int, env) || w(c as int, env) by {}
    if row_empty(nodes, parameters, at as int, record, v, env) {
        if record {
            if exists|c: u32| row_child(nodes, at as int, c) && #[trigger] v(c as int, env) {
                let c = choose|c: u32| row_child(nodes, at as int, c) && #[trigger] v(c as int, env);
                assert(w(c as int, env));
            }
        } else {
            assert forall|c: u32| row_child(nodes, at as int, c) implies #[trigger] w(c as int, env) by {
                assert(v(c as int, env));
            }
        }
    }
    if row_finite(nodes, parameters, at as int, record, v, env) {
        if !record {
            if exists|c: u32| row_child(nodes, at as int, c) && #[trigger] v(c as int, env) {
                let c = choose|c: u32| row_child(nodes, at as int, c) && #[trigger] v(c as int, env);
                assert(w(c as int, env));
            }
        } else {
            assert forall|c: u32| row_child(nodes, at as int, c) implies #[trigger] w(c as int, env) by {
                assert(v(c as int, env));
            }
        }
    }
    if row_supported(nodes, parameters, at as int, record, e, v, env) {
        assert forall|c: u32| row_child(nodes, at as int, c) implies #[trigger] e(c as int, env) || w(c as int, env) by {
            assert(e(c as int, env) || v(c as int, env));
        }
    }
}

/// Field readings are monotone in the valuation they read.
proof fn lemma_fields_monotone(fields: Seq<(String, u32)>, e: Valuation, v: Valuation, w: Valuation, env: Set<(u32, Property)>)
    requires
        forall|k: int| 0 <= k < fields.len() ==> (#[trigger] v(fields[k].1 as int, env) ==> w(fields[k].1 as int, env)),
    ensures
        (exists|k: int| 0 <= k < fields.len() && #[trigger] v(fields[k].1 as int, env)) ==> (exists|k: int| 0 <= k < fields.len() && #[trigger] w(fields[k].1 as int, env)),
        (forall|k: int| 0 <= k < fields.len() ==> #[trigger] v(fields[k].1 as int, env)) ==> (forall|k: int| 0 <= k < fields.len() ==> #[trigger] w(fields[k].1 as int, env)),
        (forall|k: int| 0 <= k < fields.len() ==> #[trigger] e(fields[k].1 as int, env) || v(fields[k].1 as int, env)) ==> (forall|k: int| 0 <= k < fields.len() ==> #[trigger] e(fields[k].1 as int, env) || w(fields[k].1 as int, env)),
{
    if exists|k: int| 0 <= k < fields.len() && #[trigger] v(fields[k].1 as int, env) {
        let k = choose|k: int| 0 <= k < fields.len() && #[trigger] v(fields[k].1 as int, env);
        assert(w(fields[k].1 as int, env));
    }
    if forall|k: int| 0 <= k < fields.len() ==> #[trigger] v(fields[k].1 as int, env) {
        assert forall|k: int| 0 <= k < fields.len() implies #[trigger] w(fields[k].1 as int, env) by {
            assert(v(fields[k].1 as int, env));
        }
    }
    if forall|k: int| 0 <= k < fields.len() ==> #[trigger] e(fields[k].1 as int, env) || v(fields[k].1 as int, env) {
        assert forall|k: int| 0 <= k < fields.len() implies #[trigger] e(fields[k].1 as int, env) || w(fields[k].1 as int, env) by {
            assert(e(fields[k].1 as int, env) || v(fields[k].1 as int, env));
        }
    }
}

/// The equations are monotone in the valuation they read: a valuation
/// implied everywhere gives truths implied at every reached node.
proof fn lemma_step_monotone(phase: Phase, nodes: Seq<Node>, parameters: Seq<u32>, kinds: Seq<bool>, e: Valuation, v: Valuation, w: Valuation, at: u32, env: Set<(u32, Property)>)
    requires
        reachable(nodes, at),
        at < nodes.len(),
        kinds_of_rows(nodes, kinds),
        forall|y: u32| reachable(nodes, y) && #[trigger] v(y as int, env) ==> w(y as int, env),
        step(phase, nodes, parameters, kinds, e, v, at as int, env),
    ensures
        step(phase, nodes, parameters, kinds, e, w, at as int, env),
{
    let node = nodes[at as int];
    match node {
        Node::Alias(c) => {
            lemma_reach_step(nodes, at, 0);
            assert(analysed_targets(node)[0] == c);
        },
        Node::Array(c) => {
            lemma_reach_step(nodes, at, 0);
            assert(analysed_targets(node)[0] == c);
        },
        Node::Struct(fields) | Node::Sum(fields) => {
            assert forall|k: int| 0 <= k < fields@.len() implies (#[trigger] v(fields@[k].1 as int, env) ==> w(fields@[k].1 as int, env)) by {
                assert(analysed_targets(node)[k] == fields@[k].1);
                lemma_reach_step(nodes, at, k);
            }
            lemma_fields_monotone(fields@, e, v, w, env);
        },
        Node::Extend(_) => {
            assert(nodes[at as int] is Extend);
            lemma_row_members_reached(nodes, at);
            lemma_row_monotone(nodes, parameters, at, kinds[at as int], e, v, w, env);
        },
        _ => {},
    }
}


/// The six properties.
pub open spec fn all_properties() -> Seq<Property> {
    seq![
        Property::Constructible,
        Property::Empty,
        Property::ConstructibleRecordRow,
        Property::EmptyRecordRow,
        Property::ConstructibleSumRow,
        Property::EmptySumRow,
    ]
}

/// Every property of every parameter.
pub open spec fn atom_list(parameters: Seq<u32>) -> Seq<(u32, Property)>
    decreases parameters.len(),
{
    if parameters.len() == 0 {
        Seq::empty()
    } else {
        atom_list(parameters.drop_last()) + all_properties().map_values(|q: Property| (parameters.last(), q))
    }
}

proof fn lemma_atom_list(parameters: Seq<u32>, p: u32, q: Property)
    requires
        parameters.contains(p),
    ensures
        atom_list(parameters).contains((p, q)),
    decreases parameters.len(),
{
    let rest = parameters.drop_last();
    let tail = all_properties().map_values(|r: Property| (parameters.last(), r));
    let k: int = match q {
        Property::Constructible => 0,
        Property::Empty => 1,
        Property::ConstructibleRecordRow => 2,
        Property::EmptyRecordRow => 3,
        Property::ConstructibleSumRow => 4,
        Property::EmptySumRow => 5,
    };
    assert(all_properties()[k] == q);
    if p == parameters.last() {
        assert(tail[k] == (p, q));
        assert((atom_list(rest) + tail)[atom_list(rest).len() + k] == (p, q));
    } else {
        let i = choose|i: int| 0 <= i < parameters.len() && parameters[i] == p;
        assert(i < parameters.len() - 1);
        assert(rest[i] == p);
        lemma_atom_list(rest, p, q);
        let j = choose|j: int| 0 <= j < atom_list(rest).len() && atom_list(rest)[j] == (p, q);
        assert((atom_list(rest) + tail)[j] == (p, q));
    }
}

/// Every assignment drawn from a list of atoms.
pub open spec fn subsets(l: Seq<(u32, Property)>) -> Seq<Set<(u32, Property)>>
    decreases l.len(),
{
    if l.len() == 0 {
        seq![Set::empty()]
    } else {
        subsets(l.drop_last()) + subsets(l.drop_last()).map_values(|e: Set<(u32, Property)>| e.insert(l.last()))
    }
}

proof fn lemma_subsets(l: Seq<(u32, Property)>, s: Set<(u32, Property)>)
    requires
        forall|a: (u32, Property)| #[trigger] s.contains(a) ==> l.contains(a),
    ensures
        subsets(l).contains(s),
    decreases l.len(),
{
    if l.len() == 0 {
        assert(s =~= Set::empty());
        assert(subsets(l)[0] == s);
    } else {
        let x = l.last();
        let rest = l.drop_last();
        let r = subsets(rest);
        if s.contains(x) {
            let s2 = s.remove(x);
            assert forall|a: (u32, Property)| #[trigger] s2.contains(a) implies rest.contains(a) by {
                let i = choose|i: int| 0 <= i < l.len() && l[i] == a;
                assert(i != l.len() - 1);
                assert(rest[i] == a);
            }
            lemma_subsets(rest, s2);
            let j = choose|j: int| 0 <= j < r.len() && r[j] == s2;
            assert(s2.insert(x) =~= s);
            assert((r + r.map_values(|e: Set<(u32, Property)>| e.insert(x)))[r.len() + j] == s);
        } else {
            assert forall|a: (u32, Property)| #[trigger] s.contains(a) implies rest.contains(a) by {
                let i = choose|i: int| 0 <= i < l.len() && l[i] == a;
                assert(i != l.len() - 1);
                assert(rest[i] == a);
            }
            lemma_subsets(rest, s);
            let j = choose|j: int| 0 <= j < r.len() && r[j] == s;
            assert((r + r.map_values(|e: Set<(u32, Property)>| e.insert(x)))[j] == s);
        }
    }
}

/// How many of the assignments satisfy a condition consistently.
pub open spec fn sat_count(c: Condition, envs: Seq<Set<(u32, Property)>>) -> nat
    decreases envs.len(),
{
    if envs.len() == 0 {
        0
    } else {
        sat_count(c, envs.drop_last()) + if consistent(envs.last()) && c.means(envs.last()) {
            1nat
        } else {
            0nat
        }
    }
}

proof fn lemma_sat_count_bound(c: Condition, envs: Seq<Set<(u32, Property)>>)
    ensures
        sat_count(c, envs) <= envs.len(),
    decreases envs.len(),
{
    if envs.len() > 0 {
        lemma_sat_count_bound(c, envs.drop_last());
    }
}

/// A condition implied by another is satisfied no more often, and less
/// often where some listed assignment tells them apart.
proof fn lemma_sat_count_less(c1: Condition, c2: Condition, envs: Seq<Set<(u32, Property)>>)
    requires
        forall|i: int| 0 <= i < envs.len() && consistent(#[trigger] envs[i]) && c1.means(envs[i]) ==> c2.means(envs[i]),
    ensures
        sat_count(c1, envs) <= sat_count(c2, envs),
        (exists|i: int| 0 <= i < envs.len() && consistent(#[trigger] envs[i]) && c2.means(envs[i]) && !c1.means(envs[i]))
            ==> sat_count(c1, envs) < sat_count(c2, envs),
    decreases envs.len(),
{
    if envs.len() > 0 {
        let rest = envs.drop_last();
        assert forall|i: int| 0 <= i < rest.len() && consistent(#[trigger] rest[i]) && c1.means(rest[i]) implies c2.means(rest[i]) by {
            assert(envs[i] == rest[i]);
        }
        lemma_sat_count_less(c1, c2, rest);
        assert(envs.last() == envs[envs.len() - 1]);
        if exists|i: int| 0 <= i < envs.len() && consistent(#[trigger] envs[i]) && c2.means(envs[i]) && !c1.means(envs[i]) {
            let i = choose|i: int| 0 <= i < envs.len() && consistent(#[trigger] envs[i]) && c2.means(envs[i]) && !c1.means(envs[i]);
            if i < rest.len() {
                assert(rest[i] == envs[i]);
                assert(exists|k: int| 0 <= k < rest.len() && consistent(#[trigger] rest[k]) && c2.means(rest[k]) && !c1.means(rest[k]));
            }
        }
    }
}

/// The satisfaction counts of an array of conditions, summed.
pub open spec fn total_count(values: Seq<Condition>, envs: Seq<Set<(u32, Property)>>) -> nat
    decreases values.len(),
{
    if values.len() == 0 {
        0
    } else {
        total_count(values.drop_last(), envs) + sat_count(values.last(), envs)
    }
}

proof fn lemma_total_update(values: Seq<Condition>, i: int, c: Condition, envs: Seq<Set<(u32, Property)>>)
    requires
        0 <= i < values.len(),
    ensures
        total_count(values.update(i, c), envs) + sat_count(values[i], envs) == total_count(values, envs) + sat_count(c, envs),
    decreases values.len(),
{
    let u = values.update(i, c);
    if i < values.len() - 1 {
        assert(u.drop_last() =~= values.drop_last().update(i, c));
        lemma_total_update(values.drop_last(), i, c, envs);
    } else {
        assert(u.drop_last() =~= values.drop_last());
    }
}

proof fn lemma_total_bound(values: Seq<Condition>, envs: Seq<Set<(u32, Property)>>)
    ensures
        total_count(values, envs) <= values.len() * envs.len(),
    decreases values.len(),
{
    if values.len() > 0 {
        lemma_total_bound(values.drop_last(), envs);
        lemma_sat_count_bound(values.last(), envs);
        assert((values.len() - 1) * envs.len() + envs.len() == values.len() * envs.len()) by (nonlinear_arith);
    }
}

/// A condition on the given parameters means under an assignment what it
/// means under the part of it about those parameters.
proof fn lemma_restrict(c: Condition, parameters: Seq<u32>, env: Set<(u32, Property)>)
    requires
        mentions_only(c@, parameters.to_set()),
    ensures
        c.means(env) == c.means(env.intersect(atom_list(parameters).to_set())),
        consistent(env) ==> consistent(env.intersect(atom_list(parameters).to_set())),
{
    let u = atom_list(parameters).to_set();
    let small = env.intersect(u);
    assert forall|i: int, k: int| 0 <= i < c@.len() && 0 <= k < c@[i].len() implies u.contains(#[trigger] c@[i][k]) by {
        assert(parameters.to_set().contains(c@[i][k].0));
        lemma_atom_list(parameters, c@[i][k].0, c@[i][k].1);
    }
    if c.means(env) {
        let i = choose|i: int| 0 <= i < c@.len() && super::construction::term_holds(#[trigger] c@[i], env);
        assert(super::construction::term_holds(c@[i], small));
    }
    if c.means(small) {
        let i = choose|i: int| 0 <= i < c@.len() && super::construction::term_holds(#[trigger] c@[i], small);
        assert(super::construction::term_holds(c@[i], env));
    }
}

/// The assignments the measure counts: every one drawn from the
/// parameters' atoms.
pub open spec fn measured_envs(parameters: Seq<u32>) -> Seq<Set<(u32, Property)>> {
    subsets(atom_list(parameters))
}

/// Two conditions on the given parameters that differ somewhere differ on
/// a measured assignment.
proof fn lemma_difference_measured(c1: Condition, c2: Condition, parameters: Seq<u32>, env: Set<(u32, Property)>)
    requires
        mentions_only(c1@, parameters.to_set()),
        mentions_only(c2@, parameters.to_set()),
        consistent(env),
        c2.means(env),
        !c1.means(env),
    ensures
        exists|i: int| 0 <= i < measured_envs(parameters).len() && consistent(#[trigger] measured_envs(parameters)[i])
            && c2.means(measured_envs(parameters)[i]) && !c1.means(measured_envs(parameters)[i]),
{
    let u = atom_list(parameters).to_set();
    let small = env.intersect(u);
    lemma_restrict(c1, parameters, env);
    lemma_restrict(c2, parameters, env);
    assert forall|a: (u32, Property)| #[trigger] small.contains(a) implies atom_list(parameters).contains(a) by {}
    lemma_subsets(atom_list(parameters), small);
    let i = choose|i: int| 0 <= i < measured_envs(parameters).len() && measured_envs(parameters)[i] == small;
    assert(consistent(measured_envs(parameters)[i]));
}


/// Every value of `values` at the children the fields name.
fn all_of(values: &Vec<Condition>, fields: &Vec<(String, u32)>) -> (c: Condition)
    requires
        forall|k: int| 0 <= k < fields.len() ==> (#[trigger] fields@[k]).1 < values.len(),
    ensures
        forall|env: Set<(u32, Property)>| consistent(env) ==> (c.means(env) == forall|k: int| 0 <= k < fields.len() ==> #[trigger] meaning(values@)(fields@[k].1 as int, env)),
        forall|ps: Set<u32>| all_mention_only(values@, ps) ==> mentions_only(c@, ps),
{
    let mut c = Condition::yes();
    let mut k: usize = 0;
    while k < fields.len()
        invariant
            k <= fields.len(),
            forall|j: int| 0 <= j < fields.len() ==> (#[trigger] fields@[j]).1 < values.len(),
            forall|env: Set<(u32, Property)>| consistent(env) ==> (c.means(env) == forall|j: int| 0 <= j < k ==> #[trigger] meaning(values@)(fields@[j].1 as int, env)),
            forall|ps: Set<u32>| all_mention_only(values@, ps) ==> mentions_only(c@, ps),
        decreases fields.len() - k,
    {
        let child = fields[k].1 as usize;
        proof {
            assert forall|ps: Set<u32>| all_mention_only(values@, ps) implies mentions_only(values@[child as int]@, ps) by {}
        }
        c = c.and(&values[child]);
        proof {
            assert forall|env: Set<(u32, Property)>| consistent(env) implies (c.means(env) == forall|j: int| 0 <= j < k + 1 ==> #[trigger] meaning(values@)(fields@[j].1 as int, env)) by {
                assert(meaning(values@)(fields@[k as int].1 as int, env) == values@[child as int].means(env));
            }
        }
        k = k + 1;
    }
    c
}

/// Some value of `values` at the children the fields name.
fn any_of(values: &Vec<Condition>, fields: &Vec<(String, u32)>) -> (c: Condition)
    requires
        forall|k: int| 0 <= k < fields.len() ==> (#[trigger] fields@[k]).1 < values.len(),
    ensures
        forall|env: Set<(u32, Property)>| consistent(env) ==> (c.means(env) == exists|k: int| 0 <= k < fields.len() && #[trigger] meaning(values@)(fields@[k].1 as int, env)),
        forall|ps: Set<u32>| all_mention_only(values@, ps) ==> mentions_only(c@, ps),
{
    let mut c = Condition::no();
    let mut k: usize = 0;
    while k < fields.len()
        invariant
            k <= fields.len(),
            forall|j: int| 0 <= j < fields.len() ==> (#[trigger] fields@[j]).1 < values.len(),
            forall|env: Set<(u32, Property)>| consistent(env) ==> (c.means(env) == exists|j: int| 0 <= j < k && #[trigger] meaning(values@)(fields@[j].1 as int, env)),
            forall|ps: Set<u32>| all_mention_only(values@, ps) ==> mentions_only(c@, ps),
        decreases fields.len() - k,
    {
        let child = fields[k].1 as usize;
        proof {
            assert forall|ps: Set<u32>| all_mention_only(values@, ps) implies mentions_only(values@[child as int]@, ps) by {}
        }
        c = c.or(&values[child]);
        proof {
            assert forall|env: Set<(u32, Property)>| consistent(env) implies (c.means(env) == exists|j: int| 0 <= j < k + 1 && #[trigger] meaning(values@)(fields@[j].1 as int, env)) by {
                assert(meaning(values@)(fields@[k as int].1 as int, env) == values@[child as int].means(env));
                if exists|j: int| 0 <= j < k + 1 && #[trigger] meaning(values@)(fields@[j].1 as int, env) {
                    let j = choose|j: int| 0 <= j < k + 1 && #[trigger] meaning(values@)(fields@[j].1 as int, env);
                    if j < k {
                        assert(exists|j2: int| 0 <= j2 < k && #[trigger] meaning(values@)(fields@[j2].1 as int, env));
                    }
                }
            }
        }
        k = k + 1;
    }
    c
}

/// Every child the fields name is empty or has the value.
fn each_either(empty: &Vec<Condition>, values: &Vec<Condition>, fields: &Vec<(String, u32)>) -> (c: Condition)
    requires
        empty.len() == values.len(),
        forall|k: int| 0 <= k < fields.len() ==> (#[trigger] fields@[k]).1 < values.len(),
    ensures
        forall|env: Set<(u32, Property)>| consistent(env) ==> (c.means(env) == forall|k: int| 0 <= k < fields.len() ==> #[trigger] meaning(empty@)(fields@[k].1 as int, env) || meaning(values@)(fields@[k].1 as int, env)),
        forall|ps: Set<u32>| all_mention_only(values@, ps) && all_mention_only(empty@, ps) ==> mentions_only(c@, ps),
{
    let mut c = Condition::yes();
    let mut k: usize = 0;
    while k < fields.len()
        invariant
            k <= fields.len(),
            empty.len() == values.len(),
            forall|j: int| 0 <= j < fields.len() ==> (#[trigger] fields@[j]).1 < values.len(),
            forall|env: Set<(u32, Property)>| consistent(env) ==> (c.means(env) == forall|j: int| 0 <= j < k ==> #[trigger] meaning(empty@)(fields@[j].1 as int, env) || meaning(values@)(fields@[j].1 as int, env)),
            forall|ps: Set<u32>| all_mention_only(values@, ps) && all_mention_only(empty@, ps) ==> mentions_only(c@, ps),
        decreases fields.len() - k,
    {
        let child = fields[k].1 as usize;
        proof {
            assert forall|ps: Set<u32>| all_mention_only(values@, ps) && all_mention_only(empty@, ps) implies mentions_only(values@[child as int]@, ps) && mentions_only(empty@[child as int]@, ps) by {}
        }
        let either = empty[child].or(&values[child]);
        c = c.and(&either);
        proof {
            assert forall|env: Set<(u32, Property)>| consistent(env) implies (c.means(env) == forall|j: int| 0 <= j < k + 1 ==> #[trigger] meaning(empty@)(fields@[j].1 as int, env) || meaning(values@)(fields@[j].1 as int, env)) by {
                assert(meaning(values@)(fields@[k as int].1 as int, env) == values@[child as int].means(env));
                assert(meaning(empty@)(fields@[k as int].1 as int, env) == empty@[child as int].means(env));
            }
        }
        k = k + 1;
    }
    c
}

/// The fields of a struct or sum name nodes in range.
proof fn lemma_fields_in_range(nodes: Seq<Node>, at: int, fields: Seq<(String, u32)>)
    requires
        references_in_range(nodes),
        0 <= at < nodes.len(),
        fields_of(nodes[at]) == fields,
    ensures
        forall|k: int| 0 <= k < fields.len() ==> (#[trigger] fields[k]).1 < nodes.len(),
{
    assert forall|k: int| 0 <= k < fields.len() implies (#[trigger] fields[k]).1 < nodes.len() by {
        assert(references(nodes[at])[k] == fields_of(nodes[at])[k].1);
    }
}

/// One equation: the truth of node `at` under a phase's reading, from the
/// values of the nodes it is read from.
fn next_value(
    phase: Phase,
    descriptor: &Descriptor,
    parameters: &[u32],
    kinds: &Vec<bool>,
    empty: &Vec<Condition>,
    values: &Vec<Condition>,
    at: usize,
) -> (c: Condition)
    requires
        references_in_range(descriptor.nodes@),
        parameters_in_range(descriptor.nodes@, parameters@),
        at < descriptor.nodes.len(),
        descriptor.nodes.len() <= u32::MAX,
        values@.len() == descriptor.nodes.len(),
        kinds@.len() == descriptor.nodes.len(),
        phase == Phase::Supported ==> empty@.len() == descriptor.nodes.len(),
    ensures
        forall|env: Set<(u32, Property)>| consistent(env) ==> c.means(env) == step(phase, descriptor.nodes@, parameters@, kinds@, meaning(empty@), meaning(values@), at as int, env),
        forall|ps: Set<u32>|
            all_mention_only(values@, ps) && (phase == Phase::Supported ==> all_mention_only(empty@, ps))
                && (forall|i: int| 0 <= i < parameters@.len() ==> ps.contains(#[trigger] parameters@[i]))
                ==> mentions_only(c@, ps),
{
    let ghost nodes = descriptor.nodes@;
    let ghost e = meaning(empty@);
    let ghost v = meaning(values@);
    let ghost ps_ok = |ps: Set<u32>| all_mention_only(values@, ps) && (phase == Phase::Supported ==> all_mention_only(empty@, ps))
        && (forall|i: int| 0 <= i < parameters@.len() ==> ps.contains(#[trigger] parameters@[i]));
    let c = match &descriptor.nodes[at] {
        Node::Parameter(index) => {
            let p = parameters[*index as usize];
            let facts = Facts::parameter(p);
            proof {
                assert(facts.condition_for(Property::Empty) == &facts.empty);
                assert(facts.condition_for(Property::Constructible) == &facts.constructible);
                assert forall|ps: Set<u32>| ps_ok(ps) implies mentions_only(facts.empty@, ps) && mentions_only(facts.constructible@, ps) by {
                    assert(parameters@[*index as int] == p);
                    assert(ps.contains(p));
                    assert(mentions_only(facts.condition_for(Property::Empty)@, ps));
                    assert(mentions_only(facts.condition_for(Property::Constructible)@, ps));
                }
            }
            let c = match phase {
                Phase::Empty => facts.empty,
                Phase::Finite => facts.constructible,
                Phase::Supported => facts.empty.or(&facts.constructible),
            };
            c
        },
        Node::Nat | Node::Int | Node::Fixed(_) | Node::Real | Node::String | Node::Boolean => {
            if phase == Phase::Empty {
                Condition::no()
            } else {
                Condition::yes()
            }
        },
        Node::Alias(child) => {
            proof {
                assert(references(nodes[at as int])[0] == *child);
                assert forall|ps: Set<u32>| all_mention_only(values@, ps) implies mentions_only(values@[*child as int]@, ps) by {}
            }
            values[*child as usize].copy()
        },
        Node::Array(child) => {
            proof {
                assert(references(nodes[at as int])[0] == *child);
            }
            match phase {
                Phase::Empty => Condition::no(),
                Phase::Finite => Condition::yes(),
                Phase::Supported => {
                    proof {
                        assert forall|ps: Set<u32>| all_mention_only(values@, ps) && all_mention_only(empty@, ps) implies mentions_only(values@[*child as int]@, ps) && mentions_only(empty@[*child as int]@, ps) by {}
                    }
                    empty[*child as usize].or(&values[*child as usize])
                },
            }
        },
        Node::Struct(fields) => {
            proof {
                lemma_fields_in_range(nodes, at as int, fields@);
            }
            match phase {
                Phase::Empty => any_of(values, fields),
                Phase::Finite => all_of(values, fields),
                Phase::Supported => {
                    let all = all_of(values, fields);
                    proof {
                        assert forall|ps: Set<u32>| all_mention_only(empty@, ps) implies mentions_only(empty@[at as int]@, ps) by {}
                    }
                    empty[at].or(&all)
                },
            }
        },
        Node::Sum(fields) => {
            proof {
                lemma_fields_in_range(nodes, at as int, fields@);
            }
            match phase {
                Phase::Empty => all_of(values, fields),
                Phase::Finite => any_of(values, fields),
                Phase::Supported => each_either(empty, values, fields),
            }
        },
        Node::Extend(_) => {
            let record = kinds[at];
            match phase {
                Phase::Empty => {
                    let (emptiness, _, _) = row_facts(descriptor, at as u32, parameters, record, values, values, values);
                    emptiness
                },
                Phase::Finite => {
                    let (_, construction, _) = row_facts(descriptor, at as u32, parameters, record, values, values, values);
                    construction
                },
                Phase::Supported => {
                    let (_, _, support) = row_facts(descriptor, at as u32, parameters, record, empty, values, values);
                    if record {
                        proof {
                            assert forall|ps: Set<u32>| all_mention_only(empty@, ps) implies mentions_only(empty@[at as int]@, ps) by {}
                        }
                        empty[at].or(&support)
                    } else {
                        support
                    }
                },
            }
        },
        _ => Condition::no(),
    };
    c
}


/// A node on a path from the root lies in range.
proof fn lemma_reached_in_range(nodes: Seq<Node>, path: Seq<u32>, x: u32, i: int)
    requires
        references_in_range(nodes),
        nodes.len() > 0,
        reached_by(nodes, path, x),
        0 <= i < path.len(),
    ensures
        path[i] < nodes.len(),
    decreases i,
{
    if i > 0 {
        lemma_reached_in_range(nodes, path, x, i - 1);
        let t = analysed_targets(nodes[path[i - 1] as int]);
        assert(t.contains(path[i]));
        let k = choose|k: int| 0 <= k < t.len() && t[k] == path[i];
        assert(references(nodes[path[i - 1] as int])[k] == t[k]);
    }
}

/// The nodes reached from the root lie in range.
proof fn lemma_reachable_in_range(nodes: Seq<Node>, x: u32)
    requires
        references_in_range(nodes),
        nodes.len() > 0,
        reachable(nodes, x),
    ensures
        x < nodes.len(),
{
    let path = choose|path: Seq<u32>| reached_by(nodes, path, x);
    lemma_reached_in_range(nodes, path, x, path.len() - 1);
}

/// How many nodes are marked.
pub open spec fn marked_count(marks: Seq<bool>) -> nat
    decreases marks.len(),
{
    if marks.len() == 0 {
        0
    } else {
        marked_count(marks.drop_last()) + if marks.last() {
            1nat
        } else {
            0nat
        }
    }
}

pub(crate) proof fn lemma_mark(marks: Seq<bool>, x: int)
    requires
        0 <= x < marks.len(),
        !marks[x],
    ensures
        marked_count(marks.update(x, true)) == marked_count(marks) + 1,
    decreases marks.len(),
{
    let u = marks.update(x, true);
    if x < marks.len() - 1 {
        assert(u.drop_last() =~= marks.drop_last().update(x, true));
        lemma_mark(marks.drop_last(), x);
    } else {
        assert(u.drop_last() =~= marks.drop_last());
    }
}

pub(crate) proof fn lemma_marked_bound(marks: Seq<bool>)
    ensures
        marked_count(marks) <= marks.len(),
    decreases marks.len(),
{
    if marks.len() > 0 {
        lemma_marked_bound(marks.drop_last());
    }
}

/// The search's bookkeeping: the queue lists each marked node once, and
/// every marked node is reached from the root.
spec fn search_state(nodes: Seq<Node>, marks: Seq<bool>, queue: Seq<usize>) -> bool {
    &&& marks.len() == nodes.len()
    &&& queue.len() == marked_count(marks)
    &&& forall|k: int| 0 <= k < queue.len() ==> (#[trigger] queue[k]) < nodes.len() && marks[queue[k] as int]
    &&& forall|x: int| 0 <= x < nodes.len() && #[trigger] marks[x] ==> queue.contains(x as usize)
    &&& forall|x: int| 0 <= x < nodes.len() && #[trigger] marks[x] ==> reachable(nodes, x as u32)
}

/// Marks a reached node and queues it, unless it is marked already.
fn visit(nodes: Ghost<Seq<Node>>, marks: &mut Vec<bool>, queue: &mut Vec<usize>, t: usize)
    requires
        search_state(nodes@, old(marks)@, old(queue)@),
        t < nodes@.len(),
        reachable(nodes@, t as u32),
    ensures
        search_state(nodes@, final(marks)@, final(queue)@),
        final(marks)@[t as int],
        forall|x: int| 0 <= x < old(marks)@.len() && old(marks)@[x] ==> #[trigger] final(marks)@[x],
        final(queue)@.len() >= old(queue)@.len(),
        forall|k: int| 0 <= k < old(queue)@.len() ==> #[trigger] final(queue)@[k] == old(queue)@[k],
{
    if !marks[t] {
        proof {
            lemma_mark(marks@, t as int);
            lemma_marked_bound(marks@.update(t as int, true));
        }
        let ghost before = queue@;
        marks.set(t, true);
        queue.push(t);
        proof {
            assert forall|x: int| 0 <= x < nodes@.len() && #[trigger] marks@[x] implies queue@.contains(x as usize) by {
                if x == t {
                    assert(queue@[before.len() as int] == t);
                } else {
                    let k = choose|k: int| 0 <= k < before.len() && before[k] == x as usize;
                    assert(queue@[k] == x as usize);
                }
            }
        }
    }
}

/// The nodes reached from the root, in ascending order.
fn reachable_order(descriptor: &Descriptor) -> (order: Vec<usize>)
    requires
        references_in_range(descriptor.nodes@),
        descriptor.nodes.len() > 0,
        descriptor.nodes.len() <= u32::MAX,
    ensures
        forall|x: u32| reachable(descriptor.nodes@, x) <==> order@.contains(x as usize),
        forall|k: int| 0 <= k < order.len() ==> (#[trigger] order@[k]) < descriptor.nodes.len(),
        forall|i: int, j: int| 0 <= i < j < order.len() ==> order@[i] < order@[j],
{
    let ghost nodes = descriptor.nodes@;
    let n = descriptor.nodes.len();
    let mut marks: Vec<bool> = Vec::new();
    let mut z: usize = 0;
    while z < n
        invariant
            z <= n,
            marks@.len() == z,
            forall|x: int| 0 <= x < z ==> !marks@[x],
        decreases n - z,
    {
        marks.push(false);
        z = z + 1;
    }
    proof {
        lemma_zero_marks(marks@, marks@.len() as int);
        assert(marks@.take(marks@.len() as int) =~= marks@);
        let p = seq![0u32];
        assert(reached_by(nodes, p, 0));
    }
    let mut queue: Vec<usize> = Vec::new();
    visit(Ghost(nodes), &mut marks, &mut queue, 0);
    let mut head: usize = 0;
    while head < queue.len()
        invariant
            nodes == descriptor.nodes@,
            n == nodes.len(),
            n <= u32::MAX,
            references_in_range(nodes),
            search_state(nodes, marks@, queue@),
            head <= queue.len(),
            marks@[0],
            forall|j: int, k: int| 0 <= j < head && 0 <= k < analysed_targets(nodes[queue@[j] as int]).len()
                ==> #[trigger] marks@[analysed_targets(nodes[queue@[j] as int])[k] as int],
        decreases 2 * n - head - queue.len(),
    {
        proof {
            lemma_marked_bound(marks@);
        }
        let at = queue[head];
        let ghost before_queue = queue@;
        let ghost before_marks = marks@;
        let ghost targets = analysed_targets(nodes[at as int]);
        proof {
            assert(marks@[at as int]);
            assert(reachable(nodes, at as u32));
            assert forall|k: int| 0 <= k < targets.len() implies (#[trigger] targets[k]) < n && reachable(nodes, targets[k]) by {
                assert(references(nodes[at as int])[k] == targets[k]);
                lemma_reach_step(nodes, at as u32, k);
            }
        }
        match &descriptor.nodes[at] {
            Node::Alias(child) | Node::Array(child) => {
                proof {
                    assert(targets[0] == *child);
                }
                visit(Ghost(nodes), &mut marks, &mut queue, *child as usize);
            },
            Node::Struct(fields) | Node::Sum(fields) => {
                let mut k: usize = 0;
                while k < fields.len()
                    invariant
                        k <= fields.len(),
                        n == nodes.len(),
                        search_state(nodes, marks@, queue@),
                        targets == fields@.map_values(|f: (String, u32)| f.1),
                        forall|q: int| 0 <= q < targets.len() ==> (#[trigger] targets[q]) < n && reachable(nodes, targets[q]),
                        forall|q: int| 0 <= q < k ==> #[trigger] marks@[targets[q] as int],
                        queue@.len() >= before_queue.len(),
                        forall|q: int| 0 <= q < before_queue.len() ==> #[trigger] queue@[q] == before_queue[q],
                        forall|x: int| 0 <= x < n && before_marks[x] ==> #[trigger] marks@[x],
                    decreases fields.len() - k,
                {
                    proof {
                        assert(targets[k as int] == fields@[k as int].1);
                    }
                    visit(Ghost(nodes), &mut marks, &mut queue, fields[k].1 as usize);
                    k = k + 1;
                }
            },
            Node::Extend(pair) => {
                proof {
                    assert(targets[0] == pair[0] && targets[1] == pair[1]);
                }
                visit(Ghost(nodes), &mut marks, &mut queue, pair[0] as usize);
                visit(Ghost(nodes), &mut marks, &mut queue, pair[1] as usize);
            },
            _ => {},
        }
        proof {
            lemma_marked_bound(marks@);
            assert forall|k: int| 0 <= k < targets.len() implies #[trigger] marks@[targets[k] as int] by {}
            assert forall|j: int, k: int| 0 <= j < head + 1 && 0 <= k < analysed_targets(nodes[queue@[j] as int]).len()
                implies #[trigger] marks@[analysed_targets(nodes[queue@[j] as int])[k] as int] by {
                assert(queue@[j] == before_queue[j]);
                if j < head {
                    let t = analysed_targets(nodes[queue@[j] as int])[k];
                    assert(before_marks[t as int]);
                    assert(references(nodes[queue@[j] as int])[k] == t);
                }
            }
        }
        head = head + 1;
    }
    proof {
        assert forall|x: u32| reachable(nodes, x) implies marks@[x as int] by {
            let path = choose|path: Seq<u32>| reached_by(nodes, path, x);
            lemma_path_marked(nodes, marks@, queue@, path, x, path.len() - 1);
        }
    }
    let mut order: Vec<usize> = Vec::new();
    let mut y: usize = 0;
    while y < n
        invariant
            y <= n,
            n == nodes.len(),
            marks@.len() == n,
            forall|x: int| 0 <= x < n && #[trigger] marks@[x] ==> reachable(nodes, x as u32),
            forall|x: usize| #[trigger] order@.contains(x) <==> x < y && marks@[x as int],
            forall|k: int| 0 <= k < order.len() ==> (#[trigger] order@[k]) < y,
            forall|i: int, j: int| 0 <= i < j < order.len() ==> order@[i] < order@[j],
        decreases n - y,
    {
        if marks[y] {
            let ghost before = order@;
            order.push(y);
            proof {
                assert(order@ == before.push(y));
                assert forall|x: usize| #[trigger] order@.contains(x) <==> x < y + 1 && marks@[x as int] by {
                    if x == y {
                        assert(order@[before.len() as int] == y);
                    } else {
                        if order@.contains(x) {
                            let k = choose|k: int| 0 <= k < order@.len() && order@[k] == x;
                            assert(k < before.len());
                            assert(before[k] == x);
                            assert(before.contains(x));
                        }
                        if before.contains(x) {
                            let k = choose|k: int| 0 <= k < before.len() && before[k] == x;
                            assert(order@[k] == x);
                        }
                    }
                }
            }
        }
        y = y + 1;
    }
    proof {
        assert forall|x: u32| reachable(nodes, x) <==> order@.contains(x as usize) by {
            if reachable(nodes, x) {
                lemma_reachable_in_range(nodes, x);
                assert(marks@[x as int]);
            }
            if order@.contains(x as usize) {
                assert(marks@[x as int]);
            }
        }
    }
    order
}

pub(crate) proof fn lemma_zero_marks(marks: Seq<bool>, m: int)
    requires
        0 <= m <= marks.len(),
        forall|x: int| 0 <= x < marks.len() ==> !marks[x],
    ensures
        marked_count(marks.take(m)) == 0,
    decreases m,
{
    if m > 0 {
        assert(marks.take(m).drop_last() =~= marks.take(m - 1));
        lemma_zero_marks(marks, m - 1);
    }
}

/// A path from the root runs through marked nodes when the root is marked
/// and every queued node's targets are.
proof fn lemma_path_marked(nodes: Seq<Node>, marks: Seq<bool>, queue: Seq<usize>, path: Seq<u32>, x: u32, i: int)
    requires
        references_in_range(nodes),
        nodes.len() > 0,
        search_state(nodes, marks, queue),
        marks[0],
        forall|j: int, k: int| 0 <= j < queue.len() && 0 <= k < analysed_targets(nodes[queue[j] as int]).len()
            ==> #[trigger] marks[analysed_targets(nodes[queue[j] as int])[k] as int],
        reached_by(nodes, path, x),
        0 <= i < path.len(),
    ensures
        marks[path[i] as int],
    decreases i,
{
    if i > 0 {
        lemma_path_marked(nodes, marks, queue, path, x, i - 1);
        lemma_reached_in_range(nodes, path, x, i - 1);
        let prev = path[i - 1];
        assert(queue.contains(prev as usize));
        let j = choose|j: int| 0 <= j < queue.len() && queue[j] == prev as usize;
        let t = analysed_targets(nodes[prev as int]);
        assert(t.contains(path[i]));
        let k = choose|k: int| 0 <= k < t.len() && t[k] == path[i];
        assert(marks[analysed_targets(nodes[queue[j] as int])[k] as int]);
    }
}


/// Whether a phase's fixed point is the least one.
pub open spec fn rising(phase: Phase) -> bool {
    phase == Phase::Finite
}

/// What holds of the values while a phase settles. Toward a greatest fixed
/// point the equations never grow them, and every valuation the equations
/// do not shrink lies below them; toward the least, the reverse.
pub open spec fn bounded(phase: Phase, nodes: Seq<Node>, parameters: Seq<u32>, kinds: Seq<bool>, e: Valuation, v: Valuation) -> bool {
    if rising(phase) {
        &&& implies_on(nodes, v, stepped(phase, nodes, parameters, kinds, e, v))
        &&& forall|w: Valuation| implies_on(nodes, stepped(phase, nodes, parameters, kinds, e, w), w) ==> implies_on(nodes, v, w)
    } else {
        &&& implies_on(nodes, stepped(phase, nodes, parameters, kinds, e, v), v)
        &&& forall|w: Valuation| implies_on(nodes, w, stepped(phase, nodes, parameters, kinds, e, w)) ==> implies_on(nodes, w, v)
    }
}

/// How far the values are from where they may end: the assignments they
/// satisfy, counted down toward a greatest fixed point and up toward the
/// least.
pub open spec fn distance(phase: Phase, values: Seq<Condition>, parameters: Seq<u32>) -> int {
    if rising(phase) {
        values.len() * measured_envs(parameters).len() - total_count(values, measured_envs(parameters))
    } else {
        total_count(values, measured_envs(parameters)) as int
    }
}

/// The equations read the valuation at reached nodes only.
proof fn lemma_step_congruent(phase: Phase, nodes: Seq<Node>, parameters: Seq<u32>, kinds: Seq<bool>, e: Valuation, v: Valuation, w: Valuation, at: u32, env: Set<(u32, Property)>)
    requires
        references_in_range(nodes),
        nodes.len() > 0,
        reachable(nodes, at),
        kinds_of_rows(nodes, kinds),
        forall|y: u32| reachable(nodes, y) ==> #[trigger] v(y as int, env) == w(y as int, env),
    ensures
        step(phase, nodes, parameters, kinds, e, v, at as int, env) == step(phase, nodes, parameters, kinds, e, w, at as int, env),
{
    lemma_reachable_in_range(nodes, at);
    if step(phase, nodes, parameters, kinds, e, v, at as int, env) {
        lemma_step_monotone(phase, nodes, parameters, kinds, e, v, w, at, env);
    }
    if step(phase, nodes, parameters, kinds, e, w, at as int, env) {
        lemma_step_monotone(phase, nodes, parameters, kinds, e, w, v, at, env);
    }
}

/// Replacing one reached node's value by what the equations give for it
/// keeps the bounds, and moves the values no farther, and strictly nearer
/// where the meaning changes.
proof fn lemma_update(phase: Phase, nodes: Seq<Node>, parameters: Seq<u32>, kinds: Seq<bool>, e: Valuation, values: Seq<Condition>, at: int, next: Condition)
    requires
        references_in_range(nodes),
        nodes.len() > 0,
        kinds_of_rows(nodes, kinds),
        values.len() == nodes.len(),
        nodes.len() <= u32::MAX,
        0 <= at < nodes.len(),
        reachable(nodes, at as u32),
        bounded(phase, nodes, parameters, kinds, e, meaning(values)),
        forall|env: Set<(u32, Property)>| consistent(env) ==> #[trigger] next.means(env) == step(phase, nodes, parameters, kinds, e, meaning(values), at, env),
        all_mention_only(values, parameters.to_set()),
        mentions_only(next@, parameters.to_set()),
    ensures
        bounded(phase, nodes, parameters, kinds, e, meaning(values.update(at, next))),
        0 <= distance(phase, values.update(at, next), parameters) <= distance(phase, values, parameters),
        (exists|env: Set<(u32, Property)>| consistent(env) && values[at].means(env) != next.means(env))
            ==> distance(phase, values.update(at, next), parameters) < distance(phase, values, parameters),
{
    let old_v = meaning(values);
    let nv = values.update(at, next);
    let new_v = meaning(nv);
    let envs = measured_envs(parameters);
    assert forall|x: int, env: Set<(u32, Property)>| 0 <= x < values.len() implies #[trigger] new_v(x, env) == if x == at { next.means(env) } else { old_v(x, env) } by {}
    if rising(phase) {
        // The old values imply the new ones.
        assert(implies_on(nodes, old_v, new_v)) by {
            assert forall|x: u32, env: Set<(u32, Property)>| reachable(nodes, x) && consistent(env) && #[trigger] old_v(x as int, env) implies #[trigger] new_v(x as int, env) by {
                lemma_reachable_in_range(nodes, x);
                if x as int == at {
                    assert(stepped(phase, nodes, parameters, kinds, e, old_v)(x as int, env));
                }
            }
        }
        assert forall|x: u32, env: Set<(u32, Property)>| reachable(nodes, x) && consistent(env) && #[trigger] new_v(x as int, env)
            implies #[trigger] stepped(phase, nodes, parameters, kinds, e, new_v)(x as int, env) by {
            assert forall|y: u32| reachable(nodes, y) && #[trigger] old_v(y as int, env) implies new_v(y as int, env) by {}
            lemma_reachable_in_range(nodes, x);
            if x as int != at {
                assert(stepped(phase, nodes, parameters, kinds, e, old_v)(x as int, env));
            }
            lemma_step_monotone(phase, nodes, parameters, kinds, e, old_v, new_v, x, env);
        }
        assert forall|w: Valuation| implies_on(nodes, stepped(phase, nodes, parameters, kinds, e, w), w) implies implies_on(nodes, new_v, w) by {
            assert(implies_on(nodes, old_v, w));
            assert forall|x: u32, env: Set<(u32, Property)>| reachable(nodes, x) && consistent(env) && #[trigger] new_v(x as int, env) implies #[trigger] w(x as int, env) by {
                lemma_reachable_in_range(nodes, x);
                if x as int == at {
                    assert forall|y: u32| reachable(nodes, y) && #[trigger] old_v(y as int, env) implies w(y as int, env) by {}
                    lemma_step_monotone(phase, nodes, parameters, kinds, e, old_v, w, x, env);
                    assert(stepped(phase, nodes, parameters, kinds, e, w)(x as int, env));
                }
            }
        }
        assert forall|i: int| 0 <= i < envs.len() && consistent(#[trigger] envs[i]) && values[at].means(envs[i]) implies next.means(envs[i]) by {
            assert(old_v(at, envs[i]));
            assert(new_v(at, envs[i]));
        }
        lemma_sat_count_less(values[at], next, envs);
        if exists|env: Set<(u32, Property)>| consistent(env) && values[at].means(env) != next.means(env) {
            let env = choose|env: Set<(u32, Property)>| consistent(env) && values[at].means(env) != next.means(env);
            assert(old_v(at, env) ==> new_v(at, env));
            assert(values.contains(values[at]));
            assert(mentions_only(values[at]@, parameters.to_set()));
            lemma_difference_measured(values[at], next, parameters, env);
        }
    } else {
        assert(implies_on(nodes, new_v, old_v)) by {
            assert forall|x: u32, env: Set<(u32, Property)>| reachable(nodes, x) && consistent(env) && #[trigger] new_v(x as int, env) implies #[trigger] old_v(x as int, env) by {
                lemma_reachable_in_range(nodes, x);
                if x as int == at {
                    assert(stepped(phase, nodes, parameters, kinds, e, old_v)(x as int, env));
                }
            }
        }
        assert forall|x: u32, env: Set<(u32, Property)>| reachable(nodes, x) && consistent(env) && #[trigger] stepped(phase, nodes, parameters, kinds, e, new_v)(x as int, env)
            implies #[trigger] new_v(x as int, env) by {
            assert forall|y: u32| reachable(nodes, y) && #[trigger] new_v(y as int, env) implies old_v(y as int, env) by {}
            lemma_reachable_in_range(nodes, x);
            lemma_step_monotone(phase, nodes, parameters, kinds, e, new_v, old_v, x, env);
            if x as int != at {
                assert(stepped(phase, nodes, parameters, kinds, e, old_v)(x as int, env));
                assert(old_v(x as int, env));
            }
        }
        assert forall|w: Valuation| implies_on(nodes, w, stepped(phase, nodes, parameters, kinds, e, w)) implies implies_on(nodes, w, new_v) by {
            assert(implies_on(nodes, w, old_v));
            assert forall|x: u32, env: Set<(u32, Property)>| reachable(nodes, x) && consistent(env) && #[trigger] w(x as int, env) implies #[trigger] new_v(x as int, env) by {
                lemma_reachable_in_range(nodes, x);
                assert(old_v(x as int, env));
                if x as int == at {
                    assert(stepped(phase, nodes, parameters, kinds, e, w)(x as int, env));
                    assert forall|y: u32| reachable(nodes, y) && #[trigger] w(y as int, env) implies old_v(y as int, env) by {}
                    lemma_step_monotone(phase, nodes, parameters, kinds, e, w, old_v, x, env);
                }
            }
        }
        assert forall|i: int| 0 <= i < envs.len() && consistent(#[trigger] envs[i]) && next.means(envs[i]) implies values[at].means(envs[i]) by {
            assert(new_v(at, envs[i]));
            assert(old_v(at, envs[i]));
        }
        lemma_sat_count_less(next, values[at], envs);
        if exists|env: Set<(u32, Property)>| consistent(env) && values[at].means(env) != next.means(env) {
            let env = choose|env: Set<(u32, Property)>| consistent(env) && values[at].means(env) != next.means(env);
            assert(new_v(at, env) ==> old_v(at, env));
            assert(values.contains(values[at]));
            assert(mentions_only(values[at]@, parameters.to_set()));
            lemma_difference_measured(next, values[at], parameters, env);
        }
    }
    lemma_total_update(values, at, next, envs);
    lemma_total_bound(nv, envs);
    lemma_total_bound(values, envs);
}


/// Two valuations agree at every reached node and consistent assignment.
pub open spec fn agree(nodes: Seq<Node>, v: Valuation, w: Valuation) -> bool {
    implies_on(nodes, v, w) && implies_on(nodes, w, v)
}

/// The first `i` nodes of `order` hold what the equations give for them.
pub open spec fn settled_upto(phase: Phase, nodes: Seq<Node>, parameters: Seq<u32>, kinds: Seq<bool>, e: Valuation, values: Seq<Condition>, order: Seq<usize>, i: int) -> bool {
    forall|j: int, env: Set<(u32, Property)>|
        #![trigger values[order[j] as int].means(env)]
        0 <= j < i && consistent(env) ==> values[order[j] as int].means(env) == step(phase, nodes, parameters, kinds, e, meaning(values), order[j] as int, env)
}

/// Replacing a value by one of the same meaning, itself what the equations
/// give, keeps the sweep's record of settled nodes.
proof fn lemma_quiet_update(phase: Phase, nodes: Seq<Node>, parameters: Seq<u32>, kinds: Seq<bool>, e: Valuation, start: Seq<Condition>, values: Seq<Condition>, order: Seq<usize>, i: int, next: Condition)
    requires
        references_in_range(nodes),
        nodes.len() > 0,
        nodes.len() <= u32::MAX,
        kinds_of_rows(nodes, kinds),
        values.len() == nodes.len(),
        start.len() == nodes.len(),
        0 <= i < order.len(),
        forall|k: int| 0 <= k < order.len() ==> (#[trigger] order[k]) < nodes.len(),
        forall|x: u32| reachable(nodes, x) <==> order.contains(x as usize),
        agree(nodes, meaning(values), meaning(start)),
        settled_upto(phase, nodes, parameters, kinds, e, values, order, i),
        forall|env: Set<(u32, Property)>| consistent(env) ==> #[trigger] next.means(env) == step(phase, nodes, parameters, kinds, e, meaning(values), order[i] as int, env),
        forall|env: Set<(u32, Property)>| consistent(env) ==> #[trigger] next.means(env) == values[order[i] as int].means(env),
    ensures
        agree(nodes, meaning(values.update(order[i] as int, next)), meaning(start)),
        settled_upto(phase, nodes, parameters, kinds, e, values.update(order[i] as int, next), order, i + 1),
{
    let at = order[i] as int;
    let nv = values.update(at, next);
    let v = meaning(values);
    let w = meaning(nv);
    assert forall|y: u32, env: Set<(u32, Property)>| reachable(nodes, y) && consistent(env) implies #[trigger] v(y as int, env) == w(y as int, env) by {
        lemma_reachable_in_range(nodes, y);
    }
    assert(agree(nodes, w, meaning(start))) by {
        assert forall|y: u32, env: Set<(u32, Property)>| reachable(nodes, y) && consistent(env) && #[trigger] w(y as int, env) implies #[trigger] meaning(start)(y as int, env) by {
            assert(v(y as int, env) == w(y as int, env));
        }
        assert forall|y: u32, env: Set<(u32, Property)>| reachable(nodes, y) && consistent(env) && #[trigger] meaning(start)(y as int, env) implies #[trigger] w(y as int, env) by {
            assert(v(y as int, env) == w(y as int, env));
        }
    }
    assert forall|j: int, env: Set<(u32, Property)>| 0 <= j < i + 1 && consistent(env) implies #[trigger] nv[order[j] as int].means(env) == step(phase, nodes, parameters, kinds, e, w, order[j] as int, env) by {
        let x = order[j];
        assert(order.contains(x));
        assert(reachable(nodes, x as u32));
        assert forall|y: u32| reachable(nodes, y) implies #[trigger] v(y as int, env) == w(y as int, env) by {
            assert(v(y as int, env) == w(y as int, env));
        }
        lemma_step_congruent(phase, nodes, parameters, kinds, e, v, w, x as u32, env);
        if j < i {
            assert(values[order[j] as int].means(env) == step(phase, nodes, parameters, kinds, e, v, order[j] as int, env));
        }
    }
}

/// A sweep that settled every reached node solves the equations.
proof fn lemma_settled_solves(phase: Phase, nodes: Seq<Node>, parameters: Seq<u32>, kinds: Seq<bool>, e: Valuation, values: Seq<Condition>, order: Seq<usize>)
    requires
        nodes.len() <= u32::MAX,
        forall|k: int| 0 <= k < order.len() ==> (#[trigger] order[k]) < nodes.len(),
        forall|x: u32| reachable(nodes, x) <==> order.contains(x as usize),
        settled_upto(phase, nodes, parameters, kinds, e, values, order, order.len() as int),
    ensures
        solves(phase, nodes, parameters, kinds, e, meaning(values)),
{
    let v = meaning(values);
    assert forall|x: u32, env: Set<(u32, Property)>| reachable(nodes, x) && consistent(env) implies
        #[trigger] v(x as int, env) == stepped(phase, nodes, parameters, kinds, e, v)(x as int, env) by {
        assert(order.contains(x as usize));
        let j = choose|j: int| 0 <= j < order.len() && order[j] == x as usize;
        assert(values[order[j] as int].means(env) == step(phase, nodes, parameters, kinds, e, v, order[j] as int, env));
    }
}

/// Iterates a phase's equations over the reached nodes, each sweep in
/// turn, until a sweep changes no meaning.
fn settle(
    phase: Phase,
    descriptor: &Descriptor,
    parameters: &[u32],
    kinds: &Vec<bool>,
    order: &Vec<usize>,
    empty: &Vec<Condition>,
    values: Vec<Condition>,
) -> (r: Vec<Condition>)
    requires
        references_in_range(descriptor.nodes@),
        parameters_in_range(descriptor.nodes@, parameters@),
        descriptor.nodes.len() > 0,
        descriptor.nodes.len() <= u32::MAX,
        kinds@.len() == descriptor.nodes.len(),
        kinds_of_rows(descriptor.nodes@, kinds@),
        forall|x: u32| reachable(descriptor.nodes@, x) <==> order@.contains(x as usize),
        forall|k: int| 0 <= k < order.len() ==> (#[trigger] order@[k]) < descriptor.nodes.len(),
        values@.len() == descriptor.nodes.len(),
        phase == Phase::Supported ==> empty@.len() == descriptor.nodes.len() && all_mention_only(empty@, parameters@.to_set()),
        all_mention_only(values@, parameters@.to_set()),
        bounded(phase, descriptor.nodes@, parameters@, kinds@, meaning(empty@), meaning(values@)),
    ensures
        r@.len() == descriptor.nodes.len(),
        all_mention_only(r@, parameters@.to_set()),
        bounded(phase, descriptor.nodes@, parameters@, kinds@, meaning(empty@), meaning(r@)),
        solves(phase, descriptor.nodes@, parameters@, kinds@, meaning(empty@), meaning(r@)),
{
    let ghost nodes = descriptor.nodes@;
    let ghost ps = parameters@.to_set();
    let ghost e = meaning(empty@);
    proof {
        assert forall|i: int| 0 <= i < parameters@.len() implies ps.contains(#[trigger] parameters@[i]) by {
            assert(parameters@.contains(parameters@[i]));
        }
        lemma_total_bound(values@, measured_envs(parameters@));
    }
    let mut values = values;
    loop
        invariant
            nodes == descriptor.nodes@,
            ps == parameters@.to_set(),
            e == meaning(empty@),
            references_in_range(nodes),
            parameters_in_range(nodes, parameters@),
            nodes.len() > 0,
            nodes.len() <= u32::MAX,
            kinds@.len() == nodes.len(),
            kinds_of_rows(nodes, kinds@),
            forall|x: u32| reachable(nodes, x) <==> order@.contains(x as usize),
            forall|k: int| 0 <= k < order.len() ==> (#[trigger] order@[k]) < nodes.len(),
            phase == Phase::Supported ==> empty@.len() == nodes.len() && all_mention_only(empty@, ps),
            forall|i: int| 0 <= i < parameters@.len() ==> ps.contains(#[trigger] parameters@[i]),
            values@.len() == nodes.len(),
            all_mention_only(values@, ps),
            bounded(phase, nodes, parameters@, kinds@, e, meaning(values@)),
            0 <= distance(phase, values@, parameters@),
        ensures
            values@.len() == nodes.len(),
            all_mention_only(values@, ps),
            bounded(phase, nodes, parameters@, kinds@, e, meaning(values@)),
            solves(phase, nodes, parameters@, kinds@, e, meaning(values@)),
        decreases distance(phase, values@, parameters@),
    {
        let ghost start = values@;
        let mut changed = false;
        let mut i: usize = 0;
        while i < order.len()
            invariant
                nodes == descriptor.nodes@,
                ps == parameters@.to_set(),
                e == meaning(empty@),
                references_in_range(nodes),
                parameters_in_range(nodes, parameters@),
                nodes.len() > 0,
                nodes.len() <= u32::MAX,
                kinds@.len() == nodes.len(),
                kinds_of_rows(nodes, kinds@),
                forall|x: u32| reachable(nodes, x) <==> order@.contains(x as usize),
                forall|k: int| 0 <= k < order.len() ==> (#[trigger] order@[k]) < nodes.len(),
                phase == Phase::Supported ==> empty@.len() == nodes.len() && all_mention_only(empty@, ps),
                forall|i: int| 0 <= i < parameters@.len() ==> ps.contains(#[trigger] parameters@[i]),
                start.len() == nodes.len(),
                i <= order.len(),
                values@.len() == nodes.len(),
                all_mention_only(values@, ps),
                bounded(phase, nodes, parameters@, kinds@, e, meaning(values@)),
                0 <= distance(phase, values@, parameters@) <= distance(phase, start, parameters@),
                changed ==> distance(phase, values@, parameters@) < distance(phase, start, parameters@),
                !changed ==> agree(nodes, meaning(values@), meaning(start)),
                !changed ==> settled_upto(phase, nodes, parameters@, kinds@, e, values@, order@, i as int),
            decreases order.len() - i,
        {
            let at = order[i];
            proof {
                assert(order@.contains(at));
                assert((at as u32) as usize == at);
                assert(reachable(nodes, at as u32));
            }
            let next = next_value(phase, descriptor, parameters, kinds, empty, &values, at);
            let unchanged = values[at].same(&next);
            let ghost before = values@;
            let ghost next_g = next;
            proof {
                assert(mentions_only(next@, ps));
                lemma_update(phase, nodes, parameters@, kinds@, e, before, at as int, next);
                if !changed && unchanged {
                    lemma_quiet_update(phase, nodes, parameters@, kinds@, e, start, before, order@, i as int, next);
                }
            }
            values.set(at, next);
            proof {
                assert(values@ == before.update(at as int, next_g));
                assert forall|x: int| 0 <= x < values@.len() implies mentions_only(#[trigger] values@[x]@, ps) by {
                    if x != at as int {
                        assert(values@[x] == before[x]);
                    }
                }
            }
            if !unchanged {
                changed = true;
            }
            i = i + 1;
        }
        if !changed {
            proof {
                lemma_settled_solves(phase, nodes, parameters@, kinds@, e, values@, order@);
            }
            break;
        }
    }
    values
}


/// The readings of emptiness and finite construction do not consult the
/// emptiness the support reading is given.
proof fn lemma_stepped_ignores(phase: Phase, nodes: Seq<Node>, parameters: Seq<u32>, kinds: Seq<bool>, e1: Valuation, e2: Valuation, w: Valuation)
    requires
        phase != Phase::Supported,
    ensures
        stepped(phase, nodes, parameters, kinds, e1, w) == stepped(phase, nodes, parameters, kinds, e2, w),
{
    assert forall|x: int, env: Set<(u32, Property)>| #[trigger] step(phase, nodes, parameters, kinds, e1, w, x, env)
        == step(phase, nodes, parameters, kinds, e2, w, x, env) by {}
    assert(stepped(phase, nodes, parameters, kinds, e1, w) =~= stepped(phase, nodes, parameters, kinds, e2, w));
}

/// So a fixed point of either of those readings stays one, whatever
/// emptiness is named beside it.
proof fn lemma_extreme_ignores(phase: Phase, nodes: Seq<Node>, parameters: Seq<u32>, kinds: Seq<bool>, e1: Valuation, e2: Valuation, v: Valuation)
    requires
        phase != Phase::Supported,
    ensures
        greatest(phase, nodes, parameters, kinds, e1, v) ==> greatest(phase, nodes, parameters, kinds, e2, v),
        least(phase, nodes, parameters, kinds, e1, v) ==> least(phase, nodes, parameters, kinds, e2, v),
{
    lemma_stepped_ignores(phase, nodes, parameters, kinds, e1, e2, v);
    assert forall|w: Valuation| #![trigger stepped(phase, nodes, parameters, kinds, e2, w)] true implies stepped(phase, nodes, parameters, kinds, e1, w) == stepped(phase, nodes, parameters, kinds, e2, w) by {
        lemma_stepped_ignores(phase, nodes, parameters, kinds, e1, e2, w);
    }
}

/// Values of one constant meaning, one per node.
fn constant_values(count: usize, truth: bool) -> (values: Vec<Condition>)
    ensures
        values@.len() == count,
        forall|x: int, env: Set<(u32, Property)>| 0 <= x < count ==> #[trigger] values@[x].means(env) == truth,
        forall|ps: Set<u32>| all_mention_only(values@, ps),
{
    let mut values: Vec<Condition> = Vec::new();
    let mut i: usize = 0;
    while i < count
        invariant
            i <= count,
            values@.len() == i,
            forall|x: int, env: Set<(u32, Property)>| 0 <= x < i ==> #[trigger] values@[x].means(env) == truth,
            forall|ps: Set<u32>| all_mention_only(values@, ps),
        decreases count - i,
    {
        let c = if truth {
            Condition::yes()
        } else {
            Condition::no()
        };
        assert(forall|ps: Set<u32>| mentions_only(c@, ps));
        let ghost before = values@;
        values.push(c);
        proof {
            assert forall|ps: Set<u32>| all_mention_only(values@, ps) by {
                assert(all_mention_only(before, ps));
                assert forall|x: int| 0 <= x < values@.len() implies mentions_only(#[trigger] values@[x]@, ps) by {
                    if x < before.len() {
                        assert(values@[x] == before[x]);
                    } else {
                        assert(values@[x] == c);
                    }
                }
            }
        }
        i = i + 1;
    }
    values
}

/// The kind of every extension's row.
pub(crate) fn row_kinds(descriptor: &Descriptor) -> (kinds: Vec<bool>)
    requires
        references_in_range(descriptor.nodes@),
        descriptor.nodes.len() <= u32::MAX,
    ensures
        kinds@.len() == descriptor.nodes.len(),
        kinds_of_rows(descriptor.nodes@, kinds@),
{
    let n = descriptor.nodes.len();
    let mut kinds: Vec<bool> = Vec::new();
    let mut x: usize = 0;
    while x < n
        invariant
            x <= n,
            n == descriptor.nodes.len(),
            n <= u32::MAX,
            references_in_range(descriptor.nodes@),
            kinds@.len() == x,
            forall|y: int| 0 <= y < x && (#[trigger] descriptor.nodes@[y]) is Extend ==> exists|v: Seq<u32>|
                row_traversal(descriptor.nodes@, y, v) && kinds@[y] == (super::construction::first_kind(descriptor.nodes@, v) == Some(true)),
        decreases n - x,
    {
        let kind = match &descriptor.nodes[x] {
            Node::Extend(_) => {
                let (record, _, _) = row(descriptor, x as u32);
                record
            },
            _ => false,
        };
        let ghost before = kinds@;
        kinds.push(kind);
        proof {
            assert forall|y: int| 0 <= y < x + 1 && (#[trigger] descriptor.nodes@[y]) is Extend implies exists|v: Seq<u32>|
                row_traversal(descriptor.nodes@, y, v) && kinds@[y] == (super::construction::first_kind(descriptor.nodes@, v) == Some(true)) by {
                assert(kinds@[y] == before.push(kind)[y]);
                if y < x {
                    assert(kinds@[y] == before[y]);
                }
            }
        }
        x = x + 1;
    }
    kinds
}


/// The three fixed points over the nodes reached from the root: emptiness
/// the greatest, finite construction the least, complete support the
/// greatest given that emptiness.
pub open spec fn fixed_points(nodes: Seq<Node>, parameters: Seq<u32>, kinds: Seq<bool>, ev: Valuation, fv: Valuation, sv: Valuation) -> bool {
    &&& kinds_of_rows(nodes, kinds)
    &&& greatest(Phase::Empty, nodes, parameters, kinds, ev, ev)
    &&& least(Phase::Finite, nodes, parameters, kinds, ev, fv)
    &&& greatest(Phase::Supported, nodes, parameters, kinds, ev, sv)
}

/// Facts read off the fixed points at the root: the type is empty where
/// the root is, constructible where it has a finite value and every case of
/// it can be built, and the same of the root read as a record row and as a
/// sum row.
pub open spec fn read_at_root(nodes: Seq<Node>, parameters: Seq<u32>, ev: Valuation, fv: Valuation, sv: Valuation, f: Facts) -> bool {
    forall|env: Set<(u32, Property)>| #[trigger] consistent(env) ==> {
        &&& f.empty.means(env) == ev(0, env)
        &&& f.constructible.means(env) == (fv(0, env) && sv(0, env))
        &&& f.record_empty.means(env) == row_empty(nodes, parameters, 0, true, ev, env)
        &&& f.record_constructible.means(env) == (row_finite(nodes, parameters, 0, true, fv, env) && row_supported(
            nodes,
            parameters,
            0,
            true,
            ev,
            sv,
            env,
        ))
        &&& f.sum_empty.means(env) == row_empty(nodes, parameters, 0, false, ev, env)
        &&& f.sum_constructible.means(env) == (row_finite(nodes, parameters, 0, false, fv, env) && row_supported(
            nodes,
            parameters,
            0,
            false,
            ev,
            sv,
            env,
        ))
    }
}

/// The facts of a descriptor's type: those read off its fixed points, each
/// a condition on the given parameters alone.
pub open spec fn template_facts(nodes: Seq<Node>, parameters: Seq<u32>, f: Facts) -> bool {
    &&& exists|kinds: Seq<bool>, ev: Valuation, fv: Valuation, sv: Valuation|
        #![trigger fixed_points(nodes, parameters, kinds, ev, fv, sv)]
        fixed_points(nodes, parameters, kinds, ev, fv, sv) && read_at_root(nodes, parameters, ev, fv, sv, f)
    &&& forall|property: Property| mentions_only(#[trigger] f.condition_for(property)@, parameters.to_set())
}

impl Facts {
    /// The facts of the type a descriptor describes, as conditions on the
    /// parameters its parameter nodes stand for.
    pub fn template(descriptor: &Descriptor, parameters: &[u32]) -> (f: Facts)
        requires
            descriptor.nodes.len() > 0,
            descriptor.nodes.len() <= u32::MAX,
            references_in_range(descriptor.nodes@),
            parameters_in_range(descriptor.nodes@, parameters@),
        ensures
            template_facts(descriptor.nodes@, parameters@, f),
    {
        let ghost nodes = descriptor.nodes@;
        let ghost ps = parameters@.to_set();
        let count = descriptor.nodes.len();
        let order = reachable_order(descriptor);
        let kinds = row_kinds(descriptor);
        let unused: Vec<Condition> = Vec::new();
        let empty = constant_values(count, true);
        proof {
            let v = meaning(empty@);
            assert forall|x: u32, env: Set<(u32, Property)>| reachable(nodes, x) && consistent(env) && #[trigger] stepped(Phase::Empty, nodes, parameters@, kinds@, meaning(unused@), v)(x as int, env)
                implies #[trigger] v(x as int, env) by {
                lemma_reachable_in_range(nodes, x);
            }
            assert forall|w: Valuation| implies_on(nodes, w, stepped(Phase::Empty, nodes, parameters@, kinds@, meaning(unused@), w)) implies implies_on(nodes, w, v) by {
                assert forall|x: u32, env: Set<(u32, Property)>| reachable(nodes, x) && consistent(env) && #[trigger] w(x as int, env) implies #[trigger] v(x as int, env) by {
                    lemma_reachable_in_range(nodes, x);
                }
            }
        }
        let empty = settle(Phase::Empty, descriptor, parameters, &kinds, &order, &unused, empty);
        let finite = constant_values(count, false);
        proof {
            let v = meaning(finite@);
            assert forall|x: u32, env: Set<(u32, Property)>| reachable(nodes, x) && consistent(env) && #[trigger] v(x as int, env)
                implies #[trigger] stepped(Phase::Finite, nodes, parameters@, kinds@, meaning(unused@), v)(x as int, env) by {
                lemma_reachable_in_range(nodes, x);
            }
            assert forall|w: Valuation| implies_on(nodes, stepped(Phase::Finite, nodes, parameters@, kinds@, meaning(unused@), w), w) implies implies_on(nodes, v, w) by {
                assert forall|x: u32, env: Set<(u32, Property)>| reachable(nodes, x) && consistent(env) && #[trigger] v(x as int, env) implies #[trigger] w(x as int, env) by {
                    lemma_reachable_in_range(nodes, x);
                }
            }
        }
        let finite = settle(Phase::Finite, descriptor, parameters, &kinds, &order, &unused, finite);
        let supported = constant_values(count, true);
        proof {
            let v = meaning(supported@);
            assert forall|x: u32, env: Set<(u32, Property)>| reachable(nodes, x) && consistent(env) && #[trigger] stepped(Phase::Supported, nodes, parameters@, kinds@, meaning(empty@), v)(x as int, env)
                implies #[trigger] v(x as int, env) by {
                lemma_reachable_in_range(nodes, x);
            }
            assert forall|w: Valuation| implies_on(nodes, w, stepped(Phase::Supported, nodes, parameters@, kinds@, meaning(empty@), w)) implies implies_on(nodes, w, v) by {
                assert forall|x: u32, env: Set<(u32, Property)>| reachable(nodes, x) && consistent(env) && #[trigger] w(x as int, env) implies #[trigger] v(x as int, env) by {
                    lemma_reachable_in_range(nodes, x);
                }
            }
        }
        let supported = settle(Phase::Supported, descriptor, parameters, &kinds, &order, &empty, supported);
        proof {
            assert forall|i: int| 0 <= i < parameters@.len() implies ps.contains(#[trigger] parameters@[i]) by {
                assert(parameters@.contains(parameters@[i]));
            }
        }
        let (record_empty, record_finite, record_supported) = row_facts(descriptor, 0, parameters, true, &empty, &finite, &supported);
        let (sum_empty, sum_finite, sum_supported) = row_facts(descriptor, 0, parameters, false, &empty, &finite, &supported);
        proof {
            assert(mentions_only(finite@[0]@, ps));
            assert(mentions_only(supported@[0]@, ps));
            assert(mentions_only(empty@[0]@, ps));
        }
        let f = Facts {
            constructible: finite[0].and(&supported[0]),
            empty: empty[0].copy(),
            record_constructible: record_finite.and(&record_supported),
            record_empty,
            sum_constructible: sum_finite.and(&sum_supported),
            sum_empty,
        };
        proof {
            let ev = meaning(empty@);
            let fv = meaning(finite@);
            let sv = meaning(supported@);
            lemma_extreme_ignores(Phase::Empty, nodes, parameters@, kinds@, meaning(unused@), ev, ev);
            lemma_extreme_ignores(Phase::Finite, nodes, parameters@, kinds@, meaning(unused@), ev, fv);
            assert(fixed_points(nodes, parameters@, kinds@, ev, fv, sv));
            assert(read_at_root(nodes, parameters@, ev, fv, sv, f));
            assert forall|property: Property| mentions_only(#[trigger] f.condition_for(property)@, ps) by {}
        }
        f
    }
}

} // verus!
