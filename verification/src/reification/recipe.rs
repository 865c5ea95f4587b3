//! Which structural types have finite values, and how tall the shortest
//! recipe for one is. Unknown parameters and opaque types count as
//! possible; only a proof of emptiness permits pruning a nested position.
use vstd::prelude::*;

use super::construction::{fragment_fields, row, row_traversal, tails_of};
use super::fixpoint::{
    kinds_of_rows, lemma_mark, lemma_marked_bound, lemma_zero_marks, lemma_row_fields, lemma_row_parts, marked_count, row_child, row_field, row_kinds, row_tail,
};
use super::{references, references_in_range, Descriptor, Node};

verus! {

/// What is known of a node: whether a finite value of it may exist, and
/// the height of the shortest recipe for one, if one is known.
pub type Standing = (bool, Option<nat>);

/// A standing for each node.
pub type Standings = spec_fn(int) -> Standing;

/// `a` knows no more than `b`: what `a` finds possible `b` does too, and a
/// recipe `a` has `b` has one no taller than.
pub open spec fn below(a: Standing, b: Standing) -> bool {
    &&& a.0 ==> b.0
    &&& a.1 is None || (b.1 is Some && b.1->0 <= a.1->0)
}

/// The nodes a node's standing is read from.
pub open spec fn read_nodes(nodes: Seq<Node>, x: int) -> Set<u32> {
    match nodes[x] {
        Node::Alias(c) => set![c],
        Node::Struct(fields) | Node::Sum(fields) => Set::new(|c: u32| exists|k: int| 0 <= k < fields@.len() && #[trigger] fields@[k].1 == c),
        Node::Extend(_) => Set::new(|c: u32| row_child(nodes, x, c) || row_tail(nodes, x, c)),
        _ => Set::empty(),
    }
}

/// `m` is the tallest recipe among the children.
pub open spec fn is_tallest(children: Set<u32>, v: Standings, m: nat) -> bool {
    &&& exists|c: u32| children.contains(c) && v(c as int).1 == Some(m)
    &&& forall|c: u32| children.contains(c) ==> (#[trigger] v(c as int)).1->0 <= m
}

/// `m` is the shortest recipe among the children that have one.
pub open spec fn is_shortest(children: Set<u32>, v: Standings, m: nat) -> bool {
    &&& exists|c: u32| children.contains(c) && v(c as int).1 == Some(m)
    &&& forall|c: u32| children.contains(c) && (#[trigger] v(c as int)).1 is Some ==> m <= v(c as int).1->0
}

/// A record: possible when every member is, with a recipe one taller than
/// its tallest member's when every member has one, and of height zero
/// with no members.
pub open spec fn record_reading(children: Set<u32>, v: Standings) -> Standing {
    (
        forall|c: u32| children.contains(c) ==> (#[trigger] v(c as int)).0,
        if forall|c: u32| children.contains(c) ==> (#[trigger] v(c as int)).1 is Some {
            if exists|c: u32| children.contains(c) {
                Some(((choose|m: nat| is_tallest(children, v, m)) + 1) as nat)
            } else {
                Some(0)
            }
        } else {
            None
        },
    )
}

/// A sum: possible when some case is, with a recipe one taller than its
/// shortest case's.
pub open spec fn sum_reading(children: Set<u32>, v: Standings) -> Standing {
    (
        exists|c: u32| children.contains(c) && (#[trigger] v(c as int)).0,
        if exists|c: u32| children.contains(c) && (#[trigger] v(c as int)).1 is Some {
            Some(((choose|m: nat| is_shortest(children, v, m)) + 1) as nat)
        } else {
            None
        },
    )
}

/// A node's standing from those of the nodes it is read from. Scalars,
/// arrays and parameters have a recipe at once; opaque types may have
/// values but have no recipe here.
pub open spec fn standing_step(nodes: Seq<Node>, kinds: Seq<bool>, v: Standings, x: int) -> Standing {
    match nodes[x] {
        Node::Nat | Node::Int | Node::Fixed(_) | Node::Real | Node::String | Node::Boolean | Node::Array(_)
        | Node::Parameter(_) => (true, Some(0)),
        Node::Alias(c) => v(c as int),
        Node::Struct(_) => record_reading(read_nodes(nodes, x), v),
        Node::Sum(_) => sum_reading(read_nodes(nodes, x), v),
        Node::Extend(_) => if kinds[x] {
            record_reading(read_nodes(nodes, x), v)
        } else {
            sum_reading(read_nodes(nodes, x), v)
        },
        _ => (true, None),
    }
}

/// The standings the equations give nothing beyond: the least solution,
/// below every standing the equations do not raise.
pub open spec fn least_standings(nodes: Seq<Node>, kinds: Seq<bool>, v: Standings) -> bool {
    &&& forall|x: int| 0 <= x < nodes.len() ==> #[trigger] v(x) == standing_step(nodes, kinds, v, x)
    &&& forall|w: Standings| #[trigger] unraised(nodes, kinds, w) ==> everywhere_below(nodes.len(), v, w)
}

/// The equations raise no node above what `w` knows of it.
pub open spec fn unraised(nodes: Seq<Node>, kinds: Seq<bool>, w: Standings) -> bool {
    forall|x: int| 0 <= x < nodes.len() ==> below(#[trigger] standing_step(nodes, kinds, w, x), w(x))
}

/// `v` knows no more than `w` of any node.
pub open spec fn everywhere_below(count: nat, v: Standings, w: Standings) -> bool {
    forall|x: int| 0 <= x < count ==> below(#[trigger] v(x), w(x))
}

/// The standings the vectors hold; past their end nothing is known.
pub open spec fn standings(possible: Seq<bool>, rank: Seq<Option<usize>>) -> Standings {
    |x: int|
        if 0 <= x < possible.len() {
            as_standing(possible[x], rank[x])
        } else {
            (false, None)
        }
}

/// Reading more knowledge gives more knowledge.
proof fn lemma_step_below(nodes: Seq<Node>, kinds: Seq<bool>, v: Standings, w: Standings, x: int)
    requires
        exists|l: Seq<u32>| l.to_set() == read_nodes(nodes, x),
        forall|c: u32| #[trigger] read_nodes(nodes, x).contains(c) ==> below(v(c as int), w(c as int)),
    ensures
        below(standing_step(nodes, kinds, v, x), standing_step(nodes, kinds, w, x)),
{
    let s = read_nodes(nodes, x);
    match nodes[x] {
        Node::Alias(c) => {
            assert(s.contains(c));
        },
        Node::Struct(_) | Node::Sum(_) | Node::Extend(_) => {
            let l = choose|l: Seq<u32>| l.to_set() == read_nodes(nodes, x);
            lemma_record_below(l, s, v, w);
            lemma_sum_below(l, s, v, w);
        },
        _ => {},
    }
}

proof fn lemma_record_below(l: Seq<u32>, s: Set<u32>, v: Standings, w: Standings)
    requires
        l.to_set() == s,
        forall|c: u32| #[trigger] s.contains(c) ==> below(v(c as int), w(c as int)),
    ensures
        below(record_reading(s, v), record_reading(s, w)),
{
    if forall|c: u32| s.contains(c) ==> (#[trigger] v(c as int)).0 {
        assert forall|c: u32| s.contains(c) implies (#[trigger] w(c as int)).0 by {
            assert(below(v(c as int), w(c as int)));
        }
    }
    if forall|c: u32| s.contains(c) ==> (#[trigger] v(c as int)).1 is Some {
        assert forall|c: u32| s.contains(c) implies (#[trigger] w(c as int)).1 is Some by {
            assert(below(v(c as int), w(c as int)));
        }
        if exists|c: u32| s.contains(c) {
            let c0 = choose|c: u32| s.contains(c);
            assert(v(c0 as int).1 is Some);
            lemma_tallest_exists(l, v);
            lemma_tallest_exists(l, w);
            let mv = choose|m: nat| is_tallest(s, v, m);
            let mw = choose|m: nat| is_tallest(s, w, m);
            let cw = choose|c: u32| s.contains(c) && w(c as int).1 == Some(mw);
            assert(below(v(cw as int), w(cw as int)));
            assert(v(cw as int).1->0 <= mv);
        }
    }
}

proof fn lemma_sum_below(l: Seq<u32>, s: Set<u32>, v: Standings, w: Standings)
    requires
        l.to_set() == s,
        forall|c: u32| #[trigger] s.contains(c) ==> below(v(c as int), w(c as int)),
    ensures
        below(sum_reading(s, v), sum_reading(s, w)),
{
    if exists|c: u32| s.contains(c) && (#[trigger] v(c as int)).0 {
        let c = choose|c: u32| s.contains(c) && (#[trigger] v(c as int)).0;
        assert(below(v(c as int), w(c as int)));
    }
    if exists|c: u32| s.contains(c) && (#[trigger] v(c as int)).1 is Some {
        let c0 = choose|c: u32| s.contains(c) && (#[trigger] v(c as int)).1 is Some;
        assert(below(v(c0 as int), w(c0 as int)));
        lemma_shortest_exists(l, v, c0);
        lemma_shortest_exists(l, w, c0);
        let mv = choose|m: nat| is_shortest(s, v, m);
        let mw = choose|m: nat| is_shortest(s, w, m);
        let cv = choose|c: u32| s.contains(c) && v(c as int).1 == Some(mv);
        assert(below(v(cv as int), w(cv as int)));
        assert(mw <= w(cv as int).1->0);
    }
}

/// Children listed, all with recipes, have a tallest.
proof fn lemma_tallest_exists(l: Seq<u32>, v: Standings)
    requires
        l.len() > 0,
        forall|c: u32| l.to_set().contains(c) ==> (#[trigger] v(c as int)).1 is Some,
    ensures
        exists|m: nat| is_tallest(l.to_set(), v, m),
    decreases l.len(),
{
    let s = l.to_set();
    let last = l.last();
    assert(s.contains(last)) by {
        assert(l[l.len() - 1] == last);
    }
    if l.len() == 1 {
        let m = v(last as int).1->0;
        assert forall|c: u32| s.contains(c) implies (#[trigger] v(c as int)).1->0 <= m by {
            let i = choose|i: int| 0 <= i < l.len() && l[i] == c;
        }
        assert(is_tallest(s, v, m));
    } else {
        let rest = l.drop_last();
        assert forall|c: u32| rest.to_set().contains(c) implies (#[trigger] v(c as int)).1 is Some by {
            let i = choose|i: int| 0 <= i < rest.len() && rest[i] == c;
            assert(l[i] == c);
            assert(s.contains(c));
        }
        lemma_tallest_exists(rest, v);
        let m0 = choose|m: nat| is_tallest(rest.to_set(), v, m);
        let here = v(last as int).1->0;
        let m = if here > m0 { here } else { m0 };
        assert forall|c: u32| s.contains(c) implies (#[trigger] v(c as int)).1->0 <= m by {
            let i = choose|i: int| 0 <= i < l.len() && l[i] == c;
            if i < l.len() - 1 {
                assert(rest[i] == c);
                assert(rest.to_set().contains(c));
            }
        }
        if here > m0 {
            assert(is_tallest(s, v, m));
        } else {
            let c = choose|c: u32| rest.to_set().contains(c) && v(c as int).1 == Some(m0);
            let i = choose|i: int| 0 <= i < rest.len() && rest[i] == c;
            assert(l[i] == c);
            assert(s.contains(c));
            assert(is_tallest(s, v, m));
        }
    }
}

/// Children listed, some with a recipe, have a shortest.
proof fn lemma_shortest_exists(l: Seq<u32>, v: Standings, c0: u32)
    requires
        l.to_set().contains(c0),
        v(c0 as int).1 is Some,
    ensures
        exists|m: nat| is_shortest(l.to_set(), v, m),
    decreases l.len(),
{
    let s = l.to_set();
    let last = l.last();
    let rest = l.drop_last();
    let i0 = choose|i: int| 0 <= i < l.len() && l[i] == c0;
    assert(s.contains(last)) by {
        assert(l[l.len() - 1] == last);
    }
    if exists|c: u32| rest.to_set().contains(c) && (#[trigger] v(c as int)).1 is Some {
        let c1 = choose|c: u32| rest.to_set().contains(c) && (#[trigger] v(c as int)).1 is Some;
        lemma_shortest_exists(rest, v, c1);
        let m0 = choose|m: nat| is_shortest(rest.to_set(), v, m);
        let m = if v(last as int).1 is Some && v(last as int).1->0 < m0 { v(last as int).1->0 } else { m0 };
        assert forall|c: u32| s.contains(c) && (#[trigger] v(c as int)).1 is Some implies m <= v(c as int).1->0 by {
            let i = choose|i: int| 0 <= i < l.len() && l[i] == c;
            if i < l.len() - 1 {
                assert(rest[i] == c);
                assert(rest.to_set().contains(c));
            }
        }
        if v(last as int).1 is Some && v(last as int).1->0 < m0 {
            assert(is_shortest(s, v, m));
        } else {
            let c = choose|c: u32| rest.to_set().contains(c) && v(c as int).1 == Some(m0);
            let i = choose|i: int| 0 <= i < rest.len() && rest[i] == c;
            assert(l[i] == c);
            assert(s.contains(c));
            assert(is_shortest(s, v, m));
        }
    } else {
        assert(i0 == l.len() - 1) by {
            if i0 < l.len() - 1 {
                assert(rest[i0] == c0);
                assert(rest.to_set().contains(c0));
            }
        }
        let m = v(last as int).1->0;
        assert forall|c: u32| s.contains(c) && (#[trigger] v(c as int)).1 is Some implies m <= v(c as int).1->0 by {
            let i = choose|i: int| 0 <= i < l.len() && l[i] == c;
            if i < l.len() - 1 {
                assert(rest[i] == c);
                assert(rest.to_set().contains(c));
            }
        }
        assert(is_shortest(s, v, m));
    }
}


/// A standing as the vectors' entries give it.
pub open spec fn as_standing(p: bool, r: Option<usize>) -> Standing {
    (
        p,
        match r {
            Some(r) => Some(r as nat),
            None => None,
        },
    )
}

/// The record reading of listed children.
fn read_record(children: &Vec<u32>, possible: &Vec<bool>, rank: &Vec<Option<usize>>) -> (r: (bool, Option<usize>))
    requires
        possible@.len() == rank@.len(),
        forall|k: int| 0 <= k < children@.len() ==> (#[trigger] children@[k]) < possible@.len(),
        forall|x: int| 0 <= x < rank@.len() && (#[trigger] rank@[x]) is Some ==> rank@[x]->0 < possible@.len(),
    ensures
        as_standing(r.0, r.1) == record_reading(children@.to_set(), standings(possible@, rank@)),
        r.1 matches Some(h) ==> h <= possible@.len(),
{
    let bound = possible.len();
    let ghost v = standings(possible@, rank@);
    let ghost s = children@.to_set();
    let mut all = true;
    let mut tallest: Option<usize> = None;
    let mut missing = false;
    let mut k: usize = 0;
    while k < children.len()
        invariant
            k <= children.len(),
            v == standings(possible@, rank@),
            possible@.len() == rank@.len(),
            forall|j: int| 0 <= j < children@.len() ==> (#[trigger] children@[j]) < possible@.len(),
            forall|x: int| 0 <= x < rank@.len() && (#[trigger] rank@[x]) is Some ==> rank@[x]->0 < possible@.len(),
            all == forall|j: int| 0 <= j < k ==> possible@[children@[j] as int],
            missing == exists|j: int| 0 <= j < k && rank@[children@[j] as int] is None,
            !missing && k > 0 ==> (tallest matches Some(t) && is_tallest(children@.take(k as int).to_set(), v, t as nat)
                && t < possible@.len()),
            k == 0 ==> tallest is None,
        decreases children.len() - k,
    {
        let c = children[k] as usize;
        if !possible[c] {
            all = false;
        }
        match rank[c] {
            None => {
                missing = true;
            },
            Some(h) => {
                let ghost before = tallest;
                if !missing {
                    tallest = match tallest {
                        Some(t) => if h > t { Some(h) } else { Some(t) },
                        None => Some(h),
                    };
                }
                proof {
                    if !missing {
                        let prefix = children@.take(k as int);
                        let grown = children@.take(k + 1);
                        assert(grown == prefix.push(children@[k as int]));
                        assert forall|x: u32| grown.to_set().contains(x) implies prefix.to_set().contains(x) || x == children@[k as int] by {
                            let i = choose|i: int| 0 <= i < grown.len() && grown[i] == x;
                            if i < k {
                                assert(prefix[i] == x);
                            }
                        }
                        assert(grown.to_set().contains(children@[k as int])) by {
                            assert(grown[k as int] == children@[k as int]);
                        }
                        assert forall|x: u32| prefix.to_set().contains(x) implies grown.to_set().contains(x) by {
                            let i = choose|i: int| 0 <= i < prefix.len() && prefix[i] == x;
                            assert(grown[i] == x);
                        }
                        let t = tallest->0;
                        assert forall|x: u32| grown.to_set().contains(x) implies (#[trigger] v(x as int)).1->0 <= t as nat by {
                            if x != children@[k as int] {
                                assert(prefix.to_set().contains(x));
                            }
                        }
                        if k > 0 && before->0 >= h {
                            let w = choose|x: u32| prefix.to_set().contains(x) && v(x as int).1 == Some(before->0 as nat);
                            assert(grown.to_set().contains(w));
                        }
                        assert(is_tallest(grown.to_set(), v, t as nat));
                    }
                }
            },
        }
        proof {
            assert(children@.take(k + 1) == children@.take(k as int).push(children@[k as int]));
        }
        k = k + 1;
    }
    proof {
        assert(children@.take(k as int) == children@);
        assert forall|c: u32| s.contains(c) <==> exists|j: int| 0 <= j < children@.len() && children@[j] == c by {}
        assert((forall|c: u32| s.contains(c) ==> (#[trigger] v(c as int)).0) == all) by {
            if all {
                assert forall|c: u32| s.contains(c) implies (#[trigger] v(c as int)).0 by {
                    let j = choose|j: int| 0 <= j < children@.len() && children@[j] == c;
                    assert(possible@[children@[j] as int]);
                    assert(v(c as int).0 == possible@[c as int]);
                }
            } else {
                let j = choose|j: int| 0 <= j < children@.len() && !possible@[children@[j] as int];
                assert(s.contains(children@[j]));
                assert(v(children@[j] as int).0 == possible@[children@[j] as int]);
            }
        }
        assert((forall|c: u32| s.contains(c) ==> (#[trigger] v(c as int)).1 is Some) == !missing) by {
            if !missing {
                assert forall|c: u32| s.contains(c) implies (#[trigger] v(c as int)).1 is Some by {
                    let j = choose|j: int| 0 <= j < children@.len() && children@[j] == c;
                    assert(rank@[children@[j] as int] is Some);
                }
            } else {
                let j = choose|j: int| 0 <= j < children@.len() && rank@[children@[j] as int] is None;
                assert(s.contains(children@[j]));
                assert(v(children@[j] as int).1 is None);
            }
        }
        if !missing && children@.len() > 0 {
            assert(s.contains(children@[0]));
            let m = choose|m: nat| is_tallest(s, v, m);
            let t = tallest->0;
            let a = choose|c: u32| s.contains(c) && v(c as int).1 == Some(m);
            let b = choose|c: u32| s.contains(c) && v(c as int).1 == Some(t as nat);
            assert(v(a as int).1->0 <= t);
            assert(v(b as int).1->0 <= m);
        }
        if children@.len() == 0 {
            assert(!(exists|c: u32| s.contains(c)));
        }
    }
    if missing {
        (all, None)
    } else {
        match tallest {
            Some(t) => {
                assert(t < bound);
                (all, Some(t + 1))
            },
            None => (all, Some(0)),
        }
    }
}

/// The sum reading of listed children.
fn read_sum(children: &Vec<u32>, possible: &Vec<bool>, rank: &Vec<Option<usize>>) -> (r: (bool, Option<usize>))
    requires
        possible@.len() == rank@.len(),
        forall|k: int| 0 <= k < children@.len() ==> (#[trigger] children@[k]) < possible@.len(),
        forall|x: int| 0 <= x < rank@.len() && (#[trigger] rank@[x]) is Some ==> rank@[x]->0 < possible@.len(),
    ensures
        as_standing(r.0, r.1) == sum_reading(children@.to_set(), standings(possible@, rank@)),
        r.1 matches Some(h) ==> h <= possible@.len(),
{
    let bound = possible.len();
    let ghost v = standings(possible@, rank@);
    let ghost s = children@.to_set();
    let mut any = false;
    let mut shortest: Option<usize> = None;
    let mut k: usize = 0;
    while k < children.len()
        invariant
            k <= children.len(),
            v == standings(possible@, rank@),
            possible@.len() == rank@.len(),
            forall|j: int| 0 <= j < children@.len() ==> (#[trigger] children@[j]) < possible@.len(),
            forall|x: int| 0 <= x < rank@.len() && (#[trigger] rank@[x]) is Some ==> rank@[x]->0 < possible@.len(),
            any == exists|j: int| 0 <= j < k && possible@[children@[j] as int],
            (shortest is Some) == exists|j: int| 0 <= j < k && rank@[children@[j] as int] is Some,
            shortest matches Some(t) ==> is_shortest(children@.take(k as int).to_set(), v, t as nat) && t < possible@.len(),
        decreases children.len() - k,
    {
        let c = children[k] as usize;
        let ghost prefix = children@.take(k as int);
        let ghost grown = children@.take(k + 1);
        proof {
            assert(grown == prefix.push(children@[k as int]));
            assert forall|x: u32| grown.to_set().contains(x) implies prefix.to_set().contains(x) || x == children@[k as int] by {
                let i = choose|i: int| 0 <= i < grown.len() && grown[i] == x;
                if i < k {
                    assert(prefix[i] == x);
                }
            }
            assert(grown.to_set().contains(children@[k as int])) by {
                assert(grown[k as int] == children@[k as int]);
            }
            assert forall|x: u32| prefix.to_set().contains(x) implies grown.to_set().contains(x) by {
                let i = choose|i: int| 0 <= i < prefix.len() && prefix[i] == x;
                assert(grown[i] == x);
            }
        }
        if possible[c] {
            any = true;
        }
        let ghost before = shortest;
        match rank[c] {
            None => {},
            Some(h) => {
                shortest = match shortest {
                    Some(t) => if h < t { Some(h) } else { Some(t) },
                    None => Some(h),
                };
            },
        }
        proof {
            if shortest is Some {
                let t = shortest->0;
                assert forall|x: u32| grown.to_set().contains(x) && (#[trigger] v(x as int)).1 is Some implies t as nat <= v(x as int).1->0 by {
                    if x != children@[k as int] {
                        assert(prefix.to_set().contains(x));
                    }
                }
                if before is Some && (rank@[c as int] is None || before->0 <= rank@[c as int]->0) {
                    let w = choose|x: u32| prefix.to_set().contains(x) && v(x as int).1 == Some(before->0 as nat);
                    assert(grown.to_set().contains(w));
                }
                assert(is_shortest(grown.to_set(), v, t as nat));
            }
        }
        k = k + 1;
    }
    proof {
        assert(children@.take(k as int) == children@);
        assert((exists|c: u32| s.contains(c) && (#[trigger] v(c as int)).0) == any) by {
            if any {
                let j = choose|j: int| 0 <= j < children@.len() && possible@[children@[j] as int];
                assert(s.contains(children@[j]));
                assert(v(children@[j] as int).0);
            }
            if exists|c: u32| s.contains(c) && (#[trigger] v(c as int)).0 {
                let c = choose|c: u32| s.contains(c) && (#[trigger] v(c as int)).0;
                let j = choose|j: int| 0 <= j < children@.len() && children@[j] == c;
                assert(possible@[children@[j] as int]);
            }
        }
        assert((exists|c: u32| s.contains(c) && (#[trigger] v(c as int)).1 is Some) == (shortest is Some)) by {
            if shortest is Some {
                let j = choose|j: int| 0 <= j < children@.len() && rank@[children@[j] as int] is Some;
                assert(s.contains(children@[j]));
            }
            if exists|c: u32| s.contains(c) && (#[trigger] v(c as int)).1 is Some {
                let c = choose|c: u32| s.contains(c) && (#[trigger] v(c as int)).1 is Some;
                let j = choose|j: int| 0 <= j < children@.len() && children@[j] == c;
            }
        }
        if shortest is Some {
            let m = choose|m: nat| is_shortest(s, v, m);
            let t = shortest->0;
            let a = choose|c: u32| s.contains(c) && v(c as int).1 == Some(m);
            let b = choose|c: u32| s.contains(c) && v(c as int).1 == Some(t as nat);
            assert(t <= v(a as int).1->0);
            assert(m <= v(b as int).1->0);
        }
    }
    match shortest {
        Some(t) => {
            assert(t < bound);
            (any, Some(t + 1))
        },
        None => (any, None),
    }
}


/// The children listed by a traversal of a row: its fields' nodes, then
/// its tails.
pub open spec fn row_list(nodes: Seq<Node>, v: Seq<u32>) -> Seq<u32> {
    fragment_fields(nodes, v).map_values(|f: (String, u32)| f.1) + tails_of(nodes, v)
}

/// A list of what a node is read from, given a traversal of its row.
proof fn lemma_row_list(nodes: Seq<Node>, x: int, v: Seq<u32>, fields: Seq<(String, u32)>, tails: Seq<u32>)
    requires
        row_traversal(nodes, x, v),
        fields.to_multiset() == fragment_fields(nodes, v).to_multiset(),
        tails == tails_of(nodes, v),
        nodes[x] is Extend,
    ensures
        (fields.map_values(|f: (String, u32)| f.1) + tails).to_set() == read_nodes(nodes, x),
{
    lemma_row_parts(nodes, x, v, fields, tails);
    let l = fields.map_values(|f: (String, u32)| f.1) + tails;
    let m = fields.map_values(|f: (String, u32)| f.1);
    assert forall|c: u32| l.to_set().contains(c) <==> read_nodes(nodes, x).contains(c) by {
        if l.to_set().contains(c) {
            let i = choose|i: int| 0 <= i < l.len() && l[i] == c;
            if i < m.len() {
                assert(fields[i].1 == c);
            } else {
                assert(tails[i - m.len()] == c);
                assert(tails.contains(c));
            }
        }
        if read_nodes(nodes, x).contains(c) {
            if row_child(nodes, x, c) {
                let q = choose|q: int| 0 <= q < fields.len() && #[trigger] fields[q].1 == c;
                assert(l[q] == c);
            } else {
                assert(tails.contains(c));
                let q = choose|q: int| 0 <= q < tails.len() && tails[q] == c;
                assert(l[m.len() + q] == c);
            }
        }
    }
    assert(l.to_set() =~= read_nodes(nodes, x));
}

/// Every node's reading set is listed by something.
proof fn lemma_read_list(nodes: Seq<Node>, kinds: Seq<bool>, x: int)
    requires
        kinds_of_rows(nodes, kinds),
        0 <= x < nodes.len(),
    ensures
        exists|l: Seq<u32>| l.to_set() == read_nodes(nodes, x),
{
    match nodes[x] {
        Node::Alias(c) => {
            let l = seq![c];
            assert(l.to_set() =~= read_nodes(nodes, x)) by {
                assert(l[0] == c);
            }
        },
        Node::Struct(fields) | Node::Sum(fields) => {
            let l = fields@.map_values(|f: (String, u32)| f.1);
            assert forall|c: u32| l.to_set().contains(c) <==> read_nodes(nodes, x).contains(c) by {
                if l.to_set().contains(c) {
                    let i = choose|i: int| 0 <= i < l.len() && l[i] == c;
                    assert(fields@[i].1 == c);
                }
                if read_nodes(nodes, x).contains(c) {
                    let k = choose|k: int| 0 <= k < fields@.len() && #[trigger] fields@[k].1 == c;
                    assert(l[k] == c);
                }
            }
            assert(l.to_set() =~= read_nodes(nodes, x));
        },
        Node::Extend(_) => {
            let v = choose|v: Seq<u32>| row_traversal(nodes, x, v) && kinds[x] == (super::construction::first_kind(nodes, v) == Some(true));
            lemma_row_list(nodes, x, v, fragment_fields(nodes, v), tails_of(nodes, v));
        },
        _ => {
            let l = Seq::<u32>::empty();
            assert(l.to_set() =~= read_nodes(nodes, x));
        },
    }
}

/// The nodes a row's fields hold, listed.
fn field_children(fields: &Vec<(String, u32)>) -> (l: Vec<u32>)
    ensures
        l@ == fields@.map_values(|f: (String, u32)| f.1),
{
    let mut l: Vec<u32> = Vec::new();
    let mut k: usize = 0;
    while k < fields.len()
        invariant
            k <= fields.len(),
            l@ == fields@.map_values(|f: (String, u32)| f.1).take(k as int),
        decreases fields.len() - k,
    {
        l.push(fields[k].1);
        proof {
            assert(fields@.map_values(|f: (String, u32)| f.1).take(k + 1) == fields@.map_values(|f: (String, u32)| f.1).take(k as int).push(
                fields@[k as int].1,
            ));
        }
        k = k + 1;
    }
    proof {
        assert(fields@.map_values(|f: (String, u32)| f.1).take(fields.len() as int) == fields@.map_values(|f: (String, u32)| f.1));
    }
    l
}

/// What a row's fields and tails name lies in range.
proof fn lemma_row_list_in_range(nodes: Seq<Node>, x: int, l: Seq<u32>)
    requires
        references_in_range(nodes),
        0 <= x < nodes.len(),
        nodes[x] is Extend,
        l.to_set() == read_nodes(nodes, x),
        exists|v: Seq<u32>| row_traversal(nodes, x, v),
    ensures
        forall|k: int| 0 <= k < l.len() ==> (#[trigger] l[k]) < nodes.len(),
{
    let w = super::fixpoint::traversal(nodes, x);
    assert(row_traversal(nodes, x, w));
    assert forall|k: int| 0 <= k < l.len() implies (#[trigger] l[k]) < nodes.len() by {
        let c = l[k];
        assert(l.to_set().contains(c));
        if row_child(nodes, x, c) {
            let (y, i) = choose|y: u32, i: int| super::fixpoint::traversal(nodes, x).contains(y) && 0 <= i < super::construction::fields_of(nodes[y as int]).len()
                && super::construction::fields_of(nodes[y as int])[i].1 == c;
            let yi = choose|yi: int| 0 <= yi < w.len() && w[yi] == y;
            assert(references(nodes[y as int])[i] == c);
        } else {
            let yi = choose|yi: int| 0 <= yi < w.len() && w[yi] == c;
        }
    }
}

/// The nodes an extension is read from: its row's fields, then its tails.
fn extension_children(descriptor: &Descriptor, at: usize) -> (l: Vec<u32>)
    requires
        references_in_range(descriptor.nodes@),
        at < descriptor.nodes.len(),
        descriptor.nodes.len() <= u32::MAX,
        descriptor.nodes@[at as int] is Extend,
    ensures
        l@.to_set() == read_nodes(descriptor.nodes@, at as int),
        forall|k: int| 0 <= k < l@.len() ==> (#[trigger] l@[k]) < descriptor.nodes.len(),
{
    let ghost nodes = descriptor.nodes@;
    let (_, fields, tails) = row(descriptor, at as u32);
    proof {
        assert((at as u32) as int == at as int);
    }
    let ghost v = choose|v: Seq<u32>| row_traversal(nodes, at as int, v) && fields@.to_multiset() == fragment_fields(nodes, v).to_multiset()
        && tails@ == tails_of(nodes, v);
    let mut l = field_children(&fields);
    let mut t: usize = 0;
    while t < tails.len()
        invariant
            t <= tails.len(),
            l@ == fields@.map_values(|f: (String, u32)| f.1) + tails@.take(t as int),
        decreases tails.len() - t,
    {
        l.push(tails[t]);
        proof {
            assert(tails@.take(t + 1) == tails@.take(t as int).push(tails@[t as int]));
        }
        t = t + 1;
    }
    proof {
        assert(tails@.take(tails.len() as int) == tails@);
        lemma_row_list(nodes, at as int, v, fields@, tails@);
        lemma_row_list_in_range(nodes, at as int, l@);
    }
    l
}

/// The nodes a node is read from, listed.
fn reading_list(descriptor: &Descriptor, at: usize) -> (l: Vec<u32>)
    requires
        references_in_range(descriptor.nodes@),
        at < descriptor.nodes.len(),
        descriptor.nodes.len() <= u32::MAX,
    ensures
        l@.to_set() == read_nodes(descriptor.nodes@, at as int),
        forall|k: int| 0 <= k < l@.len() ==> (#[trigger] l@[k]) < descriptor.nodes.len(),
{
    let ghost nodes = descriptor.nodes@;
    match &descriptor.nodes[at] {
        Node::Alias(c) => {
            let mut l: Vec<u32> = Vec::new();
            l.push(*c);
            proof {
                assert(references(nodes[at as int])[0] == *c);
                assert(l@.to_set() =~= read_nodes(nodes, at as int)) by {
                    assert(l@[0] == *c);
                }
            }
            l
        },
        Node::Struct(fields) | Node::Sum(fields) => {
            let l = field_children(fields);
            proof {
                assert forall|c: u32| l@.to_set().contains(c) <==> read_nodes(nodes, at as int).contains(c) by {
                    if l@.to_set().contains(c) {
                        let i = choose|i: int| 0 <= i < l@.len() && l@[i] == c;
                        assert(fields@[i].1 == c);
                    }
                    if read_nodes(nodes, at as int).contains(c) {
                        let k = choose|k: int| 0 <= k < fields@.len() && #[trigger] fields@[k].1 == c;
                        assert(l@[k] == c);
                    }
                }
                assert(l@.to_set() =~= read_nodes(nodes, at as int));
                assert forall|k: int| 0 <= k < l@.len() implies (#[trigger] l@[k]) < nodes.len() by {
                    assert(references(nodes[at as int])[k] == fields@[k].1);
                }
            }
            l
        },
        Node::Extend(_) => extension_children(descriptor, at),
        _ => {
            let l: Vec<u32> = Vec::new();
            proof {
                assert(l@.to_set() =~= read_nodes(nodes, at as int));
            }
            l
        },
    }
}


/// A node's standing, read from the vectors as the equations read it.
fn standing_at(descriptor: &Descriptor, kinds: &Vec<bool>, possible: &Vec<bool>, rank: &Vec<Option<usize>>, at: usize) -> (r: (bool, Option<usize>))
    requires
        references_in_range(descriptor.nodes@),
        descriptor.nodes.len() <= u32::MAX,
        at < descriptor.nodes.len(),
        kinds@.len() == descriptor.nodes.len(),
        possible@.len() == descriptor.nodes.len(),
        rank@.len() == descriptor.nodes.len(),
        forall|x: int| 0 <= x < rank@.len() && (#[trigger] rank@[x]) is Some ==> rank@[x]->0 < possible@.len(),
    ensures
        as_standing(r.0, r.1) == standing_step(descriptor.nodes@, kinds@, standings(possible@, rank@), at as int),
{
    let ghost nodes = descriptor.nodes@;
    match &descriptor.nodes[at] {
        Node::Nat | Node::Int | Node::Fixed(_) | Node::Real | Node::String | Node::Boolean | Node::Array(_)
        | Node::Parameter(_) => (true, Some(0)),
        Node::Alias(c) => {
            proof {
                assert(references(nodes[at as int])[0] == *c);
            }
            (possible[*c as usize], rank[*c as usize])
        },
        Node::Struct(_) => {
            let l = reading_list(descriptor, at);
            read_record(&l, possible, rank)
        },
        Node::Sum(_) => {
            let l = reading_list(descriptor, at);
            read_sum(&l, possible, rank)
        },
        Node::Extend(_) => {
            let l = reading_list(descriptor, at);
            if kinds[at] {
                read_record(&l, possible, rank)
            } else {
                read_sum(&l, possible, rank)
            }
        },
        _ => (true, None),
    }
}

/// `a` knows no more than `b`, and `b` no more than `c`: `a` knows no
/// more than `c`.
proof fn lemma_below_chain(a: Standing, b: Standing, c: Standing)
    requires
        below(a, b),
        below(b, c),
    ensures
        below(a, c),
{
}

/// A record's recipe is of height zero or one taller than a member's.
proof fn lemma_record_rank(l: Seq<u32>, v: Standings, h: nat)
    requires
        record_reading(l.to_set(), v).1 == Some(h),
    ensures
        h == 0 || exists|c: int| #[trigger] v(c).1 == Some((h - 1) as nat),
{
    let s = l.to_set();
    if exists|c: u32| s.contains(c) {
        let c0 = choose|c: u32| s.contains(c);
        assert(l.len() > 0) by {
            let i = choose|i: int| 0 <= i < l.len() && l[i] == c0;
        }
        lemma_tallest_exists(l, v);
        let m = choose|m: nat| is_tallest(s, v, m);
        let c = choose|c: u32| s.contains(c) && v(c as int).1 == Some(m);
        assert(v(c as int).1 == Some((h - 1) as nat));
    }
}

/// A sum's recipe is one taller than a case's.
proof fn lemma_sum_rank(l: Seq<u32>, v: Standings, h: nat)
    requires
        sum_reading(l.to_set(), v).1 == Some(h),
    ensures
        exists|c: int| #[trigger] v(c).1 == Some((h - 1) as nat),
{
    let s = l.to_set();
    let c0 = choose|c: u32| s.contains(c) && (#[trigger] v(c as int)).1 is Some;
    lemma_shortest_exists(l, v, c0);
    let m = choose|m: nat| is_shortest(s, v, m);
    let c = choose|c: u32| s.contains(c) && v(c as int).1 == Some(m);
    assert(v(c as int).1 == Some((h - 1) as nat));
}

/// A recipe the equations find is of height zero, or as tall as one
/// already known, or one taller.
proof fn lemma_step_rank(nodes: Seq<Node>, kinds: Seq<bool>, v: Standings, x: int, h: nat)
    requires
        kinds_of_rows(nodes, kinds),
        0 <= x < nodes.len(),
        standing_step(nodes, kinds, v, x).1 == Some(h),
    ensures
        h == 0 || (exists|c: int| #[trigger] v(c).1 == Some(h)) || (exists|c: int| #[trigger] v(c).1 == Some((h - 1) as nat)),
{
    lemma_read_list(nodes, kinds, x);
    let l = choose|l: Seq<u32>| l.to_set() == read_nodes(nodes, x);
    match nodes[x] {
        Node::Alias(c) => {
            assert(v(c as int).1 == Some(h));
        },
        Node::Struct(_) => {
            lemma_record_rank(l, v, h);
        },
        Node::Sum(_) => {
            lemma_sum_rank(l, v, h);
        },
        Node::Extend(_) => {
            if kinds[x] {
                lemma_record_rank(l, v, h);
            } else {
                lemma_sum_rank(l, v, h);
            }
        },
        _ => {},
    }
}

/// Whether an entry of the rank vector holds a recipe.
pub open spec fn known(rank: Seq<Option<usize>>) -> Seq<bool> {
    rank.map_values(|r: Option<usize>| r is Some)
}

/// Every recipe is shorter than the number of nodes with one.
pub open spec fn ranks_counted(rank: Seq<Option<usize>>) -> bool {
    forall|x: int| 0 <= x < rank.len() && (#[trigger] rank[x]) is Some ==> rank[x]->0 < marked_count(known(rank))
}

/// What a node adds to the distance from the least solution.
pub open spec fn weight(p: bool, r: Option<usize>, n: nat) -> nat {
    (if p {
        0nat
    } else {
        1nat
    }) + match r {
        Some(h) => h as nat,
        None => n + 1,
    }
}

/// The distance of the vectors from the least solution, counted down as
/// nodes become possible and recipes are found and shortened.
pub open spec fn potential(possible: Seq<bool>, rank: Seq<Option<usize>>, n: nat) -> nat
    decreases possible.len(),
{
    if possible.len() == 0 {
        0
    } else {
        potential(possible.drop_last(), rank.drop_last(), n) + weight(possible.last(), rank[possible.len() - 1], n)
    }
}

proof fn lemma_potential_update(possible: Seq<bool>, rank: Seq<Option<usize>>, n: nat, x: int, p: bool, r: Option<usize>)
    requires
        0 <= x < possible.len(),
        rank.len() == possible.len(),
    ensures
        potential(possible.update(x, p), rank.update(x, r), n) + weight(possible[x], rank[x], n) == potential(possible, rank, n) + weight(p, r, n),
    decreases possible.len(),
{
    let pu = possible.update(x, p);
    let ru = rank.update(x, r);
    if x < possible.len() - 1 {
        assert(pu.drop_last() =~= possible.drop_last().update(x, p));
        assert(ru.drop_last() =~= rank.drop_last().update(x, r));
        lemma_potential_update(possible.drop_last(), rank.drop_last(), n, x, p, r);
    } else {
        assert(pu.drop_last() =~= possible.drop_last());
        assert(ru.drop_last() =~= rank.drop_last());
    }
}

/// Every standing is below what the equations give for it.
pub open spec fn post_fixed(nodes: Seq<Node>, kinds: Seq<bool>, v: Standings) -> bool {
    forall|x: int| 0 <= x < nodes.len() ==> below(#[trigger] v(x), standing_step(nodes, kinds, v, x))
}

/// The standings are below every standing the equations do not raise.
pub open spec fn extremal(nodes: Seq<Node>, kinds: Seq<bool>, v: Standings) -> bool {
    forall|w: Standings| #[trigger] unraised(nodes, kinds, w) ==> everywhere_below(nodes.len(), v, w)
}

/// Replacing a node's standing by what the equations give for it keeps
/// the standings below the least solution and below what the equations
/// give, keeps every recipe counted, and brings the vectors nearer the
/// least solution where it changes them.
proof fn lemma_raise(nodes: Seq<Node>, kinds: Seq<bool>, possible: Seq<bool>, rank: Seq<Option<usize>>, x: int, p: bool, r: Option<usize>)
    requires
        kinds_of_rows(nodes, kinds),
        possible.len() == nodes.len(),
        rank.len() == nodes.len(),
        0 <= x < nodes.len(),
        post_fixed(nodes, kinds, standings(possible, rank)),
        extremal(nodes, kinds, standings(possible, rank)),
        ranks_counted(rank),
        as_standing(p, r) == standing_step(nodes, kinds, standings(possible, rank), x),
    ensures
        post_fixed(nodes, kinds, standings(possible.update(x, p), rank.update(x, r))),
        extremal(nodes, kinds, standings(possible.update(x, p), rank.update(x, r))),
        ranks_counted(rank.update(x, r)),
        as_standing(p, r) != as_standing(possible[x], rank[x]) ==> potential(possible.update(x, p), rank.update(x, r), nodes.len())
            < potential(possible, rank, nodes.len()),
{
    let n = nodes.len();
    let v = standings(possible, rank);
    let pu = possible.update(x, p);
    let ru = rank.update(x, r);
    let u = standings(pu, ru);
    assert(v(x) == as_standing(possible[x], rank[x]));
    assert(u(x) == as_standing(p, r));
    assert(below(v(x), u(x)));
    assert forall|c: int| #[trigger] below(v(c), u(c)) by {
        if c != x {
            if 0 <= c < n {
                assert(u(c) == v(c));
            }
        }
    }
    assert forall|y: int| 0 <= y < n implies below(#[trigger] u(y), standing_step(nodes, kinds, u, y)) by {
        lemma_read_list(nodes, kinds, y);
        assert forall|c: u32| #[trigger] read_nodes(nodes, y).contains(c) implies below(v(c as int), u(c as int)) by {
            assert(below(v(c as int), u(c as int)));
        }
        lemma_step_below(nodes, kinds, v, u, y);
        if y == x {
        } else {
            assert(u(y) == v(y));
            lemma_below_chain(u(y), standing_step(nodes, kinds, v, y), standing_step(nodes, kinds, u, y));
        }
    }
    assert forall|w: Standings| #[trigger] unraised(nodes, kinds, w) implies everywhere_below(n, u, w) by {
        assert(everywhere_below(n, v, w));
        assert forall|y: int| 0 <= y < n implies below(#[trigger] u(y), w(y)) by {
            if y == x {
                lemma_read_list(nodes, kinds, x);
                assert forall|c: u32| #[trigger] read_nodes(nodes, x).contains(c) implies below(v(c as int), w(c as int)) by {
                    if 0 <= c < n {
                        assert(below(v(c as int), w(c as int)));
                    }
                }
                lemma_step_below(nodes, kinds, v, w, x);
                assert(below(standing_step(nodes, kinds, w, x), w(x)));
                lemma_below_chain(u(x), standing_step(nodes, kinds, w, x), w(x));
            } else {
                assert(u(y) == v(y));
                assert(below(v(y), w(y)));
            }
        }
    }
    let count = marked_count(known(rank));
    let count_u = marked_count(known(ru));
    if rank[x] is None && r is Some {
        assert(known(ru) =~= known(rank).update(x, true));
        lemma_mark(known(rank), x);
    } else {
        assert(known(ru) =~= known(rank));
    }
    assert(count <= count_u);
    lemma_marked_bound(known(ru));
    assert(count_u <= n);
    assert forall|y: int| 0 <= y < ru.len() && (#[trigger] ru[y]) is Some implies ru[y]->0 < count_u by {
        if y == x {
            let h = r->0 as nat;
            assert(standing_step(nodes, kinds, v, x).1 == Some(h));
            lemma_step_rank(nodes, kinds, v, x, h);
            if h != 0 {
                if exists|c: int| #[trigger] v(c).1 == Some(h) {
                    let c = choose|c: int| #[trigger] v(c).1 == Some(h);
                    assert(rank[c] is Some);
                } else {
                    let c = choose|c: int| #[trigger] v(c).1 == Some((h - 1) as nat);
                    assert(rank[c] is Some);
                }
            }
        } else {
            assert(ru[y] == rank[y]);
        }
    }
    lemma_potential_update(possible, rank, n, x, p, r);
    if as_standing(p, r) != as_standing(possible[x], rank[x]) {
        if r is Some {
            assert(r->0 < n);
        }
        assert(weight(p, r, n) < weight(possible[x], rank[x], n));
    }
}

/// Whether two entries of the rank vector agree.
fn same_rank(a: Option<usize>, b: Option<usize>) -> (s: bool)
    ensures
        s == (a == b),
{
    match (a, b) {
        (Some(x), Some(y)) => x == y,
        (None, None) => true,
        _ => false,
    }
}


/// A node no recipe here vouches for: functions and opaque types.
pub open spec fn vouchless(node: Node) -> bool {
    node is Arrow || node is Any || node is JsValue
}

/// Why a node's construction is unavailable.
pub open spec fn reason(node: Node) -> Seq<char> {
    if node is Arrow {
        "function values have no automatic constructor"@
    } else {
        "the type's complete construction evidence is unavailable"@
    }
}

/// A step of the review from `x` to `c`, with the text it adds to the
/// path: nothing through an alias or a row's tail, `[]` into an array's
/// items, a dot and the name into a field.
pub open spec fn review_step(nodes: Seq<Node>, x: int, c: u32, t: Seq<char>) -> bool {
    match nodes[x] {
        Node::Alias(d) => c == d && t == Seq::<char>::empty(),
        Node::Array(d) => c == d && t == "[]"@,
        Node::Struct(fields) => field_step(fields@, c, t),
        Node::Sum(fields) => field_step(fields@, c, t),
        Node::Extend(_) => (exists|f: (String, u32)| #[trigger] row_field(nodes, x, f) && f.1 == c && t == "."@ + f.0@) || (row_tail(nodes, x, c)
            && t == Seq::<char>::empty()),
        _ => false,
    }
}

/// A step into one of the fields, its text a dot and the field's name.
pub open spec fn field_step(fields: Seq<(String, u32)>, c: u32, t: Seq<char>) -> bool {
    exists|k: int| 0 <= k < fields.len() && #[trigger] fields[k].1 == c && t == "."@ + fields[k].0@
}

/// A route of the review from the root through possible nodes, with the
/// text of each step.
pub open spec fn review_route(nodes: Seq<Node>, possible: Seq<bool>, route: Seq<u32>, steps: Seq<Seq<char>>) -> bool {
    &&& route.len() == steps.len() + 1
    &&& route[0] == 0
    &&& forall|i: int| 0 <= i < route.len() ==> (#[trigger] route[i]) < nodes.len() && possible[route[i] as int]
    &&& forall|i: int| 0 <= i < steps.len() ==> review_step(nodes, route[i] as int, route[i + 1], #[trigger] steps[i])
}

/// The path a route's steps spell.
pub open spec fn route_text(steps: Seq<Seq<char>>) -> Seq<char> {
    "$"@ + steps.flatten()
}

/// A node the review reaches.
pub open spec fn reviewed(nodes: Seq<Node>, possible: Seq<bool>, y: u32) -> bool {
    exists|route: Seq<u32>, steps: Seq<Seq<char>>| review_route(nodes, possible, route, steps) && route.last() == y
}

/// The review reaches no node that no recipe vouches for.
pub open spec fn vouched(nodes: Seq<Node>, possible: Seq<bool>) -> bool {
    forall|y: u32| #[trigger] reviewed(nodes, possible, y) ==> !vouchless(nodes[y as int])
}

/// A route extended by one step.
proof fn lemma_extend_route(nodes: Seq<Node>, possible: Seq<bool>, route: Seq<u32>, steps: Seq<Seq<char>>, c: u32, t: Seq<char>)
    requires
        review_route(nodes, possible, route, steps),
        review_step(nodes, route.last() as int, c, t),
        c < nodes.len(),
        possible[c as int],
    ensures
        review_route(nodes, possible, route.push(c), steps.push(t)),
        route_text(steps.push(t)) == route_text(steps) + t,
{
    let r = route.push(c);
    let s = steps.push(t);
    assert forall|i: int| 0 <= i < s.len() implies review_step(nodes, r[i] as int, r[i + 1], #[trigger] s[i]) by {
        if i < steps.len() {
            assert(s[i] == steps[i]);
            assert(r[i] == route[i]);
            assert(r[i + 1] == route[i + 1]);
        } else {
            assert(r[i] == route.last());
        }
    }
    steps.lemma_flatten_push(t);
    assert(route_text(s) =~= route_text(steps) + t);
}

/// One entry of the review's queue: a marked, possible node, with a route
/// to it that spells its path.
pub open spec fn queued_well(nodes: Seq<Node>, possible: Seq<bool>, marks: Seq<bool>, entry: (u32, String), route: (Seq<u32>, Seq<Seq<char>>)) -> bool {
    &&& entry.0 < nodes.len()
    &&& marks[entry.0 as int]
    &&& possible[entry.0 as int]
    &&& review_route(nodes, possible, route.0, route.1)
    &&& route.0.last() == entry.0
    &&& entry.1@ == route_text(route.1)
}

/// The review's bookkeeping: the queue lists each marked node once, by a
/// route from the root.
pub open spec fn review_state(
    nodes: Seq<Node>,
    possible: Seq<bool>,
    marks: Seq<bool>,
    queue: Seq<(u32, String)>,
    routes: Seq<(Seq<u32>, Seq<Seq<char>>)>,
) -> bool {
    &&& marks.len() == nodes.len()
    &&& possible.len() == nodes.len()
    &&& queue.len() == routes.len()
    &&& queue.len() == marked_count(marks)
    &&& forall|k: int| 0 <= k < queue.len() ==> queued_well(nodes, possible, marks, #[trigger] queue[k], routes[k])
    &&& forall|x: int| 0 <= x < marks.len() && #[trigger] marks[x] ==> exists|k: int| 0 <= k < queue.len() && queue[k].0 == x
}

/// The entries before `head` have had every step out of them taken.
pub open spec fn closed_upto(nodes: Seq<Node>, possible: Seq<bool>, marks: Seq<bool>, queue: Seq<(u32, String)>, head: int) -> bool {
    forall|k: int, c: u32, t: Seq<char>|
        0 <= k < head && #[trigger] review_step(nodes, queue[k].0 as int, c, t) && c < nodes.len() && possible[c as int] ==> marks[c as int]
}

/// Queueing a new node by a route keeps the bookkeeping.
proof fn lemma_push_state(
    nodes: Seq<Node>,
    possible: Seq<bool>,
    marks: Seq<bool>,
    queue: Seq<(u32, String)>,
    routes: Seq<(Seq<u32>, Seq<Seq<char>>)>,
    c: u32,
    text: String,
    route: (Seq<u32>, Seq<Seq<char>>),
)
    requires
        review_state(nodes, possible, marks, queue, routes),
        c < nodes.len(),
        possible[c as int],
        !marks[c as int],
        review_route(nodes, possible, route.0, route.1),
        route.0.last() == c,
        text@ == route_text(route.1),
    ensures
        review_state(nodes, possible, marks.update(c as int, true), queue.push((c, text)), routes.push(route)),
{
    let m = marks.update(c as int, true);
    let q = queue.push((c, text));
    let r = routes.push(route);
    lemma_mark(marks, c as int);
    assert forall|k: int| 0 <= k < q.len() implies queued_well(nodes, possible, m, #[trigger] q[k], r[k]) by {
        if k < queue.len() {
            assert(q[k] == queue[k]);
            assert(r[k] == routes[k]);
            assert(queued_well(nodes, possible, marks, queue[k], routes[k]));
        }
    }
    assert forall|x: int| 0 <= x < m.len() && #[trigger] m[x] implies exists|k: int| 0 <= k < q.len() && q[k].0 == x by {
        if x == c {
            assert(q[queue.len() as int].0 == x);
        } else {
            assert(marks[x]);
            let k = choose|k: int| 0 <= k < queue.len() && queue[k].0 == x;
            assert(q[k].0 == x);
        }
    }
}

/// Marks only added keep the entries closed.
proof fn lemma_closed_grow(nodes: Seq<Node>, possible: Seq<bool>, marks: Seq<bool>, queue: Seq<(u32, String)>, head: int, c: u32, text: String)
    requires
        closed_upto(nodes, possible, marks, queue, head),
        head <= queue.len(),
        c < marks.len(),
        marks.len() == nodes.len(),
    ensures
        closed_upto(nodes, possible, marks.update(c as int, true), queue.push((c, text)), head),
{
    let q = queue.push((c, text));
    assert forall|k: int, d: u32, t: Seq<char>|
        0 <= k < head && #[trigger] review_step(nodes, q[k].0 as int, d, t) && d < nodes.len() && possible[d as int] implies marks.update(
        c as int,
        true,
    )[d as int] by {
        assert(q[k] == queue[k]);
        assert(review_step(nodes, queue[k].0 as int, d, t));
    }
}

/// Every node a route passes is marked, once the queue is closed.
proof fn lemma_route_marked(
    nodes: Seq<Node>,
    possible: Seq<bool>,
    marks: Seq<bool>,
    queue: Seq<(u32, String)>,
    routes: Seq<(Seq<u32>, Seq<Seq<char>>)>,
    route: Seq<u32>,
    steps: Seq<Seq<char>>,
    i: int,
)
    requires
        review_state(nodes, possible, marks, queue, routes),
        closed_upto(nodes, possible, marks, queue, queue.len() as int),
        marks[0],
        review_route(nodes, possible, route, steps),
        0 <= i < route.len(),
    ensures
        marks[route[i] as int],
    decreases i,
{
    if i > 0 {
        lemma_route_marked(nodes, possible, marks, queue, routes, route, steps, i - 1);
        let x = route[i - 1];
        assert(0 <= x < marks.len());
        let k = choose|k: int| 0 <= k < queue.len() && queue[k].0 == x;
        assert(review_step(nodes, route[i - 1] as int, route[i], steps[i - 1]));
        assert(review_step(nodes, queue[k].0 as int, route[i], steps[i - 1]));
        assert(route[i] < nodes.len() && possible[route[i] as int]);
    }
}

/// Marks one node and queues it with its path, where it is possible and
/// not yet marked; says whether it did.
fn visit(marks: &mut Vec<bool>, queue: &mut Vec<(u32, String)>, possible: &Vec<bool>, c: u32, text: String) -> (pushed: bool)
    requires
        c < old(marks).len(),
        old(marks).len() == possible.len(),
    ensures
        pushed == (possible@[c as int] && !old(marks)@[c as int]),
        pushed ==> final(marks)@ == old(marks)@.update(c as int, true) && final(queue)@ == old(queue)@.push((c, text)),
        !pushed ==> final(marks)@ == old(marks)@ && final(queue)@ == old(queue)@,
{
    if possible[c as usize] && !marks[c as usize] {
        marks.set(c as usize, true);
        queue.push((c, text));
        true
    } else {
        false
    }
}

/// The field a row holds lies in range.
proof fn lemma_row_field_in_range(nodes: Seq<Node>, x: int, f: (String, u32))
    requires
        references_in_range(nodes),
        row_field(nodes, x, f),
        exists|v: Seq<u32>| row_traversal(nodes, x, v),
    ensures
        f.1 < nodes.len(),
{
    let w = super::fixpoint::traversal(nodes, x);
    assert(row_traversal(nodes, x, w));
    let (y, i) = choose|y: u32, i: int| super::fixpoint::traversal(nodes, x).contains(y) && 0 <= i < super::construction::fields_of(nodes[y as int]).len()
        && super::construction::fields_of(nodes[y as int])[i] == f;
    let yi = choose|yi: int| 0 <= yi < w.len() && w[yi] == y;
    assert(references(nodes[y as int])[i] == f.1);
}

/// A row's tail lies in range.
proof fn lemma_row_tail_in_range(nodes: Seq<Node>, x: int, t: u32)
    requires
        row_tail(nodes, x, t),
        exists|v: Seq<u32>| row_traversal(nodes, x, v),
    ensures
        t < nodes.len(),
{
    let w = super::fixpoint::traversal(nodes, x);
    assert(row_traversal(nodes, x, w));
    let yi = choose|yi: int| 0 <= yi < w.len() && w[yi] == t;
}

/// Takes one step of the review out of the entry at `head`: queues the
/// step's node with its path where it is possible and new.
fn take_step(
    marks: &mut Vec<bool>,
    queue: &mut Vec<(u32, String)>,
    possible: &Vec<bool>,
    Ghost(nodes): Ghost<Seq<Node>>,
    Ghost(routes): Ghost<Seq<(Seq<u32>, Seq<Seq<char>>)>>,
    Ghost(head): Ghost<int>,
    Ghost(route): Ghost<(Seq<u32>, Seq<Seq<char>>)>,
    c: u32,
    text: String,
    Ghost(t): Ghost<Seq<char>>,
) -> (next: Ghost<Seq<(Seq<u32>, Seq<Seq<char>>)>>)
    requires
        review_state(nodes, possible@, old(marks)@, old(queue)@, routes),
        closed_upto(nodes, possible@, old(marks)@, old(queue)@, head),
        0 <= head < old(queue)@.len(),
        review_route(nodes, possible@, route.0, route.1),
        review_step(nodes, route.0.last() as int, c, t),
        c < nodes.len(),
        text@ == route_text(route.1) + t,
    ensures
        review_state(nodes, possible@, final(marks)@, final(queue)@, next@),
        closed_upto(nodes, possible@, final(marks)@, final(queue)@, head),
        final(queue)@.len() >= old(queue)@.len(),
        forall|k: int| 0 <= k < old(queue)@.len() ==> #[trigger] final(queue)@[k] == old(queue)@[k],
        final(marks)@.len() == old(marks)@.len(),
        forall|x: int| 0 <= x < old(marks)@.len() && #[trigger] old(marks)@[x] ==> final(marks)@[x],
        possible@[c as int] ==> final(marks)@[c as int],
{
    let ghost m0 = marks@;
    let ghost q0 = queue@;
    let pushed = visit(marks, queue, possible, c, text);
    if pushed {
        proof {
            let e = queue@.last();
            assert(queue@[q0.len() as int] == e);
            lemma_extend_route(nodes, possible@, route.0, route.1, c, t);
            lemma_push_state(nodes, possible@, m0, q0, routes, c, e.1, (route.0.push(c), route.1.push(t)));
            lemma_closed_grow(nodes, possible@, m0, q0, head, c, e.1);
        }
        Ghost(routes.push((route.0.push(c), route.1.push(t))))
    } else {
        Ghost(routes)
    }
}

/// For each node, whether a finite value of it may exist, and the height
/// of the shortest recipe for one. Variants choose the first case of
/// minimum rank, in the descriptor's canonical field order.
#[derive(Debug, Clone)]
pub struct Construction {
    /// A finite value may exist. Unknown parameters and opaque types count
    /// as possible; only a proof of emptiness permits pruning a nested
    /// position.
    pub possible: Vec<bool>,
    /// A decreasing rank for a finite construction.
    pub rank: Vec<Option<usize>>,
}

impl Construction {
    /// The least standings the equations admit: a node is possible, and
    /// has a recipe of a given height, only where the equations force it.
    pub fn analyze(descriptor: &Descriptor) -> (c: Construction)
        requires
            references_in_range(descriptor.nodes@),
            descriptor.nodes.len() <= u32::MAX,
        ensures
            c.possible@.len() == descriptor.nodes.len(),
            c.rank@.len() == descriptor.nodes.len(),
            exists|kinds: Seq<bool>|
                kinds_of_rows(descriptor.nodes@, kinds) && least_standings(descriptor.nodes@, kinds, standings(c.possible@, c.rank@)),
            forall|x: int| 0 <= x < c.rank@.len() && (#[trigger] c.rank@[x]) is Some ==> c.rank@[x]->0 < descriptor.nodes.len(),
    {
        let ghost nodes = descriptor.nodes@;
        let n = descriptor.nodes.len();
        let kinds = row_kinds(descriptor);
        let mut possible: Vec<bool> = Vec::new();
        let mut rank: Vec<Option<usize>> = Vec::new();
        let mut k: usize = 0;
        while k < n
            invariant
                k <= n,
                possible@.len() == k,
                rank@.len() == k,
                forall|x: int| 0 <= x < k ==> !(#[trigger] possible@[x]) && rank@[x] is None,
            decreases n - k,
        {
            possible.push(false);
            rank.push(None);
            k = k + 1;
        }
        proof {
            let v = standings(possible@, rank@);
            assert forall|x: int| 0 <= x < n implies below(#[trigger] v(x), standing_step(nodes, kinds@, v, x)) by {}
            assert forall|w: Standings| #[trigger] unraised(nodes, kinds@, w) implies everywhere_below(n as nat, v, w) by {}
            assert(extremal(nodes, kinds@, v));
            assert forall|x: int| 0 <= x < rank@.len() && (#[trigger] rank@[x]) is Some implies rank@[x]->0 < marked_count(known(rank@)) by {
                assert(!possible@[x]);
            }
        }
        loop
            invariant
                n == descriptor.nodes.len(),
                nodes == descriptor.nodes@,
                n <= u32::MAX,
                references_in_range(nodes),
                kinds_of_rows(nodes, kinds@),
                kinds@.len() == n,
                possible@.len() == n,
                rank@.len() == n,
                post_fixed(nodes, kinds@, standings(possible@, rank@)),
                extremal(nodes, kinds@, standings(possible@, rank@)),
                ranks_counted(rank@),
            ensures
                forall|x: int| 0 <= x < n ==> #[trigger] standings(possible@, rank@)(x) == standing_step(nodes, kinds@, standings(possible@, rank@), x),
            decreases potential(possible@, rank@, n as nat),
        {
            let ghost p0 = possible@;
            let ghost r0 = rank@;
            let mut changed = false;
            let mut at: usize = 0;
            while at < n
                invariant
                    at <= n,
                    n == descriptor.nodes.len(),
                    nodes == descriptor.nodes@,
                    n <= u32::MAX,
                    references_in_range(nodes),
                    kinds_of_rows(nodes, kinds@),
                    kinds@.len() == n,
                    possible@.len() == n,
                    rank@.len() == n,
                    p0.len() == n,
                    r0.len() == n,
                    post_fixed(nodes, kinds@, standings(possible@, rank@)),
                    extremal(nodes, kinds@, standings(possible@, rank@)),
                    ranks_counted(rank@),
                    changed ==> potential(possible@, rank@, n as nat) < potential(p0, r0, n as nat),
                    !changed ==> possible@ == p0 && rank@ == r0,
                    !changed ==> forall|y: int| 0 <= y < at ==> #[trigger] standings(possible@, rank@)(y) == standing_step(
                        nodes,
                        kinds@,
                        standings(possible@, rank@),
                        y,
                    ),
                decreases n - at,
            {
                proof {
                    lemma_marked_bound(known(rank@));
                    assert forall|x: int| 0 <= x < rank@.len() && (#[trigger] rank@[x]) is Some implies rank@[x]->0 < possible@.len() by {
                        assert(rank@[x]->0 < marked_count(known(rank@)));
                    }
                }
                let (p, r) = standing_at(descriptor, &kinds, &possible, &rank, at);
                if p != possible[at] || !same_rank(r, rank[at]) {
                    proof {
                        lemma_raise(nodes, kinds@, possible@, rank@, at as int, p, r);
                    }
                    possible.set(at, p);
                    rank.set(at, r);
                    changed = true;
                } else {
                    proof {
                        let v = standings(possible@, rank@);
                        assert(v(at as int) == as_standing(possible@[at as int], rank@[at as int]));
                    }
                }
                at = at + 1;
            }
            if !changed {
                break;
            }
        }
        proof {
            let v = standings(possible@, rank@);
            lemma_marked_bound(known(rank@));
            assert forall|x: int| 0 <= x < rank@.len() && (#[trigger] rank@[x]) is Some implies rank@[x]->0 < n by {
                assert(rank@[x]->0 < marked_count(known(rank@)));
            }
            assert(least_standings(nodes, kinds@, v));
        }
        Construction { possible, rank }
    }
    /// Checks every potentially inhabited part, not just a selected
    /// default: a part no recipe vouches for is reported with its path,
    /// else the lack of a finite recipe at the root.
    pub fn review(&self, descriptor: &Descriptor) -> (r: Result<(), String>)
        requires
            references_in_range(descriptor.nodes@),
            descriptor.nodes.len() > 0,
            descriptor.nodes.len() <= u32::MAX,
            self.possible@.len() == descriptor.nodes.len(),
            self.rank@.len() == descriptor.nodes.len(),
        ensures
            r is Ok <==> self.possible@[0] && vouched(descriptor.nodes@, self.possible@) && self.rank@[0] is Some,
            !self.possible@[0] ==> (r matches Err(e) && e@ == "construction evidence is unavailable: this type has no finite value"@),
            self.possible@[0] && vouched(descriptor.nodes@, self.possible@) && self.rank@[0] is None ==> (r matches Err(e) && e@
                == "construction evidence is unavailable: no finite construction recipe exists"@),
            self.possible@[0] && !vouched(descriptor.nodes@, self.possible@) ==> (r matches Err(e) && exists|route: Seq<u32>, steps: Seq<Seq<char>>|
                review_route(descriptor.nodes@, self.possible@, route, steps) && vouchless(descriptor.nodes@[route.last() as int]) && e@
                    == "construction evidence is unavailable at "@ + route_text(steps) + ": "@ + reason(descriptor.nodes@[route.last() as int])),
    {
        let ghost nodes = descriptor.nodes@;
        let ghost possible = self.possible@;
        let n = descriptor.nodes.len();
        if !self.possible[0] {
            return Err("construction evidence is unavailable: this type has no finite value".to_owned());
        }
        let mut marks: Vec<bool> = Vec::new();
        let mut k: usize = 0;
        while k < n
            invariant
                k <= n,
                marks@.len() == k,
                forall|x: int| 0 <= x < k ==> !(#[trigger] marks@[x]),
            decreases n - k,
        {
            marks.push(false);
            k = k + 1;
        }
        proof {
            lemma_zero_marks(marks@, n as int);
            assert(marks@.take(n as int) == marks@);
            lemma_mark(marks@, 0);
        }
        marks.set(0, true);
        let mut queue: Vec<(u32, String)> = Vec::new();
        queue.push((0, "$".to_owned()));
        let ghost mut routes: Seq<(Seq<u32>, Seq<Seq<char>>)> = seq![(seq![0u32], Seq::<Seq<char>>::empty())];
        proof {
            let route = routes[0];
            assert(route.1.flatten() =~= Seq::<char>::empty());
            assert(route_text(route.1) =~= "$"@);
            assert(review_route(nodes, possible, route.0, route.1));
            assert(queued_well(nodes, possible, marks@, queue@[0], routes[0]));
            assert forall|x: int| 0 <= x < marks@.len() && #[trigger] marks@[x] implies exists|j: int| 0 <= j < queue@.len() && queue@[j].0 == x by {
                assert(x == 0);
                assert(queue@[0].0 == x);
            }
            assert(review_state(nodes, possible, marks@, queue@, routes));
        }
        let mut head: usize = 0;
        while head < queue.len()
            invariant
                n == nodes.len(),
                nodes == descriptor.nodes@,
                possible == self.possible@,
                n <= u32::MAX,
                references_in_range(nodes),
                review_state(nodes, possible, marks@, queue@, routes),
                head <= queue@.len(),
                marks@[0],
                closed_upto(nodes, possible, marks@, queue@, head as int),
                forall|j: int| 0 <= j < head ==> !vouchless(nodes[(#[trigger] queue@[j]).0 as int]),
            decreases n - head,
        {
            proof {
                lemma_marked_bound(marks@);
            }
            let at = queue[head].0;
            let path = queue[head].1.clone();
            let ghost route = routes[head as int];
            let ghost q0 = queue@;
            let ghost m0 = marks@;
            proof {
                assert(queued_well(nodes, possible, marks@, queue@[head as int], route));
            }
            match &descriptor.nodes[at as usize] {
                Node::Nat | Node::Int | Node::Fixed(_) | Node::Real | Node::String | Node::Boolean | Node::Parameter(_) => {},
                Node::Alias(c) => {
                    let c = *c;
                    let ghost t = Seq::<char>::empty();
                    proof {
                        assert(references(nodes[at as int])[0] == c);
                        assert(route_text(route.1) + t =~= path@);
                    }
                    let text = path.clone();
                    let next = take_step(&mut marks, &mut queue, &self.possible, Ghost(nodes), Ghost(routes), Ghost(head as int), Ghost(route), c, text, Ghost(t));
                    proof {
                        routes = next@;
                    }
                },
                Node::Array(c) => {
                    let c = *c;
                    let ghost t = "[]"@;
                    proof {
                        assert(references(nodes[at as int])[0] == c);
                    }
                    let mut text = path.clone();
                    text.append("[]");
                    let next = take_step(&mut marks, &mut queue, &self.possible, Ghost(nodes), Ghost(routes), Ghost(head as int), Ghost(route), c, text, Ghost(t));
                    proof {
                        routes = next@;
                    }
                },
                Node::Struct(fields) | Node::Sum(fields) => {
                    proof {
                        assert forall|q: int| 0 <= q < fields@.len() implies (#[trigger] fields@[q]).1 < n by {
                            assert(references(nodes[at as int])[q] == fields@[q].1);
                        }
                    }
                    let mut i: usize = 0;
                    while i < fields.len()
                        invariant
                            i <= fields.len(),
                            n == nodes.len(),
                            possible == self.possible@,
                            references_in_range(nodes),
                            at < n,
                            nodes[at as int] == Node::Struct(*fields) || nodes[at as int] == Node::Sum(*fields),
                            forall|q: int| 0 <= q < fields@.len() ==> (#[trigger] fields@[q]).1 < n,
                            route.0.last() == at,
                            review_route(nodes, possible, route.0, route.1),
                            path@ == route_text(route.1),
                            review_state(nodes, possible, marks@, queue@, routes),
                            closed_upto(nodes, possible, marks@, queue@, head as int),
                            head < q0.len(),
                            queue@.len() >= q0.len(),
                            forall|j: int| 0 <= j < q0.len() ==> #[trigger] queue@[j] == q0[j],
                            marks@.len() == m0.len(),
                            forall|x: int| 0 <= x < m0.len() && #[trigger] m0[x] ==> marks@[x],
                            forall|j: int| 0 <= j < i && possible[(#[trigger] fields@[j]).1 as int] ==> marks@[fields@[j].1 as int],
                        decreases fields.len() - i,
                    {
                        let c = fields[i].1;
                        let ghost t = "."@ + fields@[i as int].0@;
                        proof {
                            assert(fields@[i as int].1 == c);
                            assert(field_step(fields@, c, t));
                            if nodes[at as int] == Node::Struct(*fields) {
                                assert(review_step(nodes, at as int, c, t));
                            } else {
                                assert(review_step(nodes, at as int, c, t));
                            }
                        }
                        let mut text = path.clone();
                        text.append(".");
                        text.append(fields[i].0.as_str());
                        proof {
                            assert(text@ =~= route_text(route.1) + t);
                        }
                        let ghost mb = marks@;
                        let next = take_step(&mut marks, &mut queue, &self.possible, Ghost(nodes), Ghost(routes), Ghost(head as int), Ghost(route), c, text, Ghost(t));
                        proof {
                            routes = next@;
                            assert forall|q: int| 0 <= q < i + 1 && possible[(#[trigger] fields@[q]).1 as int] implies marks@[fields@[q].1 as int] by {
                                if q < i {
                                    assert(mb[fields@[q].1 as int]);
                                }
                            }
                        }
                        i = i + 1;
                    }
                    proof {
                        assert forall|d: u32, t: Seq<char>| #[trigger] review_step(nodes, at as int, d, t) && d < n && possible[d as int] implies marks@[d as int] by {
                            let j = choose|j: int| 0 <= j < fields@.len() && #[trigger] fields@[j].1 == d && t == "."@ + fields@[j].0@;
                        }
                    }
                },
                Node::Extend(_) => {
                    let (_, fields, tails) = row(descriptor, at);
                    let ghost v = choose|v: Seq<u32>| row_traversal(nodes, at as int, v) && fields@.to_multiset() == super::construction::fragment_fields(nodes, v).to_multiset()
                        && tails@ == super::construction::tails_of(nodes, v);
                    proof {
                        lemma_row_fields(nodes, at as int, v, fields@);
                        lemma_row_parts(nodes, at as int, v, fields@, tails@);
                        assert forall|q: int| 0 <= q < fields@.len() implies (#[trigger] fields@[q]).1 < n by {
                            assert(fields@.contains(fields@[q]));
                            lemma_row_field_in_range(nodes, at as int, fields@[q]);
                        }
                        assert forall|q: int| 0 <= q < tails@.len() implies (#[trigger] tails@[q]) < n by {
                            assert(tails@.contains(tails@[q]));
                            lemma_row_tail_in_range(nodes, at as int, tails@[q]);
                        }
                    }
                    let mut i: usize = 0;
                    while i < fields.len()
                        invariant
                            i <= fields.len(),
                            n == nodes.len(),
                            possible == self.possible@,
                            references_in_range(nodes),
                            at < n,
                            nodes[at as int] is Extend,
                            row_traversal(nodes, at as int, v),
                            forall|f: (String, u32)| #[trigger] row_field(nodes, at as int, f) <==> fields@.contains(f),
                            forall|q: int| 0 <= q < fields@.len() ==> (#[trigger] fields@[q]).1 < n,
                            route.0.last() == at,
                            review_route(nodes, possible, route.0, route.1),
                            path@ == route_text(route.1),
                            review_state(nodes, possible, marks@, queue@, routes),
                            closed_upto(nodes, possible, marks@, queue@, head as int),
                            head < q0.len(),
                            queue@.len() >= q0.len(),
                            forall|j: int| 0 <= j < q0.len() ==> #[trigger] queue@[j] == q0[j],
                            marks@.len() == m0.len(),
                            forall|x: int| 0 <= x < m0.len() && #[trigger] m0[x] ==> marks@[x],
                            forall|j: int| 0 <= j < i && possible[(#[trigger] fields@[j]).1 as int] ==> marks@[fields@[j].1 as int],
                        decreases fields.len() - i,
                    {
                        let c = fields[i].1;
                        let ghost f = fields@[i as int];
                        let ghost t = "."@ + f.0@;
                        proof {
                            assert(fields@.contains(f));
                            assert(row_field(nodes, at as int, f));
                            lemma_row_field_in_range(nodes, at as int, f);
                            assert(review_step(nodes, at as int, c, t));
                        }
                        let mut text = path.clone();
                        text.append(".");
                        text.append(fields[i].0.as_str());
                        proof {
                            assert(text@ =~= route_text(route.1) + t);
                        }
                        let ghost mb = marks@;
                        let next = take_step(&mut marks, &mut queue, &self.possible, Ghost(nodes), Ghost(routes), Ghost(head as int), Ghost(route), c, text, Ghost(t));
                        proof {
                            routes = next@;
                            assert forall|q: int| 0 <= q < i + 1 && possible[(#[trigger] fields@[q]).1 as int] implies marks@[fields@[q].1 as int] by {
                                if q < i {
                                    assert(mb[fields@[q].1 as int]);
                                }
                            }
                        }
                        i = i + 1;
                    }
                    let mut j: usize = 0;
                    while j < tails.len()
                        invariant
                            j <= tails.len(),
                            n == nodes.len(),
                            possible == self.possible@,
                            references_in_range(nodes),
                            at < n,
                            nodes[at as int] is Extend,
                            row_traversal(nodes, at as int, v),
                            forall|c: u32| row_tail(nodes, at as int, c) <==> tails@.contains(c),
                            forall|q: int| 0 <= q < fields@.len() ==> (#[trigger] fields@[q]).1 < n,
                            forall|q: int| 0 <= q < tails@.len() ==> (#[trigger] tails@[q]) < n,
                            route.0.last() == at,
                            review_route(nodes, possible, route.0, route.1),
                            path@ == route_text(route.1),
                            review_state(nodes, possible, marks@, queue@, routes),
                            closed_upto(nodes, possible, marks@, queue@, head as int),
                            head < q0.len(),
                            queue@.len() >= q0.len(),
                            forall|q: int| 0 <= q < q0.len() ==> #[trigger] queue@[q] == q0[q],
                            marks@.len() == m0.len(),
                            forall|x: int| 0 <= x < m0.len() && #[trigger] m0[x] ==> marks@[x],
                            forall|q: int| 0 <= q < fields@.len() && possible[(#[trigger] fields@[q]).1 as int] ==> marks@[fields@[q].1 as int],
                            forall|q: int| 0 <= q < j && possible[(#[trigger] tails@[q]) as int] ==> marks@[tails@[q] as int],
                        decreases tails.len() - j,
                    {
                        let c = tails[j];
                        let ghost t = Seq::<char>::empty();
                        proof {
                            assert(tails@.contains(c));
                            assert(row_tail(nodes, at as int, c));
                            lemma_row_tail_in_range(nodes, at as int, c);
                            assert(route_text(route.1) + t =~= path@);
                        }
                        let text = path.clone();
                        let ghost mb = marks@;
                        let next = take_step(&mut marks, &mut queue, &self.possible, Ghost(nodes), Ghost(routes), Ghost(head as int), Ghost(route), c, text, Ghost(t));
                        proof {
                            routes = next@;
                            assert forall|q: int| 0 <= q < j + 1 && possible[(#[trigger] tails@[q]) as int] implies marks@[tails@[q] as int] by {
                                if q < j {
                                    assert(mb[tails@[q] as int]);
                                }
                            }
                            assert forall|q: int| 0 <= q < fields@.len() && possible[(#[trigger] fields@[q]).1 as int] implies marks@[fields@[q].1 as int] by {
                                assert(mb[fields@[q].1 as int]);
                            }
                        }
                        j = j + 1;
                    }
                    proof {
                        assert forall|d: u32, t: Seq<char>| #[trigger] review_step(nodes, at as int, d, t) && d < n && possible[d as int] implies marks@[d as int] by {
                            if exists|f: (String, u32)| #[trigger] row_field(nodes, at as int, f) && f.1 == d && t == "."@ + f.0@ {
                                let f = choose|f: (String, u32)| #[trigger] row_field(nodes, at as int, f) && f.1 == d && t == "."@ + f.0@;
                                assert(fields@.contains(f));
                                let q = choose|q: int| 0 <= q < fields@.len() && fields@[q] == f;
                                assert(possible[(fields@[q]).1 as int]);
                            } else {
                                assert(tails@.contains(d));
                                let q = choose|q: int| 0 <= q < tails@.len() && tails@[q] == d;
                                assert(possible[(tails@[q]) as int]);
                            }
                        }
                    }
                },
                node => {
                    let cause = match node {
                        Node::Arrow(_) => "function values have no automatic constructor",
                        _ => "the type's complete construction evidence is unavailable",
                    };
                    let mut message = "construction evidence is unavailable at ".to_owned();
                    message.append(path.as_str());
                    message.append(": ");
                    message.append(cause);
                    proof {
                        assert(vouchless(nodes[at as int]));
                        assert(cause@ == reason(nodes[at as int]));
                        assert(reviewed(nodes, possible, at));
                    }
                    return Err(message);
                },
            }
            proof {
                assert forall|j: int| 0 <= j < head + 1 implies !vouchless(nodes[(#[trigger] queue@[j]).0 as int]) by {
                    assert(queue@[j] == q0[j]);
                }
                assert forall|kk: int, d: u32, t: Seq<char>|
                    0 <= kk < head + 1 && #[trigger] review_step(nodes, queue@[kk].0 as int, d, t) && d < n && possible[d as int] implies marks@[d as int] by {
                    assert(queue@[kk] == q0[kk]);
                    if kk < head {
                        assert(closed_upto(nodes, possible, marks@, queue@, head as int));
                    } else {
                        assert(review_step(nodes, at as int, d, t));
                    }
                }
            }
            head = head + 1;
        }
        proof {
            assert forall|y: u32| #[trigger] reviewed(nodes, possible, y) implies !vouchless(nodes[y as int]) by {
                let (route, steps) = choose|route: Seq<u32>, steps: Seq<Seq<char>>| review_route(nodes, possible, route, steps) && route.last() == y;
                lemma_route_marked(nodes, possible, marks@, queue@, routes, route, steps, route.len() - 1);
                let j = choose|j: int| 0 <= j < queue@.len() && queue@[j].0 == y;
                assert(!vouchless(nodes[(queue@[j]).0 as int]));
            }
        }
        match self.rank[0] {
            Some(_) => Ok(()),
            None => Err("construction evidence is unavailable: no finite construction recipe exists".to_owned()),
        }
    }
}

} // verus!
