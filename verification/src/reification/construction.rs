//! Finite construction of immutable structural data. Possibility and authority
//! are separate: an opaque type may have values without exposing constructors.
use vstd::prelude::*;

use super::conventions::{graph_in_range, Graph, Shape, ShapeId};
use super::fixpoint::{lemma_mark, lemma_marked_bound, marked_count};
use super::{below, edge, references, references_in_range, text_below, unguarded, Descriptor, Node};
use std::collections::BTreeMap;
use std::collections::BTreeSet;
use std::collections::HashMap;

verus! {

broadcast use vstd::std_specs::btree::group_btree_axioms, vstd::std_specs::hash::group_hash_axioms;

/// Positive facts about one quantified type. Empty and Constructible are
/// mutually exclusive; an opaque type satisfies neither.
#[derive(Debug, Clone, Copy, PartialEq, Eq, Structural, PartialOrd, Ord, Hash)]
pub enum Property {
    Constructible,
    Empty,
    ConstructibleRecordRow,
    EmptyRecordRow,
    ConstructibleSumRow,
    EmptySumRow,
}

/// The property no type has together with `p`.
pub open spec fn complement(p: Property) -> Property {
    match p {
        Property::Empty => Property::Constructible,
        Property::Constructible => Property::Empty,
        Property::ConstructibleRecordRow => Property::EmptyRecordRow,
        Property::EmptyRecordRow => Property::ConstructibleRecordRow,
        Property::ConstructibleSumRow => Property::EmptySumRow,
        Property::EmptySumRow => Property::ConstructibleSumRow,
    }
}

/// A conjunction asking a type for two exclusive properties.
pub open spec fn contradictory(t: Seq<(u32, Property)>) -> bool {
    exists|i: int| 0 <= i < t.len() && t.contains((t[i].0, complement(t[i].1)))
}

/// Every property `s` asks for, `t` asks for too.
pub open spec fn within(s: Seq<(u32, Property)>, t: Seq<(u32, Property)>) -> bool {
    forall|i: int| 0 <= i < s.len() ==> t.contains(#[trigger] s[i])
}

/// A canonical disjunction: no conjunction contradicts itself, and none asks
/// for everything another one does.
pub open spec fn canonical(c: Seq<Seq<(u32, Property)>>) -> bool {
    &&& forall|i: int| 0 <= i < c.len() ==> !contradictory(#[trigger] c[i])
    &&& forall|i: int, j: int|
        0 <= i < c.len() && 0 <= j < c.len() && i != j ==> !within(#[trigger] c[i], #[trigger] c[j])
}

/// An assignment of properties to parameters that gives no type two
/// exclusive properties.
pub open spec fn consistent(env: Set<(u32, Property)>) -> bool {
    forall|a: (u32, Property)| #[trigger] env.contains(a) ==> !env.contains((a.0, complement(a.1)))
}

pub open spec fn term_holds(t: Seq<(u32, Property)>, env: Set<(u32, Property)>) -> bool {
    forall|i: int| 0 <= i < t.len() ==> env.contains(#[trigger] t[i])
}

/// What a disjunction of conjunctions says of an assignment.
pub open spec fn holds(c: Seq<Seq<(u32, Property)>>, env: Set<(u32, Property)>) -> bool {
    exists|i: int| 0 <= i < c.len() && term_holds(#[trigger] c[i], env)
}

/// Some conjunction of `b` asks for exactly what `t` asks for.
pub open spec fn has_match(t: Seq<(u32, Property)>, b: Seq<Seq<(u32, Property)>>) -> bool {
    exists|j: int| 0 <= j < b.len() && within(t, #[trigger] b[j]) && within(b[j], t)
}

/// Two disjunctions list the same conjunctions, each read as a set.
pub open spec fn same_terms(a: Seq<Seq<(u32, Property)>>, b: Seq<Seq<(u32, Property)>>) -> bool {
    &&& forall|i: int| 0 <= i < a.len() ==> has_match(#[trigger] a[i], b)
    &&& forall|j: int| 0 <= j < b.len() ==> has_match(#[trigger] b[j], a)
}

/// A canonical disjunction of conjunctions. Absorption keeps recursive
/// substitutions on a finite carrier rather than growing type expressions.
#[derive(Debug)]
pub struct Condition(Vec<Vec<(u32, Property)>>);

impl View for Condition {
    type V = Seq<Seq<(u32, Property)>>;

    closed spec fn view(&self) -> Seq<Seq<(u32, Property)>> {
        self.0@.map_values(|t: Vec<(u32, Property)>| t@)
    }
}

impl Condition {
    #[verifier::type_invariant]
    spec fn wf(&self) -> bool {
        canonical(self@)
    }

    /// What the condition says of an assignment.
    pub open spec fn means(&self, env: Set<(u32, Property)>) -> bool {
        holds(self@, env)
    }
}

/// Every property the condition asks for is of a parameter in `ps`.
pub open spec fn mentions_only(c: Seq<Seq<(u32, Property)>>, ps: Set<u32>) -> bool {
    forall|i: int, k: int| 0 <= i < c.len() && 0 <= k < c[i].len() ==> ps.contains(#[trigger] c[i][k].0)
}

pub open spec fn term_mentions_only(t: Seq<(u32, Property)>, ps: Set<u32>) -> bool {
    forall|k: int| 0 <= k < t.len() ==> ps.contains(#[trigger] t[k].0)
}

/// The atoms of a conjunction, as an assignment.
pub open spec fn atoms_of(t: Seq<(u32, Property)>) -> Set<(u32, Property)> {
    t.to_set()
}

proof fn lemma_atoms_of(t: Seq<(u32, Property)>)
    requires
        !contradictory(t),
    ensures
        consistent(atoms_of(t)),
        term_holds(t, atoms_of(t)),
        forall|s: Seq<(u32, Property)>| term_holds(s, atoms_of(t)) ==> within(s, t),
{
    assert forall|a: (u32, Property)| #[trigger] atoms_of(t).contains(a) implies !atoms_of(t).contains(
        (a.0, complement(a.1)),
    ) by {
        let i = choose|i: int| 0 <= i < t.len() && t[i] == a;
        if atoms_of(t).contains((a.0, complement(a.1))) {
            assert(t.contains((t[i].0, complement(t[i].1))));
        }
    }
    assert forall|i: int| 0 <= i < t.len() implies atoms_of(t).contains(#[trigger] t[i]) by {
        assert(t.contains(t[i]));
    }
    assert forall|s: Seq<(u32, Property)>| term_holds(s, atoms_of(t)) implies within(s, t) by {
        assert forall|i: int| 0 <= i < s.len() implies t.contains(#[trigger] s[i]) by {
            assert(atoms_of(t).contains(s[i]));
        }
    }
}

/// Two canonical conditions that mean the same on every consistent
/// assignment list the same conjunctions: the canonical form is unique.
pub proof fn lemma_canonical_unique(a: Seq<Seq<(u32, Property)>>, b: Seq<Seq<(u32, Property)>>)
    requires
        canonical(a),
        canonical(b),
        forall|env: Set<(u32, Property)>| consistent(env) ==> holds(a, env) == holds(b, env),
    ensures
        same_terms(a, b),
{
    assert forall|i: int| 0 <= i < a.len() implies has_match(#[trigger] a[i], b) by {
        let j = lemma_covered(a, b, i);
        assert(within(a[i], b[j]) && within(b[j], a[i]));
    }
    assert forall|j: int| 0 <= j < b.len() implies has_match(#[trigger] b[j], a) by {
        let i = lemma_covered(b, a, j);
        assert(within(b[j], a[i]) && within(a[i], b[j]));
    }
}

/// A conjunction of a canonical condition is matched, both ways, by one of
/// an equivalent canonical condition.
proof fn lemma_covered(a: Seq<Seq<(u32, Property)>>, b: Seq<Seq<(u32, Property)>>, i: int) -> (j: int)
    requires
        canonical(a),
        canonical(b),
        forall|env: Set<(u32, Property)>| consistent(env) ==> holds(a, env) == holds(b, env),
        0 <= i < a.len(),
    ensures
        0 <= j < b.len(),
        within(a[i], b[j]),
        within(b[j], a[i]),
{
    assert(!contradictory(a[i]));
    lemma_atoms_of(a[i]);
    let env = atoms_of(a[i]);
    assert(holds(a, env));
    let j = choose|j: int| 0 <= j < b.len() && term_holds(#[trigger] b[j], env);
    assert(within(b[j], a[i]));
    assert(!contradictory(b[j]));
    lemma_atoms_of(b[j]);
    let env2 = atoms_of(b[j]);
    assert(holds(b, env2));
    let k = choose|k: int| 0 <= k < a.len() && term_holds(#[trigger] a[k], env2);
    assert(within(a[k], b[j]));
    lemma_within_trans(a[k], b[j], a[i]);
    if k != i {
        assert(!within(a[k], a[i]));
    }
    j
}

proof fn lemma_within_trans(r: Seq<(u32, Property)>, s: Seq<(u32, Property)>, t: Seq<(u32, Property)>)
    requires
        within(r, s),
        within(s, t),
    ensures
        within(r, t),
{
    assert forall|i: int| 0 <= i < r.len() implies t.contains(#[trigger] r[i]) by {
        assert(s.contains(r[i]));
        let j = choose|j: int| 0 <= j < s.len() && s[j] == r[i];
        assert(t.contains(s[j]));
    }
}

proof fn lemma_within_holds(s: Seq<(u32, Property)>, t: Seq<(u32, Property)>, env: Set<(u32, Property)>)
    requires
        within(s, t),
        term_holds(t, env),
    ensures
        term_holds(s, env),
{
    assert forall|i: int| 0 <= i < s.len() implies env.contains(#[trigger] s[i]) by {
        assert(t.contains(s[i]));
        let j = choose|j: int| 0 <= j < t.len() && t[j] == s[i];
        assert(env.contains(t[j]));
    }
}

/// A contradictory conjunction holds under no consistent assignment.
proof fn lemma_contradictory_fails(t: Seq<(u32, Property)>, env: Set<(u32, Property)>)
    requires
        contradictory(t),
        consistent(env),
    ensures
        !term_holds(t, env),
{
    let i = choose|i: int| 0 <= i < t.len() && t.contains((t[i].0, complement(t[i].1)));
    let j = choose|j: int| 0 <= j < t.len() && t[j] == (t[i].0, complement(t[i].1));
    if term_holds(t, env) {
        assert(env.contains(t[i]));
        assert(env.contains(t[j]));
    }
}

/// Whether `t` holds every atom of `s`.
fn includes_all(s: &Vec<(u32, Property)>, t: &Vec<(u32, Property)>) -> (r: bool)
    ensures
        r == within(s@, t@),
{
    let mut i: usize = 0;
    while i < s.len()
        invariant
            i <= s.len(),
            forall|k: int| 0 <= k < i ==> t@.contains(#[trigger] s@[k]),
        decreases s.len() - i,
    {
        if !has_atom(t, s[i]) {
            return false;
        }
        i = i + 1;
    }
    true
}

fn has_atom(t: &Vec<(u32, Property)>, a: (u32, Property)) -> (r: bool)
    ensures
        r == t@.contains(a),
{
    let mut j: usize = 0;
    while j < t.len()
        invariant
            j <= t.len(),
            forall|k: int| 0 <= k < j ==> t@[k] != a,
        decreases t.len() - j,
    {
        if t[j].0 == a.0 && t[j].1 == a.1 {
            assert(t@[j as int] == a);
            return true;
        }
        j = j + 1;
    }
    false
}

fn complement_of(p: Property) -> (q: Property)
    ensures
        q == complement(p),
{
    match p {
        Property::Empty => Property::Constructible,
        Property::Constructible => Property::Empty,
        Property::ConstructibleRecordRow => Property::EmptyRecordRow,
        Property::EmptyRecordRow => Property::ConstructibleRecordRow,
        Property::ConstructibleSumRow => Property::EmptySumRow,
        Property::EmptySumRow => Property::ConstructibleSumRow,
    }
}

fn is_contradictory(t: &Vec<(u32, Property)>) -> (r: bool)
    ensures
        r == contradictory(t@),
{
    let mut i: usize = 0;
    while i < t.len()
        invariant
            i <= t.len(),
            forall|k: int| 0 <= k < i ==> !t@.contains((#[trigger] t@[k].0, complement(t@[k].1))),
        decreases t.len() - i,
    {
        if has_atom(t, (t[i].0, complement_of(t[i].1))) {
            return true;
        }
        i = i + 1;
    }
    false
}

fn copy_term(t: &Vec<(u32, Property)>) -> (c: Vec<(u32, Property)>)
    ensures
        c@ == t@,
{
    let mut c: Vec<(u32, Property)> = Vec::new();
    let mut i: usize = 0;
    while i < t.len()
        invariant
            i <= t.len(),
            c@ == t@.take(i as int),
        decreases t.len() - i,
    {
        c.push(t[i]);
        proof {
            assert(t@.take(i + 1) =~= t@.take(i as int).push(t@[i as int]));
        }
        i = i + 1;
    }
    proof {
        assert(t@.take(i as int) =~= t@);
    }
    c
}

/// The conjunction of two conjunctions.
fn union_terms(s: &Vec<(u32, Property)>, t: &Vec<(u32, Property)>) -> (u: Vec<(u32, Property)>)
    ensures
        forall|a: (u32, Property)| u@.contains(a) <==> s@.contains(a) || t@.contains(a),
{
    let mut u = copy_term(s);
    let mut i: usize = 0;
    proof {
        assert(t@.take(0).to_set() =~= Set::<(u32, Property)>::empty());
        assert(u@.to_set() =~= s@.to_set().union(t@.take(0).to_set()));
    }
    while i < t.len()
        invariant
            i <= t.len(),
            u@.to_set() == s@.to_set().union(t@.take(i as int).to_set()),
        decreases t.len() - i,
    {
        let ghost before = u@;
        let x = t[i];
        if !has_atom(&u, x) {
            u.push(x);
            proof {
                assert(u@ =~= before.push(x));
                lemma_push_to_set(before, x);
            }
        } else {
            proof {
                assert(before.to_set().contains(x));
                assert(before.to_set().insert(x) =~= before.to_set());
            }
        }
        proof {
            assert(t@.take(i + 1) =~= t@.take(i as int).push(x));
            lemma_push_to_set(t@.take(i as int), x);
            assert(u@.to_set() =~= s@.to_set().union(t@.take(i + 1).to_set()));
        }
        i = i + 1;
    }
    proof {
        assert(t@.take(i as int) =~= t@);
        assert forall|a: (u32, Property)| u@.contains(a) <==> s@.contains(a) || t@.contains(a) by {
            assert(u@.to_set().contains(a) == u@.contains(a));
            assert(s@.to_set().contains(a) == s@.contains(a));
            assert(t@.to_set().contains(a) == t@.contains(a));
        }
    }
    u
}

proof fn lemma_push_to_set(s: Seq<(u32, Property)>, x: (u32, Property))
    ensures
        s.push(x).to_set() == s.to_set().insert(x),
{
    assert forall|a: (u32, Property)| s.push(x).to_set().contains(a) == s.to_set().insert(x).contains(a) by {
        if s.push(x).contains(a) {
            let k = choose|k: int| 0 <= k < s.push(x).len() && s.push(x)[k] == a;
            if k < s.len() {
                assert(s[k] == a);
                assert(s.contains(a));
            }
        }
        if s.contains(a) {
            let k = choose|k: int| 0 <= k < s.len() && s[k] == a;
            assert(s.push(x)[k] == a);
        }
        if a == x {
            assert(s.push(x)[s.len() as int] == x);
        }
    }
    assert(s.push(x).to_set() =~= s.to_set().insert(x));
}

proof fn lemma_union_holds(s: Seq<(u32, Property)>, t: Seq<(u32, Property)>, u: Seq<(u32, Property)>, env: Set<(u32, Property)>)
    requires
        forall|a: (u32, Property)| u.contains(a) <==> s.contains(a) || t.contains(a),
    ensures
        term_holds(u, env) == (term_holds(s, env) && term_holds(t, env)),
{
    if term_holds(u, env) {
        assert forall|i: int| 0 <= i < s.len() implies env.contains(#[trigger] s[i]) by {
            assert(s.contains(s[i]));
            assert(u.contains(s[i]));
            let k = choose|k: int| 0 <= k < u.len() && u[k] == s[i];
            assert(env.contains(u[k]));
        }
        assert forall|i: int| 0 <= i < t.len() implies env.contains(#[trigger] t[i]) by {
            assert(t.contains(t[i]));
            assert(u.contains(t[i]));
            let k = choose|k: int| 0 <= k < u.len() && u[k] == t[i];
            assert(env.contains(u[k]));
        }
    }
    if term_holds(s, env) && term_holds(t, env) {
        assert forall|i: int| 0 <= i < u.len() implies env.contains(#[trigger] u[i]) by {
            assert(u.contains(u[i]));
            if s.contains(u[i]) {
                let k = choose|k: int| 0 <= k < s.len() && s[k] == u[i];
                assert(env.contains(s[k]));
            } else {
                let k = choose|k: int| 0 <= k < t.len() && t[k] == u[i];
                assert(env.contains(t[k]));
            }
        }
    }
}

/// Keeping the conjunctions of a canonical condition that do not ask for all
/// a new one asks for, and adding the new one, gives a canonical condition
/// meaning either.
proof fn lemma_insert_result(
    old: Seq<Seq<(u32, Property)>>,
    kept: Seq<Seq<(u32, Property)>>,
    idx: Seq<int>,
    term: Seq<(u32, Property)>,
)
    requires
        canonical(old),
        !contradictory(term),
        forall|j: int| 0 <= j < old.len() ==> !within(#[trigger] old[j], term),
        idx.len() == kept.len(),
        forall|j: int| 0 <= j < kept.len() ==> 0 <= #[trigger] idx[j] < old.len() && kept[j] == old[idx[j]],
        forall|j1: int, j2: int| 0 <= j1 < j2 < kept.len() ==> #[trigger] idx[j1] < #[trigger] idx[j2],
        forall|j: int| 0 <= j < kept.len() ==> !within(term, #[trigger] kept[j]),
        forall|m: int| 0 <= m < old.len() && !within(term, #[trigger] old[m]) ==> exists|j: int| 0 <= j < idx.len() && idx[j] == m,
    ensures
        canonical(kept.push(term)),
        forall|env: Set<(u32, Property)>| consistent(env) ==> (holds(kept.push(term), env) == (holds(old, env)
            || term_holds(term, env))),
{
    let nv = kept.push(term);
    let n = kept.len();
    assert forall|j: int| 0 <= j < nv.len() implies !contradictory(#[trigger] nv[j]) by {
        if j < n {
            assert(nv[j] == old[idx[j]]);
        }
    }
    assert forall|j1: int, j2: int| 0 <= j1 < nv.len() && 0 <= j2 < nv.len() && j1 != j2
        implies !within(#[trigger] nv[j1], #[trigger] nv[j2]) by {
        if j1 < n && j2 < n {
            assert(nv[j1] == old[idx[j1]] && nv[j2] == old[idx[j2]]);
            if j1 < j2 {
                assert(idx[j1] < idx[j2]);
            } else {
                assert(idx[j2] < idx[j1]);
            }
        } else if j1 < n {
            assert(nv[j1] == old[idx[j1]]);
        } else {
            assert(nv[j2] == kept[j2]);
        }
    }
    assert forall|env: Set<(u32, Property)>| consistent(env) implies (holds(nv, env) == (holds(old, env)
        || term_holds(term, env))) by {
        if holds(nv, env) {
            let j = choose|j: int| 0 <= j < nv.len() && term_holds(#[trigger] nv[j], env);
            if j < n {
                assert(nv[j] == old[idx[j]]);
                assert(term_holds(old[idx[j]], env));
            }
        }
        if holds(old, env) {
            let m = choose|m: int| 0 <= m < old.len() && term_holds(#[trigger] old[m], env);
            if within(term, old[m]) {
                lemma_within_holds(term, old[m], env);
                assert(term_holds(nv[n as int], env));
            } else {
                let j = choose|j: int| 0 <= j < idx.len() && idx[j] == m;
                assert(nv[j] == old[m]);
                assert(term_holds(nv[j], env));
            }
        }
        if term_holds(term, env) {
            assert(term_holds(nv[n as int], env));
        }
    }
}

impl Condition {
    /// The condition that always holds.
    pub fn yes() -> (c: Condition)
        ensures
            forall|env: Set<(u32, Property)>| c.means(env),
            forall|ps: Set<u32>| mentions_only(c@, ps),
    {
        let mut terms: Vec<Vec<(u32, Property)>> = Vec::new();
        terms.push(Vec::new());
        let c = Condition(terms);
        proof {
            assert(c@[0] =~= Seq::<(u32, Property)>::empty());
            assert(c@.len() == 1);
            assert forall|env: Set<(u32, Property)>| c.means(env) by {
                assert(term_holds(c@[0], env));
            }
        }
        c
    }

    /// The condition that never holds.
    pub fn no() -> (c: Condition)
        ensures
            forall|env: Set<(u32, Property)>| !c.means(env),
            c@.len() == 0,
            forall|ps: Set<u32>| mentions_only(c@, ps),
    {
        let c = Condition(Vec::new());
        assert(c@.len() == 0);
        c
    }

    /// The condition that a parameter has a property.
    pub fn atom(parameter: u32, property: Property) -> (c: Condition)
        ensures
            forall|env: Set<(u32, Property)>| c.means(env) == env.contains((parameter, property)),
            forall|ps: Set<u32>| ps.contains(parameter) ==> mentions_only(c@, ps),
    {
        let mut term: Vec<(u32, Property)> = Vec::new();
        term.push((parameter, property));
        let mut terms: Vec<Vec<(u32, Property)>> = Vec::new();
        terms.push(term);
        let c = Condition(terms);
        proof {
            assert(c@.len() == 1);
            assert(c@[0] =~= seq![(parameter, property)]);
            assert(!contradictory(c@[0])) by {
                if contradictory(c@[0]) {
                    let i = choose|i: int| 0 <= i < c@[0].len() && c@[0].contains((c@[0][i].0, complement(c@[0][i].1)));
                    let j = choose|j: int| 0 <= j < c@[0].len() && c@[0][j] == (c@[0][i].0, complement(c@[0][i].1));
                    assert(complement(property) != property);
                }
            }
            assert forall|env: Set<(u32, Property)>| c.means(env) == env.contains((parameter, property)) by {
                if env.contains((parameter, property)) {
                    assert(term_holds(c@[0], env));
                }
                if c.means(env) {
                    let i = choose|i: int| 0 <= i < c@.len() && term_holds(#[trigger] c@[i], env);
                    assert(env.contains(c@[0][0]));
                }
            }
        }
        c
    }

    /// Whether the condition is the one that always holds.
    pub fn is_true(&self) -> (b: bool)
        ensures
            b == (exists|i: int| 0 <= i < self@.len() && #[trigger] self@[i].len() == 0),
            b ==> forall|env: Set<(u32, Property)>| self.means(env),
            b <== forall|env: Set<(u32, Property)>| consistent(env) ==> self.means(env),
    {
        let mut i: usize = 0;
        while i < self.0.len()
            invariant
                i <= self.0.len(),
                forall|k: int| 0 <= k < i ==> (#[trigger] self@[k]).len() != 0,
            decreases self.0.len() - i,
        {
            if self.0[i].len() == 0 {
                proof {
                    assert(self@[i as int].len() == 0);
                    assert forall|env: Set<(u32, Property)>| self.means(env) by {
                        assert(term_holds(self@[i as int], env));
                    }
                }
                return true;
            }
            i = i + 1;
        }
        proof {
            let empty = Set::<(u32, Property)>::empty();
            assert(consistent(empty));
            if self.means(empty) {
                let k = choose|k: int| 0 <= k < self@.len() && term_holds(#[trigger] self@[k], empty);
                assert(self@[k].len() != 0);
                assert(empty.contains(self@[k][0]));
            }
        }
        false
    }

    /// Whether the condition is the one that never holds.
    pub fn is_false(&self) -> (b: bool)
        ensures
            b == (self@.len() == 0),
            b ==> forall|env: Set<(u32, Property)>| !self.means(env),
            b <== forall|env: Set<(u32, Property)>| consistent(env) ==> !self.means(env),
    {
        proof {
            use_type_invariant(self);
            if self@.len() > 0 {
                assert(!contradictory(self@[0]));
                lemma_atoms_of(self@[0]);
                assert(self.means(atoms_of(self@[0])));
            }
        }
        self.0.len() == 0
    }

    /// The parameters the condition mentions.
    pub fn parameters(&self) -> (ps: BTreeSet<u32>)
        ensures
            forall|p: u32| ps@.contains(p) <==> exists|i: int, k: int|
                0 <= i < self@.len() && 0 <= k < self@[i].len() && #[trigger] self@[i][k].0 == p,
    {
        let mut ps: BTreeSet<u32> = BTreeSet::new();
        let mut i: usize = 0;
        while i < self.0.len()
            invariant
                i <= self.0.len(),
                forall|p: u32| ps@.contains(p) <==> exists|a: int, k: int|
                    0 <= a < i && 0 <= k < self@[a].len() && #[trigger] self@[a][k].0 == p,
            decreases self.0.len() - i,
        {
            let mut k: usize = 0;
            while k < self.0[i].len()
                invariant
                    i < self.0.len(),
                    k <= self.0@[i as int]@.len(),
                    forall|p: u32| ps@.contains(p) <==> (exists|a: int, j: int|
                        0 <= a < i && 0 <= j < self@[a].len() && #[trigger] self@[a][j].0 == p) || (exists|j: int|
                        0 <= j < k && #[trigger] self@[i as int][j].0 == p),
                decreases self.0@[i as int]@.len() - k,
            {
                ps.insert(self.0[i][k].0);
                proof {
                    assert(self@[i as int][k as int] == self.0[i as int][k as int]);
                }
                k = k + 1;
            }
            i = i + 1;
        }
        ps
    }

    /// Add a conjunction, keeping the condition canonical: a contradictory
    /// one is dropped, one that asks for all another asks for adds nothing,
    /// and ones that ask for all it asks for go.
    fn insert(&mut self, term: Vec<(u32, Property)>)
        ensures
            forall|env: Set<(u32, Property)>| consistent(env) ==> (final(self).means(env) == (old(self).means(env)
                || term_holds(term@, env))),
            forall|ps: Set<u32>| mentions_only(old(self)@, ps) && term_mentions_only(term@, ps) ==> mentions_only(final(self)@, ps),
    {
        proof {
            use_type_invariant(&*self);
        }
        if is_contradictory(&term) {
            proof {
                assert forall|env: Set<(u32, Property)>| consistent(env) implies !term_holds(term@, env) by {
                    lemma_contradictory_fails(term@, env);
                }
            }
            return;
        }
        let mut k: usize = 0;
        while k < self.0.len()
            invariant
                k <= self.0.len(),
                forall|j: int| 0 <= j < k ==> !within(#[trigger] self@[j], term@),
            decreases self.0.len() - k,
        {
            if includes_all(&self.0[k], &term) {
                proof {
                    assert(self@[k as int] == self.0@[k as int]@);
                    assert forall|env: Set<(u32, Property)>| term_holds(term@, env) implies self.means(env) by {
                        lemma_within_holds(self@[k as int], term@, env);
                    }
                }
                return;
            }
            k = k + 1;
        }
        let ghost old_view = self@;
        let mut old: Vec<Vec<(u32, Property)>> = Vec::new();
        std::mem::swap(&mut old, &mut self.0);
        proof {
            assert(old@.map_values(|t: Vec<(u32, Property)>| t@) == old_view);
        }
        let mut kept: Vec<Vec<(u32, Property)>> = Vec::new();
        let ghost mut idx: Seq<int> = Seq::empty();
        let mut i: usize = 0;
        while i < old.len()
            invariant
                i <= old.len(),
                old@.map_values(|t: Vec<(u32, Property)>| t@) == old_view,
                idx.len() == kept@.len(),
                forall|j: int| 0 <= j < kept@.len() ==> 0 <= #[trigger] idx[j] < i && kept@[j]@ == old_view[idx[j]],
                forall|j1: int, j2: int| 0 <= j1 < j2 < kept@.len() ==> #[trigger] idx[j1] < #[trigger] idx[j2],
                forall|j: int| 0 <= j < kept@.len() ==> !within(term@, #[trigger] kept@[j]@),
                forall|m: int| 0 <= m < i && !within(term@, #[trigger] old_view[m]) ==> exists|j: int| 0 <= j < idx.len() && idx[j] == m,
            decreases old.len() - i,
        {
            proof {
                assert(old_view[i as int] == old@[i as int]@);
            }
            if !includes_all(&term, &old[i]) {
                let ghost before = kept@;
                let ghost before_idx = idx;
                kept.push(copy_term(&old[i]));
                proof {
                    idx = idx.push(i as int);
                    assert forall|m: int| 0 <= m < i + 1 && !within(term@, #[trigger] old_view[m]) implies exists|j: int| 0 <= j < idx.len() && idx[j] == m by {
                        if m < i {
                            let j = choose|j: int| 0 <= j < before_idx.len() && before_idx[j] == m;
                            assert(idx[j] == m);
                        } else {
                            assert(idx[before_idx.len() as int] == m);
                        }
                    }
                    assert forall|j: int| 0 <= j < kept@.len() implies 0 <= #[trigger] idx[j] < i + 1 && kept@[j]@ == old_view[idx[j]] by {
                        if j < before.len() {
                            assert(kept@[j] == before[j]);
                        }
                    }
                    assert forall|j: int| 0 <= j < kept@.len() implies !within(term@, #[trigger] kept@[j]@) by {
                        if j < before.len() {
                            assert(kept@[j] == before[j]);
                        }
                    }
                }
            } else {
                proof {
                    assert forall|m: int| 0 <= m < i + 1 && !within(term@, #[trigger] old_view[m]) implies exists|j: int| 0 <= j < idx.len() && idx[j] == m by {
                        if m < i {
                        }
                    }
                }
            }
            i = i + 1;
        }
        let ghost kept_view = kept@.map_values(|t: Vec<(u32, Property)>| t@);
        kept.push(term);
        proof {
            let new_view = kept@.map_values(|t: Vec<(u32, Property)>| t@);
            assert(new_view =~= kept_view.push(term@));
            lemma_insert_result(old_view, kept_view, idx, term@);
            assert forall|ps: Set<u32>| mentions_only(old_view, ps) && term_mentions_only(term@, ps) implies mentions_only(new_view, ps) by {
                assert forall|a: int, k: int| 0 <= a < new_view.len() && 0 <= k < new_view[a].len() implies ps.contains(#[trigger] new_view[a][k].0) by {
                    if a < kept_view.len() {
                        assert(kept_view[a] == old_view[idx[a]]);
                        assert(ps.contains(old_view[idx[a]][k].0));
                    } else {
                        assert(new_view[a] == term@);
                    }
                }
            }
        }
        self.0 = kept;
    }
}


/// Two canonical conditions that list the same conjunctions mean the same.
proof fn lemma_same_terms_means(a: Seq<Seq<(u32, Property)>>, b: Seq<Seq<(u32, Property)>>, env: Set<(u32, Property)>)
    requires
        same_terms(a, b),
    ensures
        holds(a, env) == holds(b, env),
{
    if holds(a, env) {
        let i = choose|i: int| 0 <= i < a.len() && term_holds(#[trigger] a[i], env);
        assert(has_match(a[i], b));
        let j = choose|j: int| 0 <= j < b.len() && within(a[i], #[trigger] b[j]) && within(b[j], a[i]);
        lemma_within_holds(b[j], a[i], env);
    }
    if holds(b, env) {
        let j = choose|j: int| 0 <= j < b.len() && term_holds(#[trigger] b[j], env);
        assert(has_match(b[j], a));
        let i = choose|i: int| 0 <= i < a.len() && within(b[j], #[trigger] a[i]) && within(a[i], b[j]);
        lemma_within_holds(a[i], b[j], env);
    }
}

/// Every property a conjunction asks for holds, read through the facts.
pub open spec fn term_subst(t: Seq<(u32, Property)>, facts: Map<u32, Facts>, env: Set<(u32, Property)>) -> bool {
    forall|k: int| 0 <= k < t.len() ==> fact_means(facts, #[trigger] t[k], env)
}

/// Every property a conjunction asks of the given parameters holds.
pub open spec fn term_retained(t: Seq<(u32, Property)>, parameters: Set<u32>, env: Set<(u32, Property)>) -> bool {
    forall|k: int| 0 <= k < t.len() && parameters.contains(#[trigger] t[k].0) ==> env.contains(t[k])
}

/// Every property a conjunction asks of a renamed parameter holds of its
/// new name.
pub open spec fn term_renamed(t: Seq<(u32, Property)>, parameters: Map<u32, u32>, env: Set<(u32, Property)>) -> bool {
    forall|k: int| 0 <= k < t.len() && parameters.contains_key(#[trigger] t[k].0) ==> env.contains((parameters[t[k].0], t[k].1))
}

/// What the facts say of a property of a parameter: the facts' condition
/// for it where the parameter has facts, else the property itself.
pub open spec fn fact_means(facts: Map<u32, Facts>, a: (u32, Property), env: Set<(u32, Property)>) -> bool {
    if facts.contains_key(a.0) {
        facts[a.0].condition_for(a.1).means(env)
    } else {
        env.contains(a)
    }
}

impl Condition {
    /// A copy of the condition.
    pub fn copy(&self) -> (c: Condition)
        ensures
            c@ == self@,
    {
        proof {
            use_type_invariant(self);
        }
        let mut terms: Vec<Vec<(u32, Property)>> = Vec::new();
        let mut i: usize = 0;
        while i < self.0.len()
            invariant
                i <= self.0.len(),
                terms@.map_values(|t: Vec<(u32, Property)>| t@) == self@.take(i as int),
            decreases self.0.len() - i,
        {
            let t = copy_term(&self.0[i]);
            let ghost before = terms@;
            terms.push(t);
            proof {
                assert(self@[i as int] == self.0@[i as int]@);
                assert(terms@ == before.push(t));
                assert(terms@.map_values(|t: Vec<(u32, Property)>| t@) =~= before.map_values(|t: Vec<(u32, Property)>| t@).push(t@));
                assert(self@.take(i + 1) =~= self@.take(i as int).push(self@[i as int]));
            }
            i = i + 1;
        }
        proof {
            assert(self@.take(i as int) =~= self@);
        }
        Condition(terms)
    }

    /// Whether the two conditions list the same conjunctions, which for
    /// canonical conditions is whether they mean the same.
    pub fn same(&self, other: &Condition) -> (b: bool)
        ensures
            b == same_terms(self@, other@),
            b <==> forall|env: Set<(u32, Property)>| consistent(env) ==> self.means(env) == other.means(env),
    {
        proof {
            use_type_invariant(self);
            use_type_invariant(other);
        }
        let b = self.covered_by(other) && other.covered_by(self);
        proof {
            if b {
                assert forall|env: Set<(u32, Property)>| consistent(env) implies self.means(env) == other.means(env) by {
                    lemma_same_terms_means(self@, other@, env);
                }
            }
            if forall|env: Set<(u32, Property)>| consistent(env) ==> self.means(env) == other.means(env) {
                lemma_canonical_unique(self@, other@);
            }
        }
        b
    }

    /// Every conjunction of `self` has its match in `other`.
    fn covered_by(&self, other: &Condition) -> (b: bool)
        ensures
            b == forall|i: int| 0 <= i < self@.len() ==> has_match(#[trigger] self@[i], other@),
    {
        let mut i: usize = 0;
        while i < self.0.len()
            invariant
                i <= self.0.len(),
                forall|k: int| 0 <= k < i ==> has_match(#[trigger] self@[k], other@),
            decreases self.0.len() - i,
        {
            let mut j: usize = 0;
            let mut found = false;
            while j < other.0.len() && !found
                invariant
                    i < self.0.len(),
                    j <= other.0.len(),
                    found ==> has_match(self@[i as int], other@),
                    !found ==> forall|k: int| 0 <= k < j ==> !(within(self@[i as int], #[trigger] other@[k]) && within(other@[k], self@[i as int])),
                decreases other.0.len() - j, if found { 0int } else { 1int },
            {
                if includes_all(&self.0[i], &other.0[j]) && includes_all(&other.0[j], &self.0[i]) {
                    proof {
                        assert(within(self@[i as int], other@[j as int]) && within(other@[j as int], self@[i as int]));
                    }
                    found = true;
                } else {
                    j = j + 1;
                }
            }
            if !found {
                proof {
                    assert(!has_match(self@[i as int], other@));
                }
                return false;
            }
            i = i + 1;
        }
        true
    }

    /// Both conditions.
    pub fn and(&self, other: &Condition) -> (c: Condition)
        ensures
            forall|env: Set<(u32, Property)>| consistent(env) ==> c.means(env) == (self.means(env) && other.means(env)),
            forall|ps: Set<u32>| mentions_only(self@, ps) && mentions_only(other@, ps) ==> mentions_only(c@, ps),
    {
        if self.is_false() || other.is_false() {
            return Condition::no();
        }
        if self.is_true() {
            return other.copy();
        }
        if other.is_true() || self.same(other) {
            return self.copy();
        }
        let mut result = Condition::no();
        let mut i: usize = 0;
        while i < self.0.len()
            invariant
                i <= self.0.len(),
                forall|env: Set<(u32, Property)>| consistent(env) ==> (result.means(env) == exists|l: int, r: int|
                    0 <= l < i && 0 <= r < other@.len() && term_holds(#[trigger] self@[l], env) && term_holds(#[trigger] other@[r], env)),
                forall|ps: Set<u32>| mentions_only(self@, ps) && mentions_only(other@, ps) ==> mentions_only(result@, ps),
            decreases self.0.len() - i,
        {
            let mut j: usize = 0;
            while j < other.0.len()
                invariant
                    i < self.0.len(),
                    j <= other.0.len(),
                    forall|env: Set<(u32, Property)>| consistent(env) ==> (result.means(env) == ((exists|l: int, r: int|
                        0 <= l < i && 0 <= r < other@.len() && term_holds(#[trigger] self@[l], env) && term_holds(#[trigger] other@[r], env))
                        || (exists|r: int| 0 <= r < j && term_holds(self@[i as int], env) && term_holds(#[trigger] other@[r], env)))),
                    forall|ps: Set<u32>| mentions_only(self@, ps) && mentions_only(other@, ps) ==> mentions_only(result@, ps),
                decreases other.0.len() - j,
            {
                let u = union_terms(&self.0[i], &other.0[j]);
                proof {
                    assert(self@[i as int] == self.0@[i as int]@);
                    assert(other@[j as int] == other.0@[j as int]@);
                    assert forall|ps: Set<u32>| mentions_only(self@, ps) && mentions_only(other@, ps) implies term_mentions_only(u@, ps) by {
                        assert forall|k: int| 0 <= k < u@.len() implies ps.contains(#[trigger] u@[k].0) by {
                            assert(u@.contains(u@[k]));
                            if self@[i as int].contains(u@[k]) {
                                let q = choose|q: int| 0 <= q < self@[i as int].len() && self@[i as int][q] == u@[k];
                                assert(ps.contains(self@[i as int][q].0));
                            } else {
                                let q = choose|q: int| 0 <= q < other@[j as int].len() && other@[j as int][q] == u@[k];
                                assert(ps.contains(other@[j as int][q].0));
                            }
                        }
                    }
                }
                let ghost before = result;
                result.insert(u);
                proof {
                    assert forall|env: Set<(u32, Property)>| consistent(env) implies (result.means(env) == ((exists|l: int, r: int|
                        0 <= l < i && 0 <= r < other@.len() && term_holds(#[trigger] self@[l], env) && term_holds(#[trigger] other@[r], env))
                        || (exists|r: int| 0 <= r < j + 1 && term_holds(self@[i as int], env) && term_holds(#[trigger] other@[r], env)))) by {
                        lemma_union_holds(self@[i as int], other@[j as int], u@, env);
                    }
                }
                j = j + 1;
            }
            proof {
                assert forall|env: Set<(u32, Property)>| consistent(env) implies (result.means(env) == exists|l: int, r: int|
                    0 <= l < i + 1 && 0 <= r < other@.len() && term_holds(#[trigger] self@[l], env) && term_holds(#[trigger] other@[r], env)) by {
                    if exists|l: int, r: int| 0 <= l < i + 1 && 0 <= r < other@.len() && term_holds(#[trigger] self@[l], env) && term_holds(#[trigger] other@[r], env) {
                        let (l, r) = choose|l: int, r: int| 0 <= l < i + 1 && 0 <= r < other@.len() && term_holds(#[trigger] self@[l], env) && term_holds(#[trigger] other@[r], env);
                        if l == i {
                            assert(exists|r2: int| 0 <= r2 < other@.len() && term_holds(self@[i as int], env) && term_holds(#[trigger] other@[r2], env));
                        } else {
                            assert(exists|l2: int, r2: int| 0 <= l2 < i && 0 <= r2 < other@.len() && term_holds(#[trigger] self@[l2], env) && term_holds(#[trigger] other@[r2], env));
                        }
                    }
                }
            }
            i = i + 1;
        }
        proof {
            assert forall|env: Set<(u32, Property)>| consistent(env) implies result.means(env) == (self.means(env) && other.means(env)) by {
                if self.means(env) && other.means(env) {
                    let l = choose|l: int| 0 <= l < self@.len() && term_holds(#[trigger] self@[l], env);
                    let r = choose|r: int| 0 <= r < other@.len() && term_holds(#[trigger] other@[r], env);
                    assert(exists|l2: int, r2: int| 0 <= l2 < i && 0 <= r2 < other@.len() && term_holds(#[trigger] self@[l2], env) && term_holds(#[trigger] other@[r2], env));
                }
            }
        }
        result
    }

    /// Either condition.
    pub fn or(&self, other: &Condition) -> (c: Condition)
        ensures
            forall|env: Set<(u32, Property)>| consistent(env) ==> c.means(env) == (self.means(env) || other.means(env)),
            forall|ps: Set<u32>| mentions_only(self@, ps) && mentions_only(other@, ps) ==> mentions_only(c@, ps),
    {
        if self.is_true() || other.is_true() {
            return Condition::yes();
        }
        if self.is_false() {
            return other.copy();
        }
        if other.is_false() || self.same(other) {
            return self.copy();
        }
        let mut result = self.copy();
        let mut j: usize = 0;
        while j < other.0.len()
            invariant
                j <= other.0.len(),
                forall|env: Set<(u32, Property)>| consistent(env) ==> (result.means(env) == (self.means(env)
                    || exists|r: int| 0 <= r < j && term_holds(#[trigger] other@[r], env))),
                forall|ps: Set<u32>| mentions_only(self@, ps) && mentions_only(other@, ps) ==> mentions_only(result@, ps),
            decreases other.0.len() - j,
        {
            let t = copy_term(&other.0[j]);
            proof {
                assert(other@[j as int] == t@);
                assert forall|ps: Set<u32>| mentions_only(other@, ps) implies term_mentions_only(t@, ps) by {
                    assert forall|k: int| 0 <= k < t@.len() implies ps.contains(#[trigger] t@[k].0) by {
                        assert(ps.contains(other@[j as int][k].0));
                    }
                }
            }
            result.insert(t);
            proof {
                assert forall|env: Set<(u32, Property)>| consistent(env) implies (result.means(env) == (self.means(env)
                    || exists|r: int| 0 <= r < j + 1 && term_holds(#[trigger] other@[r], env))) by {
                    if exists|r: int| 0 <= r < j + 1 && term_holds(#[trigger] other@[r], env) {
                        let r = choose|r: int| 0 <= r < j + 1 && term_holds(#[trigger] other@[r], env);
                        if r < j {
                            assert(exists|r2: int| 0 <= r2 < j && term_holds(#[trigger] other@[r2], env));
                        }
                    }
                }
            }
            j = j + 1;
        }
        result
    }

    /// Each property of a parameter replaced by what the facts say of it.
    pub fn substitute(&self, facts: &BTreeMap<u32, Facts>) -> (c: Condition)
        ensures
            forall|env: Set<(u32, Property)>| consistent(env) ==> (c.means(env) == exists|i: int|
                0 <= i < self@.len() && term_subst(self@[i], facts@, env)),
    {
        if self.is_true() || self.is_false() {
            let c = self.copy();
            proof {
                assert forall|env: Set<(u32, Property)>| consistent(env) implies (c.means(env) == exists|i: int|
                    0 <= i < self@.len() && term_subst(self@[i], facts@, env)) by {
                    if self@.len() > 0 {
                        let i = choose|i: int| 0 <= i < self@.len() && #[trigger] self@[i].len() == 0;
                        assert(term_holds(self@[i], env));
                    }
                }
            }
            return c;
        }
        let mut result = Condition::no();
        let mut i: usize = 0;
        while i < self.0.len()
            invariant
                i <= self.0.len(),
                forall|env: Set<(u32, Property)>| consistent(env) ==> (result.means(env) == exists|l: int|
                    0 <= l < i && term_subst(self@[l], facts@, env)),
            decreases self.0.len() - i,
        {
            let mut substituted = Condition::yes();
            let mut k: usize = 0;
            while k < self.0[i].len()
                invariant
                    i < self.0.len(),
                    k <= self@[i as int].len(),
                    self@[i as int] == self.0@[i as int]@,
                    forall|env: Set<(u32, Property)>| consistent(env) ==> (substituted.means(env) == forall|m: int|
                        0 <= m < k ==> fact_means(facts@, #[trigger] self@[i as int][m], env)),
                decreases self@[i as int].len() - k,
            {
                let (p, property) = self.0[i][k];
                let fact = match facts.get(&p) {
                    Some(f) => f.select(property).copy(),
                    None => Condition::atom(p, property),
                };
                proof {
                    assert(self@[i as int][k as int] == (p, property));
                }
                substituted = substituted.and(&fact);
                k = k + 1;
            }
            result = result.or(&substituted);
            proof {
                assert forall|env: Set<(u32, Property)>| consistent(env) implies (result.means(env) == exists|l: int|
                    0 <= l < i + 1 && term_subst(self@[l], facts@, env)) by {
                    if exists|l: int| 0 <= l < i + 1 && term_subst(self@[l], facts@, env) {
                        let l = choose|l: int| 0 <= l < i + 1 && term_subst(self@[l], facts@, env);
                        if l < i {
                            assert(exists|l2: int| 0 <= l2 < i && term_subst(self@[l2], facts@, env));
                        }
                    }
                }
            }
            i = i + 1;
        }
        result
    }

    /// Only the properties of the given parameters kept.
    pub fn retain(&self, parameters: &BTreeSet<u32>) -> (c: Condition)
        ensures
            forall|env: Set<(u32, Property)>| consistent(env) ==> (c.means(env) == exists|i: int|
                0 <= i < self@.len() && term_retained(self@[i], parameters@, env)),
    {
        if self.is_true() || self.is_false() {
            let c = self.copy();
            proof {
                assert forall|env: Set<(u32, Property)>| consistent(env) implies (c.means(env) == exists|i: int|
                    0 <= i < self@.len() && term_retained(self@[i], parameters@, env)) by {
                    if self@.len() > 0 {
                        let i = choose|i: int| 0 <= i < self@.len() && #[trigger] self@[i].len() == 0;
                        assert(term_holds(self@[i], env));
                    }
                    if exists|i: int| 0 <= i < self@.len() && term_retained(self@[i], parameters@, env) {
                        assert(self@.len() > 0);
                    }
                }
            }
            return c;
        }
        let mut result = Condition::no();
        let mut i: usize = 0;
        while i < self.0.len()
            invariant
                i <= self.0.len(),
                forall|env: Set<(u32, Property)>| consistent(env) ==> (result.means(env) == exists|l: int|
                    0 <= l < i && term_retained(self@[l], parameters@, env)),
            decreases self.0.len() - i,
        {
            let mut kept: Vec<(u32, Property)> = Vec::new();
            let mut k: usize = 0;
            while k < self.0[i].len()
                invariant
                    i < self.0.len(),
                    k <= self@[i as int].len(),
                    self@[i as int] == self.0@[i as int]@,
                    forall|a: (u32, Property)| kept@.contains(a) <==> exists|m: int|
                        0 <= m < k && parameters@.contains(#[trigger] self@[i as int][m].0) && self@[i as int][m] == a,
                decreases self@[i as int].len() - k,
            {
                let atom = self.0[i][k];
                let ghost before = kept@;
                if parameters.contains(&atom.0) {
                    kept.push(atom);
                }
                proof {
                    assert(self@[i as int][k as int] == atom);
                    assert forall|a: (u32, Property)| kept@.contains(a) <==> exists|m: int|
                        0 <= m < k + 1 && parameters@.contains(#[trigger] self@[i as int][m].0) && self@[i as int][m] == a by {
                        if kept@.contains(a) {
                            let q = choose|q: int| 0 <= q < kept@.len() && kept@[q] == a;
                            if q < before.len() {
                                assert(before.contains(a));
                            }
                        }
                        if before.contains(a) {
                            let q = choose|q: int| 0 <= q < before.len() && before[q] == a;
                            assert(kept@[q] == a);
                        }
                        if exists|m: int| 0 <= m < k + 1 && parameters@.contains(#[trigger] self@[i as int][m].0) && self@[i as int][m] == a {
                            let m = choose|m: int| 0 <= m < k + 1 && parameters@.contains(#[trigger] self@[i as int][m].0) && self@[i as int][m] == a;
                            if m == k {
                                assert(kept@[kept@.len() - 1] == a);
                            }
                        }
                    }
                }
                k = k + 1;
            }
            let ghost kv = kept@;
            result.insert(kept);
            proof {
                assert forall|env: Set<(u32, Property)>| consistent(env) implies (result.means(env) == exists|l: int|
                    0 <= l < i + 1 && term_retained(self@[l], parameters@, env)) by {
                    let here = term_retained(self@[i as int], parameters@, env);
                    if term_holds(kv, env) {
                        assert forall|m: int| 0 <= m < self@[i as int].len() && parameters@.contains(#[trigger] self@[i as int][m].0) implies env.contains(self@[i as int][m]) by {
                            assert(kv.contains(self@[i as int][m]));
                            let q = choose|q: int| 0 <= q < kv.len() && kv[q] == self@[i as int][m];
                        }
                    }
                    if here {
                        assert forall|q: int| 0 <= q < kv.len() implies env.contains(#[trigger] kv[q]) by {
                            assert(kv.contains(kv[q]));
                        }
                    }
                    if exists|l: int| 0 <= l < i + 1 && term_retained(self@[l], parameters@, env) {
                        let l = choose|l: int| 0 <= l < i + 1 && term_retained(self@[l], parameters@, env);
                        if l < i {
                            assert(exists|l2: int| 0 <= l2 < i && term_retained(self@[l2], parameters@, env));
                        }
                    }
                }
            }
            i = i + 1;
        }
        result
    }

    /// Parameters renamed; the properties of parameters the renaming leaves
    /// out dropped.
    pub fn rename(&self, parameters: &HashMap<u32, u32>) -> (c: Condition)
        ensures
            forall|env: Set<(u32, Property)>| consistent(env) ==> (c.means(env) == exists|i: int|
                0 <= i < self@.len() && term_renamed(self@[i], parameters@, env)),
    {
        let mut result = Condition::no();
        let mut i: usize = 0;
        while i < self.0.len()
            invariant
                i <= self.0.len(),
                forall|env: Set<(u32, Property)>| consistent(env) ==> (result.means(env) == exists|l: int|
                    0 <= l < i && term_renamed(self@[l], parameters@, env)),
            decreases self.0.len() - i,
        {
            let mut renamed: Vec<(u32, Property)> = Vec::new();
            let mut k: usize = 0;
            while k < self.0[i].len()
                invariant
                    i < self.0.len(),
                    k <= self@[i as int].len(),
                    self@[i as int] == self.0@[i as int]@,
                    forall|a: (u32, Property)| renamed@.contains(a) <==> exists|m: int|
                        0 <= m < k && parameters@.contains_key(#[trigger] self@[i as int][m].0) && a == (parameters@[self@[i as int][m].0], self@[i as int][m].1),
                decreases self@[i as int].len() - k,
            {
                let atom = self.0[i][k];
                let ghost before = renamed@;
                match parameters.get(&atom.0) {
                    Some(q) => {
                        renamed.push((*q, atom.1));
                    },
                    None => {},
                }
                proof {
                    assert(self@[i as int][k as int] == atom);
                    assert forall|a: (u32, Property)| renamed@.contains(a) <==> exists|m: int|
                        0 <= m < k + 1 && parameters@.contains_key(#[trigger] self@[i as int][m].0) && a == (parameters@[self@[i as int][m].0], self@[i as int][m].1) by {
                        if renamed@.contains(a) {
                            let q = choose|q: int| 0 <= q < renamed@.len() && renamed@[q] == a;
                            if q < before.len() {
                                assert(before.contains(a));
                            }
                        }
                        if before.contains(a) {
                            let q = choose|q: int| 0 <= q < before.len() && before[q] == a;
                            assert(renamed@[q] == a);
                        }
                        if exists|m: int| 0 <= m < k + 1 && parameters@.contains_key(#[trigger] self@[i as int][m].0) && a == (parameters@[self@[i as int][m].0], self@[i as int][m].1) {
                            let m = choose|m: int| 0 <= m < k + 1 && parameters@.contains_key(#[trigger] self@[i as int][m].0) && a == (parameters@[self@[i as int][m].0], self@[i as int][m].1);
                            if m == k {
                                assert(renamed@[renamed@.len() - 1] == a);
                            }
                        }
                    }
                }
                k = k + 1;
            }
            let ghost rv = renamed@;
            result.insert(renamed);
            proof {
                assert forall|env: Set<(u32, Property)>| consistent(env) implies (result.means(env) == exists|l: int|
                    0 <= l < i + 1 && term_renamed(self@[l], parameters@, env)) by {
                    let here = term_renamed(self@[i as int], parameters@, env);
                    if term_holds(rv, env) {
                        assert forall|m: int| 0 <= m < self@[i as int].len() && parameters@.contains_key(#[trigger] self@[i as int][m].0) implies env.contains((parameters@[self@[i as int][m].0], self@[i as int][m].1)) by {
                            assert(rv.contains((parameters@[self@[i as int][m].0], self@[i as int][m].1)));
                            let q = choose|q: int| 0 <= q < rv.len() && rv[q] == (parameters@[self@[i as int][m].0], self@[i as int][m].1);
                        }
                    }
                    if here {
                        assert forall|q: int| 0 <= q < rv.len() implies env.contains(#[trigger] rv[q]) by {
                            assert(rv.contains(rv[q]));
                        }
                    }
                    if exists|l: int| 0 <= l < i + 1 && term_renamed(self@[l], parameters@, env) {
                        let l = choose|l: int| 0 <= l < i + 1 && term_renamed(self@[l], parameters@, env);
                        if l < i {
                            assert(exists|l2: int| 0 <= l2 < i && term_renamed(self@[l2], parameters@, env));
                        }
                    }
                }
            }
            i = i + 1;
        }
        result
    }
}

impl Default for Condition {
    fn default() -> (c: Condition)
        ensures
            forall|env: Set<(u32, Property)>| c.means(env),
    {
        Condition::yes()
    }
}

/// What is known of a type, as conditions on the parameters it is built
/// from: whether it can be constructed, whether it is empty, and the same
/// of it read as a record row and as a sum row.
#[derive(Debug)]
pub struct Facts {
    pub constructible: Condition,
    pub empty: Condition,
    pub record_constructible: Condition,
    pub record_empty: Condition,
    pub sum_constructible: Condition,
    pub sum_empty: Condition,
}

impl Facts {
    /// The condition the facts state for a property.
    pub open spec fn condition_for(&self, property: Property) -> &Condition {
        match property {
            Property::Constructible => &self.constructible,
            Property::Empty => &self.empty,
            Property::ConstructibleRecordRow => &self.record_constructible,
            Property::EmptyRecordRow => &self.record_empty,
            Property::ConstructibleSumRow => &self.sum_constructible,
            Property::EmptySumRow => &self.sum_empty,
        }
    }

    fn select(&self, property: Property) -> (c: &Condition)
        ensures
            c == self.condition_for(property),
    {
        match property {
            Property::Constructible => &self.constructible,
            Property::Empty => &self.empty,
            Property::ConstructibleRecordRow => &self.record_constructible,
            Property::EmptyRecordRow => &self.record_empty,
            Property::ConstructibleSumRow => &self.sum_constructible,
            Property::EmptySumRow => &self.sum_empty,
        }
    }

    /// The facts of a type known only as a parameter: each property, the
    /// parameter's own.
    pub fn parameter(p: u32) -> (f: Facts)
        ensures
            forall|property: Property, env: Set<(u32, Property)>| #[trigger] f.condition_for(property).means(env)
                == env.contains((p, property)),
            forall|property: Property, ps: Set<u32>| ps.contains(p) ==> #[trigger] mentions_only(f.condition_for(property)@, ps),
    {
        Facts {
            constructible: Condition::atom(p, Property::Constructible),
            empty: Condition::atom(p, Property::Empty),
            record_constructible: Condition::atom(p, Property::ConstructibleRecordRow),
            record_empty: Condition::atom(p, Property::EmptyRecordRow),
            sum_constructible: Condition::atom(p, Property::ConstructibleSumRow),
            sum_empty: Condition::atom(p, Property::EmptySumRow),
        }
    }

    /// The facts of an opaque type: nothing holds.
    pub fn unavailable() -> (f: Facts)
        ensures
            forall|property: Property, env: Set<(u32, Property)>| !#[trigger] f.condition_for(property).means(env),
            forall|property: Property| #[trigger] f.condition_for(property)@.len() == 0,
    {
        Facts {
            constructible: Condition::no(),
            empty: Condition::no(),
            record_constructible: Condition::no(),
            record_empty: Condition::no(),
            sum_constructible: Condition::no(),
            sum_empty: Condition::no(),
        }
    }

    /// Each condition with the arguments' facts substituted.
    pub fn substitute(&self, arguments: &BTreeMap<u32, Facts>) -> (f: Facts)
        ensures
            forall|property: Property, env: Set<(u32, Property)>| consistent(env) ==> (#[trigger] f.condition_for(property).means(env)
                == exists|i: int| 0 <= i < self.condition_for(property)@.len() && term_subst(self.condition_for(property)@[i], arguments@, env)),
    {
        let f = Facts {
            constructible: self.constructible.substitute(arguments),
            empty: self.empty.substitute(arguments),
            record_constructible: self.record_constructible.substitute(arguments),
            record_empty: self.record_empty.substitute(arguments),
            sum_constructible: self.sum_constructible.substitute(arguments),
            sum_empty: self.sum_empty.substitute(arguments),
        };
        proof {
            assert forall|property: Property, env: Set<(u32, Property)>| consistent(env) implies (#[trigger] f.condition_for(property).means(env)
                == exists|i: int| 0 <= i < self.condition_for(property)@.len() && term_subst(self.condition_for(property)@[i], arguments@, env)) by {
                let src = self.condition_for(property);
                let dst = f.condition_for(property);
                match property {
                    Property::Constructible => {
                        assert(dst.means(env) == exists|i: int| 0 <= i < self.constructible@.len() && term_subst(self.constructible@[i], arguments@, env));
                    },
                    Property::Empty => {
                        assert(dst.means(env) == exists|i: int| 0 <= i < self.empty@.len() && term_subst(self.empty@[i], arguments@, env));
                    },
                    Property::ConstructibleRecordRow => {
                        assert(dst.means(env) == exists|i: int| 0 <= i < self.record_constructible@.len() && term_subst(self.record_constructible@[i], arguments@, env));
                    },
                    Property::EmptyRecordRow => {
                        assert(dst.means(env) == exists|i: int| 0 <= i < self.record_empty@.len() && term_subst(self.record_empty@[i], arguments@, env));
                    },
                    Property::ConstructibleSumRow => {
                        assert(dst.means(env) == exists|i: int| 0 <= i < self.sum_constructible@.len() && term_subst(self.sum_constructible@[i], arguments@, env));
                    },
                    Property::EmptySumRow => {
                        assert(dst.means(env) == exists|i: int| 0 <= i < self.sum_empty@.len() && term_subst(self.sum_empty@[i], arguments@, env));
                    },
                }
            }
        }
        f
    }
}

/// `BTreeSet::extend` with the members of another set.
#[verifier::external_body]
pub(crate) fn extend_set(set: &mut BTreeSet<u32>, other: &BTreeSet<u32>)
    ensures
        final(set)@ == old(set)@.union(other@),
{
    set.extend(other)
}

/// What constructing a value needs: a condition on parameters, and the
/// ports whose evidence it reads.
#[derive(Debug)]
pub struct Demand {
    pub condition: Condition,
    pub ports: BTreeSet<u32>,
}

impl Demand {
    /// Both demands.
    pub fn absorb(&mut self, other: &Demand)
        ensures
            forall|env: Set<(u32, Property)>| consistent(env) ==> final(self).condition.means(env) == (
                old(self).condition.means(env) && other.condition.means(env)),
            final(self).ports@ == old(self).ports@.union(other.ports@),
    {
        self.condition = self.condition.and(&other.condition);
        extend_set(&mut self.ports, &other.ports);
    }
}

impl Default for Demand {
    fn default() -> (d: Demand)
        ensures
            forall|env: Set<(u32, Property)>| d.condition.means(env),
            d.ports@.is_empty(),
    {
        Demand { condition: Condition::yes(), ports: BTreeSet::new() }
    }
}

/// A struct or a sum: a row fragment with fields of its own.
pub open spec fn is_row_node(node: Node) -> bool {
    node is Struct || node is Sum
}

/// An alias or an extension: a node that only links fragments.
pub open spec fn is_link_node(node: Node) -> bool {
    node is Alias || node is Extend
}

/// What ends a row other than fragments and links: a parameter, or
/// anything else a tail may be.
pub open spec fn is_tail_node(node: Node) -> bool {
    !is_row_node(node) && !is_link_node(node)
}

pub open spec fn fields_of(node: Node) -> Seq<(String, u32)> {
    match node {
        Node::Struct(fields) | Node::Sum(fields) => fields@,
        _ => Seq::empty(),
    }
}

/// A traversal of a row from `at`: each node once, `at` first, every
/// later node the target of an alias or extension edge of an earlier one,
/// and every target of a node in it there too.
pub open spec fn row_traversal(nodes: Seq<Node>, at: int, v: Seq<u32>) -> bool {
    &&& v.len() > 0 && v[0] == at
    &&& v.no_duplicates()
    &&& forall|i: int| 0 <= i < v.len() ==> (#[trigger] v[i]) < nodes.len()
    &&& forall|i: int| 0 < i < v.len() ==> exists|j: int| 0 <= j < i && edge(nodes, v[j] as int, #[trigger] v[i] as int)
    &&& forall|i: int, k: int|
        0 <= i < v.len() && 0 <= k < unguarded(nodes[v[i] as int]).len() ==> v.contains(
            #[trigger] unguarded(nodes[v[i] as int])[k],
        )
}

/// The fields of the fragments of a traversal, in its order.
pub open spec fn fragment_fields(nodes: Seq<Node>, v: Seq<u32>) -> Seq<(String, u32)>
    decreases v.len(),
{
    if v.len() == 0 {
        Seq::empty()
    } else {
        fragment_fields(nodes, v.drop_last()) + fields_of(nodes[v.last() as int])
    }
}

/// The tails of a traversal, in its order.
pub open spec fn tails_of(nodes: Seq<Node>, v: Seq<u32>) -> Seq<u32>
    decreases v.len(),
{
    if v.len() == 0 {
        Seq::empty()
    } else if is_tail_node(nodes[v.last() as int]) {
        tails_of(nodes, v.drop_last()).push(v.last())
    } else {
        tails_of(nodes, v.drop_last())
    }
}

/// The kind of the first fragment of a traversal: `Some(true)` for a
/// struct, `Some(false)` for a sum.
pub open spec fn first_kind(nodes: Seq<Node>, v: Seq<u32>) -> Option<bool>
    decreases v.len(),
{
    if v.len() == 0 {
        None
    } else if first_kind(nodes, v.drop_last()) is Some {
        first_kind(nodes, v.drop_last())
    } else if is_row_node(nodes[v.last() as int]) {
        Some(nodes[v.last() as int] is Struct)
    } else {
        None
    }
}

/// Field names in order, equal ones allowed.
pub open spec fn sorted_by_name(fields: Seq<(String, u32)>) -> bool {
    forall|i: int, j: int| 0 <= i < j < fields.len() ==> !text_below(#[trigger] fields[j].0@, #[trigger] fields[i].0@)
}

proof fn lemma_text_below_total(a: Seq<char>, b: Seq<char>)
    ensures
        !text_below(a, b) ==> (text_below(b, a) || a == b),
        text_below(a, b) ==> !text_below(b, a),
    decreases a.len(),
{
    if a.len() > 0 && b.len() > 0 && a[0] == b[0] {
        lemma_text_below_total(a.drop_first(), b.drop_first());
        if a.drop_first() == b.drop_first() {
            assert(a =~= seq![a[0]] + a.drop_first());
            assert(b =~= seq![b[0]] + b.drop_first());
        }
    } else if a.len() == 0 && b.len() == 0 {
        assert(a =~= b);
    }
}

proof fn lemma_text_below_trans(a: Seq<char>, b: Seq<char>, c: Seq<char>)
    ensures
        !text_below(b, a) && !text_below(c, b) ==> !text_below(c, a),
    decreases a.len(),
{
    if a.len() > 0 && b.len() > 0 && c.len() > 0 && a[0] == b[0] && b[0] == c[0] {
        lemma_text_below_trans(a.drop_first(), b.drop_first(), c.drop_first());
    }
}

/// Fields in order of name, equal names in the order they came.
fn sort_fields(fields: &Vec<(String, u32)>) -> (sorted: Vec<(String, u32)>)
    ensures
        sorted@.to_multiset() == fields@.to_multiset(),
        sorted_by_name(sorted@),
{
    let mut out: Vec<(String, u32)> = Vec::new();
    let mut i: usize = 0;
    proof {
        assert(fields@.take(0) =~= Seq::<(String, u32)>::empty());
        assert(out@ =~= Seq::<(String, u32)>::empty());
    }
    while i < fields.len()
        invariant
            i <= fields.len(),
            out@.to_multiset() == fields@.take(i as int).to_multiset(),
            sorted_by_name(out@),
        decreases fields.len() - i,
    {
        let f = (fields[i].0.clone(), fields[i].1);
        proof {
            assert(f == fields@[i as int]);
        }
        let mut k = out.len();
        while k > 0 && below(&f.0, &out[k - 1].0)
            invariant
                k <= out.len(),
                sorted_by_name(out@),
                forall|j: int| k <= j < out.len() ==> text_below(f.0@, #[trigger] out@[j].0@),
            decreases k,
        {
            k = k - 1;
        }
        let ghost before = out@;
        out.insert(k, f);
        proof {
            assert(out@ =~= before.take(k as int).push(f) + before.skip(k as int));
            assert forall|a: int, b: int| 0 <= a < b < out@.len() implies !text_below(#[trigger] out@[b].0@, #[trigger] out@[a].0@) by {
                if b < k {
                    assert(out@[a] == before[a] && out@[b] == before[b]);
                } else if b == k {
                    assert(out@[a] == before[a]);
                    if k > 0 {
                        assert(!text_below(f.0@, before[k - 1].0@));
                        lemma_text_below_trans(before[a].0@, before[k - 1].0@, f.0@);
                    }
                } else if a < k {
                    assert(out@[a] == before[a] && out@[b] == before[b - 1]);
                } else if a == k {
                    assert(out@[b] == before[b - 1]);
                    assert(text_below(f.0@, before[b - 1].0@));
                    lemma_text_below_total(f.0@, before[b - 1].0@);
                } else {
                    assert(out@[a] == before[a - 1] && out@[b] == before[b - 1]);
                }
            }
            broadcast use vstd::seq_lib::group_to_multiset_ensures;
            vstd::seq_lib::lemma_multiset_commutative(before.take(k as int).push(f), before.skip(k as int));
            vstd::seq_lib::lemma_multiset_commutative(before.take(k as int), before.skip(k as int));
            assert(before.take(k as int) + before.skip(k as int) =~= before);
            assert(out@.to_multiset() =~= before.to_multiset().insert(f));
            assert(fields@.take(i + 1) =~= fields@.take(i as int).push(f));
        }
        i = i + 1;
    }
    proof {
        assert(fields@.take(i as int) =~= fields@);
    }
    out
}

/// The fragments of the row at `at`: the kind of the first one, their
/// fields in order of name, and the tails left, for a traversal of the row.
/// A row extension takes its constructor from its leftmost fragment. Every
/// other fragment contributes fields, even if it has a different constructor.
/// Unresolved tails retain their evidence predicate until instantiation.
pub(crate) fn row(descriptor: &Descriptor, at: u32) -> (r: (bool, Vec<(String, u32)>, Vec<u32>))
    requires
        references_in_range(descriptor.nodes@),
        at < descriptor.nodes.len(),
    ensures
        exists|v: Seq<u32>|
            #![trigger row_traversal(descriptor.nodes@, at as int, v)]
            row_traversal(descriptor.nodes@, at as int, v) && r.0 == (first_kind(descriptor.nodes@, v) == Some(true))
                && r.1@.to_multiset() == fragment_fields(descriptor.nodes@, v).to_multiset()
                && r.2@ == tails_of(descriptor.nodes@, v),
        sorted_by_name(r.1@),
{
    let ghost nodes = descriptor.nodes@;
    let n = descriptor.nodes.len();
    let mut seen: Vec<bool> = Vec::new();
    let mut z: usize = 0;
    while z < n
        invariant
            z <= n,
            seen@.len() == z,
            forall|x: int| 0 <= x < z ==> !seen@[x],
        decreases n - z,
    {
        seen.push(false);
        z = z + 1;
    }
    let mut record: Option<bool> = None;
    let mut fields: Vec<(String, u32)> = Vec::new();
    let mut tails: Vec<u32> = Vec::new();
    let mut pending: Vec<u32> = Vec::new();
    pending.push(at);
    let ghost mut v: Seq<u32> = Seq::empty();
    while pending.len() > 0
        invariant
            nodes == descriptor.nodes@,
            n == nodes.len(),
            at < n,
            references_in_range(nodes),
            seen@.len() == n,
            forall|y: u32| y < n ==> (#[trigger] seen@[y as int] <==> v.contains(y)),
            v.no_duplicates(),
            forall|i: int| 0 <= i < v.len() ==> (#[trigger] v[i]) < n,
            v.len() == 0 ==> pending@ == seq![at],
            v.len() > 0 ==> v[0] == at,
            forall|i: int| 0 < i < v.len() ==> exists|j: int| 0 <= j < i && edge(nodes, v[j] as int, #[trigger] v[i] as int),
            forall|i: int| 0 <= i < pending@.len() ==> (#[trigger] pending@[i]) < n,
            v.len() > 0 ==> forall|i: int| 0 <= i < pending@.len() ==> exists|j: int| 0 <= j < v.len() && edge(nodes, v[j] as int, #[trigger] pending@[i] as int),
            forall|i: int, k: int|
                0 <= i < v.len() && 0 <= k < unguarded(nodes[v[i] as int]).len() ==> v.contains(
                    #[trigger] unguarded(nodes[v[i] as int])[k],
                ) || pending@.contains(unguarded(nodes[v[i] as int])[k]),
            record == first_kind(nodes, v),
            fields@ == fragment_fields(nodes, v),
            tails@ == tails_of(nodes, v),
        decreases unseen(seen@), pending@.len(),
    {
        let ghost before = pending@;
        let x = pending.pop().unwrap();
        proof {
            assert(before == pending@.push(x));
        }
        if seen[x as usize] {
            proof {
                assert forall|i: int, k: int|
                    0 <= i < v.len() && 0 <= k < unguarded(nodes[v[i] as int]).len() implies v.contains(
                        #[trigger] unguarded(nodes[v[i] as int])[k],
                    ) || pending@.contains(unguarded(nodes[v[i] as int])[k]) by {
                    let c = unguarded(nodes[v[i] as int])[k];
                    if !v.contains(c) {
                        assert(before.contains(c));
                        let q = choose|q: int| 0 <= q < before.len() && before[q] == c;
                        if q < pending@.len() {
                            assert(pending@[q] == c);
                        }
                    }
                }
                assert forall|i: int| 0 <= i < pending@.len() implies (#[trigger] pending@[i]) < n by {
                    assert(before[i] == pending@[i]);
                }
                if v.len() > 0 {
                    assert forall|i: int| 0 <= i < pending@.len() implies exists|j: int| 0 <= j < v.len() && edge(nodes, v[j] as int, #[trigger] pending@[i] as int) by {
                        assert(before[i] == pending@[i]);
                    }
                }
            }
            continue;
        }
        let ghost old_seen = seen@;
        seen.set(x as usize, true);
        let ghost old_v = v;
        proof {
            v = v.push(x);
            lemma_unseen_mark(old_seen, x as int);
        }
        let node = &descriptor.nodes[x as usize];
        proof {
            assert forall|k: int| 0 <= k < unguarded(nodes[x as int]).len() implies #[trigger] unguarded(nodes[x as int])[k] < n by {
                assert(references(nodes[x as int])[k] == unguarded(nodes[x as int])[k]);
            }
        }
        match node {
            Node::Alias(child) => {
                pending.push(*child);
                proof {
                    assert(unguarded(nodes[x as int])[0] == *child);
                }
            },
            Node::Extend(pair) => {
                pending.push(pair[1]);
                pending.push(pair[0]);
                proof {
                    assert(unguarded(nodes[x as int])[0] == pair[0]);
                    assert(unguarded(nodes[x as int])[1] == pair[1]);
                }
            },
            Node::Struct(part) | Node::Sum(part) => {
                if record.is_none() {
                    record = Some(match descriptor.nodes[x as usize] {
                        Node::Struct(_) => true,
                        _ => false,
                    });
                }
                let mut q: usize = 0;
                let ghost base = fields@;
                while q < part.len()
                    invariant
                        q <= part.len(),
                        fields@ == base + part@.take(q as int),
                    decreases part.len() - q,
                {
                    fields.push((part[q].0.clone(), part[q].1));
                    proof {
                        assert(part@.take(q + 1) =~= part@.take(q as int).push(part@[q as int]));
                    }
                    q = q + 1;
                }
                proof {
                    assert(part@.take(q as int) =~= part@);
                }
            },
            _ => {
                tails.push(x);
            },
        }
        proof {
            assert(v.drop_last() == old_v);
            assert(v.no_duplicates()) by {
                assert forall|i: int, j: int| 0 <= i < v.len() && 0 <= j < v.len() && i != j implies v[i] != v[j] by {
                    if i < old_v.len() && j < old_v.len() {
                    } else if i == old_v.len() {
                        assert(old_v.contains(v[j]));
                    } else {
                        assert(old_v.contains(v[i]));
                    }
                }
            }
            assert forall|y: u32| y < n implies (#[trigger] seen@[y as int] <==> v.contains(y)) by {
                if y == x {
                    assert(v[v.len() - 1] == x);
                } else {
                    assert(seen@[y as int] == old_seen[y as int]);
                    if old_v.contains(y) {
                        let q = choose|q: int| 0 <= q < old_v.len() && old_v[q] == y;
                        assert(v[q] == y);
                    }
                    if v.contains(y) {
                        let q = choose|q: int| 0 <= q < v.len() && v[q] == y;
                        assert(q < old_v.len());
                        assert(old_v[q] == y);
                    }
                }
            }
            assert forall|i: int| 0 < i < v.len() implies exists|j: int| 0 <= j < i && edge(nodes, v[j] as int, #[trigger] v[i] as int) by {
                if i == old_v.len() {
                    assert(before[before.len() - 1] == x);
                    let j = choose|j: int| 0 <= j < old_v.len() && edge(nodes, old_v[j] as int, #[trigger] before[before.len() - 1] as int);
                    assert(v[j] == old_v[j]);
                } else {
                    assert(v[i] == old_v[i]);
                    let j = choose|j: int| 0 <= j < i && edge(nodes, old_v[j] as int, #[trigger] old_v[i] as int);
                    assert(v[j] == old_v[j]);
                }
            }
            assert forall|i: int| 0 <= i < pending@.len() implies (#[trigger] pending@[i]) < n by {
                if i < before.len() - 1 {
                    assert(before[i] == pending@[i]);
                }
            }
            assert forall|i: int| 0 <= i < pending@.len() implies exists|j: int| 0 <= j < v.len() && edge(nodes, v[j] as int, #[trigger] pending@[i] as int) by {
                if i < before.len() - 1 {
                    assert(before[i] == pending@[i]);
                    if old_v.len() > 0 {
                        let j = choose|j: int| 0 <= j < old_v.len() && edge(nodes, old_v[j] as int, #[trigger] before[i] as int);
                        assert(v[j] == old_v[j]);
                    } else {
                        assert(before.len() == 1);
                    }
                } else {
                    let k = i - (before.len() - 1);
                    let c = pending@[i];
                    assert(v[old_v.len() as int] == x);
                    match nodes[x as int] {
                        Node::Alias(child) => {
                            assert(c == unguarded(nodes[x as int])[0]);
                            assert(edge(nodes, x as int, c as int));
                        },
                        Node::Extend(pair) => {
                            if i == before.len() - 1 {
                                assert(c == unguarded(nodes[x as int])[1]);
                            } else {
                                assert(c == unguarded(nodes[x as int])[0]);
                            }
                            assert(edge(nodes, x as int, c as int));
                        },
                        _ => {},
                    }
                }
            }
            assert forall|i: int, k: int|
                0 <= i < v.len() && 0 <= k < unguarded(nodes[v[i] as int]).len() implies v.contains(
                    #[trigger] unguarded(nodes[v[i] as int])[k],
                ) || pending@.contains(unguarded(nodes[v[i] as int])[k]) by {
                let c = unguarded(nodes[v[i] as int])[k];
                if i == old_v.len() {
                    match nodes[x as int] {
                        Node::Alias(child) => {
                            assert(pending@[pending@.len() - 1] == c);
                        },
                        Node::Extend(pair) => {
                            if k == 0 {
                                assert(pending@[pending@.len() - 1] == c);
                            } else {
                                assert(pending@[pending@.len() - 2] == c);
                            }
                        },
                        _ => {},
                    }
                } else {
                    assert(v[i] == old_v[i]);
                    if old_v.contains(c) {
                        let q = choose|q: int| 0 <= q < old_v.len() && old_v[q] == c;
                        assert(v[q] == c);
                    } else {
                        assert(before.contains(c));
                        let q = choose|q: int| 0 <= q < before.len() && before[q] == c;
                        if q == before.len() - 1 {
                            assert(v[v.len() - 1] == c);
                        } else {
                            assert(pending@[q] == c);
                        }
                    }
                }
            }
            assert(fields@ =~= fragment_fields(nodes, v));
            assert(tails@ =~= tails_of(nodes, v));
        }
    }
    proof {
        assert(row_traversal(nodes, at as int, v));
    }
    let sorted = sort_fields(&fields);
    let kind = match record {
        Some(k) => k,
        None => false,
    };
    (kind, sorted, tails)
}

/// How many nodes a visit table still marks unseen.
spec fn unseen(seen: Seq<bool>) -> nat
    decreases seen.len(),
{
    if seen.len() == 0 {
        0
    } else {
        unseen(seen.drop_last()) + if seen.last() {
            0nat
        } else {
            1nat
        }
    }
}

proof fn lemma_unseen_mark(seen: Seq<bool>, i: int)
    requires
        0 <= i < seen.len(),
        !seen[i],
    ensures
        unseen(seen.update(i, true)) + 1 == unseen(seen),
    decreases seen.len(),
{
    if i < seen.len() - 1 {
        assert(seen.update(i, true).drop_last() =~= seen.drop_last().update(i, true));
        lemma_unseen_mark(seen.drop_last(), i);
    } else {
        assert(seen.update(i, true).drop_last() =~= seen.drop_last());
    }
}
/// A value of shape `c` is part of a value of `shape`: an aliased, stored
/// or held value, or a callable's result. A callable's argument is input
/// it accepts, not a value it holds.
pub open spec fn shape_child(shape: Shape, c: ShapeId) -> bool {
    match shape {
        Shape::Alias(v) => c == v,
        Shape::Array(v) => c == v,
        Shape::Cell(v) => c == v,
        Shape::Record(fields) => field_child(fields@, c),
        Shape::Sum(fields) => field_child(fields@, c),
        Shape::Arrow { result, .. } => c == result,
        _ => false,
    }
}

/// One of the fields holds a value of shape `c`.
pub open spec fn field_child(fields: Seq<(String, ShapeId)>, c: ShapeId) -> bool {
    exists|k: int| 0 <= k < fields.len() && #[trigger] fields[k].1 == c
}

/// A callable whose invocation requirement can never be met.
pub open spec fn impossible_call(shapes: Seq<Shape>, demands: Seq<Demand>, id: int) -> bool {
    shapes[id] is Arrow && demands[shapes[id]->needs as int].condition@.len() == 0
}

/// A path of held values from `path[0]` to an impossible callable.
pub open spec fn path_to_impossible(shapes: Seq<Shape>, demands: Seq<Demand>, path: Seq<ShapeId>) -> bool {
    &&& path.len() > 0
    &&& forall|i: int| 0 <= i < path.len() ==> (#[trigger] path[i]) < shapes.len()
    &&& forall|i: int| 0 <= i < path.len() - 1 ==> shape_child(shapes[path[i] as int], #[trigger] path[i + 1])
    &&& impossible_call(shapes, demands, path.last() as int)
}

/// A value of shape `id` holds an impossible callable somewhere.
pub open spec fn holds_impossible(shapes: Seq<Shape>, demands: Seq<Demand>, id: int) -> bool {
    exists|path: Seq<ShapeId>| path_to_impossible(shapes, demands, path) && path[0] == id
}

/// The marks hold everything the rules force: an impossible callable, and
/// a value holding a marked one.
pub open spec fn marks_closed(shapes: Seq<Shape>, demands: Seq<Demand>, marks: Seq<bool>, upto: int) -> bool {
    forall|x: int|
        0 <= x < upto && (impossible_call(shapes, demands, x) || exists|c: ShapeId| shape_child(shapes[x], c) && c < shapes.len() && #[trigger] marks[c as int])
            ==> #[trigger] marks[x]
}

proof fn lemma_extend_path(shapes: Seq<Shape>, demands: Seq<Demand>, x: ShapeId, path: Seq<ShapeId>)
    requires
        path_to_impossible(shapes, demands, path),
        x < shapes.len(),
        shape_child(shapes[x as int], path[0]),
    ensures
        path_to_impossible(shapes, demands, seq![x] + path),
        (seq![x] + path)[0] == x,
{
    let p = seq![x] + path;
    assert forall|i: int| 0 <= i < p.len() - 1 implies shape_child(shapes[p[i] as int], #[trigger] p[i + 1]) by {
        if i == 0 {
            assert(p[0] == x);
            assert(p[1] == path[0]);
        } else {
            assert(p[i] == path[i - 1]);
            assert(p[i + 1] == path[i]);
            let j = i - 1;
            assert(shape_child(shapes[path[j] as int], path[j + 1]));
        }
    }
    assert(p.last() == path.last());
}

proof fn lemma_path_marked(shapes: Seq<Shape>, demands: Seq<Demand>, marks: Seq<bool>, path: Seq<ShapeId>, i: int)
    requires
        marks.len() == shapes.len(),
        marks_closed(shapes, demands, marks, shapes.len() as int),
        path_to_impossible(shapes, demands, path),
        0 <= i < path.len(),
    ensures
        marks[path[i] as int],
    decreases path.len() - i,
{
    if i == path.len() - 1 {
        assert(impossible_call(shapes, demands, path[i] as int));
    } else {
        lemma_path_marked(shapes, demands, marks, path, i + 1);
        assert(shape_child(shapes[path[i] as int], path[i + 1]));
        assert(path[i + 1] < shapes.len());
    }
}

/// Whether one of the fields holds a marked value.
fn fields_marked(fields: &Vec<(String, ShapeId)>, marks: &Vec<bool>) -> (hit: bool)
    requires
        forall|j: int| 0 <= j < fields@.len() ==> (#[trigger] fields@[j]).1 < marks@.len(),
    ensures
        hit == exists|c: ShapeId| field_child(fields@, c) && c < marks@.len() && #[trigger] marks@[c as int],
{
    let mut k: usize = 0;
    while k < fields.len()
        invariant
            k <= fields.len(),
            forall|j: int| 0 <= j < fields@.len() ==> (#[trigger] fields@[j]).1 < marks@.len(),
            forall|j: int| 0 <= j < k ==> !marks@[(#[trigger] fields@[j]).1 as int],
        decreases fields.len() - k,
    {
        if marks[fields[k].1 as usize] {
            proof {
                assert(field_child(fields@, fields@[k as int].1));
            }
            return true;
        }
        k = k + 1;
    }
    proof {
        assert forall|c: ShapeId| field_child(fields@, c) && c < marks@.len() implies !#[trigger] marks@[c as int] by {
            let j = choose|j: int| 0 <= j < fields@.len() && #[trigger] fields@[j].1 == c;
        }
    }
    false
}

impl Graph {
    /// Whether a value of each shape holds a callable whose invocation
    /// requirement can never be met: a concrete callable cannot carry one,
    /// even where the value is only stored or returned.
    pub fn unavailable_construction_values(&self, demands: &[Demand]) -> (unavailable: Vec<bool>)
        requires
            graph_in_range(self.shapes@, self.needs@),
            demands@.len() == self.needs.len(),
            self.shapes.len() <= u32::MAX,
        ensures
            unavailable@.len() == self.shapes.len(),
            forall|x: int| 0 <= x < self.shapes.len() ==> (#[trigger] unavailable@[x] <==> holds_impossible(self.shapes@, demands@, x)),
    {
        let ghost shapes = self.shapes@;
        let n = self.shapes.len();
        let mut marks: Vec<bool> = Vec::new();
        let mut k: usize = 0;
        while k < n
            invariant
                k <= n,
                marks@.len() == k,
                forall|x: int| 0 <= x < k ==> !(#[trigger] marks@[x]),
            decreases n - k,
        {
            marks.push(false);
            k = k + 1;
        }
        proof {
            lemma_marked_bound(marks@);
        }
        loop
            invariant
                n == self.shapes.len(),
                n <= u32::MAX,
                shapes == self.shapes@,
                graph_in_range(self.shapes@, self.needs@),
                demands@.len() == self.needs.len(),
                marks@.len() == n,
                forall|x: int| 0 <= x < n && #[trigger] marks@[x] ==> holds_impossible(shapes, demands@, x),
                marked_count(marks@) <= n,
            ensures
                marks_closed(shapes, demands@, marks@, n as int),
            decreases n - marked_count(marks@),
        {
            let ghost start = marks@;
            let mut changed = false;
            let mut id: usize = 0;
            while id < n
                invariant
                    id <= n,
                    n == self.shapes.len(),
                    n <= u32::MAX,
                    shapes == self.shapes@,
                    graph_in_range(self.shapes@, self.needs@),
                    demands@.len() == self.needs.len(),
                    marks@.len() == n,
                    start.len() == n,
                    forall|x: int| 0 <= x < n && #[trigger] marks@[x] ==> holds_impossible(shapes, demands@, x),
                    marked_count(marks@) >= marked_count(start),
                    changed ==> marked_count(marks@) > marked_count(start),
                    !changed ==> marks@ == start,
                    !changed ==> marks_closed(shapes, demands@, marks@, id as int),
                decreases n - id,
            {
                if !marks[id] {
                    let hit = self.holds_marked(demands, &marks, id);
                    if hit {
                        proof {
                            let c = choose|c: ShapeId| shape_child(shapes[id as int], c) && c < n && #[trigger] marks@[c as int];
                            if !impossible_call(shapes, demands@, id as int) {
                                let path = choose|path: Seq<ShapeId>| path_to_impossible(shapes, demands@, path) && path[0] == c;
                                lemma_extend_path(shapes, demands@, id as ShapeId, path);
                            } else {
                                let path = seq![id as ShapeId];
                                assert(path_to_impossible(shapes, demands@, path));
                            }
                            lemma_mark(marks@, id as int);
                        }
                        marks.set(id, true);
                        changed = true;
                    }
                }
                id = id + 1;
            }
            proof {
                lemma_marked_bound(marks@);
            }
            if !changed {
                break;
            }
        }
        proof {
            assert forall|x: int| 0 <= x < n implies (#[trigger] marks@[x] <==> holds_impossible(shapes, demands@, x)) by {
                if holds_impossible(shapes, demands@, x) {
                    let path = choose|path: Seq<ShapeId>| path_to_impossible(shapes, demands@, path) && path[0] == x;
                    lemma_path_marked(shapes, demands@, marks@, path, 0);
                }
            }
        }
        marks
    }

    /// Whether the shape at `id` is an impossible callable or holds a
    /// marked value.
    fn holds_marked(&self, demands: &[Demand], marks: &Vec<bool>, id: usize) -> (hit: bool)
        requires
            graph_in_range(self.shapes@, self.needs@),
            demands@.len() == self.needs.len(),
            marks@.len() == self.shapes.len(),
            id < self.shapes.len(),
        ensures
            hit == (impossible_call(self.shapes@, demands@, id as int) || exists|c: ShapeId|
                shape_child(self.shapes@[id as int], c) && c < self.shapes.len() && #[trigger] marks@[c as int]),
    {
        let ghost shapes = self.shapes@;
        proof {
            assert(forall|k: int| 0 <= k < super::conventions::shape_refs(shapes[id as int]).len() ==> #[trigger] super::conventions::shape_refs(shapes[id as int])[k] < shapes.len());
        }
        match &self.shapes[id] {
            Shape::Alias(v) | Shape::Array(v) | Shape::Cell(v) => {
                proof {
                    assert(super::conventions::shape_refs(shapes[id as int])[0] == *v);
                }
                marks[*v as usize]
            },
            Shape::Record(fields) => {
                proof {
                    assert forall|j: int| 0 <= j < fields@.len() implies (#[trigger] fields@[j]).1 < shapes.len() by {
                        assert(super::conventions::shape_refs(shapes[id as int])[j] == fields@[j].1);
                    }
                }
                fields_marked(fields, marks)
            },
            Shape::Sum(fields) => {
                proof {
                    assert forall|j: int| 0 <= j < fields@.len() implies (#[trigger] fields@[j]).1 < shapes.len() by {
                        assert(super::conventions::shape_refs(shapes[id as int])[j] == fields@[j].1);
                    }
                }
                fields_marked(fields, marks)
            },
            Shape::Arrow { result, needs, .. } => {
                proof {
                    assert(super::conventions::shape_refs(shapes[id as int])[1] == *result);
                }
                demands[*needs as usize].condition.is_false() || marks[*result as usize]
            },
            _ => false,
        }
    }
}

} // verus!
