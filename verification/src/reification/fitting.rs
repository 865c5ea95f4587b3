//! Fitting an offered callable convention to an expected one: shapes are
//! joined where one of them is still open, and the invocation demands of
//! callables are tied together.
use vstd::prelude::*;

use std::collections::BTreeMap;

use super::construction::extend_set;
use super::conventions::{
    follow, graph_in_range, is_root_of, need_refs, plain_edge, ranked, redirects_end, root, shape_refs, well_formed, Edge, Graph, NeedId,
    Needs, Shape, ShapeId,
};

verus! {

broadcast use vstd::std_specs::btree::group_btree_axioms, vstd::laws_cmp::group_laws_cmp;

/// `x` reaches `y` along redirects.
pub open spec fn reaches(needs: Seq<Needs>, x: NeedId, y: NeedId) -> bool {
    exists|k: nat| #[trigger] follow(needs, x, k) == y
}

/// `next` is `row` with one more plain edge, from `source`, and its port
/// dropped where `drop_port` says so.
pub open spec fn gains_edge(next: Needs, row: Needs, source: NeedId, drop_port: bool) -> bool {
    &&& next.variable == row.variable
    &&& next.redirect == row.redirect
    &&& next.direct@ == row.direct@
    &&& next.port == if drop_port {
        None
    } else {
        row.port
    }
    &&& next.instance == row.instance
    &&& next.edges@.len() == row.edges@.len() + 1
    &&& next.edges@.take(row.edges@.len() as int) == row.edges@
    &&& plain_edge(next.edges@.last(), source)
}

/// `next` holds the requirements of both rows, `into` and `from`: the
/// union of their direct parameters, the edges of `into` then those of
/// `from`, and the union of their ports where both have one.
pub open spec fn merges(next: Needs, into: Needs, from: Needs) -> bool {
    &&& next.variable == into.variable
    &&& next.redirect == into.redirect
    &&& next.instance == into.instance
    &&& next.direct@ == into.direct@.union(from.direct@)
    &&& next.edges@ == into.edges@ + from.edges@
    &&& match (from.port, into.port) {
        (Some(a), Some(b)) => next.port is Some && next.port->0@ == b@.union(a@),
        _ => next.port is None,
    }
}

/// A variable row that only redirects to `target`.
pub open spec fn forwards(next: Needs, target: NeedId) -> bool {
    &&& next.variable
    &&& next.redirect == Some(target)
    &&& next.direct@ == Set::<u32>::empty()
    &&& next.port is None
    &&& next.edges@.len() == 0
    &&& next.instance is None
}

/// The rows after the demands rooted at `re` (expected) and `ro`
/// (offered) are tied together: two plain variables merge into the
/// offered one, which the expected one then forwards to; otherwise the
/// variable side, or the expected side when neither is variable, reads the
/// other through a new edge, dropping its port.
pub open spec fn tied(before: Seq<Needs>, after: Seq<Needs>, re: NeedId, ro: NeedId) -> bool {
    let a = before[re as int];
    let b = before[ro as int];
    &&& after.len() == before.len()
    &&& if a.variable && b.variable && (a.instance is Some || b.instance is Some) {
        &&& gains_edge(after[re as int], a, ro, true)
        &&& forall|x: int| 0 <= x < before.len() && x != re ==> after[x] == before[x]
    } else if a.variable && b.variable {
        &&& merges(after[ro as int], b, a)
        &&& forwards(after[re as int], ro)
        &&& forall|x: int| 0 <= x < before.len() && x != re && x != ro ==> after[x] == before[x]
    } else if a.variable {
        &&& gains_edge(after[re as int], a, ro, true)
        &&& forall|x: int| 0 <= x < before.len() && x != re ==> after[x] == before[x]
    } else if b.variable {
        &&& gains_edge(after[ro as int], b, re, true)
        &&& forall|x: int| 0 <= x < before.len() && x != ro ==> after[x] == before[x]
    } else {
        &&& gains_edge(after[re as int], a, ro, false)
        &&& forall|x: int| 0 <= x < before.len() && x != re ==> after[x] == before[x]
    }
}

/// Takes a row out, leaving `replacement` in its place.
fn take_row(needs: &mut Vec<Needs>, i: usize, replacement: Needs) -> (row: Needs)
    requires
        i < old(needs).len(),
    ensures
        row == old(needs)@[i as int],
        final(needs)@ == old(needs)@.update(i as int, replacement),
{
    let mut r = replacement;
    std::mem::swap(&mut needs[i], &mut r);
    r
}

/// A plain edge from `source`.
fn plain(source: NeedId) -> (e: Edge)
    ensures
        plain_edge(e, source),
{
    Edge { source, substitute: BTreeMap::new(), retain: None }
}

/// The row with one more plain edge, from `source`, and its port dropped
/// where `drop_port` says so.
fn with_edge(row: Needs, source: NeedId, drop_port: bool) -> (next: Needs)
    ensures
        gains_edge(next, row, source, drop_port),
{
    let mut next = row;
    if drop_port {
        next.port = None;
    }
    next.edges.push(plain(source));
    proof {
        assert(next.edges@.take(row.edges@.len() as int) =~= row.edges@);
    }
    next
}

/// The rows a new edge of row `x` from `source` keeps in range.
proof fn lemma_edge_in_range(needs: Seq<Needs>, after: Seq<Needs>, x: int, source: NeedId)
    requires
        0 <= x < needs.len(),
        after.len() == needs.len(),
        source < needs.len(),
        forall|k: int| 0 <= k < need_refs(needs[x]).len() ==> #[trigger] need_refs(needs[x])[k] < needs.len(),
        after[x].redirect == needs[x].redirect,
        after[x].instance == needs[x].instance,
        after[x].edges@.len() == needs[x].edges@.len() + 1,
        after[x].edges@.take(needs[x].edges@.len() as int) == needs[x].edges@,
        after[x].edges@.last().source == source,
    ensures
        forall|k: int| 0 <= k < need_refs(after[x]).len() ==> #[trigger] need_refs(after[x])[k] < needs.len(),
{
    let old_refs = need_refs(needs[x]);
    let new_refs = need_refs(after[x]);
    let m = needs[x].edges@.len();
    assert forall|k: int| 0 <= k < new_refs.len() implies #[trigger] new_refs[k] < needs.len() by {
        if k < m {
            assert(after[x].edges@[k] == needs[x].edges@[k]);
            assert(new_refs[k] == old_refs[k]);
        } else if k == m {
            assert(new_refs[k] == source);
        } else {
            assert(new_refs[k] == old_refs[k - 1]);
        }
    }
}

/// Redirecting one root to another root keeps every chain of redirects
/// finite.
proof fn lemma_redirect_roots(before: Seq<Needs>, after: Seq<Needs>, re: NeedId, ro: NeedId)
    requires
        redirects_end(before),
        before.len() == after.len(),
        before.len() <= u32::MAX,
        re < before.len(),
        ro < before.len(),
        re != ro,
        before[re as int].redirect is None,
        before[ro as int].redirect is None,
        after[re as int].redirect == Some(ro),
        forall|x: int| 0 <= x < before.len() && x != re ==> (#[trigger] after[x]).redirect == before[x].redirect,
    ensures
        redirects_end(after),
{
    let rank = choose|rank: spec_fn(NeedId) -> nat| ranked(before, rank);
    let lift = rank(ro) + 1;
    let r2 = |x: NeedId| (rank(x) + if reaches(before, x, re) { lift } else { 0 }) as nat;
    assert forall|y: nat| #[trigger] follow(before, ro, y) == ro by {
        lemma_follow_fixed(before, ro, y);
    }
    assert(!reaches(before, ro, re));
    assert(reaches(before, re, re)) by {
        assert(follow(before, re, 0) == re);
    }
    assert forall|x: int| 0 <= x < after.len() && (#[trigger] after[x]).redirect is Some implies r2(after[x].redirect->0) < r2(x as NeedId) by {
        if x != re {
            let y = before[x].redirect->0;
            assert(rank(y) < rank(x as NeedId));
            if reaches(before, y, re) {
                let k = choose|k: nat| #[trigger] follow(before, y, k) == re;
                assert(follow(before, x as NeedId, k + 1) == follow(before, y, k));
                assert(reaches(before, x as NeedId, re));
            }
            if reaches(before, x as NeedId, re) {
                let k = choose|k: nat| #[trigger] follow(before, x as NeedId, k) == re;
                assert(follow(before, x as NeedId, 0) == x as NeedId);
                assert(k > 0);
                assert(follow(before, x as NeedId, k) == follow(before, y, (k - 1) as nat));
                assert(reaches(before, y, re));
            }
        }
    }
    assert(ranked(after, r2));
}

proof fn lemma_follow_fixed(needs: Seq<Needs>, x: NeedId, k: nat)
    requires
        needs[x as int].redirect is None,
    ensures
        follow(needs, x, k) == x,
    decreases k,
{
}

impl Graph {
    /// Ties the demands of two callables together, at their roots: see
    /// [`tied`].
    fn unify_needs(&mut self, expected: NeedId, offered: NeedId)
        requires
            well_formed(old(self).shapes@, old(self).needs@),
            old(self).needs.len() <= u32::MAX,
            expected < old(self).needs.len(),
            offered < old(self).needs.len(),
        ensures
            well_formed(final(self).shapes@, final(self).needs@),
            final(self).shapes@ == old(self).shapes@,
            root(old(self).needs@, expected) == root(old(self).needs@, offered) ==> final(self).needs@ == old(self).needs@,
            root(old(self).needs@, expected) != root(old(self).needs@, offered) ==> tied(
                old(self).needs@,
                final(self).needs@,
                root(old(self).needs@, expected),
                root(old(self).needs@, offered),
            ),
    {
        let ghost before = self.needs@;
        let re = self.need_root(expected);
        let ro = self.need_root(offered);
        if re == ro {
            return;
        }
        let a_variable = self.needs[re as usize].variable;
        let b_variable = self.needs[ro as usize].variable;
        let a_instance = self.needs[re as usize].instance.is_some();
        let b_instance = self.needs[ro as usize].instance.is_some();
        proof {
            assert(forall|k: int| 0 <= k < need_refs(before[re as int]).len() ==> #[trigger] need_refs(before[re as int])[k] < before.len());
            assert(forall|k: int| 0 <= k < need_refs(before[ro as int]).len() ==> #[trigger] need_refs(before[ro as int])[k] < before.len());
        }
        if a_variable && b_variable && (a_instance || b_instance) {
            let row = take_row(&mut self.needs, re as usize, Needs::default());
            let next = with_edge(row, ro, true);
            self.needs.set(re as usize, next);
            proof {
                lemma_edge_in_range(before, self.needs@, re as int, ro);
                self.lemma_rows_kept(before, re as int);
            }
        } else if a_variable && b_variable {
            let mut a = take_row(&mut self.needs, re as usize, Needs::default());
            let mut b = take_row(&mut self.needs, ro as usize, Needs::default());
            extend_set(&mut b.direct, &a.direct);
            b.edges.append(&mut a.edges);
            let port = match (&a.port, &b.port) {
                (Some(x), Some(y)) => {
                    let mut both = y.clone();
                    extend_set(&mut both, x);
                    Some(both)
                },
                _ => None,
            };
            b.port = port;
            self.needs.set(ro as usize, b);
            let mut forward = Needs::default();
            forward.variable = true;
            forward.redirect = Some(ro);
            self.needs.set(re as usize, forward);
            proof {
                let after = self.needs@;
                assert(merges(after[ro as int], before[ro as int], before[re as int]));
                lemma_redirect_roots(before, after, re, ro);
                let refs_b = need_refs(after[ro as int]);
                let old_a = need_refs(before[re as int]);
                let old_b = need_refs(before[ro as int]);
                let mb = before[ro as int].edges@.len();
                let ma = before[re as int].edges@.len();
                assert forall|k: int| 0 <= k < refs_b.len() implies #[trigger] refs_b[k] < after.len() by {
                    if k < mb {
                        assert(refs_b[k] == old_b[k]);
                    } else if k < mb + ma {
                        assert(after[ro as int].edges@[k] == before[re as int].edges@[k - mb]);
                        assert(refs_b[k] == old_a[k - mb]);
                    } else {
                        assert(refs_b[k] == old_b[k - ma]);
                    }
                }
                let refs_a = need_refs(after[re as int]);
                assert forall|k: int| 0 <= k < refs_a.len() implies #[trigger] refs_a[k] < after.len() by {
                    assert(refs_a[k] == ro);
                }
                assert forall|x: int, k: int| 0 <= x < after.len() && 0 <= k < need_refs(after[x]).len() implies #[trigger] need_refs(
                    after[x],
                )[k] < after.len() by {
                    if x != re && x != ro {
                        assert(after[x] == before[x]);
                    }
                }
                assert forall|x: int, s: NeedId| 0 <= x < after.len() && after[x].instance is Some && #[trigger] after[x].instance->0.ports@.contains_key(
                    s,
                ) implies s < after.len() && after[x].instance->0.ports@[s] < after.len() by {
                    if x != re && x != ro {
                        assert(after[x] == before[x]);
                    }
                }
            }
        } else if a_variable {
            let row = take_row(&mut self.needs, re as usize, Needs::default());
            let next = with_edge(row, ro, true);
            self.needs.set(re as usize, next);
            proof {
                lemma_edge_in_range(before, self.needs@, re as int, ro);
                self.lemma_rows_kept(before, re as int);
            }
        } else if b_variable {
            let row = take_row(&mut self.needs, ro as usize, Needs::default());
            let next = with_edge(row, re, true);
            self.needs.set(ro as usize, next);
            proof {
                lemma_edge_in_range(before, self.needs@, ro as int, re);
                self.lemma_rows_kept(before, ro as int);
            }
        } else {
            let row = take_row(&mut self.needs, re as usize, Needs::default());
            let next = with_edge(row, ro, false);
            self.needs.set(re as usize, next);
            proof {
                lemma_edge_in_range(before, self.needs@, re as int, ro);
                self.lemma_rows_kept(before, re as int);
            }
        }
    }

    /// A graph in which one row gained an edge within range, keeping its
    /// redirect and instance, is still well formed.
    proof fn lemma_rows_kept(&self, before: Seq<Needs>, x: int)
        requires
            well_formed(self.shapes@, before),
            0 <= x < before.len(),
            self.needs@.len() == before.len(),
            forall|y: int| 0 <= y < before.len() && y != x ==> self.needs@[y] == before[y],
            self.needs@[x].redirect == before[x].redirect,
            self.needs@[x].instance == before[x].instance,
            forall|k: int| 0 <= k < need_refs(self.needs@[x]).len() ==> #[trigger] need_refs(self.needs@[x])[k] < before.len(),
        ensures
            well_formed(self.shapes@, self.needs@),
    {
        let after = self.needs@;
        assert forall|y: int, k: int| 0 <= y < after.len() && 0 <= k < need_refs(after[y]).len() implies #[trigger] need_refs(after[y])[k]
            < after.len() by {
            if y != x {
                assert(after[y] == before[y]);
            }
        }
        assert forall|y: int, s: NeedId| 0 <= y < after.len() && after[y].instance is Some && #[trigger] after[y].instance->0.ports@.contains_key(
            s,
        ) implies s < after.len() && after[y].instance->0.ports@[s] < after.len() by {
            if y != x {
                assert(after[y] == before[y]);
            }
        }
        let rank = choose|rank: spec_fn(NeedId) -> nat| ranked(before, rank);
        assert forall|y: int| 0 <= y < after.len() && (#[trigger] after[y]).redirect is Some implies rank(after[y].redirect->0) < rank(
            y as NeedId,
        ) by {
            if y != x {
                assert(after[y] == before[y]);
            }
        }
        assert(ranked(after, rank));
    }
}

/// One fitting task: the expected shape, the offered one, and whether the
/// two meet at a control-flow join.
pub type Task = (ShapeId, ShapeId, bool);

/// Where a fitting stands: the shapes, the demand rows, the tasks left
/// (the last one next) and the tasks already taken.
pub type Fitting = (Seq<Shape>, Seq<Needs>, Seq<Task>, Set<Task>);

/// The first member of `fields` named `name`.
pub open spec fn member(fields: Seq<(String, ShapeId)>, name: Seq<char>) -> Option<ShapeId>
    decreases fields.len(),
{
    if fields.len() == 0 {
        None
    } else if fields[0].0@ == name {
        Some(fields[0].1)
    } else {
        member(fields.drop_first(), name)
    }
}

/// For each member of `a` that `b` has too, in order: the task of fitting
/// `a`'s member to `b`'s.
pub open spec fn member_tasks(a: Seq<(String, ShapeId)>, b: Seq<(String, ShapeId)>, joining: bool) -> Seq<Task>
    decreases a.len(),
{
    if a.len() == 0 {
        Seq::empty()
    } else {
        member_tasks(a.drop_last(), b, joining) + match member(b, a.last().0@) {
            Some(source) => seq![(a.last().1, source, joining)],
            None => Seq::empty(),
        }
    }
}

/// A sealed value seals each member of an offered aggregate.
pub open spec fn sealed_tasks(e: ShapeId, fields: Seq<(String, ShapeId)>) -> Seq<Task> {
    fields.map_values(|f: (String, ShapeId)| (e, f.1, false))
}

/// The tasks fitting `o` to `e` leads to.
pub open spec fn pushes(shapes: Seq<Shape>, e: ShapeId, o: ShapeId, j: bool) -> Seq<Task> {
    match (shapes[e as int], shapes[o as int]) {
        (Shape::Alias(n), _) => seq![(n, o, j)],
        (_, Shape::Alias(n)) => seq![(e, n, j)],
        (Shape::Lazy, _) => Seq::empty(),
        (_, Shape::Lazy) => Seq::empty(),
        (Shape::Sealed, Shape::Parameter(_)) => Seq::empty(),
        (Shape::Sealed, Shape::Array(element)) => seq![(e, element, false)],
        (Shape::Sealed, Shape::Record(fields)) => sealed_tasks(e, fields@),
        (Shape::Sealed, Shape::Sum(fields)) => sealed_tasks(e, fields@),
        (Shape::Parameter(_), _) => Seq::empty(),
        (Shape::Arrow { argument: a, result: b, .. }, Shape::Arrow { argument: x, result: y, .. }) => seq![(x, a, false), (b, y, j)],
        (Shape::Array(a), Shape::Array(b)) => seq![(a, b, j)],
        (Shape::Cell(a), Shape::Cell(b)) => seq![(a, b, true)],
        (Shape::Record(a), Shape::Record(b)) => member_tasks(a@, b@, j),
        (Shape::Sum(a), Shape::Sum(b)) => member_tasks(a@, b@, j),
        _ => Seq::empty(),
    }
}

/// The shapes after fitting `o` to `e`: an open side becomes an alias of
/// the other, and a parameter offered to a sealed value is sealed.
pub open spec fn reshaped(shapes: Seq<Shape>, e: ShapeId, o: ShapeId) -> Seq<Shape> {
    match (shapes[e as int], shapes[o as int]) {
        (Shape::Alias(_), _) => shapes,
        (_, Shape::Alias(_)) => shapes,
        (Shape::Lazy, _) => shapes.update(e as int, Shape::Alias(o)),
        (_, Shape::Lazy) => shapes.update(o as int, Shape::Alias(e)),
        (Shape::Sealed, Shape::Parameter(_)) => shapes.update(o as int, Shape::Sealed),
        (Shape::Sealed, _) => shapes,
        (Shape::Parameter(_), _) => shapes.update(e as int, Shape::Alias(o)),
        _ => shapes,
    }
}

/// The demand rows of the two callables fitting `o` to `e` ties, where
/// both are callables.
pub open spec fn arrows(shapes: Seq<Shape>, e: ShapeId, o: ShapeId) -> Option<(NeedId, NeedId)> {
    match (shapes[e as int], shapes[o as int]) {
        (Shape::Arrow { needs: a, .. }, Shape::Arrow { needs: b, .. }) => Some((a, b)),
        _ => None,
    }
}

/// At a join, the expected callable's row stops being a variable, drops
/// its port and reads the offered row.
pub open spec fn joins(next: Needs, row: Needs, source: NeedId) -> bool {
    &&& !next.variable
    &&& next.redirect == row.redirect
    &&& next.direct@ == row.direct@
    &&& next.port is None
    &&& next.instance == row.instance
    &&& next.edges@.len() == row.edges@.len() + 1
    &&& next.edges@.take(row.edges@.len() as int) == row.edges@
    &&& plain_edge(next.edges@.last(), source)
}

/// The rows after two callables' demands meet: at a join the expected row
/// reads the offered one; otherwise the two are tied at their roots.
pub open spec fn needs_after(needs: Seq<Needs>, after: Seq<Needs>, pair: Option<(NeedId, NeedId)>, joining: bool) -> bool {
    match pair {
        None => after == needs,
        Some((a, b)) => if joining {
            &&& after.len() == needs.len()
            &&& joins(after[a as int], needs[a as int], b)
            &&& forall|x: int| 0 <= x < needs.len() && x != a ==> after[x] == needs[x]
        } else if root(needs, a) == root(needs, b) {
            after == needs
        } else {
            tied(needs, after, root(needs, a), root(needs, b))
        },
    }
}

/// One step of fitting: the last task is taken; one already taken, or of
/// a shape against itself, is dropped, and any other changes the shapes
/// and rows as it says and leaves the tasks it leads to.
pub open spec fn fit_step(s: Fitting, t: Fitting) -> bool {
    let task = s.2.last();
    let e = task.0;
    let o = task.1;
    let j = task.2;
    &&& s.2.len() > 0
    &&& if e == o || s.3.contains(task) {
        &&& t.0 == s.0
        &&& t.1 == s.1
        &&& t.2 == s.2.drop_last()
        &&& t.3 == s.3
    } else {
        &&& t.0 == reshaped(s.0, e, o)
        &&& needs_after(s.1, t.1, arrows(s.0, e, o), j)
        &&& t.2 == s.2.drop_last() + pushes(s.0, e, o, j)
        &&& t.3 == s.3.insert(task)
    }
}

/// `t` is where `k` steps of fitting lead from `s`.
pub open spec fn fit_runs(s: Fitting, t: Fitting, k: nat) -> bool
    decreases k,
{
    if k == 0 {
        t == s
    } else {
        exists|m: Fitting| fit_runs(s, m, (k - 1) as nat) && #[trigger] fit_step(m, t)
    }
}

/// Where fitting `offered` to `expected` ends: the shapes and rows once no
/// task is left.
pub open spec fn fitted(shapes: Seq<Shape>, needs: Seq<Needs>, expected: ShapeId, offered: ShapeId, joining: bool, after_shapes: Seq<Shape>, after_needs: Seq<Needs>) -> bool {
    exists|k: nat, t: Fitting|
        fit_runs((shapes, needs, seq![(expected, offered, joining)], Set::empty()), t, k) && t.2.len() == 0 && t.0 == after_shapes && t.1
            == after_needs
}

/// The first member of `fields` named `name`.
fn member_of(fields: &Vec<(String, ShapeId)>, name: &String) -> (r: Option<ShapeId>)
    ensures
        r == member(fields@, name@),
{
    let mut k: usize = 0;
    proof {
        assert(fields@.subrange(0, fields@.len() as int) =~= fields@);
    }
    while k < fields.len()
        invariant
            k <= fields.len(),
            member(fields@, name@) == member(fields@.subrange(k as int, fields@.len() as int), name@),
        decreases fields.len() - k,
    {
        let ghost rest = fields@.subrange(k as int, fields@.len() as int);
        if fields[k].0 == *name {
            proof {
                assert(rest[0] == fields@[k as int]);
            }
            return Some(fields[k].1);
        }
        proof {
            assert(rest[0] == fields@[k as int]);
            assert(rest.drop_first() =~= fields@.subrange(k + 1, fields@.len() as int));
        }
        k = k + 1;
    }
    proof {
        assert(fields@.subrange(k as int, fields@.len() as int).len() == 0);
    }
    None
}

/// The tasks fitting the members of `a` to those of `b` leads to.
fn member_tasks_of(a: &Vec<(String, ShapeId)>, b: &Vec<(String, ShapeId)>, joining: bool) -> (tasks: Vec<Task>)
    ensures
        tasks@ == member_tasks(a@, b@, joining),
{
    let mut tasks: Vec<Task> = Vec::new();
    let mut k: usize = 0;
    while k < a.len()
        invariant
            k <= a.len(),
            tasks@ == member_tasks(a@.take(k as int), b@, joining),
        decreases a.len() - k,
    {
        proof {
            assert(a@.take(k + 1).drop_last() =~= a@.take(k as int));
            assert(a@.take(k + 1).last() == a@[k as int]);
        }
        match member_of(b, &a[k].0) {
            Some(source) => {
                tasks.push((a[k].1, source, joining));
            },
            None => {},
        }
        proof {
            assert(tasks@ =~= member_tasks(a@.take(k + 1), b@, joining));
        }
        k = k + 1;
    }
    proof {
        assert(a@.take(a@.len() as int) =~= a@);
    }
    tasks
}

/// The tasks sealing each member of an offered aggregate.
fn sealed_tasks_of(e: ShapeId, fields: &Vec<(String, ShapeId)>) -> (tasks: Vec<Task>)
    ensures
        tasks@ == sealed_tasks(e, fields@),
{
    let mut tasks: Vec<Task> = Vec::new();
    let mut k: usize = 0;
    while k < fields.len()
        invariant
            k <= fields.len(),
            tasks@ == sealed_tasks(e, fields@.take(k as int)),
        decreases fields.len() - k,
    {
        tasks.push((e, fields[k].1, false));
        proof {
            assert(sealed_tasks(e, fields@.take(k + 1)) =~= sealed_tasks(e, fields@.take(k as int)).push((e, fields@[k as int].1, false)));
        }
        k = k + 1;
    }
    proof {
        assert(fields@.take(fields@.len() as int) =~= fields@);
    }
    tasks
}

impl Graph {
    /// The tasks fitting `o` to `e` leads to.
    fn plan(&self, e: ShapeId, o: ShapeId, j: bool) -> (tasks: Vec<Task>)
        requires
            e < self.shapes.len(),
            o < self.shapes.len(),
        ensures
            tasks@ == pushes(self.shapes@, e, o, j),
    {
        match (&self.shapes[e as usize], &self.shapes[o as usize]) {
            (Shape::Alias(n), _) => vec![(*n, o, j)],
            (_, Shape::Alias(n)) => vec![(e, *n, j)],
            (Shape::Lazy, _) => Vec::new(),
            (_, Shape::Lazy) => Vec::new(),
            (Shape::Sealed, Shape::Parameter(_)) => Vec::new(),
            (Shape::Sealed, Shape::Array(element)) => vec![(e, *element, false)],
            (Shape::Sealed, Shape::Record(fields)) => sealed_tasks_of(e, fields),
            (Shape::Sealed, Shape::Sum(fields)) => sealed_tasks_of(e, fields),
            (Shape::Parameter(_), _) => Vec::new(),
            (Shape::Arrow { argument: a, result: b, .. }, Shape::Arrow { argument: x, result: y, .. }) => vec![(*x, *a, false), (*b, *y, j)],
            (Shape::Array(a), Shape::Array(b)) => vec![(*a, *b, j)],
            (Shape::Cell(a), Shape::Cell(b)) => vec![(*a, *b, true)],
            (Shape::Record(a), Shape::Record(b)) => member_tasks_of(a, b, j),
            (Shape::Sum(a), Shape::Sum(b)) => member_tasks_of(a, b, j),
            _ => Vec::new(),
        }
    }

    /// The demand rows of two callables, where both shapes are callables.
    fn arrows_of(&self, e: ShapeId, o: ShapeId) -> (r: Option<(NeedId, NeedId)>)
        requires
            e < self.shapes.len(),
            o < self.shapes.len(),
        ensures
            r == arrows(self.shapes@, e, o),
    {
        match (&self.shapes[e as usize], &self.shapes[o as usize]) {
            (Shape::Arrow { needs: a, .. }, Shape::Arrow { needs: b, .. }) => Some((*a, *b)),
            _ => None,
        }
    }

    /// Opens shapes up as fitting `o` to `e` says.
    fn reshape(&mut self, e: ShapeId, o: ShapeId)
        requires
            e < old(self).shapes.len(),
            o < old(self).shapes.len(),
        ensures
            final(self).shapes@ == reshaped(old(self).shapes@, e, o),
            final(self).needs@ == old(self).needs@,
    {
        let change: Option<(ShapeId, Shape)> = match (&self.shapes[e as usize], &self.shapes[o as usize]) {
            (Shape::Alias(_), _) => None,
            (_, Shape::Alias(_)) => None,
            (Shape::Lazy, _) => Some((e, Shape::Alias(o))),
            (_, Shape::Lazy) => Some((o, Shape::Alias(e))),
            (Shape::Sealed, Shape::Parameter(_)) => Some((o, Shape::Sealed)),
            (Shape::Sealed, _) => None,
            (Shape::Parameter(_), _) => Some((e, Shape::Alias(o))),
            _ => None,
        };
        match change {
            Some((at, shape)) => {
                self.shapes.set(at as usize, shape);
            },
            None => {},
        }
    }
}

/// The task a number in `0 .. 2^65` encodes.
pub open spec fn task_of(i: int) -> Task {
    ((i / 0x2_0000_0000) as u32, ((i % 0x2_0000_0000) / 2) as u32, (i % 0x2_0000_0000) % 2 == 1)
}

/// There are finitely many tasks.
proof fn lemma_tasks_finite()
    ensures
        Set::<Task>::full().finite(),
{
    let top: int = 0x2_0000_0000_0000_0000int;
    let base = vstd::set_lib::set_int_range(0, top);
    vstd::set_lib::lemma_int_range(0, top);
    base.lemma_map_finite(|i: int| task_of(i));
    let image = base.map(|i: int| task_of(i));
    assert forall|t: Task| Set::<Task>::full().contains(t) implies image.contains(t) by {
        let b: int = if t.2 { 1 } else { 0 };
        let r: int = t.1 * 2 + b;
        let i: int = t.0 * 0x2_0000_0000 + r;
        vstd::arithmetic::div_mod::lemma_fundamental_div_mod_converse(i, 0x2_0000_0000, t.0 as int, r);
        vstd::arithmetic::div_mod::lemma_fundamental_div_mod_converse(r, 2, t.1 as int, b);
        assert(0 <= i < top);
        assert(base.contains(i));
        assert(task_of(i) == t);
    }
    vstd::set_lib::lemma_set_subset_finite(image, Set::<Task>::full());
}

/// The shapes a task leads to lie in range.
proof fn lemma_member_in(fields: Seq<(String, ShapeId)>, name: Seq<char>)
    ensures
        member(fields, name) matches Some(s) ==> exists|k: int| 0 <= k < fields.len() && #[trigger] fields[k].1 == s,
    decreases fields.len(),
{
    if fields.len() > 0 && fields[0].0@ != name {
        lemma_member_in(fields.drop_first(), name);
        if let Some(s) = member(fields, name) {
            let k = choose|k: int| 0 <= k < fields.drop_first().len() && #[trigger] fields.drop_first()[k].1 == s;
            assert(fields[k + 1].1 == s);
        }
    }
}

proof fn lemma_member_tasks_in(a: Seq<(String, ShapeId)>, b: Seq<(String, ShapeId)>, j: bool, n: nat)
    requires
        forall|k: int| 0 <= k < a.len() ==> (#[trigger] a[k]).1 < n,
        forall|k: int| 0 <= k < b.len() ==> (#[trigger] b[k]).1 < n,
    ensures
        forall|k: int| 0 <= k < member_tasks(a, b, j).len() ==> (#[trigger] member_tasks(a, b, j)[k]).0 < n && member_tasks(a, b, j)[k].1 < n,
    decreases a.len(),
{
    if a.len() > 0 {
        lemma_member_tasks_in(a.drop_last(), b, j, n);
        lemma_member_in(b, a.last().0@);
        let front = member_tasks(a.drop_last(), b, j);
        let whole = member_tasks(a, b, j);
        assert forall|k: int| 0 <= k < whole.len() implies (#[trigger] whole[k]).0 < n && whole[k].1 < n by {
            if k < front.len() {
                assert(whole[k] == front[k]);
            } else {
                assert(a.last() == a[a.len() - 1]);
            }
        }
    }
}

/// The tasks fitting leads to name shapes in range.
proof fn lemma_pushes_in(shapes: Seq<Shape>, e: ShapeId, o: ShapeId, j: bool)
    requires
        forall|x: int, k: int| 0 <= x < shapes.len() && 0 <= k < shape_refs(shapes[x]).len() ==> #[trigger] shape_refs(shapes[x])[k] < shapes.len(),
        e < shapes.len(),
        o < shapes.len(),
    ensures
        forall|k: int| 0 <= k < pushes(shapes, e, o, j).len() ==> (#[trigger] pushes(shapes, e, o, j)[k]).0 < shapes.len() && pushes(
            shapes,
            e,
            o,
            j,
        )[k].1 < shapes.len(),
{
    let n = shapes.len();
    let re = shape_refs(shapes[e as int]);
    let ro = shape_refs(shapes[o as int]);
    assert(forall|k: int| 0 <= k < re.len() ==> #[trigger] re[k] < n);
    assert(forall|k: int| 0 <= k < ro.len() ==> #[trigger] ro[k] < n);
    match (shapes[e as int], shapes[o as int]) {
        (Shape::Record(a), Shape::Record(b)) => {
            assert forall|k: int| 0 <= k < a@.len() implies (#[trigger] a@[k]).1 < n by {
                assert(re[k] == a@[k].1);
            }
            assert forall|k: int| 0 <= k < b@.len() implies (#[trigger] b@[k]).1 < n by {
                assert(ro[k] == b@[k].1);
            }
            lemma_member_tasks_in(a@, b@, j, n);
        },
        (Shape::Sum(a), Shape::Sum(b)) => {
            assert forall|k: int| 0 <= k < a@.len() implies (#[trigger] a@[k]).1 < n by {
                assert(re[k] == a@[k].1);
            }
            assert forall|k: int| 0 <= k < b@.len() implies (#[trigger] b@[k]).1 < n by {
                assert(ro[k] == b@[k].1);
            }
            lemma_member_tasks_in(a@, b@, j, n);
        },
        _ => {
            let p = pushes(shapes, e, o, j);
            assert forall|k: int| 0 <= k < p.len() implies (#[trigger] p[k]).0 < n && p[k].1 < n by {
                match (shapes[e as int], shapes[o as int]) {
                    (Shape::Alias(_), _) => {
                        assert(re[0] < n);
                    },
                    (_, Shape::Alias(_)) => {
                        assert(ro[0] < n);
                    },
                    (Shape::Sealed, Shape::Array(_)) => {
                        assert(ro[0] < n);
                    },
                    (Shape::Sealed, Shape::Record(fields)) => {
                        assert(ro[k] == fields@[k].1);
                    },
                    (Shape::Sealed, Shape::Sum(fields)) => {
                        assert(ro[k] == fields@[k].1);
                    },
                    _ => {
                        assert(re.len() > 0 ==> re[0] < n);
                        assert(re.len() > 1 ==> re[1] < n);
                        assert(ro.len() > 0 ==> ro[0] < n);
                        assert(ro.len() > 1 ==> ro[1] < n);
                    },
                }
            }
        },
    }
}

/// Opening shapes up keeps the graph's references its own.
proof fn lemma_reshaped_in_range(shapes: Seq<Shape>, needs: Seq<Needs>, e: ShapeId, o: ShapeId)
    requires
        well_formed(shapes, needs),
        e < shapes.len(),
        o < shapes.len(),
    ensures
        well_formed(reshaped(shapes, e, o), needs),
        reshaped(shapes, e, o).len() == shapes.len(),
{
    let after = reshaped(shapes, e, o);
    assert forall|x: int, k: int| 0 <= x < after.len() && 0 <= k < shape_refs(after[x]).len() implies #[trigger] shape_refs(after[x])[k]
        < after.len() by {
        if after[x] != shapes[x] {
            assert(x == e || x == o);
        }
    }
    assert forall|x: int| 0 <= x < after.len() && (#[trigger] after[x]) is Arrow implies after[x]->needs < needs.len() by {
        if after[x] != shapes[x] {
            assert(x == e || x == o);
        }
    }
}

/// Whether a task was taken already.
fn taken(seen: &Vec<Task>, task: Task) -> (b: bool)
    ensures
        b == seen@.to_set().contains(task),
{
    let mut k: usize = 0;
    while k < seen.len()
        invariant
            k <= seen.len(),
            forall|i: int| 0 <= i < k ==> seen@[i] != task,
        decreases seen.len() - k,
    {
        let t = seen[k];
        if t.0 == task.0 && t.1 == task.1 && t.2 == task.2 {
            proof {
                assert(seen@.to_set().contains(seen@[k as int]));
            }
            return true;
        }
        k = k + 1;
    }
    false
}

impl Graph {
    /// At a join, the expected callable's row reads the offered one.
    fn join_row(&mut self, a: NeedId, b: NeedId)
        requires
            well_formed(old(self).shapes@, old(self).needs@),
            a < old(self).needs.len(),
            b < old(self).needs.len(),
        ensures
            well_formed(final(self).shapes@, final(self).needs@),
            final(self).shapes@ == old(self).shapes@,
            final(self).needs@.len() == old(self).needs@.len(),
            joins(final(self).needs@[a as int], old(self).needs@[a as int], b),
            forall|x: int| 0 <= x < old(self).needs@.len() && x != a ==> final(self).needs@[x] == old(self).needs@[x],
    {
        let ghost before = self.needs@;
        let mut row = take_row(&mut self.needs, a as usize, Needs::default());
        let ghost original = row;
        row.variable = false;
        row.port = None;
        row.edges.push(plain(b));
        proof {
            assert(row.edges@.take(original.edges@.len() as int) =~= original.edges@);
        }
        self.needs.set(a as usize, row);
        proof {
            assert(forall|k: int| 0 <= k < need_refs(before[a as int]).len() ==> #[trigger] need_refs(before[a as int])[k] < before.len());
            lemma_edge_in_range(before, self.needs@, a as int, b);
            self.lemma_rows_kept(before, a as int);
        }
    }

    /// Fits an offered shape to an expected one, task by task: see
    /// [`fit_step`].
    fn fit(&mut self, expected: ShapeId, offered: ShapeId, joining: bool)
        requires
            well_formed(old(self).shapes@, old(self).needs@),
            old(self).needs.len() <= u32::MAX,
            expected < old(self).shapes.len(),
            offered < old(self).shapes.len(),
        ensures
            well_formed(final(self).shapes@, final(self).needs@),
            final(self).shapes@.len() == old(self).shapes@.len(),
            final(self).needs@.len() == old(self).needs@.len(),
            fitted(old(self).shapes@, old(self).needs@, expected, offered, joining, final(self).shapes@, final(self).needs@),
    {
        let ghost init: Fitting = (self.shapes@, self.needs@, seq![(expected, offered, joining)], Set::empty());
        let ghost n = self.shapes@.len();
        let ghost m = self.needs@.len();
        let mut work: Vec<Task> = Vec::new();
        work.push((expected, offered, joining));
        let mut seen: Vec<Task> = Vec::new();
        let ghost mut steps: nat = 0;
        proof {
            lemma_tasks_finite();
            assert(work@ =~= seq![(expected, offered, joining)]);
            assert(seen@.to_set() =~= Set::<Task>::empty());
            assert(fit_runs(init, (self.shapes@, self.needs@, work@, seen@.to_set()), 0));
        }
        loop
            invariant
                well_formed(self.shapes@, self.needs@),
                self.shapes@.len() == n,
                self.needs@.len() == m,
                m <= u32::MAX,
                Set::<Task>::full().finite(),
                forall|k: int| 0 <= k < work@.len() ==> (#[trigger] work@[k]).0 < n && work@[k].1 < n,
                fit_runs(init, (self.shapes@, self.needs@, work@, seen@.to_set()), steps),
            ensures
                work@.len() == 0,
                fit_runs(init, (self.shapes@, self.needs@, work@, seen@.to_set()), steps),
            decreases Set::<Task>::full().len() - seen@.to_set().len(), work@.len(),
        {
            proof {
                vstd::set_lib::lemma_len_subset(seen@.to_set(), Set::<Task>::full());
            }
            if work.len() == 0 {
                break;
            }
            let ghost s: Fitting = (self.shapes@, self.needs@, work@, seen@.to_set());
            let task = work.pop().unwrap();
            proof {
                assert(task == s.2.last());
                assert(work@ == s.2.drop_last());
            }
            let (e, o, j) = task;
            if e == o || taken(&seen, task) {
                proof {
                    let t: Fitting = (self.shapes@, self.needs@, work@, seen@.to_set());
                    assert(s.2.len() > 0);
                    assert(s.2.last().0 == e && s.2.last().1 == o);
                    assert(e == o || s.3.contains(s.2.last()));
                    assert(t.0 == s.0);
                    assert(t.1 == s.1);
                    assert(t.2 == s.2.drop_last());
                    assert(t.3 == s.3);
                    assert(fit_step(s, t));
                }
            } else {
                let ghost before_seen = seen@;
                seen.push(task);
                proof {
                    assert(seen@ == before_seen + seq![task]);
                    Seq::lemma_to_set_insert_commutes(before_seen, task);
                    vstd::set_lib::lemma_set_subset_finite(Set::<Task>::full(), before_seen.to_set());
                }
                let tasks = self.plan(e, o, j);
                let pair = self.arrows_of(e, o);
                proof {
                    lemma_pushes_in(self.shapes@, e, o, j);
                    lemma_reshaped_in_range(self.shapes@, self.needs@, e, o);
                    match arrows(self.shapes@, e, o) {
                        Some((a, b)) => {
                            assert(self.shapes@[e as int] is Arrow && self.shapes@[o as int] is Arrow);
                        },
                        None => {},
                    }
                }
                self.reshape(e, o);
                match pair {
                    Some((a, b)) => {
                        if j {
                            self.join_row(a, b);
                        } else {
                            self.unify_needs(a, b);
                        }
                    },
                    None => {},
                }
                let ghost rest = work@;
                let mut i: usize = 0;
                while i < tasks.len()
                    invariant
                        i <= tasks.len(),
                        work@ == rest + tasks@.take(i as int),
                    decreases tasks.len() - i,
                {
                    work.push(tasks[i]);
                    proof {
                        assert(tasks@.take(i + 1) =~= tasks@.take(i as int).push(tasks@[i as int]));
                    }
                    i = i + 1;
                }
                proof {
                    assert(tasks@.take(tasks@.len() as int) =~= tasks@);
                    assert(fit_step(s, (self.shapes@, self.needs@, work@, seen@.to_set())));
                    assert forall|k: int| 0 <= k < work@.len() implies (#[trigger] work@[k]).0 < n && work@[k].1 < n by {
                        if k < rest.len() {
                            assert(work@[k] == s.2[k]);
                        } else {
                            assert(work@[k] == tasks@[k - rest.len()]);
                        }
                    }
                    assert(seen@.to_set().len() == s.3.len() + 1);
                }
            }
            proof {
                assert(fit_runs(init, s, steps) && fit_step(s, (self.shapes@, self.needs@, work@, seen@.to_set())));
                steps = steps + 1;
                assert(fit_runs(init, (self.shapes@, self.needs@, work@, seen@.to_set()), steps));
                vstd::set_lib::lemma_len_subset(seen@.to_set(), Set::<Task>::full());
                vstd::set_lib::lemma_len_subset(s.3, Set::<Task>::full());
            }
        }
    }

    /// Fits an offered shape to fresh expected ports, preserving the
    /// offered interface; lowering can then adapt it to the expected
    /// convention.
    pub fn supply(&mut self, expected: ShapeId, offered: ShapeId)
        requires
            well_formed(old(self).shapes@, old(self).needs@),
            old(self).needs.len() <= u32::MAX,
            expected < old(self).shapes.len(),
            offered < old(self).shapes.len(),
        ensures
            well_formed(final(self).shapes@, final(self).needs@),
            final(self).shapes@.len() == old(self).shapes@.len(),
            final(self).needs@.len() == old(self).needs@.len(),
            fitted(old(self).shapes@, old(self).needs@, expected, offered, false, final(self).shapes@, final(self).needs@),
    {
        self.fit(expected, offered, false);
    }

    /// A control-flow join: combines invocation demands without making
    /// either offered callable acquire the other branch's requirements.
    pub fn join(&mut self, expected: ShapeId, offered: ShapeId)
        requires
            well_formed(old(self).shapes@, old(self).needs@),
            old(self).needs.len() <= u32::MAX,
            expected < old(self).shapes.len(),
            offered < old(self).shapes.len(),
        ensures
            well_formed(final(self).shapes@, final(self).needs@),
            final(self).shapes@.len() == old(self).shapes@.len(),
            final(self).needs@.len() == old(self).needs@.len(),
            fitted(old(self).shapes@, old(self).needs@, expected, offered, true, final(self).shapes@, final(self).needs@),
    {
        self.fit(expected, offered, true);
    }
}

} // verus!
