//! Shape inference: a graph of single field steps between derived type variables,
//! collapsed by union-find into classes that must share one shape.

use crate::graph::constraint_views;
use crate::schema::{Constraint, ConstraintView, DerivedTypeVariable, DtvView, FieldLabel};
use vstd::prelude::*;
use vstd::set_lib::*;

verus! {

/// Whether two labels lead to places that must hold the same type: equal labels,
/// or a load and a store.
pub open spec fn labels_match(a: FieldLabel, b: FieldLabel) -> bool {
    a == b || (a == FieldLabel::Load && b == FieldLabel::Store) || (a == FieldLabel::Store && b == FieldLabel::Load)
}

fn labels_match_exec(a: FieldLabel, b: FieldLabel) -> (r: bool)
    ensures
        r == labels_match(a, b),
{
    a == b || (a == FieldLabel::Load && b == FieldLabel::Store) || (a == FieldLabel::Store && b == FieldLabel::Load)
}

/// The variable reached by the first `i` labels of `d`.
pub open spec fn prefix(d: DtvView, i: int) -> DtvView {
    (d.0, d.1.subrange(0, i))
}

/// Edges `e1` and `e2` leave one class with matching labels and arrive in one class.
pub open spec fn pair_closed(class: Seq<int>, edges: Seq<(usize, usize, FieldLabel)>, e1: int, e2: int) -> bool {
    class[edges[e1].0 as int] == class[edges[e2].0 as int] && labels_match(edges[e1].2, edges[e2].2)
        ==> class[edges[e1].1 as int] == class[edges[e2].1 as int]
}

/// The inferred shapes: each node lists the variables of one class, each edge is
/// a field step between classes.
pub struct QuotientGraph {
    pub nodes: Vec<Vec<DerivedTypeVariable>>,
    pub edges: Vec<(usize, usize, FieldLabel)>,
}

/// Some root before `r` is mapped to `k`.
pub open spec fn owned(class: Seq<int>, qidx: Seq<usize>, r: int, k: int) -> bool {
    exists|x: int| 0 <= x < r && class[x] == x && qidx[x] == k
}

/// No variable is listed twice.
pub open spec fn no_repeats(v: Seq<DerivedTypeVariable>) -> bool {
    forall|p1: int, p2: int| 0 <= p1 < v.len() && 0 <= p2 < v.len() && p1 != p2 ==> (#[trigger] v[p1])@ != (#[trigger] v[p2])@
}

/// Whether the list holds a variable with view `d`.
pub open spec fn lists(v: Seq<DerivedTypeVariable>, d: DtvView) -> bool {
    exists|p: int| 0 <= p < v.len() && v[p]@ == d
}

impl QuotientGraph {
    /// Whether node `k` lists the variable `d`.
    pub open spec fn holds(&self, k: int, d: DtvView) -> bool {
        0 <= k < self.nodes@.len() && lists(self.nodes@[k]@, d)
    }

    /// Whether one node lists both `a` and `b`.
    pub open spec fn same_shape(&self, a: DtvView, b: DtvView) -> bool {
        exists|k: int| self.holds(k, a) && self.holds(k, b)
    }

    /// Whether an edge labelled `f` leads from the node of `a` to the node of `b`.
    pub open spec fn steps(&self, a: DtvView, b: DtvView, f: FieldLabel) -> bool {
        exists|k1: int, k2: int|
            self.holds(k1, a) && self.holds(k2, b) && self.edges@.contains((k1 as usize, k2 as usize, f))
    }

    /// Variables listed by one node are related by `rel`.
    pub open spec fn classes_within(&self, rel: spec_fn(DtvView, DtvView) -> bool) -> bool {
        forall|k: int, x: DtvView, y: DtvView| #[trigger] self.holds(k, x) && #[trigger] self.holds(k, y) ==> rel(x, y)
    }

    /// No node lists a variable twice.
    pub open spec fn lists_distinct(&self) -> bool {
        forall|k: int| 0 <= k < self.nodes@.len() ==> no_repeats(#[trigger] self.nodes@[k]@)
    }

    /// No node has an empty list.
    pub open spec fn no_empty_class(&self) -> bool {
        forall|k: int| 0 <= k < self.nodes@.len() ==> (#[trigger] self.nodes@[k])@.len() > 0
    }

    /// Every listed variable is a side of a constraint in `cs`, or a prefix of one.
    pub open spec fn lists_from(&self, cs: Seq<ConstraintView>) -> bool {
        forall|k: int, p: int|
            0 <= k < self.nodes@.len() && 0 <= p < self.nodes@[k]@.len() ==> from_constraints(
                cs,
                cs.len() as int,
                #[trigger] self.nodes@[k]@[p]@,
            )
    }

    /// Edge `item` joins the nodes of a step along a side of a constraint in `cs`.
    pub open spec fn edge_drawn(&self, cs: Seq<ConstraintView>, item: (usize, usize, FieldLabel)) -> bool {
        exists|a: DtvView, b: DtvView|
            self.holds(item.0 as int, a) && self.holds(item.1 as int, b) && step_from(cs, cs.len() as int, a, b, item.2)
    }

    /// Every edge joins the nodes of a step along a side of a constraint in `cs`.
    pub open spec fn edges_from(&self, cs: Seq<ConstraintView>) -> bool {
        forall|x: int| 0 <= x < self.edges@.len() ==> self.edge_drawn(cs, #[trigger] self.edges@[x])
    }

    /// Every variable is listed by at most one node.
    pub open spec fn placed_once(&self) -> bool {
        forall|k1: int, k2: int, d: DtvView| #[trigger] self.holds(k1, d) && #[trigger] self.holds(k2, d) ==> k1 == k2
    }

    /// From each node, edges with matching labels (equal, or load and store) lead
    /// to one node; and no edge is listed twice.
    pub open spec fn deterministic(&self) -> bool {
        &&& forall|x: int, y: int|
            0 <= x < self.edges@.len() && 0 <= y < self.edges@.len() && (#[trigger] self.edges@[x]).0
                == (#[trigger] self.edges@[y]).0 && labels_match(self.edges@[x].2, self.edges@[y].2)
                ==> self.edges@[x].1 == self.edges@[y].1
        &&& forall|x: int, y: int|
            0 <= x < self.edges@.len() && 0 <= y < self.edges@.len() && x != y ==> #[trigger] self.edges@[x]
                != #[trigger] self.edges@[y]
    }
}

/// Whether `x` is `d` or a prefix of it.
pub open spec fn prefix_of(d: DtvView, x: DtvView) -> bool {
    exists|p: int| 0 <= p <= d.1.len() && x == prefix(d, p)
}

/// Whether `a -> b` labelled `f` extends a prefix of `d` by its next label.
pub open spec fn step_in(d: DtvView, a: DtvView, b: DtvView, f: FieldLabel) -> bool {
    exists|p: int| 0 <= p < d.1.len() && a == prefix(d, p) && b == prefix(d, p + 1) && f == d.1[p]
}

/// Whether `x` is a side of one of the first `upto` constraints, or a prefix of one.
pub open spec fn from_constraints(cs: Seq<ConstraintView>, upto: int, x: DtvView) -> bool {
    exists|j: int| 0 <= j < upto && j < cs.len() && (prefix_of(cs[j].0, x) || prefix_of(cs[j].1, x))
}

/// Whether `a -> b` labelled `f` is a step along a side of one of the first `upto`
/// constraints.
pub open spec fn step_from(cs: Seq<ConstraintView>, upto: int, a: DtvView, b: DtvView, f: FieldLabel) -> bool {
    exists|j: int| 0 <= j < upto && j < cs.len() && (step_in(cs[j].0, a, b, f) || step_in(cs[j].1, a, b, f))
}

/// `rel` is an equivalence on variables that relates the two sides of every
/// constraint and passes through matching steps: when `a` and `b` are related,
/// steps out of them with matching labels lead to related variables.
pub open spec fn congruence_of(cs: Seq<ConstraintView>, rel: spec_fn(DtvView, DtvView) -> bool) -> bool {
    &&& forall|x: DtvView| #[trigger] rel(x, x)
    &&& forall|x: DtvView, y: DtvView| #[trigger] rel(x, y) ==> rel(y, x)
    &&& forall|x: DtvView, y: DtvView, z: DtvView| #[trigger] rel(x, y) && #[trigger] rel(y, z) ==> rel(x, z)
    &&& forall|i: int| 0 <= i < cs.len() ==> rel((#[trigger] cs[i]).0, cs[i].1)
    &&& forall|a: DtvView, a2: DtvView, f: FieldLabel, b: DtvView, b2: DtvView, g: FieldLabel|
        #[trigger] step_from(cs, cs.len() as int, a, a2, f) && #[trigger] step_from(cs, cs.len() as int, b, b2, g)
            && rel(a, b) && labels_match(f, g) ==> rel(a2, b2)
}

/// The roots among the first `n` positions of a class map.
pub open spec fn roots(class: Seq<int>, n: int) -> Set<int> {
    Set::new(|i: int| 0 <= i < n && class[i] == i)
}

proof fn lemma_roots_finite(class: Seq<int>, n: int)
    requires
        0 <= n,
    ensures
        roots(class, n).finite(),
{
    lemma_int_range(0, n);
    assert(roots(class, n).subset_of(set_int_range(0, n)));
    lemma_len_subset(roots(class, n), set_int_range(0, n));
}

/// No two variables have the same view.
pub open spec fn dtvs_distinct(dtvs: Seq<DerivedTypeVariable>) -> bool {
    forall|i: int, j: int| 0 <= i < dtvs.len() && 0 <= j < dtvs.len() && i != j ==> dtvs[i]@ != dtvs[j]@
}

/// The step graph: one node per derived type variable met, an edge labelled `f`
/// from `d` to `d.f`, and a union-find forest over the nodes.
pub struct StepGraph {
    pub dtvs: Vec<DerivedTypeVariable>,
    pub rep: Vec<usize>,
    pub edges: Vec<(usize, usize, FieldLabel)>,
    /// The root of each node's class.
    pub class: Ghost<Seq<int>>,
    /// Ranks that strictly grow along representative links.
    pub level: Ghost<Seq<nat>>,
}

impl StepGraph {
    pub open spec fn n(&self) -> int {
        self.dtvs@.len() as int
    }

    pub open spec fn dtv(&self, i: int) -> DtvView {
        self.dtvs@[i]@
    }

    pub open spec fn wf(&self) -> bool {
        let n = self.n();
        let rep = self.rep@;
        let class = self.class@;
        let level = self.level@;
        &&& rep.len() == n && class.len() == n && level.len() == n
        &&& dtvs_distinct(self.dtvs@)
        &&& forall|e: int|
            0 <= e < self.edges@.len() ==> (#[trigger] self.edges@[e]).0 < n && self.edges@[e].1 < n
        &&& forall|i: int| 0 <= i < n ==> #[trigger] rep[i] < n
        &&& forall|i: int| 0 <= i < n ==> 0 <= #[trigger] class[i] < n
        &&& forall|i: int| 0 <= i < n ==> class[#[trigger] class[i]] == class[i]
        &&& forall|i: int| #![trigger rep[i]] 0 <= i < n ==> (rep[i] == i <==> class[i] == i)
        &&& forall|i: int| 0 <= i < n ==> class[#[trigger] rep[i] as int] == class[i]
        &&& forall|i: int| 0 <= i < n && rep[i] != i ==> level[i] < level[#[trigger] rep[i] as int]
        &&& forall|i: int| 0 <= i < n && class[i] != i ==> level[i] < level[#[trigger] class[i]]
    }

    /// A step graph with no node.
    pub fn empty() -> (g: StepGraph)
        ensures
            g.wf(),
            g.n() == 0,
            g.edges@.len() == 0,
    {
        StepGraph {
            dtvs: Vec::new(),
            rep: Vec::new(),
            edges: Vec::new(),
            class: Ghost(Seq::empty()),
            level: Ghost(Seq::empty()),
        }
    }

    /// The root of node `i`'s class, without changing anything.
    fn root(&self, i: usize) -> (r: usize)
        requires
            self.wf(),
            i < self.n(),
        ensures
            r as int == self.class@[i as int],
    {
        let mut cur = i;
        while self.rep[cur] != cur
            invariant
                self.wf(),
                cur < self.n(),
                self.class@[cur as int] == self.class@[i as int],
            decreases self.level@[self.class@[i as int]] - self.level@[cur as int],
        {
            cur = self.rep[cur];
        }
        cur
    }

    /// The root of node `i`'s class; every node met on the way is linked to the
    /// root directly.
    fn find(&mut self, i: usize) -> (r: usize)
        requires
            old(self).wf(),
            i < old(self).n(),
        ensures
            final(self).wf(),
            r as int == old(self).class@[i as int],
            final(self).class@ == old(self).class@,
            final(self).level@ == old(self).level@,
            final(self).dtvs@ == old(self).dtvs@,
            final(self).edges@ == old(self).edges@,
    {
        let root = self.root(i);
        let mut cur = i;
        while cur != root
            invariant
                self.wf(),
                cur < self.n(),
                root < self.n(),
                self.class@[cur as int] == root,
                self.class@ == old(self).class@,
                self.level@ == old(self).level@,
                self.dtvs@ == old(self).dtvs@,
                self.edges@ == old(self).edges@,
                root as int == old(self).class@[i as int],
            decreases self.level@[root as int] - self.level@[cur as int],
        {
            let next = self.rep[cur];
            let ghost r0 = self.rep@;
            proof {
                assert(self.class@[self.class@[cur as int]] == self.class@[cur as int]);
                assert(self.class@[cur as int] != cur);
                assert(self.level@[cur as int] < self.level@[self.class@[cur as int]]);
                assert(self.class@[next as int] == self.class@[cur as int]);
            }
            self.rep.set(cur, root);
            proof {
                let n = self.n();
                assert forall|j: int| #![trigger self.rep@[j]] 0 <= j < n implies (self.rep@[j] == j <==> self.class@[j] == j) by {
                    if j != cur {
                        assert(self.rep@[j] == r0[j]);
                    }
                }
                assert forall|j: int| 0 <= j < n implies self.class@[#[trigger] self.rep@[j] as int] == self.class@[j] by {
                    if j != cur {
                        assert(self.rep@[j] == r0[j]);
                    }
                }
                assert forall|j: int| 0 <= j < n && self.rep@[j] != j implies self.level@[j] < self.level@[
                    #[trigger] self.rep@[j] as int] by {
                    if j != cur {
                        assert(self.rep@[j] == r0[j]);
                    }
                }
                assert forall|j: int| 0 <= j < n implies #[trigger] self.rep@[j] < n by {
                    if j != cur {
                        assert(self.rep@[j] == r0[j]);
                    }
                }
            }
            cur = next;
        }
        root
    }

    /// Makes root `x` the representative of root `y`.
    fn union(&mut self, x: usize, y: usize)
        requires
            old(self).wf(),
            x < old(self).n(),
            y < old(self).n(),
            old(self).class@[x as int] == x,
            old(self).class@[y as int] == y,
            x != y,
        ensures
            final(self).wf(),
            final(self).dtvs@ == old(self).dtvs@,
            final(self).edges@ == old(self).edges@,
            final(self).class@ == old(self).class@.map_values(|c: int| if c == y { x as int } else { c }),
            roots(final(self).class@, final(self).n()) == roots(old(self).class@, old(self).n()).remove(y as int),
    {
        let ghost c0 = self.class@;
        let ghost l0 = self.level@;
        self.rep.set(y, x);
        let ghost lx = if l0[x as int] > l0[y as int] { l0[x as int] } else { l0[y as int] + 1 };
        self.class = Ghost(c0.map_values(|c: int| if c == y { x as int } else { c }));
        self.level = Ghost(l0.update(x as int, lx));
        proof {
            let n = self.n();
            let r0 = old(self).rep@;
            assert forall|i: int| 0 <= i < n implies 0 <= #[trigger] self.class@[i] < n by {}
            assert forall|i: int| 0 <= i < n implies self.class@[#[trigger] self.class@[i]] == self.class@[i] by {
                assert(c0[c0[i]] == c0[i]);
            }
            assert forall|i: int| #![trigger self.rep@[i]] 0 <= i < n implies (self.rep@[i] == i <==> self.class@[i] == i) by {
                if i != y {
                    assert(self.rep@[i] == r0[i]);
                    assert(r0[i] == i <==> c0[i] == i);
                    if c0[i] == y {
                        assert(c0[i] != i);
                    }
                }
            }
            assert forall|i: int| 0 <= i < n implies self.class@[#[trigger] self.rep@[i] as int] == self.class@[i] by {
                if i != y {
                    assert(self.rep@[i] == r0[i]);
                    assert(c0[r0[i] as int] == c0[i]);
                }
            }
            assert forall|i: int| 0 <= i < n implies #[trigger] self.rep@[i] < n by {
                if i != y {
                    assert(self.rep@[i] == r0[i]);
                }
            }
            assert forall|i: int| 0 <= i < n && self.class@[i] != i implies self.level@[i] < self.level@[
                #[trigger] self.class@[i]] by {
                if c0[i] == y {
                    assert(self.class@[i] == x);
                    if i != y {
                        assert(l0[i] < l0[y as int]);
                    }
                }
            }
            assert forall|i: int| 0 <= i < n && self.rep@[i] != i implies self.level@[i] < self.level@[
                #[trigger] self.rep@[i] as int] by {
                if i != y as int {
                    assert(old(self).rep@[i] == self.rep@[i]);
                    assert(l0[i] < l0[r0[i] as int]);
                }
            }
            assert(roots(self.class@, n) =~= roots(c0, n).remove(y as int));
        }
    }

    /// Whether some node holds the variable `d`.
    pub open spec fn has_dtv(&self, d: DtvView) -> bool {
        exists|k: int| 0 <= k < self.n() && self.dtv(k) == d
    }

    /// Whether a step edge labelled `f` joins the nodes of `a` and `b`.
    pub open spec fn has_step(&self, a: DtvView, b: DtvView, f: FieldLabel) -> bool {
        exists|e: int|
            0 <= e < self.edges@.len() && self.dtv(#[trigger] self.edges@[e].0 as int) == a && self.dtv(
                self.edges@[e].1 as int,
            ) == b && self.edges@[e].2 == f
    }

    /// `self` keeps what `old` had: its nodes, its edges, and every class joined.
    pub open spec fn extends(&self, old: StepGraph) -> bool {
        &&& old.n() <= self.n()
        &&& forall|i: int| 0 <= i < old.n() ==> (#[trigger] self.dtvs@[i]@) == old.dtvs@[i]@
        &&& old.edges@.len() <= self.edges@.len()
        &&& forall|e: int| 0 <= e < old.edges@.len() ==> (#[trigger] self.edges@[e]) == old.edges@[e]
        &&& forall|i: int, j: int|
            0 <= i < old.n() && 0 <= j < old.n() && old.class@[i] == old.class@[j] ==> (#[trigger] self.class@[i])
                == (#[trigger] self.class@[j])
    }

    /// The index of the node holding `d`, if any.
    fn index_of(&self, d: &DerivedTypeVariable) -> (r: Option<usize>)
        requires
            self.wf(),
        ensures
            r matches Some(k) ==> k < self.n() && self.dtv(k as int) == d@,
            r is None ==> !self.has_dtv(d@),
    {
        let mut k: usize = 0;
        while k < self.dtvs.len()
            invariant
                k <= self.n(),
                forall|j: int| 0 <= j < k ==> self.dtv(j) != d@,
            decreases self.n() - k,
        {
            if self.dtvs[k].same_as(d) {
                return Some(k);
            }
            k = k + 1;
        }
        None
    }

    /// The node holding `d`, added as its own class when there is none.
    fn node_for(&mut self, d: &DerivedTypeVariable) -> (r: usize)
        requires
            old(self).wf(),
        ensures
            final(self).wf(),
            final(self).extends(*old(self)),
            r < final(self).n(),
            final(self).dtv(r as int) == d@,
            final(self).edges@ == old(self).edges@,
            final(self).n() <= old(self).n() + 1,
            forall|x: DtvView| final(self).has_dtv(x) ==> old(self).has_dtv(x) || x == d@,
            forall|k: int| old(self).n() <= k < final(self).n() ==> #[trigger] final(self).dtv(k) == d@,
            old(self).singletons() ==> final(self).singletons(),
    {
        match self.index_of(d) {
            Some(k) => k,
            None => {
                let k = self.dtvs.len();
                let ghost c0 = self.class@;
                self.dtvs.push(d.duplicate());
                self.rep.push(k);
                self.class = Ghost(c0.push(k as int));
                self.level = Ghost(self.level@.push(0));
                proof {
                    assert(self.dtvs@[k as int]@ == d@);
                    assert forall|i: int, j: int|
                        0 <= i < self.n() && 0 <= j < self.n() && i != j implies self.dtvs@[i]@ != self.dtvs@[j]@ by {
                        if i < k && j < k {
                            assert(self.dtvs@[i] == old(self).dtvs@[i]);
                            assert(self.dtvs@[j] == old(self).dtvs@[j]);
                        } else if i < k {
                            assert(self.dtvs@[i] == old(self).dtvs@[i]);
                            assert(old(self).dtv(i) != d@);
                        } else {
                            assert(self.dtvs@[j] == old(self).dtvs@[j]);
                            assert(old(self).dtv(j) != d@);
                        }
                    }
                    assert forall|x: DtvView| self.has_dtv(x) implies old(self).has_dtv(x) || x == d@ by {
                        let q = choose|q: int| 0 <= q < self.n() && self.dtv(q) == x;
                        if q < k {
                            assert(old(self).dtv(q) == x);
                        }
                    }
                }
                k
            },
        }
    }

    /// Adds the step `a -> b` labelled `f` unless it is there.
    fn add_step(&mut self, a: usize, b: usize, f: FieldLabel)
        requires
            old(self).wf(),
            a < old(self).n(),
            b < old(self).n(),
        ensures
            final(self).wf(),
            final(self).extends(*old(self)),
            final(self).dtvs@ == old(self).dtvs@,
            final(self).class@ == old(self).class@,
            final(self).edges@.contains((a, b, f)),
            forall|e: int|
                old(self).edges@.len() <= e < final(self).edges@.len() ==> (#[trigger] final(self).edges@[e]) == (
                    a,
                    b,
                    f,
                ),
    {
        let mut e: usize = 0;
        while e < self.edges.len()
            invariant
                self.wf(),
                *self == *old(self),
                forall|q: int| 0 <= q < e ==> self.edges@[q] != (a, b, f),
                e <= self.edges@.len(),
            decreases self.edges@.len() - e,
        {
            let (x, y, l) = self.edges[e];
            if x == a && y == b && l == f {
                assert(self.edges@[e as int] == (a, b, f));
                return;
            }
            e = e + 1;
        }
        self.edges.push((a, b, f));
        assert(self.edges@[self.edges@.len() - 1] == (a, b, f));
    }

    /// Nodes for every prefix of `d`, each joined to the next by its label.
    pub open spec fn has_path(&self, d: DtvView) -> bool {
        &&& forall|i: int| 0 <= i <= d.1.len() ==> self.has_dtv(#[trigger] prefix(d, i))
        &&& forall|i: int| 0 <= i < d.1.len() ==> self.has_step(#[trigger] prefix(d, i), prefix(d, i + 1), d.1[i])
    }

    proof fn lemma_extends_keeps(&self, old: StepGraph)
        requires
            self.extends(old),
            old.wf(),
        ensures
            forall|x: DtvView| old.has_dtv(x) ==> #[trigger] self.has_dtv(x),
            forall|a: DtvView, b: DtvView, f: FieldLabel| old.has_step(a, b, f) ==> #[trigger] self.has_step(a, b, f),
            forall|d: DtvView| old.has_path(d) ==> #[trigger] self.has_path(d),
    {
        assert forall|x: DtvView| old.has_dtv(x) implies #[trigger] self.has_dtv(x) by {
            let k = choose|k: int| 0 <= k < old.n() && old.dtv(k) == x;
            assert(self.dtvs@[k]@ == old.dtvs@[k]@);
            assert(self.dtv(k) == x);
        }
        assert forall|a: DtvView, b: DtvView, f: FieldLabel| old.has_step(a, b, f) implies #[trigger] self.has_step(a, b, f) by {
            let e = choose|e: int|
                0 <= e < old.edges@.len() && old.dtv(#[trigger] old.edges@[e].0 as int) == a && old.dtv(
                    old.edges@[e].1 as int,
                ) == b && old.edges@[e].2 == f;
            assert(self.edges@[e] == old.edges@[e]);
            assert(self.dtvs@[old.edges@[e].0 as int]@ == old.dtvs@[old.edges@[e].0 as int]@);
            assert(self.dtvs@[old.edges@[e].1 as int]@ == old.dtvs@[old.edges@[e].1 as int]@);
        }
    }

    /// Adds nodes for every prefix of `d` and the steps between them.
    fn add_path(&mut self, d: &DerivedTypeVariable)
        requires
            old(self).wf(),
        ensures
            final(self).wf(),
            final(self).extends(*old(self)),
            final(self).has_path(d@),
            old(self).singletons() ==> final(self).singletons(),
            forall|k: int| old(self).n() <= k < final(self).n() ==> prefix_of(d@, #[trigger] final(self).dtv(k)),
            forall|e: int|
                old(self).edges@.len() <= e < final(self).edges@.len() ==> step_in(
                    d@,
                    final(self).dtv((#[trigger] final(self).edges@[e]).0 as int),
                    final(self).dtv(final(self).edges@[e].1 as int),
                    final(self).edges@[e].2,
                ),
    {
        let ghost g0 = *self;
        let len = d.fields.len();
        let mut prev = self.node_for(&d.get_sub_dtv(0));
        let mut i: usize = 0;
        proof {
            assert forall|k: int| g0.n() <= k < self.n() implies prefix_of(d@, #[trigger] self.dtv(k)) by {
                assert(self.dtv(k) == prefix(d@, 0));
            }
            assert(prefix(d@, 0) == (d@.0, d@.1.subrange(0, 0)));
            assert(self.has_dtv(prefix(d@, 0)));
        }
        while i < len
            invariant
                self.wf(),
                self.extends(g0),
                len == d@.1.len(),
                i <= len,
                prev < self.n(),
                self.dtv(prev as int) == prefix(d@, i as int),
                forall|j: int| 0 <= j <= i ==> self.has_dtv(#[trigger] prefix(d@, j)),
                forall|j: int| 0 <= j < i ==> self.has_step(#[trigger] prefix(d@, j), prefix(d@, j + 1), d@.1[j]),
                forall|k: int| g0.n() <= k < self.n() ==> prefix_of(d@, #[trigger] self.dtv(k)),
                g0.singletons() ==> self.singletons(),
                forall|e: int|
                    g0.edges@.len() <= e < self.edges@.len() ==> step_in(
                        d@,
                        self.dtv((#[trigger] self.edges@[e]).0 as int),
                        self.dtv(self.edges@[e].1 as int),
                        self.edges@[e].2,
                    ),
            decreases len - i,
        {
            let ghost g1 = *self;
            let next = self.node_for(&d.get_sub_dtv(i + 1));
            let ghost g2 = *self;
            self.add_step(prev, next, d.fields[i]);
            proof {
                g2.lemma_extends_keeps(g1);
                self.lemma_extends_keeps(g2);
                let e = choose|e: int| 0 <= e < self.edges@.len() && self.edges@[e] == (prev, next, d@.1[i as int]);
                assert(self.dtvs@[prev as int]@ == g1.dtvs@[prev as int]@);
                assert(self.has_step(prefix(d@, i as int), prefix(d@, i + 1), d@.1[i as int]));
                assert(self.has_dtv(prefix(d@, i + 1)));
                assert forall|a: int, b: int|
                    0 <= a < g0.n() && 0 <= b < g0.n() && g0.class@[a] == g0.class@[b] implies (#[trigger] self.class@[a])
                        == (#[trigger] self.class@[b]) by {
                    assert(g1.class@[a] == g1.class@[b]);
                    assert(g2.class@[a] == g2.class@[b]);
                }
                assert forall|k: int| g0.n() <= k < self.n() implies prefix_of(d@, #[trigger] self.dtv(k)) by {
                    if k < g1.n() {
                        assert(self.dtvs@[k]@ == g1.dtvs@[k]@);
                        assert(prefix_of(d@, g1.dtv(k)));
                    } else {
                        assert(self.dtvs@ == g2.dtvs@);
                        assert(g2.dtv(k) == (d@.0, d@.1.subrange(0, i + 1)));
                        assert(self.dtv(k) == prefix(d@, i + 1));
                    }
                }
                assert forall|x: int|
                    g0.edges@.len() <= x < self.edges@.len() implies step_in(
                        d@,
                        self.dtv((#[trigger] self.edges@[x]).0 as int),
                        self.dtv(self.edges@[x].1 as int),
                        self.edges@[x].2,
                    ) by {
                    if x < g1.edges@.len() {
                        assert(self.edges@[x] == g1.edges@[x]);
                        assert(g2.edges@[x] == g1.edges@[x]);
                        assert(step_in(d@, g1.dtv(g1.edges@[x].0 as int), g1.dtv(g1.edges@[x].1 as int), g1.edges@[x].2));
                        assert(self.dtvs@[g1.edges@[x].0 as int]@ == g1.dtvs@[g1.edges@[x].0 as int]@);
                        assert(self.dtvs@[g1.edges@[x].1 as int]@ == g1.dtvs@[g1.edges@[x].1 as int]@);
                    } else {
                        assert(self.edges@[x] == (prev, next, d@.1[i as int]));
                        assert(self.dtv(prev as int) == prefix(d@, i as int));
                    }
                }
            }
            prev = next;
            i = i + 1;
        }
    }

    /// `self` has the same nodes and edges as `old`, and joins every class that
    /// `old` joined.
    pub open spec fn coarsens(&self, old: StepGraph) -> bool {
        &&& self.dtvs@ == old.dtvs@
        &&& self.edges@ == old.edges@
        &&& forall|i: int, j: int|
            0 <= i < old.n() && 0 <= j < old.n() && old.class@[i] == old.class@[j] ==> (#[trigger] self.class@[i])
                == (#[trigger] self.class@[j])
    }

    /// Puts `x` and `y` in one class, and with them, step by step, the targets of
    /// their same-labelled (or load and store) edges; `x`'s root represents the
    /// union.
    fn unify(&mut self, x: usize, y: usize, cs: Ghost<Seq<ConstraintView>>)
        requires
            old(self).wf(),
            x < old(self).n(),
            y < old(self).n(),
            old(self).sound_for(cs@),
            old(self).drawn_from(cs@, cs@.len() as int),
            old(self).forced(cs@, x as int, y as int),
        ensures
            final(self).sound_for(cs@),
            final(self).wf(),
            final(self).coarsens(*old(self)),
            final(self).class@[x as int] == final(self).class@[y as int],
    {
        let ghost g0 = *self;
        let n = self.dtvs.len();
        let m = self.edges.len();
        let mut work: Vec<(usize, usize)> = Vec::new();
        work.push((x, y));
        proof {
            lemma_roots_finite(self.class@, n as int);
            assert(work@[0] == (x, y));
        }
        while work.len() > 0
            invariant
                self.wf(),
                self.coarsens(g0),
                n == self.n(),
                m == self.edges@.len(),
                x < n,
                y < n,
                forall|k: int| 0 <= k < work@.len() ==> (#[trigger] work@[k]).0 < n && work@[k].1 < n,
                self.class@[x as int] == self.class@[y as int] || work@.contains((x, y)),
                roots(self.class@, n as int).finite(),
                self.sound_for(cs@),
                self.drawn_from(cs@, cs@.len() as int),
                forall|k: int| 0 <= k < work@.len() ==> self.forced(cs@, (#[trigger] work@[k]).0 as int, work@[k].1 as int),
            decreases roots(self.class@, n as int).len(), work@.len(),
        {
            let ghost before = work@;
            let (a, b) = work.pop().unwrap();
            proof {
                assert(before.last() == (a, b));
                assert(work@ =~= before.drop_last());
                if !(self.class@[x as int] == self.class@[y as int]) && (a, b) != (x, y) {
                    let k = choose|k: int| 0 <= k < before.len() && before[k] == (x, y);
                    assert(work@[k] == (x, y));
                }
            }
            proof {
                assert(before[before.len() - 1] == (a, b));
                assert(self.forced(cs@, a as int, b as int));
                assert forall|k: int| 0 <= k < work@.len() implies self.forced(cs@, (#[trigger] work@[k]).0 as int, work@[k].1 as int) by {
                    assert(work@[k] == before[k]);
                }
            }
            let ghost pre = *self;
            let ra = self.find(a);
            let rb = self.find(b);
            proof {
                assert(self.sound_for(cs@)) by {
                    assert forall|rel: spec_fn(DtvView, DtvView) -> bool| #[trigger] congruence_of(cs@, rel) implies forall|i: int, j: int|
                        0 <= i < self.n() && 0 <= j < self.n() && self.class@[i] == self.class@[j] ==> rel(
                            #[trigger] self.dtv(i),
                            #[trigger] self.dtv(j),
                        ) by {
                        assert forall|i: int, j: int|
                            0 <= i < self.n() && 0 <= j < self.n() && self.class@[i] == self.class@[j] implies rel(
                                #[trigger] self.dtv(i),
                                #[trigger] self.dtv(j),
                            ) by {
                            assert(pre.dtv(i) == self.dtv(i) && pre.dtv(j) == self.dtv(j));
                        }
                    }
                }
                lemma_drawn_keep(pre, *self, cs@);
                assert forall|rel: spec_fn(DtvView, DtvView) -> bool| #[trigger] congruence_of(cs@, rel) implies rel(
                    self.dtv(ra as int),
                    self.dtv(rb as int),
                ) by {
                    assert(self.class@[a as int] == self.class@[ra as int]);
                    assert(self.class@[b as int] == self.class@[rb as int]);
                    assert(rel(self.dtv(a as int), self.dtv(ra as int)));
                    assert(rel(self.dtv(ra as int), self.dtv(a as int)));
                    assert(rel(self.dtv(a as int), self.dtv(b as int)));
                    assert(rel(self.dtv(b as int), self.dtv(rb as int)));
                    assert(rel(self.dtv(ra as int), self.dtv(b as int)));
                }
                assert(self.forced(cs@, ra as int, rb as int));
            }
            if ra != rb {
                let ghost snap = *self;
                let ghost rs0 = roots(self.class@, n as int);
                let mut e1: usize = 0;
                while e1 < m
                    invariant
                        self.wf(),
                        *self == snap,
                        n == self.n(),
                        m == self.edges@.len(),
                        e1 <= m,
                        ra < n,
                        rb < n,
                        forall|k: int| 0 <= k < work@.len() ==> (#[trigger] work@[k]).0 < n && work@[k].1 < n,
                        work@.len() >= before.len() - 1,
                        forall|k: int| 0 <= k < before.len() - 1 ==> work@[k] == before[k],
                        self.sound_for(cs@),
                        self.drawn_from(cs@, cs@.len() as int),
                        self.forced(cs@, ra as int, rb as int),
                        forall|k: int| 0 <= k < work@.len() ==> self.forced(cs@, (#[trigger] work@[k]).0 as int, work@[k].1 as int),
                    decreases m - e1,
                {
                    let (s1, t1, l1) = self.edges[e1];
                    if self.root(s1) == ra {
                        let mut e2: usize = 0;
                        while e2 < m
                            invariant
                                self.wf(),
                                *self == snap,
                                n == self.n(),
                                m == self.edges@.len(),
                                e1 < m,
                                e2 <= m,
                                t1 < n,
                                rb < n,
                                forall|k: int| 0 <= k < work@.len() ==> (#[trigger] work@[k]).0 < n && work@[k].1 < n,
                                work@.len() >= before.len() - 1,
                                forall|k: int| 0 <= k < before.len() - 1 ==> work@[k] == before[k],
                                s1 == self.edges@[e1 as int].0,
                                t1 == self.edges@[e1 as int].1,
                                l1 == self.edges@[e1 as int].2,
                                self.class@[s1 as int] == ra,
                                self.sound_for(cs@),
                                self.drawn_from(cs@, cs@.len() as int),
                                self.forced(cs@, ra as int, rb as int),
                                forall|k: int| 0 <= k < work@.len() ==> self.forced(cs@, (#[trigger] work@[k]).0 as int, work@[k].1 as int),
                            decreases m - e2,
                        {
                            let (s2, t2, l2) = self.edges[e2];
                            if self.root(s2) == rb && labels_match_exec(l1, l2) {
                                proof {
                                    assert forall|rel: spec_fn(DtvView, DtvView) -> bool| #[trigger] congruence_of(cs@, rel) implies rel(
                                        self.dtv(t1 as int),
                                        self.dtv(t2 as int),
                                    ) by {
                                        assert(rel(self.dtv(s1 as int), self.dtv(ra as int)));
                                        assert(rel(self.dtv(ra as int), self.dtv(rb as int)));
                                        assert(rel(self.dtv(rb as int), self.dtv(s2 as int)));
                                        assert(rel(self.dtv(s1 as int), self.dtv(rb as int)));
                                        assert(rel(self.dtv(s1 as int), self.dtv(s2 as int)));
                                        assert(self.edges@[e2 as int] == (s2, t2, l2));
                                        assert(step_from(cs@, cs@.len() as int, self.dtv(s1 as int), self.dtv(t1 as int), l1));
                                        assert(step_from(cs@, cs@.len() as int, self.dtv(s2 as int), self.dtv(t2 as int), l2));
                                    }
                                }
                                let ghost wb = work@;
                                work.push((t1, t2));
                                proof {
                                    assert forall|k: int| 0 <= k < work@.len() implies self.forced(cs@, (#[trigger] work@[k]).0 as int, work@[k].1 as int) by {
                                        if k < wb.len() {
                                            assert(work@[k] == wb[k]);
                                        }
                                    }
                                }
                            }
                            e2 = e2 + 1;
                        }
                    }
                    e1 = e1 + 1;
                }
                proof {
                    assert(self.class@[ra as int] == ra);
                    assert(self.class@[rb as int] == rb);
                    if !(self.class@[x as int] == self.class@[y as int]) && (a, b) != (x, y) {
                        let k = choose|k: int| 0 <= k < before.len() - 1 && before[k] == (x, y);
                        assert(work@[k] == (x, y));
                    }
                    assert(rs0.contains(rb as int));
                }
                let ghost c1 = self.class@;
                let ghost su = *self;
                self.union(ra, rb);
                proof {
                    lemma_union_sound(su, *self, ra as int, rb as int, cs@);
                    lemma_drawn_keep(su, *self, cs@);
                    lemma_roots_finite(self.class@, n as int);
                    assert(self.class@[a as int] == self.class@[b as int]);
                    assert forall|i: int, j: int|
                        0 <= i < n && 0 <= j < n && g0.class@[i] == g0.class@[j] implies (#[trigger] self.class@[i])
                            == (#[trigger] self.class@[j]) by {
                        assert(c1[i] == c1[j]);
                    }
                }
            }
        }
    }

    /// Any two edges that leave one class with matching labels arrive in one class.
    pub open spec fn congruent(&self) -> bool {
        forall|e1: int, e2: int|
            0 <= e1 < self.edges@.len() && 0 <= e2 < self.edges@.len() ==> #[trigger] pair_closed(
                self.class@,
                self.edges@,
                e1,
                e2,
            )
    }

    /// Joins the targets of matching edges from one class until no pair is left
    /// apart.
    fn close(&mut self, cs: Ghost<Seq<ConstraintView>>)
        requires
            old(self).wf(),
            old(self).sound_for(cs@),
            old(self).drawn_from(cs@, cs@.len() as int),
        ensures
            final(self).sound_for(cs@),
            final(self).wf(),
            final(self).coarsens(*old(self)),
            final(self).congruent(),
    {
        let ghost g0 = *self;
        let n = self.dtvs.len();
        let m = self.edges.len();
        let mut changed = true;
        proof {
            lemma_roots_finite(self.class@, n as int);
        }
        while changed
            invariant
                self.wf(),
                self.coarsens(g0),
                n == self.n(),
                m == self.edges@.len(),
                roots(self.class@, n as int).finite(),
                !changed ==> self.congruent(),
                self.sound_for(cs@),
                self.drawn_from(cs@, cs@.len() as int),
            decreases 2 * roots(self.class@, n as int).len() + if changed {
                1int
            } else {
                0int
            },
        {
            changed = false;
            let ghost start = self.class@;
            let ghost rs = roots(self.class@, n as int).len();
            let mut e1: usize = 0;
            while e1 < m
                invariant
                    self.wf(),
                    self.coarsens(g0),
                    n == self.n(),
                    m == self.edges@.len(),
                    e1 <= m,
                    roots(self.class@, n as int).finite(),
                    self.sound_for(cs@),
                    self.drawn_from(cs@, cs@.len() as int),
                    roots(self.class@, n as int).len() <= rs,
                    changed ==> roots(self.class@, n as int).len() < rs,
                    !changed ==> self.class@ == start,
                    !changed ==> forall|p1: int, p2: int|
                        0 <= p1 < e1 && 0 <= p2 < m ==> #[trigger] pair_closed(self.class@, self.edges@, p1, p2),
                decreases m - e1,
            {
                let mut e2: usize = 0;
                while e2 < m
                    invariant
                        self.wf(),
                        self.coarsens(g0),
                        n == self.n(),
                        m == self.edges@.len(),
                        e1 < m,
                        e2 <= m,
                        roots(self.class@, n as int).finite(),
                        self.sound_for(cs@),
                        self.drawn_from(cs@, cs@.len() as int),
                        roots(self.class@, n as int).len() <= rs,
                        changed ==> roots(self.class@, n as int).len() < rs,
                        !changed ==> self.class@ == start,
                        !changed ==> forall|p1: int, p2: int|
                            0 <= p1 < e1 && 0 <= p2 < m ==> #[trigger] pair_closed(self.class@, self.edges@, p1, p2),
                        !changed ==> forall|p2: int|
                            0 <= p2 < e2 ==> #[trigger] pair_closed(self.class@, self.edges@, e1 as int, p2),
                    decreases m - e2,
                {
                    let (s1, t1, l1) = self.edges[e1];
                    let (s2, t2, l2) = self.edges[e2];
                    if labels_match_exec(l1, l2) && self.root(s1) == self.root(s2) {
                        let r1 = self.root(t1);
                        let r2 = self.root(t2);
                        if r1 != r2 {
                            let ghost c1 = self.class@;
                            proof {
                                assert(self.class@[r1 as int] == r1);
                                assert(self.class@[r2 as int] == r2);
                                assert(roots(self.class@, n as int).contains(r2 as int));
                                assert(self.edges@[e1 as int] == (s1, t1, l1));
                                assert(self.edges@[e2 as int] == (s2, t2, l2));
                                assert forall|rel: spec_fn(DtvView, DtvView) -> bool| #[trigger] congruence_of(cs@, rel) implies rel(
                                    self.dtv(r1 as int),
                                    self.dtv(r2 as int),
                                ) by {
                                    assert(self.class@[s1 as int] == self.class@[s2 as int]);
                                    assert(rel(self.dtv(s1 as int), self.dtv(s2 as int)));
                                    assert(step_from(cs@, cs@.len() as int, self.dtv(s1 as int), self.dtv(t1 as int), l1));
                                    assert(step_from(cs@, cs@.len() as int, self.dtv(s2 as int), self.dtv(t2 as int), l2));
                                    assert(rel(self.dtv(t1 as int), self.dtv(t2 as int)));
                                    assert(self.class@[t1 as int] == self.class@[r1 as int]);
                                    assert(self.class@[t2 as int] == self.class@[r2 as int]);
                                    assert(rel(self.dtv(r1 as int), self.dtv(t1 as int)));
                                    assert(rel(self.dtv(t2 as int), self.dtv(r2 as int)));
                                    assert(rel(self.dtv(r1 as int), self.dtv(t2 as int)));
                                }
                            }
                            let ghost su = *self;
                            self.union(r1, r2);
                            proof {
                                lemma_union_sound(su, *self, r1 as int, r2 as int, cs@);
                                lemma_drawn_keep(su, *self, cs@);
                                lemma_roots_finite(self.class@, n as int);
                                assert forall|i: int, j: int|
                                    0 <= i < n && 0 <= j < n && g0.class@[i] == g0.class@[j] implies (#[trigger] self.class@[i])
                                        == (#[trigger] self.class@[j]) by {
                                    assert(c1[i] == c1[j]);
                                }
                            }
                            changed = true;
                        }
                    }
                    e2 = e2 + 1;
                }
                e1 = e1 + 1;
            }
        }
    }

    /// Whether some node of class `r` holds `d`.
    pub open spec fn member_of(&self, r: int, d: DtvView) -> bool {
        exists|j: int| 0 <= j < self.n() && self.class@[j] == r && self.dtv(j) == d
    }

    /// Whether one of the first `j` nodes holds `d`.
    pub open spec fn listed_before(&self, d: DtvView, j: int) -> bool {
        exists|q: int| 0 <= q < j && self.dtv(q) == d
    }

    /// Whether some node mapped to `k` holds `d`.
    pub open spec fn sourced(&self, qof: Seq<int>, k: int, d: DtvView) -> bool {
        exists|i: int| 0 <= i < self.n() && qof[i] == k && self.dtv(i) == d
    }

    /// Whether `item` is some step edge carried over by `qof`.
    pub open spec fn projected(&self, qof: Seq<int>, item: (usize, usize, FieldLabel)) -> bool {
        exists|e: int|
            0 <= e < self.edges@.len() && item == (
                qof[self.edges@[e].0 as int] as usize,
                qof[self.edges@[e].1 as int] as usize,
                self.edges@[e].2,
            )
    }

    /// Members of the class of root `r`, in node order.
    fn members(&self, r: usize) -> (v: Vec<DerivedTypeVariable>)
        requires
            self.wf(),
            r < self.n(),
        ensures
            forall|j: int| 0 <= j < self.n() && self.class@[j] == r ==> #[trigger] lists(v@, self.dtv(j)),
            forall|p: int| 0 <= p < v@.len() ==> #[trigger] self.member_of(r as int, v@[p]@),
            no_repeats(v@),
    {
        let n = self.dtvs.len();
        let mut v: Vec<DerivedTypeVariable> = Vec::new();
        let mut j: usize = 0;
        while j < n
            invariant
                self.wf(),
                n == self.n(),
                r < n,
                j <= n,
                forall|q: int| 0 <= q < j && self.class@[q] == r ==> #[trigger] lists(v@, self.dtv(q)),
                forall|p: int| 0 <= p < v@.len() ==> #[trigger] self.member_of(r as int, v@[p]@),
                no_repeats(v@),
                forall|p: int| 0 <= p < v@.len() ==> self.listed_before((#[trigger] v@[p])@, j as int),
            decreases n - j,
        {
            if self.root(j) == r {
                let ghost before = v@;
                v.push(self.dtvs[j].duplicate());
                proof {
                    assert(v@[v@.len() - 1]@ == self.dtv(j as int));
                    assert forall|q: int| 0 <= q < j + 1 && self.class@[q] == r implies #[trigger] lists(v@, self.dtv(q)) by {
                        if q < j {
                            assert(lists(before, self.dtv(q)));
                            let p = choose|p: int| 0 <= p < before.len() && before[p]@ == self.dtv(q);
                            assert(v@[p] == before[p]);
                        } else {
                            assert(v@[v@.len() - 1]@ == self.dtv(q));
                        }
                    }
                    assert forall|p: int| 0 <= p < v@.len() implies #[trigger] self.member_of(r as int, v@[p]@) by {
                        if p < before.len() {
                            assert(v@[p] == before[p]);
                            assert(self.member_of(r as int, before[p]@));
                        } else {
                            assert(v@[p]@ == self.dtv(j as int));
                        }
                    }

                    assert forall|p1: int, p2: int| 0 <= p1 < v@.len() && 0 <= p2 < v@.len() && p1 != p2 implies (#[trigger] v@[p1])@
                        != (#[trigger] v@[p2])@ by {
                        if p1 < before.len() && p2 < before.len() {
                            assert(v@[p1] == before[p1] && v@[p2] == before[p2]);
                        } else if p1 < before.len() {
                            assert(v@[p1] == before[p1]);
                            assert(self.listed_before(before[p1]@, j as int));
                            let q = choose|q: int| 0 <= q < j && self.dtv(q) == before[p1]@;
                            assert(self.dtv(q) != self.dtv(j as int));
                        } else {
                            assert(v@[p2] == before[p2]);
                            assert(self.listed_before(before[p2]@, j as int));
                            let q = choose|q: int| 0 <= q < j && self.dtv(q) == before[p2]@;
                            assert(self.dtv(q) != self.dtv(j as int));
                        }
                    }
                }
            }
            proof {
                assert forall|p: int| 0 <= p < v@.len() implies self.listed_before((#[trigger] v@[p])@, j + 1) by {
                    if self.listed_before(v@[p]@, j as int) {
                        let q = choose|q: int| 0 <= q < j && self.dtv(q) == v@[p]@;
                    } else {
                        assert(v@[p]@ == self.dtv(j as int));
                    }
                }
            }
            j = j + 1;
        }
        v
    }

    /// The graph of classes: one node per root, listing its class, and each step
    /// edge carried over to the classes of its ends, once.
    fn quotient(&self) -> (r: (QuotientGraph, Ghost<Seq<int>>))
        requires
            self.wf(),
        ensures
            r.1@.len() == self.n(),
            forall|i: int| 0 <= i < self.n() ==> r.0.holds(#[trigger] r.1@[i], self.dtv(i)),
            forall|i: int, j: int|
                #![trigger r.1@[i], r.1@[j]]
                0 <= i < self.n() && 0 <= j < self.n() ==> (r.1@[i] == r.1@[j] <==> self.class@[i] == self.class@[j]),
            forall|k: int, p: int|
                #![trigger r.0.nodes@[k]@[p]]
                0 <= k < r.0.nodes@.len() && 0 <= p < r.0.nodes@[k]@.len() ==> self.sourced(r.1@, k, r.0.nodes@[k]@[p]@),
            forall|e: int|
                0 <= e < self.edges@.len() ==> r.0.edges@.contains(
                    (
                        r.1@[(#[trigger] self.edges@[e]).0 as int] as usize,
                        r.1@[self.edges@[e].1 as int] as usize,
                        self.edges@[e].2,
                    ),
                ),
            forall|x: int| 0 <= x < r.0.edges@.len() ==> self.projected(r.1@, #[trigger] r.0.edges@[x]),
            forall|x: int, y: int|
                0 <= x < r.0.edges@.len() && 0 <= y < r.0.edges@.len() && x != y ==> r.0.edges@[x]
                    != r.0.edges@[y],
            r.0.no_empty_class(),
            r.0.lists_distinct(),
    {
        let n = self.dtvs.len();
        let mut qidx: Vec<usize> = Vec::new();
        let mut nodes: Vec<Vec<DerivedTypeVariable>> = Vec::new();
        let mut r: usize = 0;
        while r < n
            invariant
                self.wf(),
                n == self.n(),
                r <= n,
                qidx@.len() == r,
                forall|x: int| 0 <= x < r && self.class@[x] == x ==> #[trigger] qidx@[x] < nodes@.len(),
                forall|k: int| 0 <= k < nodes@.len() ==> (#[trigger] nodes@[k])@.len() > 0,
                forall|k: int| 0 <= k < nodes@.len() ==> no_repeats((#[trigger] nodes@[k])@),
                forall|x: int, y: int|
                    0 <= x < r && 0 <= y < r && self.class@[x] == x && self.class@[y] == y && x != y
                        ==> #[trigger] qidx@[x] != #[trigger] qidx@[y],
                forall|k: int| 0 <= k < nodes@.len() ==> #[trigger] owned(self.class@, qidx@, r as int, k),
                forall|x: int, j: int|
                    #![trigger qidx@[x], self.dtv(j)]
                    0 <= x < r && self.class@[x] == x && 0 <= j < n && self.class@[j] == x ==> lists(
                        nodes@[qidx@[x] as int]@,
                        self.dtv(j),
                    ),
                forall|x: int, p: int|
                    #![trigger nodes@[qidx@[x] as int]@[p]]
                    0 <= x < r && self.class@[x] == x && 0 <= p < nodes@[qidx@[x] as int]@.len() ==> self.member_of(
                        x,
                        nodes@[qidx@[x] as int]@[p]@,
                    ),
            decreases n - r,
        {
            if self.root(r) == r {
                let members = self.members(r);
                proof {
                    assert(lists(members@, self.dtv(r as int)));
                }
                let ghost before = nodes@;
                let ghost qbefore = qidx@;
                qidx.push(nodes.len());
                nodes.push(members);
                proof {
                    assert forall|k: int| 0 <= k < nodes@.len() implies #[trigger] owned(self.class@, qidx@, r + 1, k) by {
                        if k < before.len() {
                            assert(owned(self.class@, qbefore, r as int, k));
                            let x = choose|x: int| 0 <= x < r && self.class@[x] == x && qbefore[x] == k;
                            assert(qidx@[x] == qbefore[x]);
                        } else {
                            assert(qidx@[r as int] == k);
                        }
                    }
                    assert forall|x: int, j: int|
                        #![trigger qidx@[x], self.dtv(j)]
                        0 <= x < r + 1 && self.class@[x] == x && 0 <= j < n && self.class@[j] == x implies lists(
                            nodes@[qidx@[x] as int]@,
                            self.dtv(j),
                        ) by {
                        if x < r {
                            assert(qidx@[x] == qbefore[x]);
                            assert(nodes@[qidx@[x] as int] == before[qbefore[x] as int]);
                            assert(lists(before[qbefore[x] as int]@, self.dtv(j)));
                        } else {
                            assert(nodes@[qidx@[x] as int] == members);
                            assert(lists(members@, self.dtv(j)));
                        }
                    }
                    assert forall|x: int, p: int|
                        #![trigger nodes@[qidx@[x] as int]@[p]]
                        0 <= x < r + 1 && self.class@[x] == x && 0 <= p < nodes@[qidx@[x] as int]@.len() implies self.member_of(
                            x,
                            nodes@[qidx@[x] as int]@[p]@,
                        ) by {
                        if x < r {
                            assert(qidx@[x] == qbefore[x]);
                            assert(nodes@[qidx@[x] as int] == before[qbefore[x] as int]);
                            assert(self.member_of(x, before[qbefore[x] as int]@[p]@));
                        } else {
                            assert(nodes@[qidx@[x] as int] == members);
                            assert(self.member_of(x, members@[p]@));
                        }
                    }
                }
            } else {
                let ghost qbefore = qidx@;
                qidx.push(0);
                proof {
                    assert forall|k: int| 0 <= k < nodes@.len() implies #[trigger] owned(self.class@, qidx@, r + 1, k) by {
                        assert(owned(self.class@, qbefore, r as int, k));
                        let x = choose|x: int| 0 <= x < r && self.class@[x] == x && qbefore[x] == k;
                        assert(qidx@[x] == qbefore[x]);
                    }
                    assert forall|x: int, j: int|
                        #![trigger qidx@[x], self.dtv(j)]
                        0 <= x < r + 1 && self.class@[x] == x && 0 <= j < n && self.class@[j] == x implies lists(
                            nodes@[qidx@[x] as int]@,
                            self.dtv(j),
                        ) by {
                        assert(qidx@[x] == qbefore[x]);
                    }
                    assert forall|x: int, p: int|
                        #![trigger nodes@[qidx@[x] as int]@[p]]
                        0 <= x < r + 1 && self.class@[x] == x && 0 <= p < nodes@[qidx@[x] as int]@.len() implies self.member_of(
                            x,
                            nodes@[qidx@[x] as int]@[p]@,
                        ) by {
                        assert(qidx@[x] == qbefore[x]);
                    }
                }
            }
            r = r + 1;
        }
        let ghost qof = Seq::new(n as nat, |i: int| qidx@[self.class@[i]] as int);
        proof {
            assert forall|i: int, j: int|
                #![trigger qof[i], qof[j]]
                0 <= i < n && 0 <= j < n implies (qof[i] == qof[j] <==> self.class@[i] == self.class@[j]) by {
                let x = self.class@[i];
                let y = self.class@[j];
                assert(self.class@[x] == x);
                assert(self.class@[y] == y);
                assert(qof[i] == qidx@[x] as int);
                assert(qof[j] == qidx@[y] as int);
            }
        }
        let m = self.edges.len();
        let mut edges: Vec<(usize, usize, FieldLabel)> = Vec::new();
        let mut e: usize = 0;
        while e < m
            invariant
                self.wf(),
                n == self.n(),
                m == self.edges@.len(),
                e <= m,
                qof.len() == n,
                qidx@.len() == n,
                forall|i: int| 0 <= i < n ==> #[trigger] qof[i] == qidx@[self.class@[i]] as int,
                forall|p: int|
                    0 <= p < e ==> edges@.contains(
                        (
                            qof[(#[trigger] self.edges@[p]).0 as int] as usize,
                            qof[self.edges@[p].1 as int] as usize,
                            self.edges@[p].2,
                        ),
                    ),
                forall|x: int| 0 <= x < edges@.len() ==> self.projected(qof, #[trigger] edges@[x]),
                forall|x: int, y: int|
                    0 <= x < edges@.len() && 0 <= y < edges@.len() && x != y ==> edges@[x] != edges@[y],
            decreases m - e,
        {
            let (s1, t1, l1) = self.edges[e];
            let a = qidx[self.root(s1)];
            let b = qidx[self.root(t1)];
            let item = (a, b, l1);
            proof {
                assert(qof[s1 as int] == qidx@[self.class@[s1 as int]] as int);
                assert(qof[t1 as int] == qidx@[self.class@[t1 as int]] as int);
                assert(item == (qof[s1 as int] as usize, qof[t1 as int] as usize, l1));
                assert(self.projected(qof, item));
            }
            let mut k: usize = 0;
            let mut found = false;
            while k < edges.len()
                invariant
                    item == (a, b, l1),
                    k <= edges@.len(),
                    !found ==> forall|z: int| 0 <= z < k ==> edges@[z] != item,
                    found ==> edges@.contains(item),
                decreases edges@.len() - k,
            {
                let (x, y, z) = edges[k];
                if x == a && y == b && z == l1 {
                    assert(edges@[k as int] == item);
                    found = true;
                }
                k = k + 1;
            }
            let ghost before = edges@;
            if !found {
                edges.push(item);
            }
            proof {
                if !found {
                    assert(edges@[edges@.len() - 1] == item);
                }
                assert(edges@.contains(item));
                assert forall|p: int| 0 <= p < e + 1 implies edges@.contains(
                    (
                        qof[(#[trigger] self.edges@[p]).0 as int] as usize,
                        qof[self.edges@[p].1 as int] as usize,
                        self.edges@[p].2,
                    ),
                ) by {
                    if p < e {
                        let want = (qof[self.edges@[p].0 as int] as usize, qof[self.edges@[p].1 as int] as usize, self.edges@[p].2);
                        assert(before.contains(want));
                        let z = choose|z: int| 0 <= z < before.len() && before[z] == want;
                        assert(edges@[z] == want);
                    }
                }
                assert forall|x: int| 0 <= x < edges@.len() implies self.projected(qof, #[trigger] edges@[x]) by {
                    if x < before.len() {
                        assert(edges@[x] == before[x]);
                        assert(self.projected(qof, before[x]));
                    }
                }
            }
            e = e + 1;
        }
        let q = QuotientGraph { nodes, edges };
        proof {
            assert forall|i: int| 0 <= i < n implies q.holds(#[trigger] qof[i], self.dtv(i)) by {
                let x = self.class@[i];
                assert(self.class@[x] == x);
                assert(qof[i] == qidx@[x] as int);
                assert(qidx@[x] < q.nodes@.len());
                assert(lists(q.nodes@[qidx@[x] as int]@, self.dtv(i)));
            }
            assert forall|k: int, p: int|
                #![trigger q.nodes@[k]@[p]]
                0 <= k < q.nodes@.len() && 0 <= p < q.nodes@[k]@.len() implies self.sourced(qof, k, q.nodes@[k]@[p]@) by {
                assert(owned(self.class@, qidx@, n as int, k));
                let x = choose|x: int| 0 <= x < n && self.class@[x] == x && qidx@[x] == k;
                assert(self.member_of(x, q.nodes@[qidx@[x] as int]@[p]@));
                let j = choose|j: int| 0 <= j < n && self.class@[j] == x && self.dtv(j) == q.nodes@[qidx@[x] as int]@[p]@;
                assert(qof[j] == qidx@[x] as int);
            }
        }
        (q, Ghost(qof))
    }

    /// Every node holds a side of one of the first `upto` constraints or a prefix of
    /// one, and every edge is a step along such a side.
    pub open spec fn drawn_from(&self, cs: Seq<ConstraintView>, upto: int) -> bool {
        &&& forall|k: int| 0 <= k < self.n() ==> from_constraints(cs, upto, #[trigger] self.dtv(k))
        &&& forall|e: int|
            0 <= e < self.edges@.len() ==> step_from(
                cs,
                upto,
                self.dtv((#[trigger] self.edges@[e]).0 as int),
                self.dtv(self.edges@[e].1 as int),
                self.edges@[e].2,
            )
    }

    /// Every node is its own class.
    pub open spec fn singletons(&self) -> bool {
        forall|i: int| 0 <= i < self.n() ==> #[trigger] self.class@[i] == i
    }

    /// Whether the nodes of `a` and `b` are in one class.
    pub open spec fn joined(&self, a: DtvView, b: DtvView) -> bool {
        exists|i: int, j: int|
            0 <= i < self.n() && 0 <= j < self.n() && self.dtv(i) == a && self.dtv(j) == b && self.class@[i]
                == self.class@[j]
    }
    /// Two nodes share a class only where every congruence of `cs` relates their
    /// variables.
    pub open spec fn sound_for(&self, cs: Seq<ConstraintView>) -> bool {
        forall|rel: spec_fn(DtvView, DtvView) -> bool|
            #[trigger] congruence_of(cs, rel) ==> forall|i: int, j: int|
                0 <= i < self.n() && 0 <= j < self.n() && self.class@[i] == self.class@[j] ==> rel(
                    #[trigger] self.dtv(i),
                    #[trigger] self.dtv(j),
                )
    }

    /// Every congruence of `cs` relates the variables of nodes `a` and `b`.
    pub open spec fn forced(&self, cs: Seq<ConstraintView>, a: int, b: int) -> bool {
        forall|rel: spec_fn(DtvView, DtvView) -> bool| #[trigger] congruence_of(cs, rel) ==> rel(self.dtv(a), self.dtv(b))
    }
}

proof fn lemma_drawn_keep(g0: StepGraph, g1: StepGraph, cs: Seq<ConstraintView>)
    requires
        g0.drawn_from(cs, cs.len() as int),
        g1.dtvs@ == g0.dtvs@,
        g1.edges@ == g0.edges@,
    ensures
        g1.drawn_from(cs, cs.len() as int),
{
    assert forall|k: int| 0 <= k < g1.n() implies from_constraints(cs, cs.len() as int, #[trigger] g1.dtv(k)) by {
        assert(g1.dtv(k) == g0.dtv(k));
    }
    assert forall|e: int| 0 <= e < g1.edges@.len() implies step_from(
        cs,
        cs.len() as int,
        g1.dtv((#[trigger] g1.edges@[e]).0 as int),
        g1.dtv(g1.edges@[e].1 as int),
        g1.edges@[e].2,
    ) by {
        assert(g1.dtv(g1.edges@[e].0 as int) == g0.dtv(g0.edges@[e].0 as int));
        assert(g1.dtv(g1.edges@[e].1 as int) == g0.dtv(g0.edges@[e].1 as int));
    }
}

/// Joining two roots whose variables every congruence relates keeps the classes
/// sound.
proof fn lemma_union_sound(g0: StepGraph, g1: StepGraph, x: int, y: int, cs: Seq<ConstraintView>)
    requires
        g0.wf(),
        g0.sound_for(cs),
        0 <= x < g0.n(),
        0 <= y < g0.n(),
        g0.class@[x] == x,
        g0.class@[y] == y,
        g0.forced(cs, x, y),
        g1.dtvs@ == g0.dtvs@,
        g1.class@ == g0.class@.map_values(|c: int| if c == y { x } else { c }),
    ensures
        g1.sound_for(cs),
{
    assert forall|rel: spec_fn(DtvView, DtvView) -> bool| #[trigger] congruence_of(cs, rel) implies forall|i: int, j: int|
        0 <= i < g1.n() && 0 <= j < g1.n() && g1.class@[i] == g1.class@[j] ==> rel(
            #[trigger] g1.dtv(i),
            #[trigger] g1.dtv(j),
        ) by {
        assert forall|i: int, j: int|
            0 <= i < g1.n() && 0 <= j < g1.n() && g1.class@[i] == g1.class@[j] implies rel(
                #[trigger] g1.dtv(i),
                #[trigger] g1.dtv(j),
            ) by {
            let ci = g0.class@[i];
            let cj = g0.class@[j];
            assert(g1.dtv(i) == g0.dtv(i) && g1.dtv(j) == g0.dtv(j));
            assert(g0.class@[ci] == ci && g0.class@[cj] == cj);
            assert(rel(g0.dtv(i), g0.dtv(ci)));
            assert(rel(g0.dtv(j), g0.dtv(cj)));
            assert(rel(g0.dtv(cj), g0.dtv(j)));
            assert(rel(g0.dtv(x), g0.dtv(y)));
            assert(rel(g0.dtv(y), g0.dtv(x)));
            if ci == cj {
                assert(rel(g0.dtv(i), g0.dtv(j)));
            } else if ci == y {
                assert(cj == x);
                assert(rel(g0.dtv(i), g0.dtv(x)));
            } else {
                assert(ci == x && cj == y);
                assert(rel(g0.dtv(i), g0.dtv(y)));
            }
        }
    }
}

/// Infers the shapes of the variables of `constraints`: builds the step graph of
/// every variable's path, unifies the two sides of each constraint, closes the
/// classes under matching edges and returns the graph of classes.
pub fn shapes_of(constraints: &Vec<&Constraint>) -> (q: QuotientGraph)
    ensures
        forall|i: int|
            0 <= i < constraints@.len() ==> q.same_shape(
                (#[trigger] constraints@[i])@.0,
                constraints@[i]@.1,
            ),
        forall|i: int, p: int|
            0 <= i < constraints@.len() && 0 <= p < constraints@[i]@.0.1.len() ==> q.steps(
                #[trigger] prefix(constraints@[i]@.0, p),
                prefix(constraints@[i]@.0, p + 1),
                constraints@[i]@.0.1[p],
            ),
        forall|i: int, p: int|
            0 <= i < constraints@.len() && 0 <= p < constraints@[i]@.1.1.len() ==> q.steps(
                #[trigger] prefix(constraints@[i]@.1, p),
                prefix(constraints@[i]@.1, p + 1),
                constraints@[i]@.1.1[p],
            ),
        q.placed_once(),
        q.deterministic(),
        q.no_empty_class(),
        q.lists_distinct(),
        q.lists_from(constraint_views(constraints@)),
        q.edges_from(constraint_views(constraints@)),
        forall|rel: spec_fn(DtvView, DtvView) -> bool|
            #[trigger] congruence_of(constraint_views(constraints@), rel) ==> q.classes_within(rel),
        shapes_for(q, constraint_views(constraints@)),
{
    let mut g = StepGraph::empty();
    let mut i: usize = 0;
    while i < constraints.len()
        invariant
            g.wf(),
            i <= constraints@.len(),
            forall|j: int| 0 <= j < i ==> g.has_path((#[trigger] constraints@[j])@.0) && g.has_path(constraints@[j]@.1),
            g.drawn_from(constraint_views(constraints@), i as int),
            g.singletons(),
        decreases constraints@.len() - i,
    {
        let ghost g0 = g;
        g.add_path(&constraints[i].left);
        let ghost g1 = g;
        g.add_path(&constraints[i].right);
        proof {
            g1.lemma_extends_keeps(g0);
            g.lemma_extends_keeps(g1);
            let cs = constraint_views(constraints@);
            assert(cs[i as int] == constraints@[i as int]@);
            assert forall|k: int| 0 <= k < g.n() implies from_constraints(cs, i + 1, #[trigger] g.dtv(k)) by {
                if k < g0.n() {
                    assert(g.dtvs@[k]@ == g0.dtvs@[k]@);
                    assert(from_constraints(cs, i as int, g0.dtv(k)));
                } else if k < g1.n() {
                    assert(g.dtvs@[k]@ == g1.dtvs@[k]@);
                    assert(prefix_of(cs[i as int].0, g1.dtv(k)));
                } else {
                    assert(prefix_of(cs[i as int].1, g.dtv(k)));
                }
            }
            assert forall|e: int| 0 <= e < g.edges@.len() implies step_from(
                cs,
                i + 1,
                g.dtv((#[trigger] g.edges@[e]).0 as int),
                g.dtv(g.edges@[e].1 as int),
                g.edges@[e].2,
            ) by {
                if e < g0.edges@.len() {
                    assert(g.edges@[e] == g0.edges@[e]);
                    assert(g1.edges@[e] == g0.edges@[e]);
                    assert(step_from(cs, i as int, g0.dtv(g0.edges@[e].0 as int), g0.dtv(g0.edges@[e].1 as int), g0.edges@[e].2));
                    assert(g.dtvs@[g0.edges@[e].0 as int]@ == g0.dtvs@[g0.edges@[e].0 as int]@);
                    assert(g.dtvs@[g0.edges@[e].1 as int]@ == g0.dtvs@[g0.edges@[e].1 as int]@);
                } else if e < g1.edges@.len() {
                    assert(g.edges@[e] == g1.edges@[e]);
                    assert(step_in(cs[i as int].0, g1.dtv(g1.edges@[e].0 as int), g1.dtv(g1.edges@[e].1 as int), g1.edges@[e].2));
                    assert(g.dtvs@[g1.edges@[e].0 as int]@ == g1.dtvs@[g1.edges@[e].0 as int]@);
                    assert(g.dtvs@[g1.edges@[e].1 as int]@ == g1.dtvs@[g1.edges@[e].1 as int]@);
                } else {
                    assert(step_in(cs[i as int].1, g.dtv(g.edges@[e].0 as int), g.dtv(g.edges@[e].1 as int), g.edges@[e].2));
                }
            }
        }
        i = i + 1;
    }
    let ghost gb = g;
    let ghost cv = constraint_views(constraints@);
    proof {
        assert forall|rel: spec_fn(DtvView, DtvView) -> bool| #[trigger] congruence_of(cv, rel) implies forall|a: int, b: int|
            0 <= a < g.n() && 0 <= b < g.n() && g.class@[a] == g.class@[b] ==> rel(#[trigger] g.dtv(a), #[trigger] g.dtv(b)) by {
            assert forall|a: int, b: int| 0 <= a < g.n() && 0 <= b < g.n() && g.class@[a] == g.class@[b] implies rel(
                #[trigger] g.dtv(a),
                #[trigger] g.dtv(b),
            ) by {
                assert(g.class@[a] == a && g.class@[b] == b);
                assert(rel(g.dtv(a), g.dtv(a)));
            }
        }
        assert(g.sound_for(cv));
    }
    let mut i: usize = 0;
    while i < constraints.len()
        invariant
            g.wf(),
            i <= constraints@.len(),
            forall|j: int| 0 <= j < constraints@.len() ==> g.has_path((#[trigger] constraints@[j])@.0) && g.has_path(constraints@[j]@.1),
            forall|j: int| 0 <= j < i ==> g.joined((#[trigger] constraints@[j])@.0, constraints@[j]@.1),
            g.dtvs@ == gb.dtvs@,
            g.edges@ == gb.edges@,
            cv == constraint_views(constraints@),
            g.sound_for(cv),
            gb.drawn_from(cv, cv.len() as int),
        decreases constraints@.len() - i,
    {
        let c = constraints[i];
        proof {
            lemma_whole_prefix(c@.0);
            lemma_whole_prefix(c@.1);
            assert(g.has_dtv(prefix(c@.0, c@.0.1.len() as int)));
            assert(g.has_dtv(prefix(c@.1, c@.1.1.len() as int)));
        }
        let x = g.index_of(&c.left).unwrap();
        let y = g.index_of(&c.right).unwrap();
        let ghost g0 = g;
        let rx = g.find(x);
        let ry = g.find(y);
        let ghost g1 = g;
        proof {
            assert(g.drawn_from(cv, cv.len() as int)) by {
                assert forall|k: int| 0 <= k < g.n() implies from_constraints(cv, cv.len() as int, #[trigger] g.dtv(k)) by {
                    assert(g.dtv(k) == gb.dtv(k));
                }
                assert forall|e: int| 0 <= e < g.edges@.len() implies step_from(
                    cv,
                    cv.len() as int,
                    g.dtv((#[trigger] g.edges@[e]).0 as int),
                    g.dtv(g.edges@[e].1 as int),
                    g.edges@[e].2,
                ) by {
                    assert(g.edges@[e] == gb.edges@[e]);
                    assert(g.dtv(g.edges@[e].0 as int) == gb.dtv(gb.edges@[e].0 as int));
                    assert(g.dtv(g.edges@[e].1 as int) == gb.dtv(gb.edges@[e].1 as int));
                }
            }
            assert(cv[i as int] == c@);
            assert forall|rel: spec_fn(DtvView, DtvView) -> bool| #[trigger] congruence_of(cv, rel) implies rel(
                g.dtv(rx as int),
                g.dtv(ry as int),
            ) by {
                assert(g.class@[x as int] == g.class@[rx as int]);
                assert(g.class@[y as int] == g.class@[ry as int]);
                assert(rel(g.dtv(rx as int), g.dtv(x as int)));
                assert(rel(cv[i as int].0, cv[i as int].1));
                assert(rel(g.dtv(x as int), g.dtv(y as int)));
                assert(rel(g.dtv(y as int), g.dtv(ry as int)));
                assert(rel(g.dtv(rx as int), g.dtv(y as int)));
            }
        }
        g.unify(rx, ry, Ghost(cv));
        proof {
            assert(g1.class@[x as int] == g1.class@[rx as int]);
            assert(g1.class@[y as int] == g1.class@[ry as int]);
            assert(g.class@[x as int] == g.class@[y as int]);
            assert(g.dtvs@ == g0.dtvs@);
            assert(g.dtv(x as int) == c@.0);
            assert(g.dtv(y as int) == c@.1);
            assert(constraints@[i as int] == c);
            assert(g.joined(c@.0, c@.1));
            lemma_coarsens_keeps(g1, g);
            lemma_coarsens_keeps(g0, g1);
        }
        i = i + 1;
    }
    let ghost g0 = g;
    proof {
        lemma_drawn_keep(gb, g, cv);
    }
    g.close(Ghost(cv));
    proof {
        lemma_coarsens_keeps(g0, g);
    }
    proof {
        assert(g.dtvs@ == gb.dtvs@ && g.edges@ == gb.edges@);
        assert forall|k: int| 0 <= k < g.n() implies from_constraints(constraint_views(constraints@), constraints@.len() as int, #[trigger] g.dtv(k)) by {
            assert(g.dtv(k) == gb.dtv(k));
        }
        assert forall|e: int| 0 <= e < g.edges@.len() implies step_from(
            constraint_views(constraints@),
            constraints@.len() as int,
            g.dtv((#[trigger] g.edges@[e]).0 as int),
            g.dtv(g.edges@[e].1 as int),
            g.edges@[e].2,
        ) by {
            assert(g.edges@[e] == gb.edges@[e]);
            assert(g.dtv(g.edges@[e].0 as int) == gb.dtv(gb.edges@[e].0 as int));
            assert(g.dtv(g.edges@[e].1 as int) == gb.dtv(gb.edges@[e].1 as int));
        }
    }
    let (q, qof) = g.quotient();
    let _ = q.nodes.len();
    proof {
        lemma_quotient_facts(g, q, qof@, constraints@);
        lemma_quotient_drawn(g, q, qof@, constraint_views(constraints@));
        lemma_quotient_sound(g, q, qof@, constraint_views(constraints@));
    }
    q
}

proof fn lemma_whole_prefix(d: DtvView)
    ensures
        prefix(d, d.1.len() as int) == d,
{
    assert(d.1.subrange(0, d.1.len() as int) =~= d.1);
}

proof fn lemma_coarsens_keeps(g0: StepGraph, g1: StepGraph)
    requires
        g1.coarsens(g0),
    ensures
        forall|d: DtvView| g0.has_path(d) ==> #[trigger] g1.has_path(d),
        forall|a: DtvView, b: DtvView| g0.joined(a, b) ==> #[trigger] g1.joined(a, b),
{
    assert forall|d: DtvView| g0.has_path(d) implies #[trigger] g1.has_path(d) by {
        assert forall|i: int| 0 <= i <= d.1.len() implies g1.has_dtv(#[trigger] prefix(d, i)) by {
            assert(g0.has_dtv(prefix(d, i)));
            let k = choose|k: int| 0 <= k < g0.n() && g0.dtv(k) == prefix(d, i);
            assert(g1.dtv(k) == prefix(d, i));
        }
        assert forall|i: int| 0 <= i < d.1.len() implies g1.has_step(#[trigger] prefix(d, i), prefix(d, i + 1), d.1[i]) by {
            assert(g0.has_step(prefix(d, i), prefix(d, i + 1), d.1[i]));
            let e = choose|e: int|
                0 <= e < g0.edges@.len() && g0.dtv(#[trigger] g0.edges@[e].0 as int) == prefix(d, i) && g0.dtv(
                    g0.edges@[e].1 as int,
                ) == prefix(d, i + 1) && g0.edges@[e].2 == d.1[i];
            assert(g1.dtv(g1.edges@[e].0 as int) == prefix(d, i));
        }
    }
    assert forall|a: DtvView, b: DtvView| g0.joined(a, b) implies #[trigger] g1.joined(a, b) by {
        let (i, j) = choose|i: int, j: int|
            0 <= i < g0.n() && 0 <= j < g0.n() && g0.dtv(i) == a && g0.dtv(j) == b && g0.class@[i] == g0.class@[j];
        assert(g1.class@[i] == g1.class@[j]);
        assert(g1.dtv(i) == a && g1.dtv(j) == b);
    }
}

proof fn lemma_quotient_sound(g: StepGraph, q: QuotientGraph, qof: Seq<int>, cs: Seq<ConstraintView>)
    requires
        g.wf(),
        g.sound_for(cs),
        qof.len() == g.n(),
        forall|i: int, j: int|
            #![trigger qof[i], qof[j]]
            0 <= i < g.n() && 0 <= j < g.n() ==> (qof[i] == qof[j] <==> g.class@[i] == g.class@[j]),
        forall|k: int, p: int|
            #![trigger q.nodes@[k]@[p]]
            0 <= k < q.nodes@.len() && 0 <= p < q.nodes@[k]@.len() ==> g.sourced(qof, k, q.nodes@[k]@[p]@),
    ensures
        forall|rel: spec_fn(DtvView, DtvView) -> bool| #[trigger] congruence_of(cs, rel) ==> q.classes_within(rel),
{
    assert forall|rel: spec_fn(DtvView, DtvView) -> bool| #[trigger] congruence_of(cs, rel) implies q.classes_within(rel) by {
        assert forall|k: int, x: DtvView, y: DtvView| #[trigger] q.holds(k, x) && #[trigger] q.holds(k, y) implies rel(x, y) by {
            let px = choose|p: int| 0 <= p < q.nodes@[k]@.len() && q.nodes@[k]@[p]@ == x;
            let py = choose|p: int| 0 <= p < q.nodes@[k]@.len() && q.nodes@[k]@[p]@ == y;
            assert(g.sourced(qof, k, q.nodes@[k]@[px]@));
            assert(g.sourced(qof, k, q.nodes@[k]@[py]@));
            let i = choose|i: int| 0 <= i < g.n() && qof[i] == k && g.dtv(i) == x;
            let j = choose|j: int| 0 <= j < g.n() && qof[j] == k && g.dtv(j) == y;
            assert(g.class@[i] == g.class@[j]);
        }
    }
}

#[verifier::spinoff_prover]
proof fn lemma_quotient_drawn(g: StepGraph, q: QuotientGraph, qof: Seq<int>, cs: Seq<ConstraintView>)
    requires
        g.wf(),
        g.drawn_from(cs, cs.len() as int),
        q.nodes@.len() <= usize::MAX,
        qof.len() == g.n(),
        forall|i: int| 0 <= i < g.n() ==> q.holds(#[trigger] qof[i], g.dtv(i)),
        forall|k: int, p: int|
            #![trigger q.nodes@[k]@[p]]
            0 <= k < q.nodes@.len() && 0 <= p < q.nodes@[k]@.len() ==> g.sourced(qof, k, q.nodes@[k]@[p]@),
        forall|x: int| 0 <= x < q.edges@.len() ==> g.projected(qof, #[trigger] q.edges@[x]),
    ensures
        q.lists_from(cs),
        q.edges_from(cs),
{
    assert forall|k: int, p: int|
        0 <= k < q.nodes@.len() && 0 <= p < q.nodes@[k]@.len() implies from_constraints(
            cs,
            cs.len() as int,
            #[trigger] q.nodes@[k]@[p]@,
        ) by {
        assert(g.sourced(qof, k, q.nodes@[k]@[p]@));
        let i = choose|i: int| 0 <= i < g.n() && qof[i] == k && g.dtv(i) == q.nodes@[k]@[p]@;
        assert(from_constraints(cs, cs.len() as int, g.dtv(i)));
    }
    assert forall|x: int| 0 <= x < q.edges@.len() implies q.edge_drawn(cs, #[trigger] q.edges@[x]) by {
        assert(g.projected(qof, q.edges@[x]));
        let e = choose|e: int|
            0 <= e < g.edges@.len() && q.edges@[x] == (
                qof[g.edges@[e].0 as int] as usize,
                qof[g.edges@[e].1 as int] as usize,
                g.edges@[e].2,
            );
        let s1 = g.edges@[e].0 as int;
        let t1 = g.edges@[e].1 as int;
        assert(q.holds(qof[s1], g.dtv(s1)));
        assert(q.holds(qof[t1], g.dtv(t1)));
        assert(step_from(cs, cs.len() as int, g.dtv(s1), g.dtv(t1), g.edges@[e].2));
        assert(qof[s1] as usize as int == qof[s1]);
        assert(qof[t1] as usize as int == qof[t1]);
        assert(q.edges@[x].0 as int == qof[s1]);
        assert(q.edges@[x].1 as int == qof[t1]);
        assert(q.holds(q.edges@[x].0 as int, g.dtv(s1)) && q.holds(q.edges@[x].1 as int, g.dtv(t1)) && step_from(
            cs,
            cs.len() as int,
            g.dtv(s1),
            g.dtv(t1),
            q.edges@[x].2,
        ));
    }
}

proof fn lemma_quotient_facts(g: StepGraph, q: QuotientGraph, qof: Seq<int>, cs: Seq<&Constraint>)
    requires
        g.wf(),
        q.nodes@.len() <= usize::MAX,
        g.congruent(),
        forall|j: int| 0 <= j < cs.len() ==> g.has_path((#[trigger] cs[j])@.0) && g.has_path(cs[j]@.1),
        forall|j: int| 0 <= j < cs.len() ==> g.joined((#[trigger] cs[j])@.0, cs[j]@.1),
        qof.len() == g.n(),
        forall|i: int| 0 <= i < g.n() ==> q.holds(#[trigger] qof[i], g.dtv(i)),
        forall|i: int, j: int|
            #![trigger qof[i], qof[j]]
            0 <= i < g.n() && 0 <= j < g.n() ==> (qof[i] == qof[j] <==> g.class@[i] == g.class@[j]),
        forall|k: int, p: int|
            #![trigger q.nodes@[k]@[p]]
            0 <= k < q.nodes@.len() && 0 <= p < q.nodes@[k]@.len() ==> g.sourced(qof, k, q.nodes@[k]@[p]@),
        forall|e: int|
            0 <= e < g.edges@.len() ==> q.edges@.contains(
                (qof[(#[trigger] g.edges@[e]).0 as int] as usize, qof[g.edges@[e].1 as int] as usize, g.edges@[e].2),
            ),
        forall|x: int| 0 <= x < q.edges@.len() ==> g.projected(qof, #[trigger] q.edges@[x]),
        forall|x: int, y: int|
            0 <= x < q.edges@.len() && 0 <= y < q.edges@.len() && x != y ==> q.edges@[x] != q.edges@[y],
    ensures
        forall|i: int| 0 <= i < cs.len() ==> q.same_shape((#[trigger] cs[i])@.0, cs[i]@.1),
        forall|i: int, p: int|
            0 <= i < cs.len() && 0 <= p < cs[i]@.0.1.len() ==> q.steps(
                #[trigger] prefix(cs[i]@.0, p),
                prefix(cs[i]@.0, p + 1),
                cs[i]@.0.1[p],
            ),
        forall|i: int, p: int|
            0 <= i < cs.len() && 0 <= p < cs[i]@.1.1.len() ==> q.steps(
                #[trigger] prefix(cs[i]@.1, p),
                prefix(cs[i]@.1, p + 1),
                cs[i]@.1.1[p],
            ),
        q.placed_once(),
        q.deterministic(),
{
    assert forall|i: int| 0 <= i < cs.len() implies q.same_shape((#[trigger] cs[i])@.0, cs[i]@.1) by {
        assert(g.joined(cs[i]@.0, cs[i]@.1));
        let (a, b) = choose|a: int, b: int|
            0 <= a < g.n() && 0 <= b < g.n() && g.dtv(a) == cs[i]@.0 && g.dtv(b) == cs[i]@.1 && g.class@[a] == g.class@[b];
        assert(qof[a] == qof[b]);
        assert(q.holds(qof[a], g.dtv(a)));
        assert(q.holds(qof[b], g.dtv(b)));
    }
    assert forall|d: DtvView, i: int, p: int|
        g.has_step(prefix(d, p), prefix(d, p + 1), d.1[i]) && i == p implies q.steps(prefix(d, p), prefix(d, p + 1), d.1[p]) by {
        let e = choose|e: int|
            0 <= e < g.edges@.len() && g.dtv(#[trigger] g.edges@[e].0 as int) == prefix(d, p) && g.dtv(g.edges@[e].1 as int)
                == prefix(d, p + 1) && g.edges@[e].2 == d.1[p];
        let s = g.edges@[e].0 as int;
        let t = g.edges@[e].1 as int;
        assert(q.holds(qof[s], g.dtv(s)));
        assert(q.holds(qof[t], g.dtv(t)));
        assert(q.edges@.contains((qof[s] as usize, qof[t] as usize, d.1[p])));
    }
    assert forall|i: int, p: int|
        0 <= i < cs.len() && 0 <= p < cs[i]@.0.1.len() implies q.steps(
            #[trigger] prefix(cs[i]@.0, p),
            prefix(cs[i]@.0, p + 1),
            cs[i]@.0.1[p],
        ) by {
        assert(g.has_path(cs[i]@.0));
        assert(g.has_step(prefix(cs[i]@.0, p), prefix(cs[i]@.0, p + 1), cs[i]@.0.1[p]));
    }
    assert forall|i: int, p: int|
        0 <= i < cs.len() && 0 <= p < cs[i]@.1.1.len() implies q.steps(
            #[trigger] prefix(cs[i]@.1, p),
            prefix(cs[i]@.1, p + 1),
            cs[i]@.1.1[p],
        ) by {
        assert(g.has_path(cs[i]@.1));
        assert(g.has_step(prefix(cs[i]@.1, p), prefix(cs[i]@.1, p + 1), cs[i]@.1.1[p]));
    }
    assert forall|k1: int, k2: int, d: DtvView| #[trigger] q.holds(k1, d) && #[trigger] q.holds(k2, d) implies k1 == k2 by {
        let p1 = choose|p: int| 0 <= p < q.nodes@[k1]@.len() && q.nodes@[k1]@[p]@ == d;
        let p2 = choose|p: int| 0 <= p < q.nodes@[k2]@.len() && q.nodes@[k2]@[p]@ == d;
        assert(g.sourced(qof, k1, q.nodes@[k1]@[p1]@));
        assert(g.sourced(qof, k2, q.nodes@[k2]@[p2]@));
        let i1 = choose|i: int| 0 <= i < g.n() && qof[i] == k1 && g.dtv(i) == d;
        let i2 = choose|i: int| 0 <= i < g.n() && qof[i] == k2 && g.dtv(i) == d;
        assert(i1 == i2);
    }
    assert forall|x: int, y: int|
        0 <= x < q.edges@.len() && 0 <= y < q.edges@.len() && (#[trigger] q.edges@[x]).0 == (#[trigger] q.edges@[y]).0
            && labels_match(q.edges@[x].2, q.edges@[y].2) implies q.edges@[x].1 == q.edges@[y].1 by {
        assert(g.projected(qof, q.edges@[x]));
        assert(g.projected(qof, q.edges@[y]));
        let e1 = choose|e: int|
            0 <= e < g.edges@.len() && q.edges@[x] == (
                qof[g.edges@[e].0 as int] as usize,
                qof[g.edges@[e].1 as int] as usize,
                g.edges@[e].2,
            );
        let e2 = choose|e: int|
            0 <= e < g.edges@.len() && q.edges@[y] == (
                qof[g.edges@[e].0 as int] as usize,
                qof[g.edges@[e].1 as int] as usize,
                g.edges@[e].2,
            );
        let s1 = g.edges@[e1].0 as int;
        let s2 = g.edges@[e2].0 as int;
        let t1 = g.edges@[e1].1 as int;
        let t2 = g.edges@[e2].1 as int;
        assert(q.holds(qof[s1], g.dtv(s1)));
        assert(q.holds(qof[s2], g.dtv(s2)));
        assert(q.holds(qof[t1], g.dtv(t1)));
        assert(q.holds(qof[t2], g.dtv(t2)));
        assert(qof[s1] == qof[s2]);
        assert(g.class@[s1] == g.class@[s2]);
        assert(pair_closed(g.class@, g.edges@, e1, e2));
        assert(g.class@[t1] == g.class@[t2]);
        assert(qof[t1] == qof[t2]);
    }
}

/// What `shapes_of` promises of `q` for the constraints `cs`.
pub open spec fn shapes_for(q: QuotientGraph, cs: Seq<ConstraintView>) -> bool {
    &&& q.nodes@.len() <= usize::MAX
    &&& forall|i: int| 0 <= i < cs.len() ==> q.same_shape((#[trigger] cs[i]).0, cs[i].1)
    &&& forall|i: int, p: int|
        0 <= i < cs.len() && 0 <= p < cs[i].0.1.len() ==> q.steps(
            #[trigger] prefix(cs[i].0, p),
            prefix(cs[i].0, p + 1),
            cs[i].0.1[p],
        )
    &&& forall|i: int, p: int|
        0 <= i < cs.len() && 0 <= p < cs[i].1.1.len() ==> q.steps(
            #[trigger] prefix(cs[i].1, p),
            prefix(cs[i].1, p + 1),
            cs[i].1.1[p],
        )
    &&& q.placed_once()
    &&& q.deterministic()
    &&& q.lists_from(cs)
    &&& forall|rel: spec_fn(DtvView, DtvView) -> bool| #[trigger] congruence_of(cs, rel) ==> q.classes_within(rel)
}

proof fn lemma_held_prefix(q: QuotientGraph, cs: Seq<ConstraintView>, d: DtvView, x: DtvView)
    requires
        forall|i: int| 0 <= i < cs.len() ==> q.same_shape((#[trigger] cs[i]).0, cs[i].1),
        forall|i: int, p: int|
            0 <= i < cs.len() && 0 <= p < cs[i].0.1.len() ==> q.steps(
                #[trigger] prefix(cs[i].0, p),
                prefix(cs[i].0, p + 1),
                cs[i].0.1[p],
            ),
        forall|i: int, p: int|
            0 <= i < cs.len() && 0 <= p < cs[i].1.1.len() ==> q.steps(
                #[trigger] prefix(cs[i].1, p),
                prefix(cs[i].1, p + 1),
                cs[i].1.1[p],
            ),
        exists|i: int| 0 <= i < cs.len() && (cs[i].0 == d || cs[i].1 == d),
        prefix_of(d, x),
    ensures
        exists|k: int| q.holds(k, x),
{
    let i = choose|i: int| 0 <= i < cs.len() && (cs[i].0 == d || cs[i].1 == d);
    let p = choose|p: int| 0 <= p <= d.1.len() && x == prefix(d, p);
    if p < d.1.len() {
        assert(q.steps(prefix(d, p), prefix(d, p + 1), d.1[p]));
        let (k1, k2) = choose|k1: int, k2: int|
            #![trigger q.holds(k1, prefix(d, p)), q.holds(k2, prefix(d, p + 1))]
            q.holds(k1, prefix(d, p)) && q.holds(k2, prefix(d, p + 1)) && q.edges@.contains((k1 as usize, k2 as usize, d.1[p]));
        assert(q.holds(k1, x));
    } else if p > 0 {
        assert(q.steps(prefix(d, p - 1), prefix(d, p), d.1[p - 1]));
        let (k1, k2) = choose|k1: int, k2: int|
            #![trigger q.holds(k1, prefix(d, p - 1)), q.holds(k2, prefix(d, p))]
            q.holds(k1, prefix(d, p - 1)) && q.holds(k2, prefix(d, p)) && q.edges@.contains((k1 as usize, k2 as usize, d.1[p - 1]));
        assert(q.holds(k2, x));
    } else {
        assert(d.1.subrange(0, 0) =~= d.1);
        assert(prefix(d, 0) == d);
        assert(q.same_shape(cs[i].0, cs[i].1));
        let k = choose|k: int| q.holds(k, cs[i].0) && q.holds(k, cs[i].1);
        assert(q.holds(k, x));
    }
}

/// The relation "listed by one node of `q`", made reflexive on all variables, is a
/// congruence of `cs2` when `q` is what `shapes_of` gives for `cs1` with the same
/// constraints.
proof fn lemma_shape_relation(q: QuotientGraph, cs1: Seq<ConstraintView>, cs2: Seq<ConstraintView>)
    requires
        shapes_for(q, cs1),
        cs1.to_set() == cs2.to_set(),
    ensures
        congruence_of(cs2, |x: DtvView, y: DtvView| x == y || q.same_shape(x, y)),
{
    let rel = |x: DtvView, y: DtvView| x == y || q.same_shape(x, y);
    assert forall|x: DtvView, y: DtvView, z: DtvView| #[trigger] rel(x, y) && #[trigger] rel(y, z) implies rel(x, z) by {
        if x != y && y != z {
            let k1 = choose|k: int| q.holds(k, x) && q.holds(k, y);
            let k2 = choose|k: int| q.holds(k, y) && q.holds(k, z);
            assert(k1 == k2);
        }
    }
    assert forall|i: int| 0 <= i < cs2.len() implies rel((#[trigger] cs2[i]).0, cs2[i].1) by {
        assert(cs2.to_set().contains(cs2[i]));
        let j = choose|j: int| 0 <= j < cs1.len() && cs1[j] == cs2[i];
        assert(q.same_shape(cs1[j].0, cs1[j].1));
    }
    assert forall|a: DtvView, a2: DtvView, f: FieldLabel, b: DtvView, b2: DtvView, g: FieldLabel|
        #[trigger] step_from(cs2, cs2.len() as int, a, a2, f) && #[trigger] step_from(cs2, cs2.len() as int, b, b2, g)
            && rel(a, b) && labels_match(f, g) implies rel(a2, b2) by {
        lemma_step_held(q, cs1, cs2, a, a2, f);
        lemma_step_held(q, cs1, cs2, b, b2, g);
        let (k1, k2) = choose|k1: int, k2: int| #![trigger q.holds(k1, a), q.holds(k2, a2)] q.holds(k1, a) && q.holds(k2, a2) && q.edges@.contains((k1 as usize, k2 as usize, f));
        let (k3, k4) = choose|k3: int, k4: int| #![trigger q.holds(k3, b), q.holds(k4, b2)] q.holds(k3, b) && q.holds(k4, b2) && q.edges@.contains((k3 as usize, k4 as usize, g));
        if a == b {
            assert(k1 == k3);
        } else {
            let k = choose|k: int| q.holds(k, a) && q.holds(k, b);
            assert(k1 == k && k3 == k);
        }
        let x = choose|x: int| 0 <= x < q.edges@.len() && q.edges@[x] == (k1 as usize, k2 as usize, f);
        let y = choose|y: int| 0 <= y < q.edges@.len() && q.edges@[y] == (k3 as usize, k4 as usize, g);
        assert(q.edges@[x].0 == q.edges@[y].0);
        assert(q.edges@[x].1 == q.edges@[y].1);
        assert(k2 == k4);
        assert(q.holds(k2, a2) && q.holds(k2, b2));
    }
}

proof fn lemma_step_held(q: QuotientGraph, cs1: Seq<ConstraintView>, cs2: Seq<ConstraintView>, a: DtvView, a2: DtvView, f: FieldLabel)
    requires
        shapes_for(q, cs1),
        cs1.to_set() == cs2.to_set(),
        step_from(cs2, cs2.len() as int, a, a2, f),
    ensures
        q.steps(a, a2, f),
{
    let j = choose|j: int| 0 <= j < cs2.len() && (step_in(cs2[j].0, a, a2, f) || step_in(cs2[j].1, a, a2, f));
    assert(cs2.to_set().contains(cs2[j]));
    let i = choose|i: int| 0 <= i < cs1.len() && cs1[i] == cs2[j];
    if step_in(cs2[j].0, a, a2, f) {
        let p = choose|p: int| 0 <= p < cs2[j].0.1.len() && a == prefix(cs2[j].0, p) && a2 == prefix(cs2[j].0, p + 1) && f == cs2[j].0.1[p];
        assert(q.steps(prefix(cs1[i].0, p), prefix(cs1[i].0, p + 1), cs1[i].0.1[p]));
    } else {
        let p = choose|p: int| 0 <= p < cs2[j].1.1.len() && a == prefix(cs2[j].1, p) && a2 == prefix(cs2[j].1, p + 1) && f == cs2[j].1.1[p];
        assert(q.steps(prefix(cs1[i].1, p), prefix(cs1[i].1, p + 1), cs1[i].1.1[p]));
    }
}

/// The inferred shapes do not depend on the order of the constraints: for the same
/// set of constraints, two results list the same variables together.
pub proof fn lemma_shapes_order_free(q1: QuotientGraph, q2: QuotientGraph, cs1: Seq<ConstraintView>, cs2: Seq<ConstraintView>, x: DtvView, y: DtvView)
    requires
        shapes_for(q1, cs1),
        shapes_for(q2, cs2),
        cs1.to_set() == cs2.to_set(),
    ensures
        q1.same_shape(x, y) <==> q2.same_shape(x, y),
{
    lemma_shape_relation(q2, cs2, cs1);
    lemma_shape_relation(q1, cs1, cs2);
    let rel2 = |u: DtvView, v: DtvView| u == v || q2.same_shape(u, v);
    let rel1 = |u: DtvView, v: DtvView| u == v || q1.same_shape(u, v);
    assert(q1.classes_within(rel2));
    assert(q2.classes_within(rel1));
    if q1.same_shape(x, y) {
        let k = choose|k: int| q1.holds(k, x) && q1.holds(k, y);
        assert(rel2(x, y));
        if x == y {
            lemma_listed_in_other(q1, q2, cs1, cs2, k, x);
        }
    }
    if q2.same_shape(x, y) {
        let k = choose|k: int| q2.holds(k, x) && q2.holds(k, y);
        assert(rel1(x, y));
        if x == y {
            lemma_listed_in_other(q2, q1, cs2, cs1, k, x);
        }
    }
}

proof fn lemma_listed_in_other(q1: QuotientGraph, q2: QuotientGraph, cs1: Seq<ConstraintView>, cs2: Seq<ConstraintView>, k: int, x: DtvView)
    requires
        shapes_for(q1, cs1),
        shapes_for(q2, cs2),
        cs1.to_set() == cs2.to_set(),
        q1.holds(k, x),
    ensures
        q2.same_shape(x, x),
{
    let p = choose|p: int| 0 <= p < q1.nodes@[k]@.len() && q1.nodes@[k]@[p]@ == x;
    assert(from_constraints(cs1, cs1.len() as int, q1.nodes@[k]@[p]@));
    let j = choose|j: int| 0 <= j < cs1.len() && (prefix_of(cs1[j].0, x) || prefix_of(cs1[j].1, x));
    assert(cs1.to_set().contains(cs1[j]));
    let i = choose|i: int| 0 <= i < cs2.len() && cs2[i] == cs1[j];
    let d = if prefix_of(cs1[j].0, x) { cs1[j].0 } else { cs1[j].1 };
    lemma_held_prefix(q2, cs2, d, x);
    let k2 = choose|k2: int| q2.holds(k2, x);
    assert(q2.holds(k2, x) && q2.holds(k2, x));
}

} // verus!
