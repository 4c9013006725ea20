//! The constraint graph ("transducer"): nodes are derived type variables at a
//! variance, edges are identity steps and the forget/recall moves of a field.

use crate::digraph::{
    edge_count, edge_ends, edge_label, graph_edges, graph_nodes, index_limit, new_graph, node_at,
    node_count, push_edge, push_node,
};
use crate::schema::{Constraint, ConstraintView, DerivedTypeVariable, DtvView, FieldLabel, Variance};
use petgraph::graph::DiGraph;
use vstd::prelude::*;

verus! {

/// Label of a constraint-graph edge.
#[derive(PartialEq, Eq, Structural, Hash, Clone, Copy, Debug)]
pub enum EdgeLabel {
    /// A proven or assumed direct subtyping step.
    One,
    /// Drop the last field of the path.
    Forget { capability: FieldLabel },
    /// Put a field back at the end of the path.
    Recall { capability: FieldLabel },
}

/// Origin mark of a node; every node built here carries `Unmarked`.
#[derive(PartialEq, Eq, Structural, Hash, Clone, Copy, Debug)]
pub enum SideMark {
    Unmarked,
    Left,
    Right,
}

/// Abstract value of a node: variable, accumulated suffix variance, side mark.
pub type NodeView = (DtvView, Variance, SideMark);

/// A node of the constraint graph.
#[derive(Clone, Debug, Hash)]
pub struct Node {
    pub base: DerivedTypeVariable,
    pub suffix_variance: Variance,
    pub sidemark: SideMark,
}

impl View for Node {
    type V = NodeView;

    open spec fn view(&self) -> NodeView {
        (self.base@, self.suffix_variance, self.sidemark)
    }
}

/// The node one step shorter: last label dropped, its variance composed in.
pub open spec fn forget_step(n: NodeView) -> NodeView {
    let fields = n.0.1;
    ((n.0.0, fields.drop_last()), n.1.compose(fields.last().spec_variance()), n.2)
}

/// The node reached from `n` by forgetting its last `k` labels one at a time.
pub open spec fn forgotten(n: NodeView, k: nat) -> NodeView
    decreases k,
{
    if k == 0 {
        n
    } else {
        forget_step(forgotten(n, (k - 1) as nat))
    }
}

/// The same node at the other variance.
pub open spec fn twin(n: NodeView) -> NodeView {
    (n.0, n.1.flipped(), n.2)
}

pub proof fn lemma_forgotten_shape(n: NodeView, k: nat)
    requires
        k <= n.0.1.len(),
    ensures
        forgotten(n, k).0.0 == n.0.0,
        forgotten(n, k).0.1 == n.0.1.subrange(0, n.0.1.len() - k),
        forgotten(n, k).2 == n.2,
    decreases k,
{
    if k > 0 {
        lemma_forgotten_shape(n, (k - 1) as nat);
        assert(n.0.1.subrange(0, n.0.1.len() - (k - 1)).drop_last() =~= n.0.1.subrange(
            0,
            n.0.1.len() - k,
        ));
    }
}

/// Forgetting commutes with flipping the variance.
pub proof fn lemma_forgotten_twin(n: NodeView, k: nat)
    requires
        k <= n.0.1.len(),
    ensures
        forgotten(twin(n), k) == twin(forgotten(n, k)),
    decreases k,
{
    if k > 0 {
        lemma_forgotten_twin(n, (k - 1) as nat);
        lemma_forgotten_shape(n, (k - 1) as nat);
    }
}

impl Node {
    /// Whether both nodes have the same variable, variance and mark.
    pub fn same_as(&self, other: &Node) -> (r: bool)
        ensures
            r == (self@ == other@),
    {
        self.base.same_as(&other.base) && self.suffix_variance == other.suffix_variance
            && self.sidemark == other.sidemark
    }

    /// A copy with the same variable, variance and mark.
    pub fn duplicate(&self) -> (r: Node)
        ensures
            r@ == self@,
    {
        Node { base: self.base.duplicate(), suffix_variance: self.suffix_variance, sidemark: self.sidemark }
    }

    /// Drops the last label of the path: the label, and the shorter node whose suffix
    /// variance takes that label's variance in. `None` on an empty path.
    pub fn forget_once(&self) -> (r: Option<(FieldLabel, Node)>)
        ensures
            self@.0.1.len() == 0 <==> r is None,
            r matches Some((l, n)) ==> l == self@.0.1.last() && n@ == forget_step(self@),
    {
        if self.base.fields.len() == 0 {
            return None;
        }
        let len = self.base.fields.len();
        let last = self.base.fields[len - 1];
        let base = self.base.get_sub_dtv(len - 1);
        let variance = self.suffix_variance.combine(&last.variance());
        assert(self@.0.1.subrange(0, len - 1) =~= self@.0.1.drop_last());
        Some((last, Node { base, suffix_variance: variance, sidemark: self.sidemark }))
    }
}


/// A node view of `d` at a variance, unmarked.
pub open spec fn at_variance(d: DtvView, v: Variance) -> NodeView {
    (d, v, SideMark::Unmarked)
}

/// Whether an edge from a node with view `a` to one with view `b` carries label `l`.
pub open spec fn has_edge(
    ns: Seq<NodeView>,
    es: Seq<(int, int, EdgeLabel)>,
    a: NodeView,
    b: NodeView,
    l: EdgeLabel,
) -> bool {
    exists|e: int|
        0 <= e < es.len() && 0 <= #[trigger] es[e].0 < ns.len() && 0 <= es[e].1 < ns.len()
            && ns[es[e].0] == a && ns[es[e].1] == b && es[e].2 == l
}

/// The second graph keeps every node and edge of the first at its index.
pub open spec fn grows(
    ns1: Seq<NodeView>,
    es1: Seq<(int, int, EdgeLabel)>,
    ns2: Seq<NodeView>,
    es2: Seq<(int, int, EdgeLabel)>,
) -> bool {
    &&& ns1.len() <= ns2.len()
    &&& es1.len() <= es2.len()
    &&& forall|i: int| 0 <= i < ns1.len() ==> ns2[i] == ns1[i]
    &&& forall|e: int| 0 <= e < es1.len() ==> es2[e] == es1[e]
}

/// Every node has its twin at the other variance.
pub open spec fn twin_closed(ns: Seq<NodeView>) -> bool {
    forall|i: int| 0 <= i < ns.len() ==> ns.contains(twin(#[trigger] ns[i]))
}

/// From `n`, the chain of shorter nodes exists, each linked to the next longer one
/// by a recall edge of the label it lacks.
pub open spec fn recall_chain(ns: Seq<NodeView>, es: Seq<(int, int, EdgeLabel)>, n: NodeView) -> bool {
    let len = n.0.1.len();
    &&& forall|k: nat| k <= len ==> ns.contains(#[trigger] forgotten(n, k))
    &&& forall|k: nat|
        k < len ==> has_edge(
            ns,
            es,
            #[trigger] forgotten(n, k + 1),
            forgotten(n, k),
            EdgeLabel::Recall { capability: n.0.1[len - 1 - k] },
        )
}

/// From `n`, the chain of shorter nodes exists, each reached from the next longer
/// one by a forget edge of the label it lacks.
pub open spec fn forget_chain(ns: Seq<NodeView>, es: Seq<(int, int, EdgeLabel)>, n: NodeView) -> bool {
    let len = n.0.1.len();
    &&& forall|k: nat| k <= len ==> ns.contains(#[trigger] forgotten(n, k))
    &&& forall|k: nat|
        k < len ==> has_edge(
            ns,
            es,
            forgotten(n, k),
            #[trigger] forgotten(n, k + 1),
            EdgeLabel::Forget { capability: n.0.1[len - 1 - k] },
        )
}

/// What the builder puts in the graph for the constraint `c.0 <= c.1`: its two
/// identity edges (refused as self-loops when both sides are one variable) and the
/// chains of both sides.
#[verifier::opaque]
pub open spec fn encodes(ns: Seq<NodeView>, es: Seq<(int, int, EdgeLabel)>, c: ConstraintView) -> bool {
    let (l, r) = c;
    &&& l != r ==> has_edge(ns, es, at_variance(l, Variance::Covariant), at_variance(r, Variance::Covariant), EdgeLabel::One)
    &&& l != r ==> has_edge(ns, es, at_variance(r, Variance::Contravariant), at_variance(l, Variance::Contravariant), EdgeLabel::One)
    &&& recall_chain(ns, es, at_variance(l, Variance::Covariant))
    &&& recall_chain(ns, es, at_variance(l, Variance::Contravariant))
    &&& forget_chain(ns, es, at_variance(r, Variance::Covariant))
    &&& forget_chain(ns, es, at_variance(r, Variance::Contravariant))
}

/// `after` is `before` with node `n` inserted: unchanged when `n` is there already.
pub open spec fn node_added(before: Seq<NodeView>, after: Seq<NodeView>, n: NodeView) -> bool {
    if before.contains(n) {
        after == before
    } else {
        after == before.push(n)
    }
}

/// `after` is `before` with edge `e` inserted: unchanged when `e` is a self-loop
/// or there already.
pub open spec fn edge_added(before: Seq<(int, int, EdgeLabel)>, after: Seq<(int, int, EdgeLabel)>, e: (int, int, EdgeLabel)) -> bool {
    if e.0 != e.1 && !before.contains(e) {
        after == before.push(e)
    } else {
        after == before
    }
}

/// Inserting a node or an edge twice gives what inserting it once gives, and a
/// self-loop is never inserted.
pub proof fn lemma_insertion_idempotent(
    ns1: Seq<NodeView>,
    ns2: Seq<NodeView>,
    ns3: Seq<NodeView>,
    n: NodeView,
    es1: Seq<(int, int, EdgeLabel)>,
    es2: Seq<(int, int, EdgeLabel)>,
    es3: Seq<(int, int, EdgeLabel)>,
    e: (int, int, EdgeLabel),
)
    requires
        node_added(ns1, ns2, n),
        node_added(ns2, ns3, n),
        edge_added(es1, es2, e),
        edge_added(es2, es3, e),
    ensures
        ns3 == ns2,
        ns2.contains(n),
        ns2.len() <= ns1.len() + 1,
        es3 == es2,
        es2.len() <= es1.len() + 1,
        e.0 == e.1 ==> es2 == es1,
        e.0 != e.1 ==> es2.contains(e),
{
    if !ns1.contains(n) {
        assert(ns2[ns2.len() - 1] == n);
    }
    if e.0 != e.1 && !es1.contains(e) {
        assert(es2[es2.len() - 1] == e);
    }
}

/// Whether the builder makes edge `a -> b` labelled `l` for constraint `c`: one of
/// its two identity edges, a recall step up a chain of its left side, or a forget
/// step down a chain of its right side.
pub open spec fn built_edge(c: ConstraintView, a: NodeView, b: NodeView, l: EdgeLabel) -> bool {
    ||| l == EdgeLabel::One && a == at_variance(c.0, Variance::Covariant) && b == at_variance(c.1, Variance::Covariant)
    ||| l == EdgeLabel::One && a == at_variance(c.1, Variance::Contravariant) && b == at_variance(
        c.0,
        Variance::Contravariant,
    )
    ||| recall_edge_of(at_variance(c.0, Variance::Covariant), a, b, l)
    ||| recall_edge_of(at_variance(c.0, Variance::Contravariant), a, b, l)
    ||| forget_edge_of(at_variance(c.1, Variance::Covariant), a, b, l)
    ||| forget_edge_of(at_variance(c.1, Variance::Contravariant), a, b, l)
}

/// Whether some constraint among the first `upto` gives that edge.
pub open spec fn built_by(cs: Seq<ConstraintView>, upto: int, a: NodeView, b: NodeView, l: EdgeLabel) -> bool {
    exists|j: int| 0 <= j < upto && j < cs.len() && built_edge(cs[j], a, b, l)
}

/// Every edge from position `lo` on is `built_edge` of `c`.
pub open spec fn edges_built(ns: Seq<NodeView>, es: Seq<(int, int, EdgeLabel)>, lo: int, c: ConstraintView) -> bool {
    forall|e: int| lo <= e < es.len() ==> built_edge(c, ns[(#[trigger] es[e]).0], ns[es[e].1], es[e].2)
}

proof fn lemma_built_keeps(
    ns1: Seq<NodeView>,
    es1: Seq<(int, int, EdgeLabel)>,
    ns2: Seq<NodeView>,
    es2: Seq<(int, int, EdgeLabel)>,
    lo: int,
    c: ConstraintView,
)
    requires
        grows(ns1, es1, ns2, es2),
        0 <= lo,
        forall|e: int| 0 <= e < es1.len() ==> 0 <= (#[trigger] es1[e]).0 < ns1.len() && 0 <= es1[e].1 < ns1.len(),
        edges_built(ns1, es1, lo, c),
        forall|e: int| es1.len() <= e < es2.len() ==> built_edge(c, ns2[(#[trigger] es2[e]).0], ns2[es2[e].1], es2[e].2),
    ensures
        edges_built(ns2, es2, lo, c),
{
    assert forall|e: int| lo <= e < es2.len() implies built_edge(c, ns2[(#[trigger] es2[e]).0], ns2[es2[e].1], es2[e].2) by {
        if e < es1.len() {
            assert(es2[e] == es1[e]);
            assert(ns2[es1[e].0] == ns1[es1[e].0]);
            assert(ns2[es1[e].1] == ns1[es1[e].1]);
        }
    }
}

/// Whether node view `n` is one of the chain nodes that constraint `c` brings.
pub open spec fn chain_node_of(c: ConstraintView, n: NodeView) -> bool {
    exists|k: nat, d: DtvView, v: Variance|
        (d == c.0 || d == c.1) && k <= d.1.len() && n == #[trigger] forgotten(at_variance(d, v), k)
}

/// Whether `n` is a chain node of one of the first `upto` constraints.
pub open spec fn covered(cs: Seq<ConstraintView>, upto: int, n: NodeView) -> bool {
    exists|j: int| 0 <= j < upto && j < cs.len() && chain_node_of(cs[j], n)
}

/// Room that the builder needs for one constraint, in nodes and in edges.
pub open spec fn constraint_cost(c: ConstraintView) -> int {
    2 * (c.0.1.len() as int) + 2 * (c.1.1.len() as int) + 4
}

pub open spec fn constraints_cost(cs: Seq<ConstraintView>) -> int
    decreases cs.len(),
{
    if cs.len() == 0 {
        0
    } else {
        constraints_cost(cs.drop_last()) + constraint_cost(cs.last())
    }
}

pub proof fn lemma_grows_keeps(
    ns1: Seq<NodeView>,
    es1: Seq<(int, int, EdgeLabel)>,
    ns2: Seq<NodeView>,
    es2: Seq<(int, int, EdgeLabel)>,
)
    requires
        grows(ns1, es1, ns2, es2),
    ensures
        forall|n: NodeView| ns1.contains(n) ==> #[trigger] ns2.contains(n),
        forall|a: NodeView, b: NodeView, l: EdgeLabel|
            has_edge(ns1, es1, a, b, l) ==> #[trigger] has_edge(ns2, es2, a, b, l),
        forall|n: NodeView| recall_chain(ns1, es1, n) ==> #[trigger] recall_chain(ns2, es2, n),
        forall|n: NodeView| forget_chain(ns1, es1, n) ==> #[trigger] forget_chain(ns2, es2, n),
        forall|c: ConstraintView| encodes(ns1, es1, c) ==> #[trigger] encodes(ns2, es2, c),
{
    reveal(encodes);
    assert forall|n: NodeView| ns1.contains(n) implies #[trigger] ns2.contains(n) by {
        let i = choose|i: int| 0 <= i < ns1.len() && ns1[i] == n;
        assert(ns2[i] == n);
    }
    assert forall|a: NodeView, b: NodeView, l: EdgeLabel|
        has_edge(ns1, es1, a, b, l) implies #[trigger] has_edge(ns2, es2, a, b, l) by {
        let e = choose|e: int|
            0 <= e < es1.len() && 0 <= #[trigger] es1[e].0 < ns1.len() && 0 <= es1[e].1 < ns1.len()
                && ns1[es1[e].0] == a && ns1[es1[e].1] == b && es1[e].2 == l;
        assert(es2[e] == es1[e]);
        assert(ns2[es2[e].0] == a);
    }
}


/// The abstract values of a list of constraints.
pub open spec fn constraint_views(cs: Seq<&Constraint>) -> Seq<ConstraintView> {
    cs.map_values(|c: &Constraint| c@)
}

pub proof fn lemma_cost_prefix(cs: Seq<ConstraintView>, i: int)
    requires
        0 <= i <= cs.len(),
    ensures
        0 <= constraints_cost(cs.subrange(0, i)) <= constraints_cost(cs),
    decreases cs.len() - i,
{
    lemma_cost_nonneg(cs.subrange(0, i));
    if i < cs.len() {
        lemma_cost_prefix(cs, i + 1);
        assert(cs.subrange(0, i + 1).drop_last() =~= cs.subrange(0, i));
    } else {
        assert(cs.subrange(0, i) =~= cs);
        lemma_cost_nonneg(cs);
    }
}

pub proof fn lemma_cost_nonneg(cs: Seq<ConstraintView>)
    ensures
        constraints_cost(cs) >= 0,
    decreases cs.len(),
{
    if cs.len() > 0 {
        lemma_cost_nonneg(cs.drop_last());
    }
}

/// The twin of a chain node of an encoded constraint is in the graph too.
pub proof fn lemma_encoded_twin(ns: Seq<NodeView>, es: Seq<(int, int, EdgeLabel)>, c: ConstraintView, n: NodeView)
    requires
        encodes(ns, es, c),
        chain_node_of(c, n),
    ensures
        ns.contains(twin(n)),
{
    reveal(encodes);
    let (k, d, v) = choose|k: nat, d: DtvView, v: Variance|
        (d == c.0 || d == c.1) && k <= d.1.len() && n == #[trigger] forgotten(at_variance(d, v), k);
    lemma_forgotten_twin(at_variance(d, v), k);
    assert(twin(at_variance(d, v)) == at_variance(d, v.flipped()));
    let t = forgotten(at_variance(d, v.flipped()), k);
    if v.flipped() == Variance::Covariant {
        assert(ns.contains(t));
    } else {
        assert(ns.contains(t));
    }
}

/// Edge `a -> b` labelled `l` is a recall edge up the chain below `start`: from a
/// node to the next longer one, labelled with the field between them.
pub open spec fn recall_edge_of(start: NodeView, a: NodeView, b: NodeView, l: EdgeLabel) -> bool {
    exists|k: nat|
        #![trigger forgotten(start, k)]
        k < start.0.1.len() && a == forgotten(start, k + 1) && b == forgotten(start, k) && l
            == EdgeLabel::Recall { capability: start.0.1[start.0.1.len() - 1 - k] }
}

/// Edge `a -> b` labelled `l` is a forget edge down the chain below `start`: from a
/// node to the next shorter one, labelled with the field between them.
pub open spec fn forget_edge_of(start: NodeView, a: NodeView, b: NodeView, l: EdgeLabel) -> bool {
    exists|k: nat|
        #![trigger forgotten(start, k)]
        k < start.0.1.len() && a == forgotten(start, k) && b == forgotten(start, k + 1) && l
            == EdgeLabel::Forget { capability: start.0.1[start.0.1.len() - 1 - k] }
}

/// Whether `n` is `start` with some of its last labels forgotten.
pub open spec fn on_chain(start: NodeView, n: NodeView) -> bool {
    exists|k: nat| k <= start.0.1.len() && n == #[trigger] forgotten(start, k)
}

/// Every node from position `from` on is a chain node of `c`.
pub open spec fn fresh_chain(ns: Seq<NodeView>, from: int, c: ConstraintView) -> bool {
    forall|m: int| from <= m < ns.len() ==> chain_node_of(c, #[trigger] ns[m])
}

proof fn lemma_fresh_root(ns1: Seq<NodeView>, ns2: Seq<NodeView>, from: int, c: ConstraintView, d: DtvView, v: Variance)
    requires
        fresh_chain(ns1, from, c),
        0 <= from,
        d == c.0 || d == c.1,
        ns2 == ns1 || ns2 == ns1.push(at_variance(d, v)),
    ensures
        fresh_chain(ns2, from, c),
{
    assert(forgotten(at_variance(d, v), 0) == at_variance(d, v));
    assert forall|m: int| from <= m < ns2.len() implies chain_node_of(c, #[trigger] ns2[m]) by {
        if m < ns1.len() {
            assert(ns2[m] == ns1[m]);
        } else {
            assert(ns2[m] == forgotten(at_variance(d, v), 0));
        }
    }
}

proof fn lemma_fresh_chain_step(
    ns1: Seq<NodeView>,
    ns2: Seq<NodeView>,
    from: int,
    c: ConstraintView,
    d: DtvView,
    v: Variance,
    start: NodeView,
)
    requires
        start == at_variance(d, v),
        fresh_chain(ns1, from, c),
        0 <= from,
        d == c.0 || d == c.1,
        ns1.len() <= ns2.len(),
        forall|i: int| 0 <= i < ns1.len() ==> ns2[i] == ns1[i],
        forall|i: int| ns1.len() <= i < ns2.len() ==> on_chain(start, #[trigger] ns2[i]),
    ensures
        fresh_chain(ns2, from, c),
{
    assert forall|m: int| from <= m < ns2.len() implies chain_node_of(c, #[trigger] ns2[m]) by {
        if m < ns1.len() {
            assert(ns2[m] == ns1[m]);
        } else {
            assert(on_chain(start, ns2[m]));
            let k = choose|k: nat| k <= start.0.1.len() && ns2[m] == #[trigger] forgotten(start, k);
        }
    }
}


/// What `ConstraintGraph::new` yields for constraints `cs`: every constraint is
/// encoded, every node belongs to the chain of some constraint, every node has its
/// twin, the graph is the least saturation of what the builder made, and
/// constraints `a <= b`, `b <= c` give an identity edge from `a` to `c`.
pub open spec fn solved_graph(ns: Seq<NodeView>, es: Seq<(int, int, EdgeLabel)>, cs: Seq<ConstraintView>) -> bool {
    &&& forall|i: int| 0 <= i < cs.len() ==> encodes(ns, es, #[trigger] cs[i])
    &&& forall|m: int| 0 <= m < ns.len() ==> covered(cs, cs.len() as int, #[trigger] ns[m])
    &&& twin_closed(ns)
    &&& crate::saturation::saturated(ns, es)
    &&& forall|e: int|
        0 <= e < es.len() ==> built_by(cs, cs.len() as int, ns[(#[trigger] es[e]).0], ns[es[e].1], es[e].2)
            || added_edge(es, es[e])
    &&& exists|k: int|
        0 <= k <= es.len() && #[trigger] built_exactly(ns, es.subrange(0, k), cs)
            && crate::saturation::least_closure(ns, es.subrange(0, k), es)
    &&& forall|i: int, j: int|
        0 <= i < cs.len() && 0 <= j < cs.len() && (#[trigger] cs[i]).1 == (#[trigger] cs[j]).0 && cs[i].0 != cs[j].1
            ==> has_edge(ns, es, at_variance(cs[i].0, Variance::Covariant), at_variance(cs[j].1, Variance::Covariant), EdgeLabel::One)
}

/// The edges `b` are what the builder gives for `cs`: each constraint is encoded,
/// and every edge is one that some constraint gives.
pub open spec fn built_exactly(ns: Seq<NodeView>, b: Seq<(int, int, EdgeLabel)>, cs: Seq<ConstraintView>) -> bool {
    &&& forall|i: int| 0 <= i < cs.len() ==> encodes(ns, b, #[trigger] cs[i])
    &&& forall|e: int|
        0 <= e < b.len() ==> built_by(cs, cs.len() as int, ns[(#[trigger] b[e]).0], ns[b[e].1], b[e].2)
}

/// An identity edge that is not a self-loop: what saturation adds.
pub open spec fn added_edge(es: Seq<(int, int, EdgeLabel)>, x: (int, int, EdgeLabel)) -> bool {
    &&& x.2 == EdgeLabel::One
    &&& x.0 != x.1
}

/// Two constraints `a <= b` and `b <= c` given together leave an identity edge
/// from the covariant node of `a` to that of `c` in the solved graph (unless
/// `a` and `c` are one variable).
pub proof fn lemma_subtype_transitive(
    ns: Seq<NodeView>,
    es: Seq<(int, int, EdgeLabel)>,
    cs: Seq<ConstraintView>,
    i: int,
    j: int,
)
    requires
        solved_graph(ns, es, cs),
        0 <= i < cs.len(),
        0 <= j < cs.len(),
        cs[i].1 == cs[j].0,
        cs[i].0 != cs[j].1,
    ensures
        has_edge(ns, es, at_variance(cs[i].0, Variance::Covariant), at_variance(cs[j].1, Variance::Covariant), EdgeLabel::One),
{
    assert(cs[i].1 == cs[j].0);
}

/// Room that building and saturating a graph for constraints of cost `w` needs.
pub open spec fn fits_cost(w: int) -> bool {
    &&& w * w + w + 1 < index_limit()
    &&& w * (w + 2) * w <= usize::MAX
}

proof fn lemma_room(n: int, e: int, w: int)
    requires
        0 <= n <= w,
        0 <= e <= w,
        fits_cost(w),
    ensures
        n * n + e + 1 < index_limit(),
        n * (e + 2) * n <= usize::MAX,
        w + 1 < index_limit(),
{
    assert(n * n <= w * w) by (nonlinear_arith)
        requires
            0 <= n <= w,
    ;
    assert(n * (e + 2) * n <= w * (w + 2) * w) by (nonlinear_arith)
        requires
            0 <= n <= w,
            0 <= e <= w,
    ;
    assert(0 <= w * w) by (nonlinear_arith);
}

proof fn lemma_views(cs: Seq<&Constraint>, ns: Seq<NodeView>, es: Seq<(int, int, EdgeLabel)>)
    requires
        forall|i: int| 0 <= i < cs.len() ==> encodes(ns, es, #[trigger] cs[i]@),
    ensures
        forall|i: int| 0 <= i < cs.len() ==> encodes(ns, es, #[trigger] constraint_views(cs)[i]),
{
    assert forall|i: int| 0 <= i < cs.len() implies encodes(ns, es, #[trigger] constraint_views(cs)[i]) by {
        assert(constraint_views(cs)[i] == cs[i]@);
    }
}

proof fn lemma_transitive_edges(
    ns1: Seq<NodeView>,
    es1: Seq<(int, int, EdgeLabel)>,
    ns2: Seq<NodeView>,
    es2: Seq<(int, int, EdgeLabel)>,
    cs: Seq<ConstraintView>,
)
    requires
        grows(ns1, es1, ns2, es2),
        ns2 == ns1,
        forall|i: int| 0 <= i < cs.len() ==> encodes(ns1, es1, #[trigger] cs[i]),
        crate::saturation::saturated(ns2, es2),
        forall|x: int, y: int| 0 <= x < ns2.len() && 0 <= y < ns2.len() && x != y ==> ns2[x] != ns2[y],
    ensures
        forall|i: int, j: int|
            0 <= i < cs.len() && 0 <= j < cs.len() && (#[trigger] cs[i]).1 == (#[trigger] cs[j]).0 && cs[i].0 != cs[j].1
                ==> has_edge(ns2, es2, at_variance(cs[i].0, Variance::Covariant), at_variance(cs[j].1, Variance::Covariant), EdgeLabel::One),
{
    reveal(encodes);
    lemma_grows_keeps(ns1, es1, ns2, es2);
    let r = choose|r: Set<(int, FieldLabel, int)>| crate::saturation::reach_closed(ns2, es2, r);
    assert(crate::saturation::ones_composed(es2));
    assert forall|i: int, j: int|
        0 <= i < cs.len() && 0 <= j < cs.len() && (#[trigger] cs[i]).1 == (#[trigger] cs[j]).0 && cs[i].0 != cs[j].1
            implies has_edge(ns2, es2, at_variance(cs[i].0, Variance::Covariant), at_variance(cs[j].1, Variance::Covariant), EdgeLabel::One) by {
        let a = at_variance(cs[i].0, Variance::Covariant);
        let b = at_variance(cs[i].1, Variance::Covariant);
        let c = at_variance(cs[j].1, Variance::Covariant);
        assert(encodes(ns1, es1, cs[i]));
        assert(encodes(ns1, es1, cs[j]));
        assert(encodes(ns2, es2, cs[i]));
        assert(encodes(ns2, es2, cs[j]));
        if cs[i].0 == cs[i].1 {
        } else if cs[j].0 == cs[j].1 {
        } else {
            let e1 = choose|e: int|
                0 <= e < es2.len() && 0 <= #[trigger] es2[e].0 < ns2.len() && 0 <= es2[e].1 < ns2.len() && ns2[es2[e].0] == a
                    && ns2[es2[e].1] == b && es2[e].2 == EdgeLabel::One;
            let e2 = choose|e: int|
                0 <= e < es2.len() && 0 <= #[trigger] es2[e].0 < ns2.len() && 0 <= es2[e].1 < ns2.len() && ns2[es2[e].0] == b
                    && ns2[es2[e].1] == c && es2[e].2 == EdgeLabel::One;
            assert(es2[e1].1 == es2[e2].0);
            assert(es2[e1].0 != es2[e2].1);
            assert(es2.contains((es2[e1].0, es2[e1].1, EdgeLabel::One)));
            assert(es2.contains((es2[e2].0, es2[e2].1, EdgeLabel::One)));
            assert(es2.contains((es2[e1].0, es2[e2].1, EdgeLabel::One)));
            let e3 = choose|e: int| 0 <= e < es2.len() && es2[e] == (es2[e1].0, es2[e2].1, EdgeLabel::One);
            assert(0 <= es2[e3].0 < ns2.len());
        }
    }
}

proof fn lemma_solved(
    ns1: Seq<NodeView>,
    es1: Seq<(int, int, EdgeLabel)>,
    ns2: Seq<NodeView>,
    es2: Seq<(int, int, EdgeLabel)>,
    cs: Seq<ConstraintView>,
)
    requires
        grows(ns1, es1, ns2, es2),
        ns2 == ns1,
        forall|i: int| 0 <= i < cs.len() ==> encodes(ns1, es1, #[trigger] cs[i]),
        forall|m: int| 0 <= m < ns1.len() ==> covered(cs, cs.len() as int, #[trigger] ns1[m]),
        twin_closed(ns1),
        crate::saturation::saturated(ns2, es2) || !twin_closed(ns1),
        forall|e: int|
            0 <= e < es1.len() ==> built_by(cs, cs.len() as int, ns1[(#[trigger] es1[e]).0], ns1[es1[e].1], es1[e].2),
        forall|e: int|
            es1.len() <= e < es2.len() ==> crate::saturation::added_by_rules(es2, es1.len() as int, #[trigger] es2[e]),
        crate::saturation::least_closure(ns2, es1, es2),
        forall|x: int, y: int| 0 <= x < ns2.len() && 0 <= y < ns2.len() && x != y ==> ns2[x] != ns2[y],
        forall|e: int| 0 <= e < es2.len() ==> 0 <= #[trigger] es2[e].0 < ns2.len() && 0 <= es2[e].1 < ns2.len(),
    ensures
        solved_graph(ns2, es2, cs),
{
    lemma_transitive_edges(ns1, es1, ns2, es2, cs);
    assert(es2.subrange(0, es1.len() as int) =~= es1);
    assert(built_exactly(ns2, es2.subrange(0, es1.len() as int), cs));
    assert forall|e: int| 0 <= e < es2.len() implies built_by(cs, cs.len() as int, ns2[(#[trigger] es2[e]).0], ns2[es2[e].1], es2[e].2)
        || added_edge(es2, es2[e]) by {
        if e < es1.len() {
            assert(es2[e] == es1[e]);
        } else {
            assert(crate::saturation::added_by_rules(es2, es1.len() as int, es2[e]));
        }
    }
    lemma_grows_keeps(ns1, es1, ns2, es2);
    assert forall|i: int| 0 <= i < cs.len() implies encodes(ns2, es2, #[trigger] cs[i]) by {
        assert(encodes(ns1, es1, cs[i]));
    }
    assert forall|m: int| 0 <= m < ns2.len() implies covered(cs, cs.len() as int, #[trigger] ns2[m]) by {
        assert(ns2[m] == ns1[m]);
    }
}

/// The graph that subtyping constraints are encoded in and saturated over.
pub struct ConstraintGraph {
    pub graph: DiGraph<Node, EdgeLabel>,
}

impl ConstraintGraph {
    pub open spec fn nodes(&self) -> Seq<NodeView> {
        graph_nodes(self.graph)
    }

    pub open spec fn edges(&self) -> Seq<(int, int, EdgeLabel)> {
        graph_edges(self.graph)
    }

    /// Node views are distinct, edges join existing nodes, and both counts fit the
    /// graph's index type.
    pub open spec fn wf(&self) -> bool {
        &&& self.nodes().len() < index_limit()
        &&& self.edges().len() < index_limit()
        &&& forall|i: int, j: int|
            0 <= i < self.nodes().len() && 0 <= j < self.nodes().len() && i != j
                ==> self.nodes()[i] != self.nodes()[j]
        &&& forall|e: int|
            0 <= e < self.edges().len() ==> 0 <= #[trigger] self.edges()[e].0 < self.nodes().len()
                && 0 <= self.edges()[e].1 < self.nodes().len() && self.edges()[e].0 != self.edges()[e].1
        &&& forall|e1: int, e2: int|
            0 <= e1 < self.edges().len() && 0 <= e2 < self.edges().len() && e1 != e2 ==> #[trigger] self.edges()[e1]
                != #[trigger] self.edges()[e2]
    }

    /// An empty graph.
    pub fn construct() -> (r: ConstraintGraph)
        ensures
            r.wf(),
            r.nodes().len() == 0,
            r.edges().len() == 0,
    {
        ConstraintGraph { graph: new_graph() }
    }

    /// The index of the node with the view of `node`, if there is one.
    pub fn node_index(&self, node: &Node) -> (r: Option<usize>)
        requires
            self.wf(),
        ensures
            r matches Some(i) ==> i < self.nodes().len() && self.nodes()[i as int] == node@,
            r is None <==> !self.nodes().contains(node@),
    {
        let n = node_count(&self.graph);
        let mut i: usize = 0;
        while i < n
            invariant
                self.wf(),
                n == self.nodes().len(),
                i <= n,
                forall|k: int| 0 <= k < i ==> self.nodes()[k] != node@,
            decreases n - i,
        {
            if node_at(&self.graph, i).same_as(node) {
                return Some(i);
            }
            i = i + 1;
        }
        None
    }

    /// Adds `node` unless a node with its view is there; returns the index of that
    /// view either way.
    pub fn add_node(&mut self, node: Node) -> (r: usize)
        requires
            old(self).wf(),
            old(self).nodes().len() + 1 < index_limit(),
        ensures
            final(self).wf(),
            r < final(self).nodes().len(),
            final(self).nodes()[r as int] == node@,
            final(self).edges() == old(self).edges(),
            node_added(old(self).nodes(), final(self).nodes(), node@),
            old(self).nodes().contains(node@) ==> final(self).nodes() == old(self).nodes(),
            !old(self).nodes().contains(node@) ==> final(self).nodes() == old(self).nodes().push(node@),
    {
        match self.node_index(&node) {
            Some(i) => i,
            None => {
                let r = push_node(&mut self.graph, node);
                assert(forall|i: int| 0 <= i < old(self).nodes().len() ==> self.nodes()[i] == old(self).nodes()[i]);
                r
            },
        }
    }

    /// Adds the edge `from -> to` with `label` unless it is a self-loop or already
    /// present; returns whether it was added.
    pub fn add_edge(&mut self, from: usize, to: usize, label: EdgeLabel) -> (r: bool)
        requires
            old(self).wf(),
            from < old(self).nodes().len(),
            to < old(self).nodes().len(),
            old(self).edges().len() + 1 < index_limit(),
        ensures
            final(self).wf(),
            final(self).nodes() == old(self).nodes(),
            r == (from != to && !old(self).edges().contains((from as int, to as int, label))),
            edge_added(old(self).edges(), final(self).edges(), (from as int, to as int, label)),
            r ==> final(self).edges() == old(self).edges().push((from as int, to as int, label)),
            !r ==> final(self).edges() == old(self).edges(),
    {
        if from == to {
            return false;
        }
        let m = edge_count(&self.graph);
        let mut e: usize = 0;
        while e < m
            invariant
                self.wf(),
                m == self.edges().len(),
                e <= m,
                forall|k: int| 0 <= k < e ==> self.edges()[k] != (from as int, to as int, label),
            decreases m - e,
        {
            let (a, b) = edge_ends(&self.graph, e);
            if a == from && b == to && edge_label(&self.graph, e) == label {
                assert(self.edges()[e as int] == (from as int, to as int, label));
                return false;
            }
            e = e + 1;
        }
        let ghost before = self.edges();
        push_edge(&mut self.graph, from, to, label);
        proof {
            let es = self.edges();
            assert forall|e1: int, e2: int| 0 <= e1 < es.len() && 0 <= e2 < es.len() && e1 != e2 implies #[trigger] es[e1]
                != #[trigger] es[e2] by {
                if e1 < before.len() && e2 < before.len() {
                    assert(es[e1] == before[e1] && es[e2] == before[e2]);
                } else if e1 < before.len() {
                    assert(es[e1] == before[e1]);
                    assert(before[e1] != (from as int, to as int, label));
                } else {
                    assert(es[e2] == before[e2]);
                    assert(before[e2] != (from as int, to as int, label));
                }
            }
            assert forall|e: int| 0 <= e < es.len() implies 0 <= #[trigger] es[e].0 < self.nodes().len()
                && 0 <= es[e].1 < self.nodes().len() && es[e].0 != es[e].1 by {
                if e < before.len() {
                    assert(es[e] == before[e]);
                }
            }
        }
        true
    }

    /// From node `node_ind`, adds each shorter node of its path and links
    /// consecutive ones by a Recall edge of the label between them.
    fn add_recalls(&mut self, node_ind: usize)
        requires
            old(self).wf(),
            node_ind < old(self).nodes().len(),
            old(self).nodes().len() + old(self).nodes()[node_ind as int].0.1.len() + 1 < index_limit(),
            old(self).edges().len() + old(self).nodes()[node_ind as int].0.1.len() + 1 < index_limit(),
        ensures
            final(self).wf(),
            grows(old(self).nodes(), old(self).edges(), final(self).nodes(), final(self).edges()),
            recall_chain(final(self).nodes(), final(self).edges(), old(self).nodes()[node_ind as int]),
            final(self).nodes().len() <= old(self).nodes().len() + old(self).nodes()[node_ind as int].0.1.len(),
            final(self).edges().len() <= old(self).edges().len() + old(self).nodes()[node_ind as int].0.1.len(),
            forall|i: int|
                old(self).nodes().len() <= i < final(self).nodes().len() ==> on_chain(
                    old(self).nodes()[node_ind as int],
                    #[trigger] final(self).nodes()[i],
                ),
            forall|e: int|
                old(self).edges().len() <= e < final(self).edges().len() ==> recall_edge_of(
                    old(self).nodes()[node_ind as int],
                    final(self).nodes()[(#[trigger] final(self).edges()[e]).0],
                    final(self).nodes()[final(self).edges()[e].1],
                    final(self).edges()[e].2,
                ),
    {
        let ghost n0 = self.nodes();
        let ghost e0 = self.edges();
        let mut cur_ind = node_ind;
        let mut cur = node_at(&self.graph, node_ind).duplicate();
        let ghost start = cur@;
        let ghost len = start.0.1.len();
        let ghost mut k: nat = 0;
        while cur.base.fields.len() > 0
            invariant
                self.wf(),
                grows(n0, e0, self.nodes(), self.edges()),
                start == n0[node_ind as int],
                len == start.0.1.len(),
                n0.len() + len + 1 < index_limit(),
                e0.len() + len + 1 < index_limit(),
                k <= len,
                cur@ == forgotten(start, k),
                cur_ind < self.nodes().len(),
                self.nodes()[cur_ind as int] == cur@,
                self.nodes().len() <= n0.len() + k,
                self.edges().len() <= e0.len() + k,
                forall|j: nat| j <= k ==> self.nodes().contains(#[trigger] forgotten(start, j)),
                forall|j: nat|
                    j < k ==> has_edge(
                        self.nodes(),
                        self.edges(),
                        #[trigger] forgotten(start, j + 1),
                        forgotten(start, j),
                        EdgeLabel::Recall { capability: start.0.1[len - 1 - j] },
                    ),
                forall|i: int| n0.len() <= i < self.nodes().len() ==> on_chain(start, #[trigger] self.nodes()[i]),
                forall|e: int|
                    e0.len() <= e < self.edges().len() ==> recall_edge_of(
                        start,
                        self.nodes()[(#[trigger] self.edges()[e]).0],
                        self.nodes()[self.edges()[e].1],
                        self.edges()[e].2,
                    ),
            decreases len - k,
        {
            proof {
                lemma_forgotten_shape(start, k);
                lemma_forgotten_shape(start, k + 1);
            }
            let (cap, next) = cur.forget_once().unwrap();
            let ghost ns1 = self.nodes();
            let ghost es1 = self.edges();
            let next_ind = self.add_node(next.duplicate());
            let ghost ns2 = self.nodes();
            let ghost es2 = self.edges();
            assert(next_ind != cur_ind);
            let added = self.add_edge(next_ind, cur_ind, EdgeLabel::Recall { capability: cap });
            proof {
                assert(grows(ns1, es1, ns2, es2));
                assert(grows(ns2, es2, self.nodes(), self.edges()));
                lemma_grows_keeps(ns1, es1, self.nodes(), self.edges());
                let want = (next_ind as int, cur_ind as int, EdgeLabel::Recall { capability: cap });
                if added {
                    assert(self.edges()[self.edges().len() - 1] == want);
                } else {
                    assert(es2.contains(want));
                }
                assert(self.edges().contains(want));
                let e = choose|e: int| 0 <= e < self.edges().len() && self.edges()[e] == want;
                assert(self.nodes()[next_ind as int] == forgotten(start, k + 1));
                assert(self.nodes()[cur_ind as int] == forgotten(start, k));
                assert(0 <= self.edges()[e].0 < self.nodes().len());
                assert(cap == start.0.1[len - 1 - k]);
                assert(has_edge(
                    self.nodes(),
                    self.edges(),
                    forgotten(start, k + 1),
                    forgotten(start, k),
                    EdgeLabel::Recall { capability: start.0.1[len - 1 - k] },
                ));
                assert forall|i: int|
                    n0.len() <= i < self.nodes().len() implies on_chain(start, #[trigger] self.nodes()[i]) by {
                    if i < ns1.len() {
                        assert(on_chain(start, ns1[i]));
                        assert(self.nodes()[i] == ns1[i]);
                    } else {
                        assert(self.nodes()[i] == forgotten(start, k + 1));
                    }
                }
                assert forall|x: int|
                    e0.len() <= x < self.edges().len() implies recall_edge_of(
                        start,
                        self.nodes()[(#[trigger] self.edges()[x]).0],
                        self.nodes()[self.edges()[x].1],
                        self.edges()[x].2,
                    ) by {
                    if x < es1.len() {
                        assert(self.edges()[x] == es1[x]);
                        assert(es2[x] == es1[x]);
                        assert(recall_edge_of(start, ns1[es1[x].0], ns1[es1[x].1], es1[x].2));
                        assert(self.nodes()[es1[x].0] == ns1[es1[x].0]);
                        assert(self.nodes()[es1[x].1] == ns1[es1[x].1]);
                    } else {
                        assert(self.edges()[x] == want);
                        assert(forgotten(start, k) == forgotten(start, k));
                    }
                }
                k = k + 1;
            }
            cur = next;
            cur_ind = next_ind;
        }
        proof {
            lemma_forgotten_shape(start, k);
        }
    }

    /// From node `node_ind`, adds each shorter node of its path and links
    /// consecutive ones by a Forget edge of the label between them.
    fn add_forgets(&mut self, node_ind: usize)
        requires
            old(self).wf(),
            node_ind < old(self).nodes().len(),
            old(self).nodes().len() + old(self).nodes()[node_ind as int].0.1.len() + 1 < index_limit(),
            old(self).edges().len() + old(self).nodes()[node_ind as int].0.1.len() + 1 < index_limit(),
        ensures
            final(self).wf(),
            grows(old(self).nodes(), old(self).edges(), final(self).nodes(), final(self).edges()),
            forget_chain(final(self).nodes(), final(self).edges(), old(self).nodes()[node_ind as int]),
            final(self).nodes().len() <= old(self).nodes().len() + old(self).nodes()[node_ind as int].0.1.len(),
            final(self).edges().len() <= old(self).edges().len() + old(self).nodes()[node_ind as int].0.1.len(),
            forall|i: int|
                old(self).nodes().len() <= i < final(self).nodes().len() ==> on_chain(
                    old(self).nodes()[node_ind as int],
                    #[trigger] final(self).nodes()[i],
                ),
            forall|e: int|
                old(self).edges().len() <= e < final(self).edges().len() ==> forget_edge_of(
                    old(self).nodes()[node_ind as int],
                    final(self).nodes()[(#[trigger] final(self).edges()[e]).0],
                    final(self).nodes()[final(self).edges()[e].1],
                    final(self).edges()[e].2,
                ),
    {
        let ghost n0 = self.nodes();
        let ghost e0 = self.edges();
        let mut cur_ind = node_ind;
        let mut cur = node_at(&self.graph, node_ind).duplicate();
        let ghost start = cur@;
        let ghost len = start.0.1.len();
        let ghost mut k: nat = 0;
        while cur.base.fields.len() > 0
            invariant
                self.wf(),
                grows(n0, e0, self.nodes(), self.edges()),
                start == n0[node_ind as int],
                len == start.0.1.len(),
                n0.len() + len + 1 < index_limit(),
                e0.len() + len + 1 < index_limit(),
                k <= len,
                cur@ == forgotten(start, k),
                cur_ind < self.nodes().len(),
                self.nodes()[cur_ind as int] == cur@,
                self.nodes().len() <= n0.len() + k,
                self.edges().len() <= e0.len() + k,
                forall|j: nat| j <= k ==> self.nodes().contains(#[trigger] forgotten(start, j)),
                forall|j: nat|
                    j < k ==> has_edge(
                        self.nodes(),
                        self.edges(),
                        forgotten(start, j),
                        #[trigger] forgotten(start, j + 1),
                        EdgeLabel::Forget { capability: start.0.1[len - 1 - j] },
                    ),
                forall|i: int| n0.len() <= i < self.nodes().len() ==> on_chain(start, #[trigger] self.nodes()[i]),
                forall|e: int|
                    e0.len() <= e < self.edges().len() ==> forget_edge_of(
                        start,
                        self.nodes()[(#[trigger] self.edges()[e]).0],
                        self.nodes()[self.edges()[e].1],
                        self.edges()[e].2,
                    ),
            decreases len - k,
        {
            proof {
                lemma_forgotten_shape(start, k);
                lemma_forgotten_shape(start, k + 1);
            }
            let (cap, next) = cur.forget_once().unwrap();
            let ghost ns1 = self.nodes();
            let ghost es1 = self.edges();
            let next_ind = self.add_node(next.duplicate());
            let ghost ns2 = self.nodes();
            let ghost es2 = self.edges();
            assert(next_ind != cur_ind);
            let added = self.add_edge(cur_ind, next_ind, EdgeLabel::Forget { capability: cap });
            proof {
                assert(grows(ns1, es1, ns2, es2));
                assert(grows(ns2, es2, self.nodes(), self.edges()));
                lemma_grows_keeps(ns1, es1, self.nodes(), self.edges());
                let want = (cur_ind as int, next_ind as int, EdgeLabel::Forget { capability: cap });
                if added {
                    assert(self.edges()[self.edges().len() - 1] == want);
                } else {
                    assert(es2.contains(want));
                }
                assert(self.edges().contains(want));
                let e = choose|e: int| 0 <= e < self.edges().len() && self.edges()[e] == want;
                assert(self.nodes()[next_ind as int] == forgotten(start, k + 1));
                assert(self.nodes()[cur_ind as int] == forgotten(start, k));
                assert(0 <= self.edges()[e].0 < self.nodes().len());
                assert(cap == start.0.1[len - 1 - k]);
                assert(has_edge(
                    self.nodes(),
                    self.edges(),
                    forgotten(start, k),
                    forgotten(start, k + 1),
                    EdgeLabel::Forget { capability: start.0.1[len - 1 - k] },
                ));
                assert forall|i: int|
                    n0.len() <= i < self.nodes().len() implies on_chain(start, #[trigger] self.nodes()[i]) by {
                    if i < ns1.len() {
                        assert(on_chain(start, ns1[i]));
                        assert(self.nodes()[i] == ns1[i]);
                    } else {
                        assert(self.nodes()[i] == forgotten(start, k + 1));
                    }
                }
                assert forall|x: int|
                    e0.len() <= x < self.edges().len() implies forget_edge_of(
                        start,
                        self.nodes()[(#[trigger] self.edges()[x]).0],
                        self.nodes()[self.edges()[x].1],
                        self.edges()[x].2,
                    ) by {
                    if x < es1.len() {
                        assert(self.edges()[x] == es1[x]);
                        assert(es2[x] == es1[x]);
                        assert(forget_edge_of(start, ns1[es1[x].0], ns1[es1[x].1], es1[x].2));
                        assert(self.nodes()[es1[x].0] == ns1[es1[x].0]);
                        assert(self.nodes()[es1[x].1] == ns1[es1[x].1]);
                    } else {
                        assert(self.edges()[x] == want);
                        assert(forgotten(start, k) == forgotten(start, k));
                    }
                }
                k = k + 1;
            }
            cur = next;
            cur_ind = next_ind;
        }
        proof {
            lemma_forgotten_shape(start, k);
        }
    }

    /// Encodes one constraint at one variance: the two nodes, the one edge between
    /// them (reversed at contravariance), and the chains of both sides.
    fn encode_at(&mut self, c: &Constraint, v: Variance)
        requires
            old(self).wf(),
            old(self).nodes().len() + c@.0.1.len() + c@.1.1.len() + 3 < index_limit(),
            old(self).edges().len() + c@.0.1.len() + c@.1.1.len() + 3 < index_limit(),
        ensures
            final(self).wf(),
            grows(old(self).nodes(), old(self).edges(), final(self).nodes(), final(self).edges()),
            final(self).nodes().len() <= old(self).nodes().len() + c@.0.1.len() + c@.1.1.len() + 2,
            final(self).edges().len() <= old(self).edges().len() + c@.0.1.len() + c@.1.1.len() + 1,
            v == Variance::Covariant && c@.0 != c@.1 ==> has_edge(final(self).nodes(), final(self).edges(), at_variance(c@.0, v), at_variance(c@.1, v), EdgeLabel::One),
            v == Variance::Contravariant && c@.0 != c@.1 ==> has_edge(final(self).nodes(), final(self).edges(), at_variance(c@.1, v), at_variance(c@.0, v), EdgeLabel::One),
            recall_chain(final(self).nodes(), final(self).edges(), at_variance(c@.0, v)),
            forget_chain(final(self).nodes(), final(self).edges(), at_variance(c@.1, v)),
            fresh_chain(final(self).nodes(), old(self).nodes().len() as int, c@),
            edges_built(final(self).nodes(), final(self).edges(), old(self).edges().len() as int, c@),
    {
        let ghost cv = c@;
        let ghost nb = self.nodes();
        let ghost eb = self.edges();
        let node_l = self.add_node(Node { base: c.left.duplicate(), suffix_variance: v, sidemark: SideMark::Unmarked });
        let ghost n0a = self.nodes();
        proof { lemma_fresh_root(nb, n0a, nb.len() as int, cv, cv.0, v); }
        let node_r = self.add_node(Node { base: c.right.duplicate(), suffix_variance: v, sidemark: SideMark::Unmarked });
        let ghost n1 = self.nodes();
        proof { lemma_fresh_root(n0a, n1, nb.len() as int, cv, cv.1, v); }
        assert(n1[node_l as int] == at_variance(cv.0, v));
        let ghost e0 = self.edges();
        let (from, to) = match v {
            Variance::Covariant => (node_l, node_r),
            Variance::Contravariant => (node_r, node_l),
        };
        let added = self.add_edge(from, to, EdgeLabel::One);
        let ghost e1 = self.edges();
        proof {
            assert(n1[node_r as int] == at_variance(cv.1, v));
            if cv.0 != cv.1 {
                assert(node_l != node_r);
                let want = (from as int, to as int, EdgeLabel::One);
                if added {
                    assert(e1[e1.len() - 1] == want);
                }
                assert(e1.contains(want));
                let q = choose|q: int| 0 <= q < e1.len() && e1[q] == want;
                assert(0 <= e1[q].0 < n1.len());
            }
            assert(edges_built(n1, e1, eb.len() as int, cv)) by {
                assert forall|e: int| eb.len() <= e < e1.len() implies built_edge(cv, n1[(#[trigger] e1[e]).0], n1[e1[e].1], e1[e].2) by {
                    assert(added && e == e1.len() - 1);
                }
            }
        }
        self.add_recalls(node_l);
        proof {
            lemma_fresh_chain_step(n1, self.nodes(), nb.len() as int, cv, cv.0, v, n1[node_l as int]);
            lemma_built_keeps(n1, e1, self.nodes(), self.edges(), eb.len() as int, cv);
        }
        let ghost n2 = self.nodes();
        let ghost e2 = self.edges();
        assert(n2[node_r as int] == at_variance(cv.1, v));
        self.add_forgets(node_r);
        proof {
            lemma_fresh_chain_step(n2, self.nodes(), nb.len() as int, cv, cv.1, v, n2[node_r as int]);
            lemma_grows_keeps(n1, e1, self.nodes(), self.edges());
            lemma_grows_keeps(n2, e2, self.nodes(), self.edges());
            lemma_built_keeps(n2, e2, self.nodes(), self.edges(), eb.len() as int, cv);
        }
    }

    /// Encodes one constraint; see `build_initial_graph`.
    fn encode_constraint(&mut self, c: &Constraint)
        requires
            old(self).wf(),
            old(self).nodes().len() + constraint_cost(c@) + 1 < index_limit(),
            old(self).edges().len() + constraint_cost(c@) + 1 < index_limit(),
        ensures
            final(self).wf(),
            grows(old(self).nodes(), old(self).edges(), final(self).nodes(), final(self).edges()),
            final(self).nodes().len() <= old(self).nodes().len() + constraint_cost(c@),
            final(self).edges().len() <= old(self).edges().len() + constraint_cost(c@),
            encodes(final(self).nodes(), final(self).edges(), c@),
            fresh_chain(final(self).nodes(), old(self).nodes().len() as int, c@),
            twin_closed(old(self).nodes()) ==> twin_closed(final(self).nodes()),
            edges_built(final(self).nodes(), final(self).edges(), old(self).edges().len() as int, c@),
    {
        let ghost cv = c@;
        let ghost nb = self.nodes();
        let ghost eb = self.edges();
        self.encode_at(c, Variance::Covariant);
        let ghost n1 = self.nodes();
        let ghost e1 = self.edges();
        self.encode_at(c, Variance::Contravariant);
        proof {
            lemma_built_keeps(n1, e1, self.nodes(), self.edges(), eb.len() as int, cv);
            lemma_grows_keeps(n1, e1, self.nodes(), self.edges());
            reveal(encodes);
            assert(encodes(self.nodes(), self.edges(), cv));
            assert forall|m: int| nb.len() <= m < self.nodes().len() implies chain_node_of(cv, #[trigger] self.nodes()[m]) by {
                if m < n1.len() {
                    assert(self.nodes()[m] == n1[m]);
                }
            }
            if twin_closed(nb) {
                assert forall|m: int| 0 <= m < self.nodes().len() implies self.nodes().contains(twin(#[trigger] self.nodes()[m])) by {
                    if m < nb.len() {
                        assert(nb.contains(twin(nb[m])));
                        lemma_grows_keeps(nb, eb, self.nodes(), self.edges());
                    } else {
                        lemma_encoded_twin(self.nodes(), self.edges(), cv, self.nodes()[m]);
                    }
                }
            }
        }
    }

    /// Encodes each constraint `l <= r`: a one edge between the covariant nodes of
    /// `l` and `r`, one back from the contravariant node of `r` to that of `l`,
    /// recall chains up to both nodes of `l` and forget chains down from both
    /// nodes of `r`. Every edge goes through `add_edge`, so none is repeated and
    /// no self-loop is made.
    pub fn build_initial_graph(&mut self, constraints: Vec<&Constraint>)
        requires
            old(self).wf(),
            old(self).nodes().len() + constraints_cost(constraint_views(constraints@)) + 1 < index_limit(),
            old(self).edges().len() + constraints_cost(constraint_views(constraints@)) + 1 < index_limit(),
        ensures
            final(self).wf(),
            grows(old(self).nodes(), old(self).edges(), final(self).nodes(), final(self).edges()),
            forall|i: int|
                0 <= i < constraints@.len() ==> encodes(
                    final(self).nodes(),
                    final(self).edges(),
                    #[trigger] constraints@[i]@,
                ),
            forall|i: int|
                old(self).nodes().len() <= i < final(self).nodes().len() ==> covered(
                    constraint_views(constraints@),
                    constraints@.len() as int,
                    #[trigger] final(self).nodes()[i],
                ),
            twin_closed(old(self).nodes()) ==> twin_closed(final(self).nodes()),
            final(self).nodes().len() <= old(self).nodes().len() + constraints_cost(constraint_views(constraints@)),
            final(self).edges().len() <= old(self).edges().len() + constraints_cost(constraint_views(constraints@)),
            forall|e: int|
                old(self).edges().len() <= e < final(self).edges().len() ==> built_by(
                    constraint_views(constraints@),
                    constraints@.len() as int,
                    final(self).nodes()[(#[trigger] final(self).edges()[e]).0],
                    final(self).nodes()[final(self).edges()[e].1],
                    final(self).edges()[e].2,
                ),
    {
        let ghost n0 = self.nodes();
        let ghost e0 = self.edges();
        let ghost cs = constraint_views(constraints@);
        let mut i: usize = 0;
        while i < constraints.len()
            invariant
                self.wf(),
                grows(n0, e0, self.nodes(), self.edges()),
                cs == constraint_views(constraints@),
                i <= constraints@.len(),
                n0.len() + constraints_cost(cs) + 1 < index_limit(),
                e0.len() + constraints_cost(cs) + 1 < index_limit(),
                self.nodes().len() <= n0.len() + constraints_cost(cs.subrange(0, i as int)),
                self.edges().len() <= e0.len() + constraints_cost(cs.subrange(0, i as int)),
                forall|j: int|
                    0 <= j < i ==> encodes(self.nodes(), self.edges(), #[trigger] constraints@[j]@),
                forall|m: int| n0.len() <= m < self.nodes().len() ==> covered(cs, i as int, #[trigger] self.nodes()[m]),
                forall|e: int|
                    e0.len() <= e < self.edges().len() ==> built_by(
                        cs,
                        i as int,
                        self.nodes()[(#[trigger] self.edges()[e]).0],
                        self.nodes()[self.edges()[e].1],
                        self.edges()[e].2,
                    ),
                twin_closed(n0) ==> twin_closed(self.nodes()),
            decreases constraints@.len() - i,
        {
            proof {
                lemma_cost_prefix(cs, i + 1);
                assert(cs.subrange(0, i + 1).drop_last() =~= cs.subrange(0, i as int));
            }
            let ghost nb = self.nodes();
            let ghost eb = self.edges();
            self.encode_constraint(constraints[i]);
            proof {
                lemma_grows_keeps(nb, eb, self.nodes(), self.edges());
                assert forall|j: int| 0 <= j < i + 1 implies encodes(self.nodes(), self.edges(), #[trigger] constraints@[j]@) by {
                    if j < i {
                        assert(encodes(nb, eb, constraints@[j]@));
                    }
                }
                assert(constraints@[i as int]@ == cs[i as int]);
                assert forall|e: int|
                    e0.len() <= e < self.edges().len() implies built_by(
                        cs,
                        i + 1,
                        self.nodes()[(#[trigger] self.edges()[e]).0],
                        self.nodes()[self.edges()[e].1],
                        self.edges()[e].2,
                    ) by {
                    if e < eb.len() {
                        assert(self.edges()[e] == eb[e]);
                        assert(built_by(cs, i as int, nb[eb[e].0], nb[eb[e].1], eb[e].2));
                        assert(self.nodes()[eb[e].0] == nb[eb[e].0]);
                        assert(self.nodes()[eb[e].1] == nb[eb[e].1]);
                        let j = choose|j: int| 0 <= j < i && j < cs.len() && built_edge(cs[j], nb[eb[e].0], nb[eb[e].1], eb[e].2);
                    } else {
                        assert(built_edge(cs[i as int], self.nodes()[self.edges()[e].0], self.nodes()[self.edges()[e].1], self.edges()[e].2));
                    }
                }
                assert forall|m: int| n0.len() <= m < self.nodes().len() implies covered(cs, i + 1, #[trigger] self.nodes()[m]) by {
                    if m < nb.len() {
                        assert(covered(cs, i as int, nb[m]));
                        assert(self.nodes()[m] == nb[m]);
                        let j = choose|j: int| 0 <= j < i && j < cs.len() && chain_node_of(cs[j], nb[m]);
                    } else {
                        assert(chain_node_of(cs[i as int], self.nodes()[m]));
                    }
                }
            }
            i = i + 1;
        }
        proof {
            assert(cs.subrange(0, i as int) =~= cs);
        }
    }

    /// Builds the graph of the constraints and saturates it.
    pub fn new(constraints: Vec<&Constraint>) -> (r: ConstraintGraph)
        requires
            fits_cost(constraints_cost(constraint_views(constraints@))),
        ensures
            r.wf(),
            solved_graph(r.nodes(), r.edges(), constraint_views(constraints@)),
    {
        let ghost cs = constraint_views(constraints@);
        let mut g = ConstraintGraph::construct();
        proof {
            lemma_cost_nonneg(cs);
            lemma_room(0, 0, constraints_cost(cs));
        }
        g.build_initial_graph(constraints);
        let ghost built = g;
        proof {
            lemma_room(g.nodes().len() as int, g.edges().len() as int, constraints_cost(cs));
            lemma_views(constraints@, built.nodes(), built.edges());
            assert(cs == constraint_views(constraints@));
        }
        let res = g.saturate();
        proof {
            assert(crate::saturation::contra_twinned(built.nodes())) by {
                assert forall|i: int| 0 <= i < built.nodes().len() && built.nodes()[i].1 == Variance::Contravariant implies built.nodes().contains(
                    twin(#[trigger] built.nodes()[i]),
                ) by {
                    assert(twin_closed(built.nodes()));
                }
            }
            assert(res is Ok);
            assert(g.wf());
            lemma_solved(built.nodes(), built.edges(), g.nodes(), g.edges(), cs);
        }
        g
    }
}

} // verus!
