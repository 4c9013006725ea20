//! Saturation: the closure of a constraint graph under the seed, identity,
//! recall/forget cancellation, identity-composition and load/store inversion rules.

use crate::digraph::{edge_count, edge_ends, edge_label, index_limit, node_at, node_count};
use crate::graph::{grows, twin, ConstraintGraph, EdgeLabel, Node, NodeView};
use crate::schema::{FieldLabel, Variance};
use vstd::prelude::*;
use vstd::set_lib::*;

verus! {

/// Raised when an internal consistency property of a graph does not hold.
#[derive(PartialEq, Eq, Structural, Clone, Copy, Debug)]
pub enum GraphError {
    /// A node lacks its twin at the other variance.
    InvariantViolation,
    /// The constraints need more nodes or edges than the graph's index type holds.
    CapacityExceeded,
}

/// Every contravariant node has its twin at covariance, which the inversion rule
/// needs.
pub open spec fn contra_twinned(ns: Seq<NodeView>) -> bool {
    forall|i: int| 0 <= i < ns.len() && ns[i].1 == Variance::Contravariant ==> ns.contains(twin(#[trigger] ns[i]))
}

/// Positions that hold `true`.
pub open spec fn trues(v: Seq<bool>) -> Set<int> {
    Set::new(|k: int| 0 <= k < v.len() && v[k])
}

proof fn lemma_trues_len(v: Seq<bool>)
    ensures
        trues(v).finite(),
        trues(v).len() <= v.len(),
{
    lemma_int_range(0, v.len() as int);
    assert(trues(v).subset_of(set_int_range(0, v.len() as int)));
    lemma_len_subset(trues(v), set_int_range(0, v.len() as int));
}

proof fn lemma_trues_set(v: Seq<bool>, k: int)
    requires
        0 <= k < v.len(),
        !v[k],
    ensures
        trues(v.update(k, true)).len() == trues(v).len() + 1,
        trues(v.update(k, true)).len() <= v.len(),
{
    assert(trues(v.update(k, true)) =~= trues(v).insert(k));
    lemma_trues_len(v);
    lemma_trues_len(v.update(k, true));
}

/// Position of the pair `(a, b)` in an `n` by `n` table.
pub open spec fn okey(n: int, a: int, b: int) -> int {
    a * n + b
}

/// Position of the entry (target `t`, label `l`, source `s`) in the reaching table.
pub open spec fn rkey(n: int, m: int, t: int, l: int, s: int) -> int {
    (t * m + l) * n + s
}

proof fn lemma_okey(n: int, a: int, b: int)
    requires
        0 <= a < n,
        0 <= b < n,
    ensures
        0 <= okey(n, a, b) < n * n,
{
    assert(0 <= a * n + b < n * n) by (nonlinear_arith)
        requires
            0 <= a < n,
            0 <= b < n,
    ;
}

proof fn lemma_okey_inj(n: int, a: int, b: int, c: int, d: int)
    requires
        0 <= a < n,
        0 <= b < n,
        0 <= c < n,
        0 <= d < n,
        okey(n, a, b) == okey(n, c, d),
    ensures
        a == c,
        b == d,
{
    if a < c {
        assert(a * n + n <= c * n) by (nonlinear_arith)
            requires
                a < c,
                0 <= n,
        ;
    } else if c < a {
        assert(c * n + n <= a * n) by (nonlinear_arith)
            requires
                c < a,
                0 <= n,
        ;
    }
}

proof fn lemma_rkey(n: int, m: int, t: int, l: int)
    requires
        0 <= t < n,
        0 <= l < m,
    ensures
        0 <= rkey(n, m, t, l, 0),
        rkey(n, m, t, l, 0) + n <= n * m * n,
        forall|s: int| #[trigger] rkey(n, m, t, l, s) == rkey(n, m, t, l, 0) + s,
{
    assert(t * m + l + 1 <= n * m) by (nonlinear_arith)
        requires
            0 <= t < n,
            0 <= l < m,
    ;
    assert((t * m + l) * n + n <= n * m * n) by (nonlinear_arith)
        requires
            t * m + l + 1 <= n * m,
            0 <= n,
    ;
    assert(0 <= (t * m + l) * n) by (nonlinear_arith)
        requires
            0 <= t,
            0 <= l,
            0 <= m,
            0 <= n,
    ;
}

proof fn lemma_rkey_offset(n: int, m: int, t: int, l: int, s: int, t2: int, l2: int, s2: int)
    requires
        0 <= t,
        0 <= l < m,
        0 <= s < n,
        0 <= t2,
        0 <= l2 < m,
        0 <= s2 < n,
        rkey(n, m, t, l, s) == rkey(n, m, t2, l2, s2),
    ensures
        s == s2,
        t == t2,
        l == l2,
{
    let x = t * m + l;
    let y = t2 * m + l2;
    assert(0 <= t * m + l && 0 <= t2 * m + l2) by (nonlinear_arith)
        requires
            0 <= t,
            0 <= l,
            0 <= t2,
            0 <= l2,
            0 <= m,
    ;
    if x < y {
        assert(x * n + n <= y * n) by (nonlinear_arith)
            requires
                x < y,
                0 <= n,
        ;
    } else if y < x {
        assert(y * n + n <= x * n) by (nonlinear_arith)
            requires
                y < x,
                0 <= n,
        ;
    }
    assert(x == y);
    if t < t2 {
        assert(t * m + m <= t2 * m) by (nonlinear_arith)
            requires
                t < t2,
                0 <= m,
        ;
    } else if t2 < t {
        assert(t2 * m + m <= t * m) by (nonlinear_arith)
            requires
                t2 < t,
                0 <= m,
        ;
    }
}

proof fn lemma_rows_apart(n: int, m: int, t: int, l: int, t2: int, l2: int)
    requires
        0 <= t,
        0 <= l < m,
        0 <= t2,
        0 <= l2 < m,
        0 <= n,
    ensures
        rkey(n, m, t, l, 0) == rkey(n, m, t2, l2, 0) || rkey(n, m, t, l, 0) + n <= rkey(n, m, t2, l2, 0) || rkey(
            n,
            m,
            t2,
            l2,
            0,
        ) + n <= rkey(n, m, t, l, 0),
{
    let x = t * m + l;
    let y = t2 * m + l2;
    if x < y {
        assert(x * n + n <= y * n) by (nonlinear_arith)
            requires
                x < y,
                0 <= n,
        ;
    } else if y < x {
        assert(y * n + n <= x * n) by (nonlinear_arith)
            requires
                y < x,
                0 <= n,
        ;
    }
}

/// Some forget edge among the first `upto` leaves node `s`.
pub open spec fn forget_source(es: Seq<(int, int, EdgeLabel)>, upto: int, s: int) -> bool {
    exists|f: int| 0 <= f < upto && f < es.len() && es[f].2 is Forget && es[f].0 == s
}

/// Every reaching entry names a source that some forget edge leaves.
pub open spec fn sources_ok(reach: Seq<bool>, es: Seq<(int, int, EdgeLabel)>, n: int, m: int) -> bool {
    forall|t: int, l: int, s: int|
        0 <= t < n && 0 <= l < m && 0 <= s < n && #[trigger] reach[rkey(n, m, t, l, s)] ==> forget_source(
            es,
            es.len() as int,
            s,
        )
}

/// Copying a row into another keeps the sources of the entries.
proof fn lemma_row_sources(
    r0: Seq<bool>,
    r1: Seq<bool>,
    es: Seq<(int, int, EdgeLabel)>,
    n: int,
    m: int,
    ft: int,
    fl: int,
    tt: int,
    tl: int,
)
    requires
        sources_ok(r0, es, n, m),
        0 <= ft < n,
        0 <= fl < m,
        0 <= tt < n,
        0 <= tl < m,
        r0.len() == n * m * n,
        r1.len() == r0.len(),
        forall|k: int|
            0 <= k < r0.len() && #[trigger] r1[k] && !r0[k] ==> rkey(n, m, tt, tl, 0) <= k < rkey(n, m, tt, tl, 0) + n
                && r0[rkey(n, m, ft, fl, 0) + (k - rkey(n, m, tt, tl, 0))],
    ensures
        sources_ok(r1, es, n, m),
{
    assert forall|t: int, l: int, s: int|
        0 <= t < n && 0 <= l < m && 0 <= s < n && #[trigger] r1[rkey(n, m, t, l, s)] implies forget_source(
            es,
            es.len() as int,
            s,
        ) by {
        lemma_rkey(n, m, t, l);
        lemma_rkey(n, m, ft, fl);
        lemma_rkey(n, m, tt, tl);
        let k = rkey(n, m, t, l, s);
        if !r0[k] {
            let s2 = k - rkey(n, m, tt, tl, 0);
            assert(rkey(n, m, tt, tl, s2) == k);
            lemma_rkey_offset(n, m, t, l, s, tt, tl, s2);
            assert(r0[rkey(n, m, ft, fl, s2)]);
        }
    }
}

/// `r` (reaching entries) and `e` (edges) contain the nodes' initial edges `es0`
/// and are closed under the saturation rules, composition of identity edges
/// included.
pub open spec fn closed_pair(
    ns: Seq<NodeView>,
    es0: Seq<(int, int, EdgeLabel)>,
    r: Set<(int, FieldLabel, int)>,
    e: Set<(int, int, EdgeLabel)>,
) -> bool {
    &&& forall|x: int| 0 <= x < es0.len() ==> e.contains(#[trigger] es0[x])
    &&& forall|a: int, b: int, c: FieldLabel|
        #[trigger] e.contains((a, b, EdgeLabel::Forget { capability: c })) ==> r.contains((b, c, a))
    &&& forall|a: int, b: int, c: FieldLabel, s: int|
        e.contains((a, b, EdgeLabel::One)) && #[trigger] r.contains((a, c, s)) ==> #[trigger] r.contains((b, c, s))
    &&& forall|a: int, b: int, c: FieldLabel, s: int|
        #[trigger] e.contains((a, b, EdgeLabel::Recall { capability: c })) && #[trigger] r.contains((a, c, s)) && s
            != b ==> e.contains((s, b, EdgeLabel::One))
    &&& forall|a: int, b: int, c: int|
        #[trigger] e.contains((a, b, EdgeLabel::One)) && #[trigger] e.contains((b, c, EdgeLabel::One)) && a != c
            ==> e.contains((a, c, EdgeLabel::One))
    &&& forall|t: int, u: int, s: int|
        #![trigger r.contains((t, FieldLabel::Store, s)), ns[u]]
        0 <= t < ns.len() && 0 <= u < ns.len() && ns[t].1 == Variance::Contravariant && ns[u] == twin(ns[t])
            && r.contains((t, FieldLabel::Store, s)) ==> r.contains((u, FieldLabel::Load, s))
    &&& forall|t: int, u: int, s: int|
        #![trigger r.contains((t, FieldLabel::Load, s)), ns[u]]
        0 <= t < ns.len() && 0 <= u < ns.len() && ns[t].1 == Variance::Contravariant && ns[u] == twin(ns[t])
            && r.contains((t, FieldLabel::Load, s)) ==> r.contains((u, FieldLabel::Store, s))
}

/// Every entry of the reaching table is in `r`.
pub open spec fn bits_in(reach: Seq<bool>, labels: Seq<FieldLabel>, n: int, r: Set<(int, FieldLabel, int)>) -> bool {
    forall|t: int, l: int, s: int|
        0 <= t < n && 0 <= l < labels.len() && 0 <= s < n && #[trigger] reach[rkey(n, labels.len() as int, t, l, s)]
            ==> r.contains((t, labels[l], s))
}

/// Every edge is in `e`.
pub open spec fn edges_in(es: Seq<(int, int, EdgeLabel)>, e: Set<(int, int, EdgeLabel)>) -> bool {
    forall|x: int| 0 <= x < es.len() ==> e.contains(#[trigger] es[x])
}

/// The edges and the reaching table lie inside every closed pair: nothing was
/// derived that the rules do not force.
pub open spec fn least_so_far(
    ns: Seq<NodeView>,
    es0: Seq<(int, int, EdgeLabel)>,
    es: Seq<(int, int, EdgeLabel)>,
    reach: Seq<bool>,
    labels: Seq<FieldLabel>,
    n: int,
) -> bool {
    forall|r: Set<(int, FieldLabel, int)>, e: Set<(int, int, EdgeLabel)>|
        #[trigger] closed_pair(ns, es0, r, e) ==> edges_in(es, e) && bits_in(reach, labels, n, r)
}

/// The edges `es` are the least edge set closing the initial edges `es0`: with
/// some reaching relation they form a closed pair, and every closed pair holds
/// them all.
pub open spec fn least_closure(ns: Seq<NodeView>, es0: Seq<(int, int, EdgeLabel)>, es: Seq<(int, int, EdgeLabel)>) -> bool {
    &&& exists|r: Set<(int, FieldLabel, int)>| closed_pair(ns, es0, r, es.to_set())
    &&& forall|r: Set<(int, FieldLabel, int)>, e: Set<(int, int, EdgeLabel)>|
        #[trigger] closed_pair(ns, es0, r, e) ==> edges_in(es, e)
}

proof fn lemma_closed_pair_of(
    ns: Seq<NodeView>,
    es0: Seq<(int, int, EdgeLabel)>,
    es: Seq<(int, int, EdgeLabel)>,
    r: Set<(int, FieldLabel, int)>,
)
    requires
        reach_closed(ns, es, r),
        es0.len() <= es.len(),
        forall|x: int| 0 <= x < es0.len() ==> es[x] == es0[x],
    ensures
        closed_pair(ns, es0, r, es.to_set()),
{
    let e = es.to_set();
    assert forall|x: int| 0 <= x < es0.len() implies e.contains(#[trigger] es0[x]) by {
        assert(es[x] == es0[x]);
        assert(es.contains(es[x]));
    }
    assert forall|a: int, b: int, c: FieldLabel| #[trigger] e.contains((a, b, EdgeLabel::Forget { capability: c })) implies r.contains(
        (b, c, a),
    ) by {
        let x = choose|x: int| 0 <= x < es.len() && es[x] == (a, b, EdgeLabel::Forget { capability: c });
        assert(forgets(es[x].2, c));
    }
    assert forall|a: int, b: int, c: FieldLabel, s: int|
        e.contains((a, b, EdgeLabel::One)) && #[trigger] r.contains((a, c, s)) implies #[trigger] r.contains((b, c, s)) by {
        let x = choose|x: int| 0 <= x < es.len() && es[x] == (a, b, EdgeLabel::One);
        assert(r.contains((es[x].0, c, s)));
    }
    assert forall|a: int, b: int, c: FieldLabel, s: int|
        #[trigger] e.contains((a, b, EdgeLabel::Recall { capability: c })) && #[trigger] r.contains((a, c, s)) && s != b implies e.contains(
        (s, b, EdgeLabel::One),
    ) by {
        let x = choose|x: int| 0 <= x < es.len() && es[x] == (a, b, EdgeLabel::Recall { capability: c });
        assert(recalls(es[x].2, c));
        assert(r.contains((es[x].0, c, s)));
        assert(es.contains((s, es[x].1, EdgeLabel::One)));
    }
    assert forall|a: int, b: int, c: int|
        #[trigger] e.contains((a, b, EdgeLabel::One)) && #[trigger] e.contains((b, c, EdgeLabel::One)) && a != c implies e.contains(
        (a, c, EdgeLabel::One),
    ) by {
        assert(es.contains((a, b, EdgeLabel::One)) && es.contains((b, c, EdgeLabel::One)));
    }
}

/// Copying a row of the reaching table into another, where every closed pair
/// passes the first row's entries on to the second, keeps the table least.
proof fn lemma_row_least(
    r0: Seq<bool>,
    r1: Seq<bool>,
    ns: Seq<NodeView>,
    es0: Seq<(int, int, EdgeLabel)>,
    es: Seq<(int, int, EdgeLabel)>,
    labels: Seq<FieldLabel>,
    n: int,
    ft: int,
    fl: int,
    tt: int,
    tl: int,
)
    requires
        least_so_far(ns, es0, es, r0, labels, n),
        0 <= ft < n,
        0 <= fl < labels.len(),
        0 <= tt < n,
        0 <= tl < labels.len(),
        r0.len() == n * labels.len() * n,
        r1.len() == r0.len(),
        forall|k: int|
            0 <= k < r0.len() && #[trigger] r1[k] && !r0[k] ==> rkey(n, labels.len() as int, tt, tl, 0) <= k < rkey(
                n,
                labels.len() as int,
                tt,
                tl,
                0,
            ) + n && r0[rkey(n, labels.len() as int, ft, fl, 0) + (k - rkey(n, labels.len() as int, tt, tl, 0))],
        forall|r: Set<(int, FieldLabel, int)>, e: Set<(int, int, EdgeLabel)>, s: int|
            #[trigger] closed_pair(ns, es0, r, e) && edges_in(es, e) && 0 <= s < n && #[trigger] r.contains(
                (ft, labels[fl], s),
            ) ==> r.contains((tt, labels[tl], s)),
    ensures
        least_so_far(ns, es0, es, r1, labels, n),
{
    let m = labels.len() as int;
    assert forall|r: Set<(int, FieldLabel, int)>, e: Set<(int, int, EdgeLabel)>|
        #[trigger] closed_pair(ns, es0, r, e) implies edges_in(es, e) && bits_in(r1, labels, n, r) by {
        assert(edges_in(es, e) && bits_in(r0, labels, n, r));
        assert forall|t: int, l: int, s: int|
            0 <= t < n && 0 <= l < labels.len() && 0 <= s < n && #[trigger] r1[rkey(n, m, t, l, s)] implies r.contains(
                (t, labels[l], s),
            ) by {
            lemma_rkey(n, m, t, l);
            lemma_rkey(n, m, ft, fl);
            lemma_rkey(n, m, tt, tl);
            let k = rkey(n, m, t, l, s);
            if !r0[k] {
                let s2 = k - rkey(n, m, tt, tl, 0);
                assert(rkey(n, m, tt, tl, s2) == k);
                lemma_rkey_offset(n, m, t, l, s, tt, tl, s2);
                assert(r0[rkey(n, m, ft, fl, s2)]);
                assert(r.contains((ft, labels[fl], s2)));
            }
        }
    }
}

/// Computes `rkey`.
fn rkey_of(n: usize, m: usize, t: usize, l: usize, s: usize) -> (r: usize)
    requires
        t < n,
        l < m,
        s < n,
        n * m * n <= usize::MAX,
    ensures
        r == rkey(n as int, m as int, t as int, l as int, s as int),
{
    proof {
        lemma_rkey(n as int, m as int, t as int, l as int);
        assert(t * m + l <= (t * m + l) * n) by (nonlinear_arith)
            requires
                0 <= t * m + l,
                1 <= n,
        ;
        assert(t * m <= t * m + l);
    }
    (t * m + l) * n + s
}

/// Computes `okey`.
fn okey_of(n: usize, a: usize, b: usize) -> (r: usize)
    requires
        a < n,
        b < n,
        n * n <= usize::MAX,
    ensures
        r == okey(n as int, a as int, b as int),
{
    proof {
        lemma_okey(n as int, a as int, b as int);
        assert(a * n <= a * n + b);
    }
    a * n + b
}

/// The table of identity edges: entry `(a, b)` is set exactly when the edge
/// `a -> b` labelled one is present.
pub open spec fn one_table(one: Seq<bool>, n: int, es: Seq<(int, int, EdgeLabel)>) -> bool {
    &&& one.len() == n * n
    &&& forall|a: int, b: int|
        0 <= a < n && 0 <= b < n ==> (#[trigger] one[okey(n, a, b)] <==> es.contains((a, b, EdgeLabel::One)))
}

/// Whether the label of an edge is a forget of `c`, a recall of `c`.
pub open spec fn forgets(l: EdgeLabel, c: FieldLabel) -> bool {
    l == EdgeLabel::Forget { capability: c }
}

pub open spec fn recalls(l: EdgeLabel, c: FieldLabel) -> bool {
    l == EdgeLabel::Recall { capability: c }
}

/// `r` is a set of reaching entries `(target, capability, source)` closed under
/// the saturation rules over nodes `ns` and edges `es`: seed, identity, cancellation,
/// inversion, and composition of identity edges.
pub open spec fn reach_closed(
    ns: Seq<NodeView>,
    es: Seq<(int, int, EdgeLabel)>,
    r: Set<(int, FieldLabel, int)>,
) -> bool {
    // a forget edge a -> b of c puts (c, a) in the reaching set of b
    &&& forall|e: int, c: FieldLabel|
        0 <= e < es.len() && #[trigger] forgets(es[e].2, c) ==> r.contains((es[e].1, c, es[e].0))
    // a one edge a -> b passes the reaching set of a on to b
    &&& forall|e: int, c: FieldLabel, s: int|
        0 <= e < es.len() && es[e].2 == EdgeLabel::One && #[trigger] r.contains((es[e].0, c, s))
            ==> r.contains((es[e].1, c, s))
    // a recall edge a -> b of c, with (c, s) in the reaching set of a, gives a one edge s -> b
    &&& forall|e: int, c: FieldLabel, s: int|
        0 <= e < es.len() && recalls(es[e].2, c) && #[trigger] r.contains((es[e].0, c, s)) && s != es[e].1
            ==> es.contains((s, es[e].1, EdgeLabel::One))
    // at a contravariant node, store reaches the twin as load and load as store
    &&& forall|t: int, u: int, s: int|
        #![trigger r.contains((t, FieldLabel::Store, s)), ns[u]]
        0 <= t < ns.len() && 0 <= u < ns.len() && ns[t].1 == Variance::Contravariant && ns[u] == twin(ns[t])
            && r.contains((t, FieldLabel::Store, s)) ==> r.contains((u, FieldLabel::Load, s))
    &&& forall|t: int, u: int, s: int|
        #![trigger r.contains((t, FieldLabel::Load, s)), ns[u]]
        0 <= t < ns.len() && 0 <= u < ns.len() && ns[t].1 == Variance::Contravariant && ns[u] == twin(ns[t])
            && r.contains((t, FieldLabel::Load, s)) ==> r.contains((u, FieldLabel::Store, s))
    // identity edges a -> b and b -> c give a -> c
    &&& ones_composed(es)
}

/// The graph is saturated: some set of reaching entries is closed under the rules.
pub open spec fn saturated(ns: Seq<NodeView>, es: Seq<(int, int, EdgeLabel)>) -> bool {
    exists|r: Set<(int, FieldLabel, int)>| reach_closed(ns, es, r)
}

proof fn lemma_seed_keeps(
    es1: Seq<(int, int, EdgeLabel)>,
    es2: Seq<(int, int, EdgeLabel)>,
    labels: Seq<FieldLabel>,
    r1: Seq<bool>,
    r2: Seq<bool>,
    n: int,
)
    requires
        seed_closed(es1, labels, r1, n),
        covers_forgets(labels, es1),
        es1.len() <= es2.len(),
        forall|e: int| 0 <= e < es1.len() ==> es2[e] == es1[e],
        forall|e: int| es1.len() <= e < es2.len() ==> (#[trigger] es2[e]).2 == EdgeLabel::One,
        forall|e: int| 0 <= e < es1.len() ==> 0 <= #[trigger] es1[e].0 < n && 0 <= es1[e].1 < n,
        r1.len() == n * labels.len() * n,
        r2.len() == r1.len(),
        forall|k: int| 0 <= k < r1.len() && r1[k] ==> #[trigger] r2[k],
    ensures
        seed_closed(es2, labels, r2, n),
        covers_forgets(labels, es2),
{
    let m = labels.len() as int;
    assert forall|e: int, i: int|
        0 <= e < es2.len() && 0 <= i < labels.len() && #[trigger] forgets(es2[e].2, labels[i]) implies r2[rkey(
            n,
            m,
            es2[e].1,
            i,
            es2[e].0,
        )] by {
        if e < es1.len() {
            assert(es2[e] == es1[e]);
            lemma_rkey(n, m, es1[e].1, i);
            assert(r1[rkey(n, m, es1[e].1, i, es1[e].0)]);
        } else {
            assert(es2[e].2 == EdgeLabel::One);
        }
    }
    assert forall|e: int, c: FieldLabel| 0 <= e < es2.len() && #[trigger] forgets(es2[e].2, c) implies labels.contains(c) by {
        if e < es1.len() {
            assert(es2[e] == es1[e]);
            assert(forgets(es1[e].2, c));
        } else {
            assert(es2[e].2 == EdgeLabel::One);
        }
    }
}

/// The reaching table, read as a set of (target, capability, source) entries.
pub open spec fn reach_set(reach: Seq<bool>, labels: Seq<FieldLabel>, n: int) -> Set<(int, FieldLabel, int)> {
    Set::new(
        |x: (int, FieldLabel, int)|
            0 <= x.0 < n && 0 <= x.2 < n && exists|i: int|
                0 <= i < labels.len() && labels[i] == x.1 && #[trigger] reach[rkey(n, labels.len() as int, x.0, i, x.2)],
    )
}

#[verifier::spinoff_prover]
proof fn lemma_table_saturated(
    ns: Seq<NodeView>,
    es: Seq<(int, int, EdgeLabel)>,
    labels: Seq<FieldLabel>,
    reach: Seq<bool>,
    n: int,
    si: int,
    li: int,
)
    requires
        ns.len() == n,
        forall|e: int| 0 <= e < es.len() ==> 0 <= #[trigger] es[e].0 < n && 0 <= es[e].1 < n,
        distinct(labels),
        0 <= si < labels.len() && labels[si] == FieldLabel::Store,
        0 <= li < labels.len() && labels[li] == FieldLabel::Load,
        covers_forgets(labels, es),
        seed_closed(es, labels, reach, n),
        ones_closed(es, reach, n, labels.len() as int),
        recalls_closed(es, es.len() as int, labels, reach, n),
        inversion_closed(ns, reach, n, labels.len() as int, si, li),
        ones_composed(es),
    ensures
        reach_closed(ns, es, reach_set(reach, labels, n)),
        saturated(ns, es),
{
    let m = labels.len() as int;
    let r = reach_set(reach, labels, n);
    assert forall|e: int, c: FieldLabel| 0 <= e < es.len() && #[trigger] forgets(es[e].2, c) implies r.contains(
        (es[e].1, c, es[e].0),
    ) by {
        assert(labels.contains(c));
        let i = choose|i: int| 0 <= i < labels.len() && labels[i] == c;
        assert(forgets(es[e].2, labels[i]));
        assert(reach[rkey(n, m, es[e].1, i, es[e].0)]);
        assert(0 <= es[e].1 < n && 0 <= es[e].0 < n);
        assert(reach[rkey(n, labels.len() as int, es[e].1, i, es[e].0)]);
    }
    assert forall|e: int, c: FieldLabel, s: int|
        0 <= e < es.len() && es[e].2 == EdgeLabel::One && #[trigger] r.contains((es[e].0, c, s)) implies r.contains(
        (es[e].1, c, s),
    ) by {
        let i = choose|i: int| 0 <= i < labels.len() && labels[i] == c && #[trigger] reach[rkey(n, m, es[e].0, i, s)];
        assert(reach[rkey(n, m, es[e].1, i, s)]);
    }
    assert forall|e: int, c: FieldLabel, s: int|
        0 <= e < es.len() && recalls(es[e].2, c) && #[trigger] r.contains((es[e].0, c, s)) && s != es[e].1 implies es.contains(
        (s, es[e].1, EdgeLabel::One),
    ) by {
        let i = choose|i: int| 0 <= i < labels.len() && labels[i] == c && #[trigger] reach[rkey(n, m, es[e].0, i, s)];
    }
    assert forall|t: int, u: int, s: int|
        #![trigger r.contains((t, FieldLabel::Store, s)), ns[u]]
        0 <= t < ns.len() && 0 <= u < ns.len() && ns[t].1 == Variance::Contravariant && ns[u] == twin(ns[t])
            && r.contains((t, FieldLabel::Store, s)) implies r.contains((u, FieldLabel::Load, s)) by {
        let i = choose|i: int|
            0 <= i < labels.len() && labels[i] == FieldLabel::Store && #[trigger] reach[rkey(n, m, t, i, s)];
        assert(i == si);
        assert(0 <= s < n);
        assert(reach[rkey(n, m, u, li, s)]);
        assert(labels[li] == FieldLabel::Load);
        assert(0 <= u < n);
        assert(reach[rkey(n, labels.len() as int, u, li, s)]);
        assert(r.contains((u, FieldLabel::Load, s)));
    }
    assert forall|t: int, u: int, s: int|
        #![trigger r.contains((t, FieldLabel::Load, s)), ns[u]]
        0 <= t < ns.len() && 0 <= u < ns.len() && ns[t].1 == Variance::Contravariant && ns[u] == twin(ns[t])
            && r.contains((t, FieldLabel::Load, s)) implies r.contains((u, FieldLabel::Store, s)) by {
        let i = choose|i: int|
            0 <= i < labels.len() && labels[i] == FieldLabel::Load && #[trigger] reach[rkey(n, m, t, i, s)];
        assert(i == li);
        assert(0 <= s < n);
        assert(reach[rkey(n, m, u, si, s)]);
        assert(labels[si] == FieldLabel::Store);
        assert(0 <= u < n);
        assert(reach[rkey(n, labels.len() as int, u, si, s)]);
        assert(r.contains((u, FieldLabel::Store, s)));
    }
    assert(reach_closed(ns, es, r));
}

/// A vector of `n` times `false`.
fn falses(n: usize) -> (v: Vec<bool>)
    ensures
        v@.len() == n,
        forall|k: int| 0 <= k < n ==> !#[trigger] v@[k],
{
    let mut v: Vec<bool> = Vec::new();
    let mut i: usize = 0;
    while i < n
        invariant
            i <= n,
            v@.len() == i,
            forall|k: int| 0 <= k < i ==> !#[trigger] v@[k],
        decreases n - i,
    {
        v.push(false);
        i = i + 1;
    }
    v
}

/// Sets each entry `to + s` for which `from + s` is set, `s < n`; returns whether
/// any entry changed.
fn or_row(reach: &mut Vec<bool>, from: usize, to: usize, n: usize) -> (changed: bool)
    requires
        from + n <= old(reach)@.len(),
        to + n <= old(reach)@.len(),
        from == to || from + n <= to || to + n <= from,
    ensures
        forall|k: int|
            0 <= k < old(reach)@.len() && #[trigger] final(reach)@[k] && !old(reach)@[k] ==> to <= k < to + n
                && old(reach)@[from + (k - to)],
        final(reach)@.len() == old(reach)@.len(),
        forall|k: int| 0 <= k < old(reach)@.len() && old(reach)@[k] ==> #[trigger] final(reach)@[k],
        trues(old(reach)@).len() <= trues(final(reach)@).len(),
        changed ==> trues(old(reach)@).len() < trues(final(reach)@).len(),
        !changed ==> final(reach)@ == old(reach)@,
        !changed ==> forall|s: int| 0 <= s < n && #[trigger] final(reach)@[from + s] ==> final(reach)@[to + s],
{
    let ghost r0 = reach@;
    let total = reach.len();
    let mut changed = false;
    let mut s: usize = 0;
    while s < n
        invariant
            from + n <= reach@.len(),
            to + n <= reach@.len(),
            reach@.len() == r0.len(),
            total == r0.len(),
            s <= n,
            forall|k: int| 0 <= k < r0.len() && r0[k] ==> #[trigger] reach@[k],
            trues(r0).len() <= trues(reach@).len(),
            changed ==> trues(r0).len() < trues(reach@).len(),
            !changed ==> reach@ == r0,
            !changed ==> forall|j: int| 0 <= j < s && #[trigger] reach@[from + j] ==> reach@[to + j],
            from == to || from + n <= to || to + n <= from,
            forall|k: int| 0 <= k < r0.len() && (k < to || k >= to + n) ==> #[trigger] reach@[k] == r0[k],
            forall|k: int|
                0 <= k < r0.len() && #[trigger] reach@[k] && !r0[k] ==> to <= k < to + n && r0[from + (k - to)],
        decreases n - s,
    {
        if reach[from + s] && !reach[to + s] {
            assert(from != to);
            assert(reach@[from + s] == r0[from + s]);
            proof {
                lemma_trues_set(reach@, (to + s) as int);
            }
            reach.set(to + s, true);
            changed = true;
        }
        s = s + 1;
    }
    changed
}

/// Whether the labels are pairwise distinct.
pub open spec fn distinct(labels: Seq<FieldLabel>) -> bool {
    forall|i: int, j: int| 0 <= i < labels.len() && 0 <= j < labels.len() && i != j ==> labels[i] != labels[j]
}

/// Every forget edge's capability is listed.
pub open spec fn covers_forgets(labels: Seq<FieldLabel>, es: Seq<(int, int, EdgeLabel)>) -> bool {
    forall|e: int, c: FieldLabel| 0 <= e < es.len() && #[trigger] forgets(es[e].2, c) ==> labels.contains(c)
}

/// The seed rule holds in the reaching table.
pub open spec fn seed_closed(es: Seq<(int, int, EdgeLabel)>, labels: Seq<FieldLabel>, reach: Seq<bool>, n: int) -> bool {
    forall|e: int, i: int|
        0 <= e < es.len() && 0 <= i < labels.len() && #[trigger] forgets(es[e].2, labels[i]) ==> reach[rkey(
            n,
            labels.len() as int,
            es[e].1,
            i,
            es[e].0,
        )]
}

/// The identity rule holds in the reaching table.
pub open spec fn ones_closed(es: Seq<(int, int, EdgeLabel)>, reach: Seq<bool>, n: int, m: int) -> bool {
    forall|e: int, i: int, s: int|
        0 <= e < es.len() && es[e].2 == EdgeLabel::One && 0 <= i < m && 0 <= s < n && #[trigger] reach[rkey(
            n,
            m,
            es[e].0,
            i,
            s,
        )] ==> reach[rkey(n, m, es[e].1, i, s)]
}

/// The cancellation rule holds for the edges before `upto` and the reaching table.
pub open spec fn recalls_closed(
    es: Seq<(int, int, EdgeLabel)>,
    upto: int,
    labels: Seq<FieldLabel>,
    reach: Seq<bool>,
    n: int,
) -> bool {
    forall|e: int, i: int, s: int|
        0 <= e < upto && e < es.len() && 0 <= i < labels.len() && recalls(es[e].2, labels[i]) && 0 <= s < n && #[trigger] reach[rkey(
            n,
            labels.len() as int,
            es[e].0,
            i,
            s,
        )] && s != es[e].1 ==> es.contains((s, es[e].1, EdgeLabel::One))
}

/// The inversion rule holds in the reaching table; `si` and `li` are the
/// positions of store and load among the labels.
pub open spec fn inversion_closed(ns: Seq<NodeView>, reach: Seq<bool>, n: int, m: int, si: int, li: int) -> bool {
    forall|t: int, u: int, s: int|
        #![trigger reach[rkey(n, m, t, si, s)], ns[u]]
        #![trigger reach[rkey(n, m, t, li, s)], ns[u]]
        0 <= t < n && 0 <= u < n && 0 <= s < n && ns[t].1 == Variance::Contravariant && ns[u] == twin(ns[t])
            ==> (reach[rkey(n, m, t, si, s)] ==> reach[rkey(n, m, u, li, s)]) && (reach[rkey(n, m, t, li, s)]
            ==> reach[rkey(n, m, u, si, s)])
}

/// An edge that saturation adds: an identity edge, not a self-loop, that leaves
/// the source of a forget or identity edge and enters the target of a recall or
/// identity edge, both among the first `e0` edges.
pub open spec fn added_by_rules(es: Seq<(int, int, EdgeLabel)>, e0: int, x: (int, int, EdgeLabel)) -> bool {
    &&& x.2 == EdgeLabel::One
    &&& x.0 != x.1
    &&& target_ok(es, e0, x.1)
    &&& source_ok(es, e0, x.0)
}

/// Some forget or identity edge among the first `e0` leaves `s`.
pub open spec fn source_ok(es: Seq<(int, int, EdgeLabel)>, e0: int, s: int) -> bool {
    exists|f: int| 0 <= f < e0 && f < es.len() && (es[f].2 is Forget || es[f].2 == EdgeLabel::One) && es[f].0 == s
}

/// Some recall or identity edge among the first `e0` enters `t`.
pub open spec fn target_ok(es: Seq<(int, int, EdgeLabel)>, e0: int, t: int) -> bool {
    exists|r: int| 0 <= r < e0 && r < es.len() && (es[r].2 is Recall || es[r].2 == EdgeLabel::One) && es[r].1 == t
}

proof fn lemma_added_keep(es1: Seq<(int, int, EdgeLabel)>, es2: Seq<(int, int, EdgeLabel)>, e0: int, x: (int, int, EdgeLabel))
    requires
        0 <= e0 <= es1.len() <= es2.len(),
        forall|q: int| 0 <= q < es1.len() ==> es2[q] == es1[q],
        added_by_rules(es1, e0, x),
    ensures
        added_by_rules(es2, e0, x),
{
    let r = choose|r: int| 0 <= r < e0 && r < es1.len() && (es1[r].2 is Recall || es1[r].2 == EdgeLabel::One) && es1[r].1 == x.1;
    assert(es2[r] == es1[r]);
    let f = choose|f: int| 0 <= f < e0 && f < es1.len() && (es1[f].2 is Forget || es1[f].2 == EdgeLabel::One) && es1[f].0 == x.0;
    assert(es2[f] == es1[f]);
}

/// What stays true of a saturation run: the graph is well formed, its node count
/// is `n`, the tables have their sizes, edges from `e0` on are one edges, and
/// there is room for every identity edge not yet present.
pub open spec fn run_state(g: ConstraintGraph, n: int, m: int, reach: Seq<bool>, one: Seq<bool>, e0: int) -> bool {
    &&& g.wf()
    &&& g.nodes().len() == n
    &&& reach.len() == n * m * n
    &&& one_table(one, n, g.edges())
    &&& 0 <= e0 <= g.edges().len()
    &&& forall|e: int| e0 <= e < g.edges().len() ==> added_by_rules(g.edges(), e0, #[trigger] g.edges()[e])
    &&& g.edges().len() + n * n - trues(one).len() + 1 < index_limit()
}

/// The identity table closes the path `x -> y -> z` with `x -> z` (unless `x == z`).
pub open spec fn composed_at(one: Seq<bool>, n: int, x: int, y: int, z: int) -> bool {
    one[okey(n, x, y)] && one[okey(n, y, z)] && x != z ==> one[okey(n, x, z)]
}

/// Identity edges compose: `a -> b` and `b -> c` give `a -> c` unless `a == c`.
pub open spec fn ones_composed(es: Seq<(int, int, EdgeLabel)>) -> bool {
    forall|a: int, b: int, c: int|
        #[trigger] es.contains((a, b, EdgeLabel::One)) && #[trigger] es.contains((b, c, EdgeLabel::One)) && a != c
            ==> es.contains((a, c, EdgeLabel::One))
}

/// The state that every pass keeps, relative to `g0` and `o0` at its start.
pub open spec fn pass_state(
    g: ConstraintGraph,
    g0: ConstraintGraph,
    o0: Seq<bool>,
    n: int,
    reach: Seq<bool>,
    one: Seq<bool>,
    e0: int,
    fs: Seq<(int, int, EdgeLabel)>,
    labels: Seq<FieldLabel>,
) -> bool {
    &&& run_state(g, n, labels.len() as int, reach, one, e0)
    &&& sources_ok(reach, fs, n, labels.len() as int)
    &&& least_so_far(g.nodes(), fs, g.edges(), reach, labels, n)
    &&& fs.len() == e0
    &&& forall|f: int| 0 <= f < e0 ==> #[trigger] g.edges()[f] == fs[f]
    &&& g.nodes() == g0.nodes()
    &&& grows(g0.nodes(), g0.edges(), g.nodes(), g.edges())
    &&& trues(o0).len() <= trues(one).len()
    &&& n * n <= usize::MAX
}

/// The position of `c` among the labels, if it is there.
fn label_index(labels: &Vec<FieldLabel>, c: FieldLabel) -> (r: Option<usize>)
    ensures
        r matches Some(i) ==> i < labels@.len() && labels@[i as int] == c,
        r is None ==> !labels@.contains(c),
{
    let mut i: usize = 0;
    while i < labels.len()
        invariant
            i <= labels@.len(),
            forall|k: int| 0 <= k < i ==> labels@[k] != c,
        decreases labels@.len() - i,
    {
        if labels[i] == c {
            return Some(i);
        }
        i = i + 1;
    }
    None
}

impl ConstraintGraph {
    /// For each node, the index of its twin at the other variance; `None` when
    /// some node has no twin.
    fn twin_table(&self) -> (r: Option<Vec<usize>>)
        requires
            self.wf(),
        ensures
            r matches Some(tw) ==> tw@.len() == self.nodes().len() && forall|t: int|
                0 <= t < self.nodes().len() ==> #[trigger] tw@[t] < self.nodes().len() && (self.nodes()[t].1
                    == Variance::Contravariant ==> self.nodes()[tw@[t] as int] == twin(self.nodes()[t])),
            r is None <==> !contra_twinned(self.nodes()),
    {
        let n = node_count(&self.graph);
        let mut tw: Vec<usize> = Vec::new();
        let mut t: usize = 0;
        while t < n
            invariant
                self.wf(),
                n == self.nodes().len(),
                t <= n,
                tw@.len() == t,
                forall|k: int|
                    0 <= k < t ==> #[trigger] tw@[k] < n && (self.nodes()[k].1 == Variance::Contravariant
                        ==> self.nodes()[tw@[k] as int] == twin(self.nodes()[k])),
            decreases n - t,
        {
            let node = node_at(&self.graph, t);
            if node.suffix_variance == Variance::Contravariant {
                let other = Node {
                    base: node.base.duplicate(),
                    suffix_variance: node.suffix_variance.invert(),
                    sidemark: node.sidemark,
                };
                match self.node_index(&other) {
                    Some(u) => {
                        tw.push(u);
                    },
                    None => {
                        return None;
                    },
                }
            } else {
                tw.push(t);
            }
            t = t + 1;
        }
        proof {
            assert forall|i: int| 0 <= i < self.nodes().len() && self.nodes()[i].1 == Variance::Contravariant implies self.nodes().contains(
                twin(#[trigger] self.nodes()[i]),
            ) by {
                assert(self.nodes()[tw@[i] as int] == twin(self.nodes()[i]));
            }
        }
        Some(tw)
    }

    /// Store, load, then each other forget capability once; with the positions of
    /// store and load.
    fn capability_labels(&self) -> (r: (Vec<FieldLabel>, usize, usize))
        requires
            self.wf(),
        ensures
            distinct(r.0@),
            r.1 < r.0@.len() && r.0@[r.1 as int] == FieldLabel::Store,
            r.2 < r.0@.len() && r.0@[r.2 as int] == FieldLabel::Load,
            r.0@.len() <= self.edges().len() + 2,
            covers_forgets(r.0@, self.edges()),
    {
        let mut labels: Vec<FieldLabel> = Vec::new();
        labels.push(FieldLabel::Store);
        labels.push(FieldLabel::Load);
        let m = edge_count(&self.graph);
        let mut e: usize = 0;
        while e < m
            invariant
                self.wf(),
                m == self.edges().len(),
                e <= m,
                distinct(labels@),
                2 <= labels@.len() <= e + 2,
                labels@[0] == FieldLabel::Store,
                labels@[1] == FieldLabel::Load,
                covers_forgets(labels@, self.edges().subrange(0, e as int)),
            decreases m - e,
        {
            let l = edge_label(&self.graph, e);
            let ghost before = labels@;
            if let EdgeLabel::Forget { capability } = l {
                if label_index(&labels, capability).is_none() {
                    labels.push(capability);
                    assert(labels@[labels@.len() - 1] == capability);
                }
            }
            assert(forall|c: FieldLabel| before.contains(c) ==> labels@.contains(c)) by {
                assert forall|c: FieldLabel| before.contains(c) implies labels@.contains(c) by {
                    let i = choose|i: int| 0 <= i < before.len() && before[i] == c;
                    assert(labels@[i] == c);
                }
            }
            proof {
                assert forall|k: int, c: FieldLabel|
                    0 <= k < e + 1 && #[trigger] forgets(self.edges().subrange(0, e + 1)[k].2, c) implies labels@.contains(c) by {
                    if k < e {
                        assert(self.edges().subrange(0, e as int)[k] == self.edges().subrange(0, e + 1)[k]);
                        assert(forgets(self.edges().subrange(0, e as int)[k].2, c));
                        assert(before.contains(c));
                    } else {
                        assert(l == EdgeLabel::Forget { capability: c });
                    }
                }
            }
            e = e + 1;
        }
        proof {
            assert(self.edges().subrange(0, m as int) =~= self.edges());
        }
        (labels, 0, 1)
    }

    /// The table of identity edges of the graph.
    fn one_edges(&self, n: usize) -> (one: Vec<bool>)
        requires
            self.wf(),
            n == self.nodes().len(),
            n * n <= usize::MAX,
        ensures
            one_table(one@, n as int, self.edges()),
    {
        let mut one = falses(n * n);
        let m = edge_count(&self.graph);
        proof {
            assert forall|a: int, b: int| 0 <= a < n && 0 <= b < n implies (#[trigger] one@[okey(n as int, a, b)]
                <==> self.edges().subrange(0, 0).contains((a, b, EdgeLabel::One))) by {
                lemma_okey(n as int, a, b);
            }
        }
        let mut e: usize = 0;
        while e < m
            invariant
                self.wf(),
                n == self.nodes().len(),
                n * n <= usize::MAX,
                m == self.edges().len(),
                e <= m,
                one@.len() == n * n,
                forall|a: int, b: int|
                    0 <= a < n && 0 <= b < n ==> (#[trigger] one@[okey(n as int, a, b)]
                        <==> self.edges().subrange(0, e as int).contains((a, b, EdgeLabel::One))),
            decreases m - e,
        {
            let (a, b) = edge_ends(&self.graph, e);
            let l = edge_label(&self.graph, e);
            let ghost sub = self.edges().subrange(0, e as int);
            let ghost next = self.edges().subrange(0, e + 1);
            proof {
                assert(next =~= sub.push(self.edges()[e as int]));
                lemma_okey(n as int, a as int, b as int);
            }
            if l == EdgeLabel::One {
                one.set(okey_of(n, a, b), true);
            }
            proof {
                assert forall|x: int, y: int| 0 <= x < n && 0 <= y < n implies (#[trigger] one@[okey(n as int, x, y)]
                    <==> next.contains((x, y, EdgeLabel::One))) by {
                    lemma_okey(n as int, x, y);
                    if next.contains((x, y, EdgeLabel::One)) && !sub.contains((x, y, EdgeLabel::One)) {
                        let k = choose|k: int| 0 <= k < next.len() && next[k] == (x, y, EdgeLabel::One);
                        assert(k == e);
                    }
                    if sub.contains((x, y, EdgeLabel::One)) {
                        let k = choose|k: int| 0 <= k < sub.len() && sub[k] == (x, y, EdgeLabel::One);
                        assert(next[k] == sub[k]);
                    }
                    if l == EdgeLabel::One && okey(n as int, x, y) == okey(n as int, a as int, b as int) {
                        lemma_okey_inj(n as int, x, y, a as int, b as int);
                        assert(next[e as int] == (x, y, EdgeLabel::One));
                    }
                }
            }
            e = e + 1;
        }
        proof {
            assert(self.edges().subrange(0, m as int) =~= self.edges());
        }
        one
    }

    /// Seeds the reaching table from the forget edges.
    fn seed(&self, reach: &mut Vec<bool>, labels: &Vec<FieldLabel>, n: usize)
        requires
            self.wf(),
            n == self.nodes().len(),
            distinct(labels@),
            old(reach)@.len() == n * labels@.len() * n,
            n * labels@.len() * n <= usize::MAX,
            sources_ok(old(reach)@, self.edges(), n as int, labels@.len() as int),
            least_so_far(self.nodes(), self.edges(), self.edges(), old(reach)@, labels@, n as int),
        ensures
            final(reach)@.len() == old(reach)@.len(),
            seed_closed(self.edges(), labels@, final(reach)@, n as int),
            sources_ok(final(reach)@, self.edges(), n as int, labels@.len() as int),
            least_so_far(self.nodes(), self.edges(), self.edges(), final(reach)@, labels@, n as int),
    {
        let m = labels.len();
        let count = edge_count(&self.graph);
        let mut e: usize = 0;
        while e < count
            invariant
                self.wf(),
                n == self.nodes().len(),
                m == labels@.len(),
                distinct(labels@),
                reach@.len() == n * m * n,
                n * m * n <= usize::MAX,
                count == self.edges().len(),
                e <= count,
                seed_closed(self.edges().subrange(0, e as int), labels@, reach@, n as int),
                sources_ok(reach@, self.edges(), n as int, m as int),
                least_so_far(self.nodes(), self.edges(), self.edges(), reach@, labels@, n as int),
            decreases count - e,
        {
            let (a, b) = edge_ends(&self.graph, e);
            let l = edge_label(&self.graph, e);
            let ghost before = reach@;
            let ghost sub = self.edges().subrange(0, e as int);
            let ghost next = self.edges().subrange(0, e + 1);
            let mut found: Option<usize> = None;
            if let EdgeLabel::Forget { capability } = l {
                found = label_index(labels, capability);
                if let Some(i) = found {
                    proof {
                        lemma_rkey(n as int, m as int, b as int, i as int);
                    }
                    reach.set(rkey_of(n, m, b, i, a), true);
                    proof {
                        assert(self.edges()[e as int].2 is Forget);
                        assert(forget_source(self.edges(), self.edges().len() as int, a as int));
                        assert forall|t: int, q: int, x: int|
                            0 <= t < n && 0 <= q < m && 0 <= x < n && #[trigger] reach@[rkey(n as int, m as int, t, q, x)]
                                implies forget_source(self.edges(), self.edges().len() as int, x) by {
                            lemma_rkey(n as int, m as int, t, q);
                            if rkey(n as int, m as int, t, q, x) != rkey(n as int, m as int, b as int, i as int, a as int) {
                                assert(reach@[rkey(n as int, m as int, t, q, x)] == before[rkey(n as int, m as int, t, q, x)]);
                            } else {
                                lemma_rkey(n as int, m as int, t, q);
                                lemma_rkey_offset(n as int, m as int, t, q, x, b as int, i as int, a as int);
                            }
                        }
                        let ns = self.nodes();
                        let es = self.edges();
                        assert forall|r: Set<(int, FieldLabel, int)>, ee: Set<(int, int, EdgeLabel)>|
                            #[trigger] closed_pair(ns, es, r, ee) implies edges_in(es, ee) && bits_in(reach@, labels@, n as int, r) by {
                            assert(bits_in(before, labels@, n as int, r));
                            assert(ee.contains(es[e as int]));
                            assert(es[e as int] == (a as int, b as int, EdgeLabel::Forget { capability: labels@[i as int] }));
                            assert(r.contains((b as int, labels@[i as int], a as int)));
                            assert forall|t: int, q: int, x: int|
                                0 <= t < n && 0 <= q < labels@.len() && 0 <= x < n && #[trigger] reach@[rkey(n as int, labels@.len() as int, t, q, x)]
                                    implies r.contains((t, labels@[q], x)) by {
                                lemma_rkey(n as int, m as int, t, q);
                                if rkey(n as int, m as int, t, q, x) != rkey(n as int, m as int, b as int, i as int, a as int) {
                                    assert(reach@[rkey(n as int, m as int, t, q, x)] == before[rkey(n as int, m as int, t, q, x)]);
                                } else {
                                    lemma_rkey_offset(n as int, m as int, t, q, x, b as int, i as int, a as int);
                                }
                            }
                        }
                    }
                }
            }
            proof {
                assert forall|k: int, i: int|
                    0 <= k < next.len() && 0 <= i < labels@.len() && #[trigger] forgets(next[k].2, labels@[i]) implies reach@[rkey(
                        n as int,
                        labels@.len() as int,
                        next[k].1,
                        i,
                        next[k].0,
                    )] by {
                    if k < e {
                        assert(next[k] == sub[k]);
                        assert(forgets(sub[k].2, labels@[i]));
                        lemma_rkey(n as int, m as int, sub[k].1, i);
                        assert(before[rkey(n as int, m as int, sub[k].1, i, sub[k].0)]);
                    } else {
                        assert(l == EdgeLabel::Forget { capability: labels@[i] });
                        assert(labels@.contains(labels@[i]));
                        let j = found->Some_0;
                        assert(j == i);
                        lemma_rkey(n as int, m as int, b as int, i);
                    }
                }
            }
            e = e + 1;
        }
        proof {
            assert(self.edges().subrange(0, count as int) =~= self.edges());
        }
    }

    /// One pass of the identity rule; returns whether the table changed.
    fn propagate_ones(&self, reach: &mut Vec<bool>, n: usize, m: usize, fs: Ghost<Seq<(int, int, EdgeLabel)>>, lab: Ghost<Seq<FieldLabel>>) -> (changed: bool)
        requires
            self.wf(),
            n == self.nodes().len(),
            old(reach)@.len() == n * m * n,
            n * m * n <= usize::MAX,
            sources_ok(old(reach)@, fs@, n as int, m as int),
            m == lab@.len(),
            least_so_far(self.nodes(), fs@, self.edges(), old(reach)@, lab@, n as int),
        ensures
            sources_ok(final(reach)@, fs@, n as int, m as int),
            least_so_far(self.nodes(), fs@, self.edges(), final(reach)@, lab@, n as int),
            final(reach)@.len() == old(reach)@.len(),
            forall|k: int| 0 <= k < old(reach)@.len() && old(reach)@[k] ==> #[trigger] final(reach)@[k],
            trues(old(reach)@).len() <= trues(final(reach)@).len(),
            changed ==> trues(old(reach)@).len() < trues(final(reach)@).len(),
            !changed ==> final(reach)@ == old(reach)@,
            !changed ==> ones_closed(self.edges(), final(reach)@, n as int, m as int),
    {
        let ghost r0 = reach@;
        let count = edge_count(&self.graph);
        let mut changed = false;
        let mut e: usize = 0;
        while e < count
            invariant
                self.wf(),
                n == self.nodes().len(),
                count == self.edges().len(),
                e <= count,
                reach@.len() == r0.len(),
                r0.len() == n * m * n,
                n * m * n <= usize::MAX,
                sources_ok(reach@, fs@, n as int, m as int),
                m == lab@.len(),
                least_so_far(self.nodes(), fs@, self.edges(), reach@, lab@, n as int),
                forall|k: int| 0 <= k < r0.len() && r0[k] ==> #[trigger] reach@[k],
                trues(r0).len() <= trues(reach@).len(),
                changed ==> trues(r0).len() < trues(reach@).len(),
                !changed ==> reach@ == r0,
                !changed ==> ones_closed(self.edges().subrange(0, e as int), reach@, n as int, m as int),
            decreases count - e,
        {
            let (a, b) = edge_ends(&self.graph, e);
            let l = edge_label(&self.graph, e);
            let ghost sub = self.edges().subrange(0, e as int);
            let ghost next = self.edges().subrange(0, e + 1);
            if l == EdgeLabel::One {
                let mut i: usize = 0;
                while i < m
                    invariant
                        self.wf(),
                        n == self.nodes().len(),
                        count == self.edges().len(),
                        e < count,
                        a < n,
                        b < n,
                        a == self.edges()[e as int].0,
                        b == self.edges()[e as int].1,
                        self.edges()[e as int].2 == EdgeLabel::One,
                        i <= m,
                        reach@.len() == r0.len(),
                        r0.len() == n * m * n,
                        n * m * n <= usize::MAX,
                        sources_ok(reach@, fs@, n as int, m as int),
                m == lab@.len(),
                least_so_far(self.nodes(), fs@, self.edges(), reach@, lab@, n as int),
                        forall|k: int| 0 <= k < r0.len() && r0[k] ==> #[trigger] reach@[k],
                        trues(r0).len() <= trues(reach@).len(),
                        changed ==> trues(r0).len() < trues(reach@).len(),
                        !changed ==> reach@ == r0,
                        !changed ==> ones_closed(sub, reach@, n as int, m as int),
                        !changed ==> forall|j: int, s: int|
                            0 <= j < i && 0 <= s < n && #[trigger] reach@[rkey(n as int, m as int, a as int, j, s)]
                                ==> reach@[rkey(n as int, m as int, b as int, j, s)],
                    decreases m - i,
                {
                    proof {
                        lemma_rkey(n as int, m as int, a as int, i as int);
                        lemma_rkey(n as int, m as int, b as int, i as int);
                        lemma_rows_apart(n as int, m as int, a as int, i as int, b as int, i as int);
                    }
                    let from = rkey_of(n, m, a, i, 0);
                    let to = rkey_of(n, m, b, i, 0);
                    let ghost rb = reach@;
                    let c = or_row(reach, from, to, n);
                    proof {
                        lemma_row_sources(rb, reach@, fs@, n as int, m as int, a as int, i as int, b as int, i as int);
                        assert forall|rr: Set<(int, FieldLabel, int)>, ee: Set<(int, int, EdgeLabel)>, x: int|
                            #[trigger] closed_pair(self.nodes(), fs@, rr, ee) && edges_in(self.edges(), ee) && 0 <= x < n
                                && #[trigger] rr.contains((a as int, lab@[i as int], x)) implies rr.contains(
                                (b as int, lab@[i as int], x),
                            ) by {
                            assert(ee.contains(self.edges()[e as int]));
                            assert(ee.contains((a as int, b as int, EdgeLabel::One)));
                        }
                        lemma_row_least(rb, reach@, self.nodes(), fs@, self.edges(), lab@, n as int, a as int, i as int, b as int, i as int);
                        if !changed && !c {
                            assert forall|j: int, s: int|
                                0 <= j < i + 1 && 0 <= s < n && #[trigger] reach@[rkey(n as int, m as int, a as int, j, s)]
                                    implies reach@[rkey(n as int, m as int, b as int, j, s)] by {
                                if j == i {
                                    lemma_rkey(n as int, m as int, a as int, j);
                                    lemma_rkey(n as int, m as int, b as int, j);
                                    assert(reach@[from + s]);
                                }
                            }
                        }
                    }
                    changed = changed || c;
                    i = i + 1;
                }
            }
            proof {
                if !changed {
                    assert forall|k: int, j: int, s: int|
                        0 <= k < next.len() && next[k].2 == EdgeLabel::One && 0 <= j < m && 0 <= s < n
                            && #[trigger] reach@[rkey(n as int, m as int, next[k].0, j, s)] implies reach@[rkey(
                            n as int,
                            m as int,
                            next[k].1,
                            j,
                            s,
                        )] by {
                        if k < e {
                            assert(next[k] == sub[k]);
                            assert(ones_closed(sub, reach@, n as int, m as int));
                            assert(reach@[rkey(n as int, m as int, sub[k].0, j, s)]);
                            assert(reach@[rkey(n as int, m as int, sub[k].1, j, s)]);
                        } else {
                            assert(next[k] == self.edges()[e as int]);
                            assert(next[k].0 == a && next[k].1 == b && next[k].2 == l);
                            assert(l == EdgeLabel::One);
                            assert(reach@[rkey(n as int, m as int, a as int, j, s)]);
                            assert(reach@[rkey(n as int, m as int, b as int, j, s)]);
                        }
                    }
                }
            }
            e = e + 1;
        }
        proof {
            assert(self.edges().subrange(0, count as int) =~= self.edges());
        }
        changed
    }

    /// One pass of the cancellation rule; returns whether an edge was added.
    fn cancel_recalls(
        &mut self,
        reach: &Vec<bool>,
        one: &mut Vec<bool>,
        labels: &Vec<FieldLabel>,
        n: usize,
        e0: Ghost<int>,
        fs: Ghost<Seq<(int, int, EdgeLabel)>>,
    ) -> (changed: bool)
        requires
            run_state(*old(self), n as int, labels@.len() as int, reach@, old(one)@, e0@),
            sources_ok(reach@, fs@, n as int, labels@.len() as int),
            least_so_far(old(self).nodes(), fs@, old(self).edges(), reach@, labels@, n as int),
            fs@.len() == e0@,
            forall|f: int| 0 <= f < e0@ ==> #[trigger] old(self).edges()[f] == fs@[f],
            distinct(labels@),
            n * labels@.len() * n <= usize::MAX,
            n * n <= usize::MAX,
        ensures
            least_so_far(final(self).nodes(), fs@, final(self).edges(), reach@, labels@, n as int),
            run_state(*final(self), n as int, labels@.len() as int, reach@, final(one)@, e0@),
            final(self).nodes() == old(self).nodes(),
            grows(old(self).nodes(), old(self).edges(), final(self).nodes(), final(self).edges()),
            trues(old(one)@).len() <= trues(final(one)@).len(),
            changed ==> trues(old(one)@).len() < trues(final(one)@).len(),
            !changed ==> final(self).edges() == old(self).edges() && final(one)@ == old(one)@,
            !changed ==> recalls_closed(final(self).edges(), final(self).edges().len() as int, labels@, reach@, n as int),
    {
        let ghost g0 = *self;
        let ghost o0 = one@;
        let m = labels.len();
        let count = edge_count(&self.graph);
        let mut changed = false;
        let mut e: usize = 0;
        while e < count
            invariant
                run_state(*self, n as int, m as int, reach@, one@, e0@),
                sources_ok(reach@, fs@, n as int, m as int),
                least_so_far(self.nodes(), fs@, self.edges(), reach@, labels@, n as int),
                fs@.len() == e0@,
                forall|f: int| 0 <= f < e0@ ==> #[trigger] self.edges()[f] == fs@[f],
                m == labels@.len(),
                distinct(labels@),
                n * m * n <= usize::MAX,
                n * n <= usize::MAX,
                self.nodes() == g0.nodes(),
                grows(g0.nodes(), g0.edges(), self.nodes(), self.edges()),
                count == g0.edges().len(),
                e <= count,
                trues(o0).len() <= trues(one@).len(),
                changed ==> trues(o0).len() < trues(one@).len(),
                !changed ==> self.edges() == g0.edges() && one@ == o0,
                !changed ==> recalls_closed(self.edges(), e as int, labels@, reach@, n as int),
            decreases count - e,
        {
            let (a, b) = edge_ends(&self.graph, e);
            let l = edge_label(&self.graph, e);
            let ghost sub = g0.edges().subrange(0, e as int);
            let ghost next = g0.edges().subrange(0, e + 1);
            let mut found: Option<usize> = None;
            if let EdgeLabel::Recall { capability } = l {
                found = label_index(labels, capability);
            }
            if let Some(i) = found {
                let mut s: usize = 0;
                while s < n
                    invariant
                        run_state(*self, n as int, m as int, reach@, one@, e0@),
                        sources_ok(reach@, fs@, n as int, m as int),
                least_so_far(self.nodes(), fs@, self.edges(), reach@, labels@, n as int),
                        fs@.len() == e0@,
                        forall|f: int| 0 <= f < e0@ ==> #[trigger] self.edges()[f] == fs@[f],
                        m == labels@.len(),
                        distinct(labels@),
                        found == Some(i),
                        l is Recall,
                        i < labels@.len(),
                        l == (EdgeLabel::Recall { capability: labels@[i as int] }),
                        l == self.edges()[e as int].2,
                        a == self.edges()[e as int].0,
                        b == self.edges()[e as int].1,
                        n * m * n <= usize::MAX,
                        n * n <= usize::MAX,
                        self.nodes() == g0.nodes(),
                        grows(g0.nodes(), g0.edges(), self.nodes(), self.edges()),
                        count == g0.edges().len(),
                        e < count,
                        a < n,
                        b < n,
                        i < m,
                        s <= n,
                        trues(o0).len() <= trues(one@).len(),
                        changed ==> trues(o0).len() < trues(one@).len(),
                        !changed ==> self.edges() == g0.edges() && one@ == o0,
                        !changed ==> recalls_closed(self.edges(), e as int, labels@, reach@, n as int),
                        !changed ==> forall|t: int|
                            0 <= t < s && #[trigger] reach@[rkey(n as int, m as int, a as int, i as int, t)] && t != b
                                ==> self.edges().contains((t, b as int, EdgeLabel::One)),
                    decreases n - s,
                {
                    proof {
                        lemma_rkey(n as int, m as int, a as int, i as int);
                    }
                    let k = rkey_of(n, m, a, i, s);
                    let ok = okey_of(n, s, b);
                    proof {
                        lemma_okey(n as int, s as int, b as int);
                    }
                    if reach[k] && s != b && !one[ok] {
                        let ghost es1 = self.edges();
                        let ghost one1 = one@;
                        proof {
                            lemma_okey(n as int, s as int, b as int);
                            lemma_trues_set(one@, ok as int);
                            lemma_trues_len(one@);
                        }
                        let added = self.add_edge(s, b, EdgeLabel::One);
                        one.set(ok, true);
                        proof {
                            assert forall|x: int, y: int| 0 <= x < n && 0 <= y < n implies (#[trigger] one@[okey(n as int, x, y)]
                                <==> self.edges().contains((x, y, EdgeLabel::One))) by {
                                lemma_okey(n as int, x, y);
                                if okey(n as int, x, y) == okey(n as int, s as int, b as int) {
                                    lemma_okey_inj(n as int, x, y, s as int, b as int);
                                    assert(self.edges()[self.edges().len() - 1] == (x, y, EdgeLabel::One));
                                } else {
                                    if self.edges().contains((x, y, EdgeLabel::One)) {
                                        let q = choose|q: int| 0 <= q < self.edges().len() && self.edges()[q] == (x, y, EdgeLabel::One);
                                        if q < es1.len() {
                                            assert(es1[q] == (x, y, EdgeLabel::One));
                                        }
                                    }
                                    if es1.contains((x, y, EdgeLabel::One)) {
                                        let q = choose|q: int| 0 <= q < es1.len() && es1[q] == (x, y, EdgeLabel::One);
                                        assert(self.edges()[q] == (x, y, EdgeLabel::One));
                                    }
                                }
                            }
                            assert forall|rr: Set<(int, FieldLabel, int)>, ee: Set<(int, int, EdgeLabel)>|
                                #[trigger] closed_pair(self.nodes(), fs@, rr, ee) implies edges_in(self.edges(), ee) && bits_in(
                                reach@,
                                labels@,
                                n as int,
                                rr,
                            ) by {
                                assert(edges_in(es1, ee) && bits_in(reach@, labels@, n as int, rr));
                                assert(ee.contains(es1[e as int]));
                                assert(es1[e as int] == (a as int, b as int, EdgeLabel::Recall { capability: labels@[i as int] }));
                                assert(reach@[rkey(n as int, labels@.len() as int, a as int, i as int, s as int)]);
                                assert(rr.contains((a as int, labels@[i as int], s as int)));
                                assert(ee.contains((s as int, b as int, EdgeLabel::One)));
                                assert forall|x: int| 0 <= x < self.edges().len() implies ee.contains(#[trigger] self.edges()[x]) by {
                                    if x < es1.len() {
                                        assert(self.edges()[x] == es1[x]);
                                    } else {
                                        assert(self.edges()[x] == (s as int, b as int, EdgeLabel::One));
                                    }
                                }
                            }
                            assert(l is Recall);
                            assert(e < e0@) by {
                                if e >= e0@ {
                                    assert(added_by_rules(es1, e0@, es1[e as int]));
                                }
                            }
                            assert forall|q: int| e0@ <= q < self.edges().len() implies added_by_rules(
                                self.edges(),
                                e0@,
                                #[trigger] self.edges()[q],
                            ) by {
                                assert(self.edges()[e as int] == es1[e as int]);
                                if q < es1.len() {
                                    assert(self.edges()[q] == es1[q]);
                                    assert(added_by_rules(es1, e0@, es1[q]));
                                    lemma_added_keep(es1, self.edges(), e0@, es1[q]);
                                } else {
                                    assert(self.edges()[q] == (s as int, b as int, EdgeLabel::One));
                                    assert(reach@[rkey(n as int, m as int, a as int, i as int, s as int)]);
                                    assert(forget_source(fs@, fs@.len() as int, s as int));
                                    let f = choose|f: int| 0 <= f < fs@.len() && f < fs@.len() && fs@[f].2 is Forget && fs@[f].0 == s;
                                    assert(self.edges()[f] == es1[f]);
                                    assert(es1[f] == fs@[f]);
                                    assert(source_ok(self.edges(), e0@, s as int));
                                    assert(target_ok(self.edges(), e0@, b as int));
                                }
                            }
                        }
                        changed = true;
                    }
                    s = s + 1;
                }
            }
            proof {
                if !changed {
                    assert forall|k: int, j: int, t: int|
                        0 <= k < e + 1 && k < self.edges().len() && 0 <= j < labels@.len() && recalls(self.edges()[k].2, labels@[j]) && 0 <= t < n
                            && #[trigger] reach@[rkey(n as int, labels@.len() as int, self.edges()[k].0, j, t)] && t != self.edges()[k].1
                            implies self.edges().contains((t, self.edges()[k].1, EdgeLabel::One)) by {
                        if k == e {
                            assert(labels@.contains(labels@[j]));
                            assert(found == Some(j as usize));
                        }
                    }
                }
            }
            e = e + 1;
        }
        proof {
            assert(g0.edges().subrange(0, count as int) =~= g0.edges());
        }
        changed
    }

    /// Adds `a -> c` for every `c` with identity edges `a -> b -> c`, `a != c`,
    /// where the edge is not there yet; returns whether an edge was added.
    fn compose_at(
        &mut self,
        reach: &Vec<bool>,
        one: &mut Vec<bool>,
        labels: &Vec<FieldLabel>,
        n: usize,
        a: usize,
        b: usize,
        e0: Ghost<int>,
        fs: Ghost<Seq<(int, int, EdgeLabel)>>,
    ) -> (changed: bool)
        requires
            pass_state(*old(self), *old(self), old(one)@, n as int, reach@, old(one)@, e0@, fs@, labels@),
            a < n,
            b < n,
        ensures
            pass_state(*final(self), *old(self), old(one)@, n as int, reach@, final(one)@, e0@, fs@, labels@),
            changed ==> trues(old(one)@).len() < trues(final(one)@).len(),
            !changed ==> final(self).edges() == old(self).edges() && final(one)@ == old(one)@,
            !changed ==> forall|z: int| 0 <= z < n ==> #[trigger] composed_at(final(one)@, n as int, a as int, b as int, z),
    {
        let ghost g0 = *self;
        let ghost o0 = one@;
        let mut changed = false;
        let mut c: usize = 0;
        while c < n
            invariant
                pass_state(*self, g0, o0, n as int, reach@, one@, e0@, fs@, labels@),
                a < n,
                b < n,
                c <= n,
                changed ==> trues(o0).len() < trues(one@).len(),
                !changed ==> self.edges() == g0.edges() && one@ == o0,
                !changed ==> forall|z: int| 0 <= z < c ==> #[trigger] composed_at(one@, n as int, a as int, b as int, z),
            decreases n - c,
        {
            let kab = okey_of(n, a, b);
            let kbc = okey_of(n, b, c);
            let kac = okey_of(n, a, c);
            proof {
                lemma_okey(n as int, a as int, b as int);
                lemma_okey(n as int, b as int, c as int);
                lemma_okey(n as int, a as int, c as int);
            }
            if one[kab] && one[kbc] && a != c && !one[kac] {
                let ghost es1 = self.edges();
                proof {
                    lemma_trues_set(one@, kac as int);
                    lemma_trues_len(one@);
                }
                let added = self.add_edge(a, c, EdgeLabel::One);
                one.set(kac, true);
                proof {
                    let m = labels@.len() as int;
                    assert(es1.contains((a as int, b as int, EdgeLabel::One)));
                    assert(es1.contains((b as int, c as int, EdgeLabel::One)));
                    assert forall|x: int, y: int| 0 <= x < n && 0 <= y < n implies (#[trigger] one@[okey(n as int, x, y)]
                        <==> self.edges().contains((x, y, EdgeLabel::One))) by {
                        lemma_okey(n as int, x, y);
                        if okey(n as int, x, y) == okey(n as int, a as int, c as int) {
                            lemma_okey_inj(n as int, x, y, a as int, c as int);
                            assert(self.edges()[self.edges().len() - 1] == (x, y, EdgeLabel::One));
                        } else {
                            if self.edges().contains((x, y, EdgeLabel::One)) {
                                let q = choose|q: int| 0 <= q < self.edges().len() && self.edges()[q] == (x, y, EdgeLabel::One);
                                if q < es1.len() {
                                    assert(es1[q] == (x, y, EdgeLabel::One));
                                }
                            }
                            if es1.contains((x, y, EdgeLabel::One)) {
                                let q = choose|q: int| 0 <= q < es1.len() && es1[q] == (x, y, EdgeLabel::One);
                                assert(self.edges()[q] == (x, y, EdgeLabel::One));
                            }
                        }
                    }
                    assert forall|rr: Set<(int, FieldLabel, int)>, ee: Set<(int, int, EdgeLabel)>|
                        #[trigger] closed_pair(self.nodes(), fs@, rr, ee) implies edges_in(self.edges(), ee) && bits_in(
                        reach@,
                        labels@,
                        n as int,
                        rr,
                    ) by {
                        assert(edges_in(es1, ee) && bits_in(reach@, labels@, n as int, rr));
                        let q1 = choose|q: int| 0 <= q < es1.len() && es1[q] == (a as int, b as int, EdgeLabel::One);
                        let q2 = choose|q: int| 0 <= q < es1.len() && es1[q] == (b as int, c as int, EdgeLabel::One);
                        assert(ee.contains(es1[q1]));
                        assert(ee.contains(es1[q2]));
                        assert(ee.contains((a as int, c as int, EdgeLabel::One)));
                        assert forall|x: int| 0 <= x < self.edges().len() implies ee.contains(#[trigger] self.edges()[x]) by {
                            if x < es1.len() {
                                assert(self.edges()[x] == es1[x]);
                            } else {
                                assert(self.edges()[x] == (a as int, c as int, EdgeLabel::One));
                            }
                        }
                    }
                    let q1 = choose|q: int| 0 <= q < es1.len() && es1[q] == (a as int, b as int, EdgeLabel::One);
                    let q2 = choose|q: int| 0 <= q < es1.len() && es1[q] == (b as int, c as int, EdgeLabel::One);
                    assert(source_ok(es1, e0@, a as int)) by {
                        if q1 >= e0@ {
                            assert(added_by_rules(es1, e0@, es1[q1]));
                        }
                    }
                    assert(target_ok(es1, e0@, c as int)) by {
                        if q2 >= e0@ {
                            assert(added_by_rules(es1, e0@, es1[q2]));
                        }
                    }
                    let r = choose|r: int| 0 <= r < e0@ && r < es1.len() && (es1[r].2 is Recall || es1[r].2 == EdgeLabel::One) && es1[r].1 == c;
                    let f = choose|f: int| 0 <= f < e0@ && f < es1.len() && (es1[f].2 is Forget || es1[f].2 == EdgeLabel::One) && es1[f].0 == a;
                    assert(self.edges()[r] == es1[r]);
                    assert(self.edges()[f] == es1[f]);
                    assert forall|q: int| e0@ <= q < self.edges().len() implies added_by_rules(
                        self.edges(),
                        e0@,
                        #[trigger] self.edges()[q],
                    ) by {
                        if q < es1.len() {
                            assert(self.edges()[q] == es1[q]);
                            assert(added_by_rules(es1, e0@, es1[q]));
                            lemma_added_keep(es1, self.edges(), e0@, es1[q]);
                        } else {
                            assert(self.edges()[q] == (a as int, c as int, EdgeLabel::One));
                        }
                    }
                    assert forall|ff: int| 0 <= ff < e0@ implies #[trigger] self.edges()[ff] == fs@[ff] by {
                        assert(self.edges()[ff] == es1[ff]);
                    }
                }
                changed = true;
            }
            c = c + 1;
        }
        changed
    }

    /// One pass of the composition rule; returns whether an edge was added.
    fn compose_ones(
        &mut self,
        reach: &Vec<bool>,
        one: &mut Vec<bool>,
        labels: &Vec<FieldLabel>,
        n: usize,
        e0: Ghost<int>,
        fs: Ghost<Seq<(int, int, EdgeLabel)>>,
    ) -> (changed: bool)
        requires
            pass_state(*old(self), *old(self), old(one)@, n as int, reach@, old(one)@, e0@, fs@, labels@),
        ensures
            pass_state(*final(self), *old(self), old(one)@, n as int, reach@, final(one)@, e0@, fs@, labels@),
            changed ==> trues(old(one)@).len() < trues(final(one)@).len(),
            !changed ==> final(self).edges() == old(self).edges() && final(one)@ == old(one)@,
            !changed ==> ones_composed(final(self).edges()),
    {
        let ghost g0 = *self;
        let ghost o0 = one@;
        let mut changed = false;
        let mut a: usize = 0;
        while a < n
            invariant
                pass_state(*self, g0, o0, n as int, reach@, one@, e0@, fs@, labels@),
                a <= n,
                changed ==> trues(o0).len() < trues(one@).len(),
                !changed ==> self.edges() == g0.edges() && one@ == o0,
                !changed ==> forall|x: int, y: int, z: int|
                    0 <= x < a && 0 <= y < n && 0 <= z < n ==> #[trigger] composed_at(one@, n as int, x, y, z),
            decreases n - a,
        {
            let mut b: usize = 0;
            while b < n
                invariant
                    pass_state(*self, g0, o0, n as int, reach@, one@, e0@, fs@, labels@),
                    a < n,
                    b <= n,
                    changed ==> trues(o0).len() < trues(one@).len(),
                    !changed ==> self.edges() == g0.edges() && one@ == o0,
                    !changed ==> forall|x: int, y: int, z: int|
                        0 <= x < a && 0 <= y < n && 0 <= z < n ==> #[trigger] composed_at(one@, n as int, x, y, z),
                    !changed ==> forall|y: int, z: int|
                        0 <= y < b && 0 <= z < n ==> #[trigger] composed_at(one@, n as int, a as int, y, z),
                decreases n - b,
            {
                let ghost gb = *self;
                let ghost ob = one@;
                let c = self.compose_at(reach, one, labels, n, a, b, e0, fs);
                proof {
                    assert(grows(g0.nodes(), g0.edges(), self.nodes(), self.edges())) by {
                        assert forall|e: int| 0 <= e < g0.edges().len() implies self.edges()[e] == g0.edges()[e] by {
                            assert(gb.edges()[e] == g0.edges()[e]);
                        }
                    }
                }
                changed = changed || c;
                b = b + 1;
            }
            a = a + 1;
        }
        proof {
            if !changed {
                let es = self.edges();
                assert forall|x: int, y: int, z: int|
                    #[trigger] es.contains((x, y, EdgeLabel::One)) && #[trigger] es.contains((y, z, EdgeLabel::One)) && x != z
                        implies es.contains((x, z, EdgeLabel::One)) by {
                    let q1 = choose|q: int| 0 <= q < es.len() && es[q] == (x, y, EdgeLabel::One);
                    let q2 = choose|q: int| 0 <= q < es.len() && es[q] == (y, z, EdgeLabel::One);
                    assert(self.wf() && self.nodes().len() == n);
                    assert(0 <= self.edges()[q1].0 < self.nodes().len() && 0 <= self.edges()[q1].1 < self.nodes().len());
                    assert(0 <= self.edges()[q2].0 < self.nodes().len() && 0 <= self.edges()[q2].1 < self.nodes().len());
                    assert(one@[okey(n as int, x, y)]);
                    assert(one@[okey(n as int, y, z)]);
                    assert(composed_at(one@, n as int, x, y, z));
                }
            }
        }
        changed
    }

    /// One pass of the inversion rule; returns whether the table changed.
    fn invert_variances(
        &self,
        reach: &mut Vec<bool>,
        tw: &Vec<usize>,
        n: usize,
        m: usize,
        si: usize,
        li: usize,
        fs: Ghost<Seq<(int, int, EdgeLabel)>>,
        lab: Ghost<Seq<FieldLabel>>,
    ) -> (changed: bool)
        requires
            self.wf(),
            n == self.nodes().len(),
            si < m,
            li < m,
            tw@.len() == n,
            forall|t: int| 0 <= t < n ==> #[trigger] tw@[t] < n && (self.nodes()[t].1 == Variance::Contravariant
                ==> self.nodes()[tw@[t] as int] == twin(self.nodes()[t])),
            old(reach)@.len() == n * m * n,
            n * m * n <= usize::MAX,
            sources_ok(old(reach)@, fs@, n as int, m as int),
            m == lab@.len(),
            lab@[si as int] == FieldLabel::Store,
            lab@[li as int] == FieldLabel::Load,
            least_so_far(self.nodes(), fs@, self.edges(), old(reach)@, lab@, n as int),
        ensures
            sources_ok(final(reach)@, fs@, n as int, m as int),
            least_so_far(self.nodes(), fs@, self.edges(), final(reach)@, lab@, n as int),
            final(reach)@.len() == old(reach)@.len(),
            forall|k: int| 0 <= k < old(reach)@.len() && old(reach)@[k] ==> #[trigger] final(reach)@[k],
            trues(old(reach)@).len() <= trues(final(reach)@).len(),
            changed ==> trues(old(reach)@).len() < trues(final(reach)@).len(),
            !changed ==> final(reach)@ == old(reach)@,
            !changed ==> inversion_closed(self.nodes(), final(reach)@, n as int, m as int, si as int, li as int),
    {
        let ghost r0 = reach@;
        let ghost ns = self.nodes();
        let mut changed = false;
        let mut t: usize = 0;
        while t < n
            invariant
                self.wf(),
                n == self.nodes().len(),
                ns == self.nodes(),
                si < m,
                li < m,
                tw@.len() == n,
                forall|x: int| 0 <= x < n ==> #[trigger] tw@[x] < n && (ns[x].1 == Variance::Contravariant ==> ns[tw@[x] as int]
                    == twin(ns[x])),
                t <= n,
                reach@.len() == r0.len(),
                r0.len() == n * m * n,
                n * m * n <= usize::MAX,
                sources_ok(reach@, fs@, n as int, m as int),
                m == lab@.len(),
                lab@[si as int] == FieldLabel::Store,
                lab@[li as int] == FieldLabel::Load,
                least_so_far(self.nodes(), fs@, self.edges(), reach@, lab@, n as int),
                forall|k: int| 0 <= k < r0.len() && r0[k] ==> #[trigger] reach@[k],
                trues(r0).len() <= trues(reach@).len(),
                changed ==> trues(r0).len() < trues(reach@).len(),
                !changed ==> reach@ == r0,
                !changed ==> forall|x: int, s: int|
                    #![trigger reach@[rkey(n as int, m as int, x, si as int, s)]]
                    #![trigger reach@[rkey(n as int, m as int, x, li as int, s)]]
                    0 <= x < t && 0 <= s < n && ns[x].1 == Variance::Contravariant ==> (reach@[rkey(n as int, m as int, x, si as int, s)]
                        ==> reach@[rkey(n as int, m as int, tw@[x] as int, li as int, s)]) && (reach@[rkey(
                        n as int,
                        m as int,
                        x,
                        li as int,
                        s,
                    )] ==> reach@[rkey(n as int, m as int, tw@[x] as int, si as int, s)]),
            decreases n - t,
        {
            if node_at(&self.graph, t).suffix_variance == Variance::Contravariant {
                let u = tw[t];
                proof {
                    lemma_rkey(n as int, m as int, t as int, si as int);
                    lemma_rkey(n as int, m as int, t as int, li as int);
                    lemma_rkey(n as int, m as int, u as int, si as int);
                    lemma_rkey(n as int, m as int, u as int, li as int);
                    lemma_rows_apart(n as int, m as int, t as int, si as int, u as int, li as int);
                    lemma_rows_apart(n as int, m as int, t as int, li as int, u as int, si as int);
                }
                let ghost rb1 = reach@;
                let c1 = or_row(reach, rkey_of(n, m, t, si, 0), rkey_of(n, m, u, li, 0), n);
                proof {
                    lemma_row_sources(rb1, reach@, fs@, n as int, m as int, t as int, si as int, u as int, li as int);
                    assert(self.nodes()[u as int] == twin(self.nodes()[t as int]));
                    assert forall|rr: Set<(int, FieldLabel, int)>, ee: Set<(int, int, EdgeLabel)>, x: int|
                        #[trigger] closed_pair(self.nodes(), fs@, rr, ee) && edges_in(self.edges(), ee) && 0 <= x < n
                            && #[trigger] rr.contains((t as int, lab@[si as int], x)) implies rr.contains(
                            (u as int, lab@[li as int], x),
                        ) by {
                        assert(rr.contains((t as int, FieldLabel::Store, x)));
                    }
                    lemma_row_least(rb1, reach@, self.nodes(), fs@, self.edges(), lab@, n as int, t as int, si as int, u as int, li as int);
                }
                let ghost rb2 = reach@;
                let c2 = or_row(reach, rkey_of(n, m, t, li, 0), rkey_of(n, m, u, si, 0), n);
                proof {
                    lemma_row_sources(rb2, reach@, fs@, n as int, m as int, t as int, li as int, u as int, si as int);
                    assert(self.nodes()[u as int] == twin(self.nodes()[t as int]));
                    assert forall|rr: Set<(int, FieldLabel, int)>, ee: Set<(int, int, EdgeLabel)>, x: int|
                        #[trigger] closed_pair(self.nodes(), fs@, rr, ee) && edges_in(self.edges(), ee) && 0 <= x < n
                            && #[trigger] rr.contains((t as int, lab@[li as int], x)) implies rr.contains(
                            (u as int, lab@[si as int], x),
                        ) by {
                        assert(rr.contains((t as int, FieldLabel::Load, x)));
                    }
                    lemma_row_least(rb2, reach@, self.nodes(), fs@, self.edges(), lab@, n as int, t as int, li as int, u as int, si as int);
                }
                changed = changed || c1 || c2;
            }
            t = t + 1;
        }
        proof {
            if !changed {
                assert forall|x: int, u: int, s: int|
                    #![trigger reach@[rkey(n as int, m as int, x, si as int, s)], ns[u]]
                    #![trigger reach@[rkey(n as int, m as int, x, li as int, s)], ns[u]]
                    0 <= x < n && 0 <= u < n && 0 <= s < n && ns[x].1 == Variance::Contravariant && ns[u] == twin(ns[x])
                        implies (reach@[rkey(n as int, m as int, x, si as int, s)] ==> reach@[rkey(
                        n as int,
                        m as int,
                        u,
                        li as int,
                        s,
                    )]) && (reach@[rkey(n as int, m as int, x, li as int, s)] ==> reach@[rkey(
                        n as int,
                        m as int,
                        u,
                        si as int,
                        s,
                    )]) by {
                    assert(ns[tw@[x] as int] == ns[u]);
                    assert(tw@[x] as int == u);
                }
            }
        }
        changed
    }

    /// Saturates the graph: repeats the seed, identity, cancellation, composition and
    /// inversion rules until none adds anything. Only identity edges are added, nothing is
    /// removed. Fails with `InvariantViolation`, changing nothing, when some
    /// contravariant node lacks its covariant twin, which the inversion rule reads.
    pub fn saturate(&mut self) -> (r: Result<(), GraphError>)
        requires
            old(self).wf(),
            old(self).nodes().len() * old(self).nodes().len() + old(self).edges().len() + 1 < index_limit(),
            old(self).nodes().len() * (old(self).edges().len() + 2) * old(self).nodes().len() <= usize::MAX,
        ensures
            final(self).wf(),
            final(self).nodes() == old(self).nodes(),
            grows(old(self).nodes(), old(self).edges(), final(self).nodes(), final(self).edges()),
            forall|e: int|
                old(self).edges().len() <= e < final(self).edges().len() ==> added_by_rules(
                    final(self).edges(),
                    old(self).edges().len() as int,
                    #[trigger] final(self).edges()[e],
                ),
            r is Err <==> !contra_twinned(old(self).nodes()),
            r is Err ==> r == Err::<(), GraphError>(GraphError::InvariantViolation),
            r is Err ==> final(self).edges() == old(self).edges(),
            r is Ok ==> saturated(final(self).nodes(), final(self).edges()),
            r is Ok ==> least_closure(final(self).nodes(), old(self).edges(), final(self).edges()),
    {
        let ghost g0 = *self;
        let n = node_count(&self.graph);
        let tw = match self.twin_table() {
            Some(tw) => tw,
            None => {
                return Err(GraphError::InvariantViolation);
            },
        };
        let (labels, si, li) = self.capability_labels();
        let m = labels.len();
        proof {
            let e = self.edges().len() as int;
            assert(n * m * n <= n * (e + 2) * n) by (nonlinear_arith)
                requires
                    m <= e + 2,
                    0 <= n,
            ;
            assert(n * n <= n * n + e);
            assert(n * m <= usize::MAX) by (nonlinear_arith)
                requires
                    n * m * n <= usize::MAX,
                    0 <= m,
                    0 <= n,
            ;
        }
        let mut reach = falses(n * m * n);
        proof {
            assert forall|t: int, q: int, x: int|
                0 <= t < n && 0 <= q < m && 0 <= x < n && #[trigger] reach@[rkey(n as int, m as int, t, q, x)] implies forget_source(
                    self.edges(),
                    self.edges().len() as int,
                    x,
                ) by {
                lemma_rkey(n as int, m as int, t, q);
            }
        }
        proof {
            let ns = self.nodes();
            let es = self.edges();
            assert forall|r: Set<(int, FieldLabel, int)>, ee: Set<(int, int, EdgeLabel)>|
                #[trigger] closed_pair(ns, es, r, ee) implies edges_in(es, ee) && bits_in(reach@, labels@, n as int, r) by {
                assert forall|t: int, l: int, x: int|
                    0 <= t < n && 0 <= l < labels@.len() && 0 <= x < n && #[trigger] reach@[rkey(n as int, labels@.len() as int, t, l, x)]
                        implies r.contains((t, labels@[l], x)) by {
                    lemma_rkey(n as int, m as int, t, l);
                }
            }
        }
        let mut one = self.one_edges(n);
        self.seed(&mut reach, &labels, n);
        let ghost e0 = self.edges().len() as int;
        proof {
            lemma_trues_len(one@);
            lemma_trues_len(reach@);
        }
        let mut changed = true;
        while changed
            invariant
                run_state(*self, n as int, m as int, reach@, one@, e0),
                e0 == g0.edges().len(),
                self.nodes() == g0.nodes(),
                grows(g0.nodes(), g0.edges(), self.nodes(), self.edges()),
                m == labels@.len(),
                n * m * n <= usize::MAX,
                n * n <= usize::MAX,
                distinct(labels@),
                si < m && labels@[si as int] == FieldLabel::Store,
                li < m && labels@[li as int] == FieldLabel::Load,
                covers_forgets(labels@, self.edges()),
                seed_closed(self.edges(), labels@, reach@, n as int),
                sources_ok(reach@, g0.edges(), n as int, m as int),
                least_so_far(self.nodes(), g0.edges(), self.edges(), reach@, labels@, n as int),
                tw@.len() == n,
                forall|t: int| 0 <= t < n ==> #[trigger] tw@[t] < n && (self.nodes()[t].1 == Variance::Contravariant
                ==> self.nodes()[tw@[t] as int] == twin(self.nodes()[t])),
                trues(reach@).finite(),
                trues(one@).finite(),
                trues(reach@).len() <= n * m * n,
                trues(one@).len() <= n * n,
                !changed ==> ones_closed(self.edges(), reach@, n as int, m as int),
                !changed ==> recalls_closed(self.edges(), self.edges().len() as int, labels@, reach@, n as int),
                !changed ==> inversion_closed(self.nodes(), reach@, n as int, m as int, si as int, li as int),
                !changed ==> ones_composed(self.edges()),
            decreases 2 * ((n * m * n - trues(reach@).len()) + (n * n - trues(one@).len())) + if changed {
                1int
            } else {
                0int
            },
        {
            let ghost es1 = self.edges();
            let ghost r1 = reach@;
            let c1 = self.propagate_ones(&mut reach, n, m, Ghost(g0.edges()), Ghost(labels@));
            let ghost r2 = reach@;
            let c2 = self.cancel_recalls(&reach, &mut one, &labels, n, Ghost(e0), Ghost(g0.edges()));
            let ghost es2 = self.edges();
            let ghost o2 = one@;
            let c4 = self.compose_ones(&reach, &mut one, &labels, n, Ghost(e0), Ghost(g0.edges()));
            proof {
                assert(grows(g0.nodes(), g0.edges(), self.nodes(), self.edges())) by {
                    assert forall|e: int| 0 <= e < g0.edges().len() implies self.edges()[e] == g0.edges()[e] by {
                        assert(es2[e] == g0.edges()[e]);
                    }
                }
            }
            let c3 = self.invert_variances(&mut reach, &tw, n, m, si, li, Ghost(g0.edges()), Ghost(labels@));
            proof {
                lemma_seed_keeps(es1, self.edges(), labels@, r1, reach@, n as int);
                lemma_trues_len(one@);
                lemma_trues_len(reach@);
                if !c2 && !c3 && !c4 {
                    assert(reach@ == r2);
                    assert(self.edges() == es1);
                }
                if !c3 {
                    assert(reach@ == r2);
                }
                if !c4 {
                    assert(self.edges() == es2);
                }
            }
            changed = c1 || c2 || c4 || c3;
        }
        proof {
            lemma_table_saturated(self.nodes(), self.edges(), labels@, reach@, n as int, si as int, li as int);
            lemma_closed_pair_of(self.nodes(), g0.edges(), self.edges(), reach_set(reach@, labels@, n as int));
        }
        Ok(())
    }
}

proof fn lemma_same_start(
    ns: Seq<NodeView>,
    es0a: Seq<(int, int, EdgeLabel)>,
    es0b: Seq<(int, int, EdgeLabel)>,
    r: Set<(int, FieldLabel, int)>,
    e: Set<(int, int, EdgeLabel)>,
)
    requires
        closed_pair(ns, es0a, r, e),
        forall|y: int| 0 <= y < es0b.len() ==> #[trigger] es0a.contains(es0b[y]),
    ensures
        closed_pair(ns, es0b, r, e),
{
    assert forall|y: int| 0 <= y < es0b.len() implies e.contains(#[trigger] es0b[y]) by {
        assert(es0a.contains(es0b[y]));
        let x = choose|x: int| 0 <= x < es0a.len() && es0a[x] == es0b[y];
        assert(e.contains(es0a[x]));
    }
}

/// Saturation does not depend on the order of the initial edges: two least
/// closures of the same set of initial edges have the same set of edges.
pub proof fn lemma_saturation_order_free(
    ns: Seq<NodeView>,
    es0a: Seq<(int, int, EdgeLabel)>,
    es0b: Seq<(int, int, EdgeLabel)>,
    esa: Seq<(int, int, EdgeLabel)>,
    esb: Seq<(int, int, EdgeLabel)>,
)
    requires
        es0a.to_set() == es0b.to_set(),
        least_closure(ns, es0a, esa),
        least_closure(ns, es0b, esb),
    ensures
        esa.to_set() == esb.to_set(),
{
    assert forall|y: int| 0 <= y < es0b.len() implies #[trigger] es0a.contains(es0b[y]) by {
        assert(es0b.to_set().contains(es0b[y]));
    }
    assert forall|y: int| 0 <= y < es0a.len() implies #[trigger] es0b.contains(es0a[y]) by {
        assert(es0a.to_set().contains(es0a[y]));
    }
    let ra = choose|r: Set<(int, FieldLabel, int)>| closed_pair(ns, es0a, r, esa.to_set());
    let rb = choose|r: Set<(int, FieldLabel, int)>| closed_pair(ns, es0b, r, esb.to_set());
    lemma_same_start(ns, es0a, es0b, ra, esa.to_set());
    lemma_same_start(ns, es0b, es0a, rb, esb.to_set());
    assert(edges_in(esa, esb.to_set()));
    assert(edges_in(esb, esa.to_set()));
    assert forall|x: (int, int, EdgeLabel)| esa.to_set().contains(x) <==> esb.to_set().contains(x) by {
        if esa.contains(x) {
            let i = choose|i: int| 0 <= i < esa.len() && esa[i] == x;
            assert(esb.to_set().contains(esa[i]));
        }
        if esb.contains(x) {
            let i = choose|i: int| 0 <= i < esb.len() && esb[i] == x;
            assert(esa.to_set().contains(esb[i]));
        }
    }
    assert(esa.to_set() =~= esb.to_set());
}

/// Saturating a saturated graph again adds nothing: a least closure of a least
/// closure that keeps its edges in place and repeats none is the same edge list.
pub proof fn lemma_saturation_idempotent(
    ns: Seq<NodeView>,
    es0: Seq<(int, int, EdgeLabel)>,
    es1: Seq<(int, int, EdgeLabel)>,
    es2: Seq<(int, int, EdgeLabel)>,
)
    requires
        least_closure(ns, es0, es1),
        least_closure(ns, es1, es2),
        es1.len() <= es2.len(),
        forall|x: int| 0 <= x < es1.len() ==> es2[x] == es1[x],
        forall|x: int, y: int| 0 <= x < es2.len() && 0 <= y < es2.len() && x != y ==> es2[x] != es2[y],
    ensures
        es2 == es1,
{
    let r = choose|r: Set<(int, FieldLabel, int)>| closed_pair(ns, es0, r, es1.to_set());
    assert forall|y: int| 0 <= y < es1.len() implies es1.to_set().contains(#[trigger] es1[y]) by {
        assert(es1.contains(es1[y]));
    }
    assert(closed_pair(ns, es1, r, es1.to_set()));
    assert(edges_in(es2, es1.to_set()));
    if es2.len() > es1.len() {
        let x = es1.len() as int;
        assert(es1.to_set().contains(es2[x]));
        let y = choose|y: int| 0 <= y < es1.len() && es1[y] == es2[x];
        assert(es2[y] == es2[x]);
    }
    assert(es2 =~= es1);
}

/// Saturation is monotone: more initial edges never lose a derived edge. With the
/// initial edges of one graph among those of another, each edge of the first
/// graph's least closure is an edge of the second's.
pub proof fn lemma_saturation_monotone(
    ns: Seq<NodeView>,
    es0a: Seq<(int, int, EdgeLabel)>,
    es0b: Seq<(int, int, EdgeLabel)>,
    esa: Seq<(int, int, EdgeLabel)>,
    esb: Seq<(int, int, EdgeLabel)>,
)
    requires
        es0a.to_set().subset_of(es0b.to_set()),
        least_closure(ns, es0a, esa),
        least_closure(ns, es0b, esb),
    ensures
        esa.to_set().subset_of(esb.to_set()),
{
    assert forall|y: int| 0 <= y < es0a.len() implies #[trigger] es0b.contains(es0a[y]) by {
        assert(es0a.to_set().contains(es0a[y]));
    }
    let rb = choose|r: Set<(int, FieldLabel, int)>| closed_pair(ns, es0b, r, esb.to_set());
    lemma_same_start(ns, es0b, es0a, rb, esb.to_set());
    assert(edges_in(esa, esb.to_set()));
    assert forall|x: (int, int, EdgeLabel)| esa.to_set().contains(x) implies esb.to_set().contains(x) by {
        let i = choose|i: int| 0 <= i < esa.len() && esa[i] == x;
        assert(esb.to_set().contains(esa[i]));
    }
}

} // verus!
