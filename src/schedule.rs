//! Bottom-up scheduling: procedures grouped by strongly connected component of the
//! call graph, callees before callers, one solved constraint graph per group.

use crate::digraph::{call_edges, call_node_at, call_nodes, components, index_limit, placed, reachable};
use crate::graph::{constraint_views, constraints_cost, fits_cost, lemma_cost_nonneg, lemma_cost_prefix, solved_graph, ConstraintGraph};
use crate::saturation::GraphError;
use crate::schema::{Constraint, ConstraintView};
use petgraph::graph::DiGraph;
use vstd::prelude::*;

verus! {

/// A program: the constraints of each procedure, and its call graph over
/// procedure names (an edge from a caller to a callee).
pub struct Program {
    pub language: String,
    pub proc_constraints: Vec<(String, Vec<Constraint>)>,
    pub call_graph: DiGraph<String, ()>,
}

impl Program {
    pub open spec fn procs(&self) -> Seq<Seq<char>> {
        call_nodes(self.call_graph)
    }

    /// Whether some entry of the constraint list carries `name`.
    pub open spec fn has_entry(&self, name: Seq<char>) -> bool {
        exists|j: int| 0 <= j < self.proc_constraints@.len() && self.proc_constraints@[j].0@ == name
    }

    /// The entry of the constraint list that carries `name`.
    pub open spec fn entry_of(&self, name: Seq<char>) -> int {
        choose|j: int| 0 <= j < self.proc_constraints@.len() && self.proc_constraints@[j].0@ == name
    }

    /// Entry names are distinct, and every procedure of the call graph has one.
    pub open spec fn well_formed(&self) -> bool {
        &&& self.procs().len() < index_limit()
        &&& forall|i: int, j: int|
            0 <= i < self.proc_constraints@.len() && 0 <= j < self.proc_constraints@.len() && i != j
                ==> self.proc_constraints@[i].0@ != self.proc_constraints@[j].0@
        &&& forall|v: int| 0 <= v < self.procs().len() ==> #[trigger] self.has_entry(self.procs()[v])
    }

    /// The constraints of procedure `v` of the call graph.
    pub open spec fn proc_views(&self, v: int) -> Seq<ConstraintView> {
        self.proc_constraints@[self.entry_of(self.procs()[v])].1@.map_values(|c: Constraint| c@)
    }

    /// The constraints of the procedures `procs`, one after another.
    pub open spec fn component_views(&self, procs: Seq<usize>) -> Seq<ConstraintView>
        decreases procs.len(),
    {
        if procs.len() == 0 {
            Seq::empty()
        } else {
            self.component_views(procs.drop_last()) + self.proc_views(procs.last() as int)
        }
    }

    /// The position of the entry named `name`.
    fn entry_index(&self, name: &String) -> (r: usize)
        requires
            self.well_formed(),
            self.has_entry(name@),
        ensures
            r as int == self.entry_of(name@),
    {
        let mut j: usize = 0;
        while j < self.proc_constraints.len()
            invariant
                self.well_formed(),
                self.has_entry(name@),
                j <= self.proc_constraints@.len(),
                forall|k: int| 0 <= k < j ==> self.proc_constraints@[k].0@ != name@,
            decreases self.proc_constraints@.len() - j,
        {
            if self.proc_constraints[j].0 == *name {
                let ghost w = self.entry_of(name@);
                assert(self.proc_constraints@[w].0@ == name@);
                return j;
            }
            j = j + 1;
        }
        let ghost w = self.entry_of(name@);
        assert(self.proc_constraints@[w].0@ == name@);
        0
    }

    /// The constraints of the procedures `procs`, one after another.
    pub fn component_constraints(&self, procs: &Vec<usize>) -> (r: Vec<&Constraint>)
        requires
            self.well_formed(),
            forall|k: int| 0 <= k < procs@.len() ==> #[trigger] procs@[k] < self.procs().len(),
        ensures
            constraint_views(r@) == self.component_views(procs@),
    {
        let mut r: Vec<&Constraint> = Vec::new();
        let mut i: usize = 0;
        while i < procs.len()
            invariant
                self.well_formed(),
                forall|k: int| 0 <= k < procs@.len() ==> #[trigger] procs@[k] < self.procs().len(),
                i <= procs@.len(),
                constraint_views(r@) == self.component_views(procs@.subrange(0, i as int)),
            decreases procs@.len() - i,
        {
            let v = procs[i];
            let name = call_node_at(&self.call_graph, v);
            proof {
                assert(self.has_entry(self.procs()[v as int]));
            }
            let j = self.entry_index(name);
            let cs = &self.proc_constraints[j].1;
            let ghost before = r@;
            let mut k: usize = 0;
            while k < cs.len()
                invariant
                    k <= cs@.len(),
                    r@.len() == before.len() + k,
                    forall|q: int| 0 <= q < before.len() ==> r@[q] == before[q],
                    forall|q: int| 0 <= q < k ==> r@[before.len() + q] == &cs@[q],
                decreases cs@.len() - k,
            {
                r.push(&cs[k]);
                k = k + 1;
            }
            proof {
                let sub = procs@.subrange(0, i + 1);
                assert(sub.drop_last() =~= procs@.subrange(0, i as int));
                assert(sub.last() == v);
                assert(constraint_views(r@) =~= constraint_views(before) + self.proc_views(v as int));
            }
            i = i + 1;
        }
        proof {
            assert(procs@.subrange(0, i as int) =~= procs@);
        }
        r
    }
}

/// Whether building and saturating a graph for these constraints fits the
/// graph's index type and the reaching table's size.
fn fits(cs: &Vec<&Constraint>) -> (r: bool)
    ensures
        r == fits_cost(constraints_cost(constraint_views(cs@))),
{
    let ghost views = constraint_views(cs@);
    let cap: u64 = 0x100000;
    let mut w: u64 = 0;
    let mut i: usize = 0;
    while i < cs.len()
        invariant
            views == constraint_views(cs@),
            i <= cs@.len(),
            w as int == constraints_cost(views.subrange(0, i as int)),
            w <= cap,
            cap == 0x100000u64,
        decreases cs@.len() - i,
    {
        let l = cs[i].left.fields.len();
        let rl = cs[i].right.fields.len();
        proof {
            lemma_cost_prefix(views, i + 1);
            lemma_cost_prefix(views, i as int);
            assert(views.subrange(0, i + 1).drop_last() =~= views.subrange(0, i as int));
            assert(views[i as int] == cs@[i as int]@);
        }
        if l as u64 >= cap || rl as u64 >= cap {
            proof {
                assert(cap * cap > index_limit()) by (nonlinear_arith)
                    requires
                        cap == 0x100000u64,
                ;
                assert(constraints_cost(views.subrange(0, i + 1)) >= 2 * cap);
                assert(constraints_cost(views) >= cap);
                assert(constraints_cost(views) * constraints_cost(views) >= cap * cap) by (nonlinear_arith)
                    requires
                        constraints_cost(views) >= cap,
                ;
            }
            return false;
        }
        let add = 2 * (l as u64) + 2 * (rl as u64) + 4;
        assert(cap == 0x100000u64);
        assert(add <= 0x500000u64);
        assert(w <= 0x100000u64);
        if w + add > cap {
            proof {
                assert(cap * cap > index_limit()) by (nonlinear_arith)
                    requires
                        cap == 0x100000u64,
                ;
                let t = constraints_cost(views);
                assert(t >= cap);
                assert(t * t >= cap * cap) by (nonlinear_arith)
                    requires
                        t >= cap,
                ;
            }
            return false;
        }
        w = w + add;
        i = i + 1;
    }
    proof {
        assert(views.subrange(0, i as int) =~= views);
        assert(w * w <= cap * cap) by (nonlinear_arith)
            requires
                w <= cap,
        ;
        assert(w * (w + 2) * w <= cap * (cap + 2) * cap) by (nonlinear_arith)
            requires
                w <= cap,
        ;
        assert(w * (w + 2) <= cap * (cap + 2)) by (nonlinear_arith)
            requires
                w <= cap,
        ;
        assert(cap * (cap + 2) * cap < 0x2000_0000_0000_0000) by (nonlinear_arith)
            requires
                cap == 0x100000u64,
        ;
    }
    w * w + w + 1 < 0xffff_ffff && (w * (w + 2) * w) as u128 <= usize::MAX as u128
}

impl Program {
    /// Builds and saturates the constraint graph of the procedures `procs`; fails
    /// when their constraints are too many for the graph's index type.
    pub fn solve_component(&self, procs: &Vec<usize>) -> (r: Result<ConstraintGraph, GraphError>)
        requires
            self.well_formed(),
            forall|k: int| 0 <= k < procs@.len() ==> #[trigger] procs@[k] < self.procs().len(),
        ensures
            r is Ok <==> fits_cost(constraints_cost(self.component_views(procs@))),
            r matches Ok(g) ==> g.wf() && solved_graph(g.nodes(), g.edges(), self.component_views(procs@)),
            r matches Err(e) ==> e == GraphError::CapacityExceeded,
    {
        let cs = self.component_constraints(procs);
        if !fits(&cs) {
            return Err(GraphError::CapacityExceeded);
        }
        Ok(ConstraintGraph::new(cs))
    }
}

/// Procedure `v` belongs to one of the groups.
pub open spec fn scheduled(groups: Seq<(Vec<usize>, ConstraintGraph)>, v: int) -> bool {
    exists|c: int, k: int| 0 <= c < groups.len() && 0 <= k < groups[c].0@.len() && groups[c].0@[k] == v
}

/// Copies a list of indices.
fn copy_indices(v: &Vec<usize>) -> (r: Vec<usize>)
    ensures
        r@ == v@,
{
    let mut r: Vec<usize> = Vec::new();
    let mut i: usize = 0;
    while i < v.len()
        invariant
            i <= v@.len(),
            r@ == v@.subrange(0, i as int),
        decreases v@.len() - i,
    {
        r.push(v[i]);
        i = i + 1;
        assert(r@ =~= v@.subrange(0, i as int));
    }
    r
}

/// `groups` partitions the procedures into strongly connected components of the
/// call graph, a callee's group never after its caller's, each with the saturated
/// graph of its procedures' constraints.
pub open spec fn valid_schedule(program: Program, groups: Seq<(Vec<usize>, ConstraintGraph)>) -> bool {
    &&& forall|c: int, k: int|
        0 <= c < groups.len() && 0 <= k < groups[c].0@.len() ==> #[trigger] groups[c].0@[k]
            < program.procs().len()
    &&& forall|v: int| 0 <= v < program.procs().len() ==> #[trigger] scheduled(groups, v)
    &&& forall|c1: int, k1: int, c2: int, k2: int|
        0 <= c1 < groups.len() && 0 <= k1 < groups[c1].0@.len() && 0 <= c2 < groups.len() && 0 <= k2
            < groups[c2].0@.len() && #[trigger] groups[c1].0@[k1] == #[trigger] groups[c2].0@[k2] ==> c1
            == c2 && k1 == k2
    &&& forall|e: int, c1: int, k1: int, c2: int, k2: int|
        #![trigger call_edges(program.call_graph)[e], groups[c1].0@[k1], groups[c2].0@[k2]]
        0 <= e < call_edges(program.call_graph).len() && 0 <= c1 < groups.len() && 0 <= k1
            < groups[c1].0@.len() && 0 <= c2 < groups.len() && 0 <= k2 < groups[c2].0@.len()
            && groups[c1].0@[k1] == call_edges(program.call_graph)[e].0 && groups[c2].0@[k2]
            == call_edges(program.call_graph)[e].1 ==> c2 <= c1
    &&& forall|c: int, k1: int, k2: int|
        0 <= c < groups.len() && 0 <= k1 < groups[c].0@.len() && 0 <= k2 < groups[c].0@.len()
            ==> reachable(
            call_edges(program.call_graph),
            #[trigger] groups[c].0@[k1] as int,
            #[trigger] groups[c].0@[k2] as int,
        )
    &&& forall|c: int|
        0 <= c < groups.len() ==> (#[trigger] groups[c]).1.wf() && solved_graph(
            groups[c].1.nodes(),
            groups[c].1.edges(),
            program.component_views(groups[c].0@),
        )
}

/// `procs` lists distinct procedures of the call graph that all reach one another,
/// and their constraints do not fit in one constraint graph.
pub open spec fn oversized_group(program: Program, procs: Seq<usize>) -> bool {
    &&& forall|k: int| 0 <= k < procs.len() ==> #[trigger] procs[k] < program.procs().len()
    &&& procs.no_duplicates()
    &&& forall|k1: int, k2: int|
        0 <= k1 < procs.len() && 0 <= k2 < procs.len() ==> reachable(
            call_edges(program.call_graph),
            #[trigger] procs[k1] as int,
            #[trigger] procs[k2] as int,
        )
    &&& !fits_cost(constraints_cost(program.component_views(procs)))
}

/// Groups the procedures by strongly connected component of the call graph and
/// solves each group's constraints, callees' groups first. Each group comes with
/// its procedures (as call-graph node indices) and its saturated graph.
pub fn infer_proc_types(program: &Program) -> (r: Result<Vec<(Vec<usize>, ConstraintGraph)>, GraphError>)
    requires
        program.well_formed(),
    ensures
        r matches Ok(groups) ==> valid_schedule(*program, groups@),
        r matches Err(e) ==> e == GraphError::CapacityExceeded && exists|procs: Seq<usize>|
            #[trigger] oversized_group(*program, procs),
{
    let comps = components(&program.call_graph);
    let mut groups: Vec<(Vec<usize>, ConstraintGraph)> = Vec::new();
    let mut c: usize = 0;
    while c < comps.len()
        invariant
            program.well_formed(),
            c <= comps@.len(),
            groups@.len() == c,
            forall|k: int| 0 <= k < c ==> (#[trigger] groups@[k]).0@ == comps@[k]@,
            forall|k: int|
                0 <= k < c ==> (#[trigger] groups@[k]).1.wf() && solved_graph(
                    groups@[k].1.nodes(),
                    groups@[k].1.edges(),
                    program.component_views(groups@[k].0@),
                ),
            forall|q: int, k: int|
                0 <= q < comps@.len() && 0 <= k < comps@[q]@.len() ==> #[trigger] comps@[q]@[k]
                    < program.procs().len(),
            forall|c1: int, k1: int, c2: int, k2: int|
                0 <= c1 < comps@.len() && 0 <= k1 < comps@[c1]@.len() && 0 <= c2 < comps@.len() && 0 <= k2
                    < comps@[c2]@.len() && #[trigger] comps@[c1]@[k1] == #[trigger] comps@[c2]@[k2] ==> c1 == c2
                    && k1 == k2,
            forall|q: int, k1: int, k2: int|
                0 <= q < comps@.len() && 0 <= k1 < comps@[q]@.len() && 0 <= k2 < comps@[q]@.len() ==> reachable(
                    call_edges(program.call_graph),
                    #[trigger] comps@[q]@[k1] as int,
                    #[trigger] comps@[q]@[k2] as int,
                ),
        decreases comps@.len() - c,
    {
        let procs = copy_indices(&comps[c]);
        match program.solve_component(&procs) {
            Ok(g) => {
                groups.push((procs, g));
            },
            Err(e) => {
                proof {
                    let ps = procs@;
                    assert(ps.no_duplicates()) by {
                        assert forall|i: int, j: int| 0 <= i < ps.len() && 0 <= j < ps.len() && i != j implies ps[i]
                            != ps[j] by {
                            if ps[i] == ps[j] {
                                assert(comps@[c as int]@[i] == comps@[c as int]@[j]);
                            }
                        }
                    }
                    assert forall|k1: int, k2: int| 0 <= k1 < ps.len() && 0 <= k2 < ps.len() implies reachable(
                        call_edges(program.call_graph),
                        #[trigger] ps[k1] as int,
                        #[trigger] ps[k2] as int,
                    ) by {
                        assert(ps[k1] == comps@[c as int]@[k1]);
                        assert(ps[k2] == comps@[c as int]@[k2]);
                    }
                    assert forall|k: int| 0 <= k < ps.len() implies #[trigger] ps[k] < program.procs().len() by {
                        assert(ps[k] == comps@[c as int]@[k]);
                    }
                    assert(oversized_group(*program, ps));
                }
                return Err(e);
            },
        }
        c = c + 1;
    }
    proof {
        assert forall|v: int| 0 <= v < program.procs().len() implies #[trigger] scheduled(groups@, v) by {
            assert(placed(comps@, v));
            let (q, k) = choose|q: int, k: int| 0 <= q < comps@.len() && 0 <= k < comps@[q]@.len() && comps@[q]@[k] == v;
            assert(groups@[q].0@[k] == v);
        }
    }
    Ok(groups)
}

} // verus!
