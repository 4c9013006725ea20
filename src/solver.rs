//! Entry points over a whole program.

use crate::graph::ConstraintGraph;
use crate::saturation::GraphError;
use crate::schedule::{infer_proc_types, oversized_group, valid_schedule, Program};
use crate::graph::constraint_views;
use crate::schema::{Constraint, ConstraintView};
use crate::schema::DtvView;
use crate::shapes::{congruence_of, prefix, shapes_of, QuotientGraph};
use vstd::prelude::*;

verus! {

/// Runs the inference over one program.
pub struct Solver<'a> {
    pub program: &'a Program,
}

/// The constraints of all entries, one entry after another.
pub open spec fn entries_views(pc: Seq<(String, Vec<Constraint>)>) -> Seq<ConstraintView>
    decreases pc.len(),
{
    if pc.len() == 0 {
        Seq::empty()
    } else {
        entries_views(pc.drop_last()) + pc.last().1@.map_values(|c: Constraint| c@)
    }
}

/// Every constraint of every procedure, entry by entry.
fn all_constraints(program: &Program) -> (r: Vec<&Constraint>)
    ensures
        constraint_views(r@) == entries_views(program.proc_constraints@),
{
    let mut r: Vec<&Constraint> = Vec::new();
    let mut j: usize = 0;
    while j < program.proc_constraints.len()
        invariant
            j <= program.proc_constraints@.len(),
            constraint_views(r@) == entries_views(program.proc_constraints@.subrange(0, j as int)),
        decreases program.proc_constraints@.len() - j,
    {
        let cs = &program.proc_constraints[j].1;
        let ghost before = r@;
        let mut k: usize = 0;
        while k < cs.len()
            invariant
                k <= cs@.len(),
                r@.len() == before.len() + k,
                forall|q: int| 0 <= q < before.len() ==> r@[q] == before[q],
                forall|q: int| 0 <= q < k ==> r@[before.len() + q] == &cs@[q],
            decreases cs@.len() - k,
        {
            r.push(&cs[k]);
            k = k + 1;
        }
        proof {
            let sub = program.proc_constraints@.subrange(0, j + 1);
            assert(sub.drop_last() =~= program.proc_constraints@.subrange(0, j as int));
            assert(sub.last() == program.proc_constraints@[j as int]);
            assert(constraint_views(r@) =~= constraint_views(before) + cs@.map_values(|c: Constraint| c@));
        }
        j = j + 1;
    }
    proof {
        assert(program.proc_constraints@.subrange(0, j as int) =~= program.proc_constraints@);
    }
    r
}

impl<'a> Solver<'a> {
    /// A solver over `program`.
    pub fn new(program: &'a Program) -> (r: Solver<'a>)
        ensures
            r.program == program,
    {
        Solver { program }
    }

    /// Solves each group of mutually recursive procedures, callees first.
    pub fn solve(self) -> (r: Result<Vec<(Vec<usize>, ConstraintGraph)>, GraphError>)
        requires
            self.program.well_formed(),
        ensures
            r matches Ok(groups) ==> valid_schedule(*self.program, groups@),
            r matches Err(e) ==> e == GraphError::CapacityExceeded && exists|procs: Seq<usize>|
                #[trigger] oversized_group(*self.program, procs),
    {
        infer_proc_types(self.program)
    }

    /// Infers the shapes of all variables met in the program's constraints.
    pub fn infer_shapes(self) -> (q: QuotientGraph)
        ensures
            forall|i: int|
                0 <= i < entries_views(self.program.proc_constraints@).len() ==> q.same_shape(
                    (#[trigger] entries_views(self.program.proc_constraints@)[i]).0,
                    entries_views(self.program.proc_constraints@)[i].1,
                ),
            forall|i: int, p: int|
                0 <= i < entries_views(self.program.proc_constraints@).len() && 0 <= p
                    < entries_views(self.program.proc_constraints@)[i].0.1.len() ==> q.steps(
                    #[trigger] prefix(entries_views(self.program.proc_constraints@)[i].0, p),
                    prefix(entries_views(self.program.proc_constraints@)[i].0, p + 1),
                    entries_views(self.program.proc_constraints@)[i].0.1[p],
                ),
            forall|i: int, p: int|
                0 <= i < entries_views(self.program.proc_constraints@).len() && 0 <= p
                    < entries_views(self.program.proc_constraints@)[i].1.1.len() ==> q.steps(
                    #[trigger] prefix(entries_views(self.program.proc_constraints@)[i].1, p),
                    prefix(entries_views(self.program.proc_constraints@)[i].1, p + 1),
                    entries_views(self.program.proc_constraints@)[i].1.1[p],
                ),
            q.placed_once(),
            q.deterministic(),
            q.no_empty_class(),
            q.lists_distinct(),
            q.lists_from(entries_views(self.program.proc_constraints@)),
            q.edges_from(entries_views(self.program.proc_constraints@)),
            forall|rel: spec_fn(DtvView, DtvView) -> bool|
                #[trigger] congruence_of(entries_views(self.program.proc_constraints@), rel) ==> q.classes_within(rel),
    {
        let cs = all_constraints(self.program);
        let q = shapes_of(&cs);
        proof {
            assert forall|i: int| 0 <= i < entries_views(self.program.proc_constraints@).len() implies q.same_shape(
                (#[trigger] entries_views(self.program.proc_constraints@)[i]).0,
                entries_views(self.program.proc_constraints@)[i].1,
            ) by {
                assert(constraint_views(cs@)[i] == cs@[i]@);
                assert(q.same_shape(cs@[i]@.0, cs@[i]@.1));
            }
            let views = entries_views(self.program.proc_constraints@);
            assert forall|i: int, p: int| 0 <= i < views.len() && 0 <= p < views[i].0.1.len() implies q.steps(
                #[trigger] prefix(views[i].0, p),
                prefix(views[i].0, p + 1),
                views[i].0.1[p],
            ) by {
                assert(constraint_views(cs@)[i] == cs@[i]@);
                assert(q.steps(prefix(cs@[i]@.0, p), prefix(cs@[i]@.0, p + 1), cs@[i]@.0.1[p]));
            }
            assert forall|i: int, p: int| 0 <= i < views.len() && 0 <= p < views[i].1.1.len() implies q.steps(
                #[trigger] prefix(views[i].1, p),
                prefix(views[i].1, p + 1),
                views[i].1.1[p],
            ) by {
                assert(constraint_views(cs@)[i] == cs@[i]@);
                assert(q.steps(prefix(cs@[i]@.1, p), prefix(cs@[i]@.1, p + 1), cs@[i]@.1.1[p]));
            }
        }
        q
    }
}

} // verus!
