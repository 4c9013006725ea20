use petgraph::graph::DiGraph;
use retypd::graph::ConstraintGraph;
use retypd::schedule::{infer_proc_types, Program};
use retypd::saturation::GraphError;
use retypd::schema::{Constraint, DerivedTypeVariable, FieldLabel};
use retypd::solver::Solver;
use retypd::text::parse_constraint;

fn constraints(cons: &[&str]) -> Vec<Constraint> {
    cons.iter().map(|c| parse_constraint(c).unwrap().1).collect()
}

fn program(names: &[&str], calls: &[(usize, usize)], cons: Vec<Vec<Constraint>>) -> Program {
    let mut g = DiGraph::<String, ()>::new();
    let idx: Vec<_> = names.iter().map(|n| g.add_node(n.to_string())).collect();
    for (a, b) in calls {
        g.add_edge(idx[*a], idx[*b], ());
    }
    Program {
        language: "x86".to_string(),
        proc_constraints: names.iter().map(|n| n.to_string()).zip(cons).collect(),
        call_graph: g,
    }
}

fn position(groups: &[(Vec<usize>, ConstraintGraph)], proc: usize) -> usize {
    groups.iter().position(|g| g.0.contains(&proc)).unwrap()
}

#[test]
fn callees_come_first() {
    // f calls g, g calls h
    let p = program(
        &["f", "g", "h"],
        &[(0, 1), (1, 2)],
        vec![constraints(&["f.in_0 <= g.in_0"]), constraints(&["g.in_0 <= h.in_0"]), constraints(&["h.in_0 <= x"])],
    );
    let groups = infer_proc_types(&p).unwrap();
    assert_eq!(groups.len(), 3);
    assert!(position(&groups, 2) < position(&groups, 1));
    assert!(position(&groups, 1) < position(&groups, 0));
    // h's group holds h's constraint alone: nodes x±, h.in_0±, h±
    let h = &groups[position(&groups, 2)];
    assert_eq!(h.1.graph.node_count(), 6);
}

#[test]
fn mutual_recursion_shares_a_group() {
    // a and b call each other; main calls a
    let p = program(
        &["main", "a", "b"],
        &[(0, 1), (1, 2), (2, 1)],
        vec![constraints(&["m <= n"]), constraints(&["p <= q"]), constraints(&["q <= r"])],
    );
    let groups = Solver::new(&p).solve().unwrap();
    assert_eq!(groups.len(), 2);
    assert_eq!(position(&groups, 1), position(&groups, 2));
    assert!(position(&groups, 1) < position(&groups, 0));
    let ab = &groups[position(&groups, 1)];
    let mut procs = ab.0.clone();
    procs.sort();
    assert_eq!(procs, vec![1, 2]);
}

#[test]
fn solver_infers_program_shapes() {
    let p = program(
        &["f", "g"],
        &[(0, 1)],
        vec![constraints(&["x <= y", "x.load <= a"]), constraints(&["y.store <= b"])],
    );
    let q = Solver::new(&p).infer_shapes();
    let class = |name: &str| {
        let d = retypd::text::parse_derived_type_variable(name).unwrap().1;
        (0..q.nodes.len()).find(|k| q.nodes[*k].iter().any(|x| *x == d)).unwrap()
    };
    assert_eq!(class("x"), class("y"));
    assert_eq!(class("a"), class("b"));
}

#[test]
fn oversized_group_is_refused() {
    let long = DerivedTypeVariable { name: "x".to_string(), fields: vec![FieldLabel::Load; 40000] };
    let short = DerivedTypeVariable { name: "y".to_string(), fields: Vec::new() };
    let p = program(&["f"], &[], vec![vec![Constraint { left: long, right: short }]]);
    assert_eq!(infer_proc_types(&p).err(), Some(GraphError::CapacityExceeded));
}
