use petgraph::graph::NodeIndex;
use petgraph::visit::EdgeRef;
use retypd::graph::{ConstraintGraph, EdgeLabel, Node, SideMark};
use retypd::saturation::GraphError;
use retypd::schema::{Constraint, DerivedTypeVariable, FieldLabel, Variance};
use retypd::text::{parse_constraint, parse_derived_type_variable};

fn parse_constraint_str(cons: &[&str]) -> Vec<Constraint> {
    let mut constraints = Vec::new();
    for c in cons {
        let c = parse_constraint(c).unwrap();
        assert!(c.0.len() == 0);
        constraints.push(c.1);
    }
    constraints
}

fn dtv(text: &str) -> DerivedTypeVariable {
    let (rest, d) = parse_derived_type_variable(text).unwrap();
    assert!(rest.is_empty());
    d
}

fn node(text: &str, v: Variance) -> Node {
    Node { base: dtv(text), suffix_variance: v, sidemark: SideMark::Unmarked }
}

fn has_edge(cg: &ConstraintGraph, from: &Node, to: &Node, label: EdgeLabel) -> bool {
    let a = match cg.node_index(from) {
        Some(a) => a,
        None => return false,
    };
    let b = match cg.node_index(to) {
        Some(b) => b,
        None => return false,
    };
    cg.graph
        .edges_connecting(NodeIndex::new(a), NodeIndex::new(b))
        .any(|e| *e.weight() == label)
}

#[test]
fn test_saturation() {
    let constraints = parse_constraint_str(&["y <= p", "p <= x", "_A <= x.store", "y.load <= _B"]);
    let cg = ConstraintGraph::new(constraints.iter().collect());

    let x_store_plus = cg
        .node_index(&Node {
            base: parse_derived_type_variable("x.store").unwrap().1,
            suffix_variance: Variance::Covariant,
            sidemark: SideMark::Unmarked,
        })
        .unwrap();
    let y_load_plus = cg
        .node_index(&Node {
            base: parse_derived_type_variable("y.load").unwrap().1,
            suffix_variance: Variance::Covariant,
            sidemark: SideMark::Unmarked,
        })
        .unwrap();
    let mut has_one = false;
    for edge in cg.graph.edges_connecting(NodeIndex::new(x_store_plus), NodeIndex::new(y_load_plus)) {
        if edge.weight() == &EdgeLabel::One {
            has_one = true;
        }
    }
    assert!(has_one, "Cannot infer subtype relation x.store <= y.load !");
}

#[test]
fn chained_constraints_compose() {
    let constraints = parse_constraint_str(&["a <= b", "b <= c"]);
    let cg = ConstraintGraph::new(constraints.iter().collect());
    let a = node("a", Variance::Covariant);
    let b = node("b", Variance::Covariant);
    let c = node("c", Variance::Covariant);
    assert!(has_edge(&cg, &a, &b, EdgeLabel::One));
    assert!(has_edge(&cg, &b, &c, EdgeLabel::One));
    // subtyping is transitive: a <= c is an edge of its own
    assert!(has_edge(&cg, &a, &c, EdgeLabel::One));
    assert!(has_edge(&cg, &node("c", Variance::Contravariant), &node("a", Variance::Contravariant), EdgeLabel::One));
    // the contravariant copies run the other way
    let ca = node("a", Variance::Contravariant);
    let cb = node("b", Variance::Contravariant);
    assert!(has_edge(&cg, &cb, &ca, EdgeLabel::One));
}

#[test]
fn builder_adds_recall_and_forget_chains() {
    let constraints = parse_constraint_str(&["x.load.out_1 <= y.store"]);
    let mut cg = ConstraintGraph::construct();
    cg.build_initial_graph(constraints.iter().collect());
    // recall chain up to x.load.out_1
    assert!(has_edge(
        &cg,
        &node("x.load", Variance::Covariant),
        &node("x.load.out_1", Variance::Covariant),
        EdgeLabel::Recall { capability: FieldLabel::OutPattern(1) },
    ));
    assert!(has_edge(
        &cg,
        &node("x", Variance::Covariant),
        &node("x.load", Variance::Covariant),
        EdgeLabel::Recall { capability: FieldLabel::Load },
    ));
    // forget chain down from y.store; store flips the variance
    assert!(has_edge(
        &cg,
        &node("y.store", Variance::Covariant),
        &node("y", Variance::Contravariant),
        EdgeLabel::Forget { capability: FieldLabel::Store },
    ));
    // each of the two sides at both variances, and their prefixes
    assert_eq!(cg.graph.node_count(), 10);
    assert_eq!(cg.graph.edge_count(), 2 + 2 * 2 + 2 * 1);
}

#[test]
fn node_insertion_is_idempotent() {
    let mut cg = ConstraintGraph::construct();
    let a = cg.add_node(node("x.load", Variance::Covariant));
    let b = cg.add_node(node("x.load", Variance::Covariant));
    assert_eq!(a, b);
    assert_eq!(cg.graph.node_count(), 1);
    let c = cg.add_node(node("x.load", Variance::Contravariant));
    assert_ne!(a, c);
    assert_eq!(cg.graph.node_count(), 2);
}

#[test]
fn edge_insertion_is_idempotent_and_refuses_self_loops() {
    let mut cg = ConstraintGraph::construct();
    let a = cg.add_node(node("p", Variance::Covariant));
    let b = cg.add_node(node("q", Variance::Covariant));
    assert!(cg.add_edge(a, b, EdgeLabel::One));
    assert!(!cg.add_edge(a, b, EdgeLabel::One));
    assert_eq!(cg.graph.edge_count(), 1);
    assert!(cg.add_edge(a, b, EdgeLabel::Forget { capability: FieldLabel::Load }));
    assert_eq!(cg.graph.edge_count(), 2);
    assert!(!cg.add_edge(a, a, EdgeLabel::One));
    assert_eq!(cg.graph.edge_count(), 2);
}

#[test]
fn saturation_needs_twins() {
    let mut cg = ConstraintGraph::construct();
    let a = cg.add_node(node("p", Variance::Contravariant));
    let b = cg.add_node(node("q", Variance::Contravariant));
    cg.add_edge(a, b, EdgeLabel::One);
    assert_eq!(cg.saturate(), Err(GraphError::InvariantViolation));
    assert_eq!(cg.graph.edge_count(), 1);
}

#[test]
fn covariant_nodes_need_no_twins() {
    let mut cg = ConstraintGraph::construct();
    let a = cg.add_node(node("p", Variance::Covariant));
    let b = cg.add_node(node("q", Variance::Covariant));
    cg.add_edge(a, b, EdgeLabel::One);
    assert_eq!(cg.saturate(), Ok(()));
    assert_eq!(cg.graph.edge_count(), 1);
}

#[test]
fn saturation_keeps_every_edge() {
    let constraints = parse_constraint_str(&["y <= p", "p <= x", "_A <= x.store", "y.load <= _B"]);
    let mut cg = ConstraintGraph::construct();
    cg.build_initial_graph(constraints.iter().collect());
    let before: Vec<(usize, usize, EdgeLabel)> = cg
        .graph
        .edge_references()
        .map(|e| (e.source().index(), e.target().index(), *e.weight()))
        .collect();
    let nodes = cg.graph.node_count();
    assert_eq!(cg.saturate(), Ok(()));
    assert_eq!(cg.graph.node_count(), nodes);
    let after: Vec<(usize, usize, EdgeLabel)> = cg
        .graph
        .edge_references()
        .map(|e| (e.source().index(), e.target().index(), *e.weight()))
        .collect();
    assert!(after.len() > before.len());
    assert_eq!(&after[..before.len()], &before[..]);
    for e in &after[before.len()..] {
        assert_eq!(e.2, EdgeLabel::One);
    }
    // a second saturation finds nothing new
    assert_eq!(cg.saturate(), Ok(()));
    assert_eq!(cg.graph.edge_count(), after.len());
}

#[test]
fn forget_once_drops_the_last_label() {
    let n = node("x.in_0.store", Variance::Covariant);
    let (label, shorter) = n.forget_once().unwrap();
    assert_eq!(label, FieldLabel::Store);
    assert_eq!(shorter.base, dtv("x.in_0"));
    assert_eq!(shorter.suffix_variance, Variance::Contravariant);
    let (label, shorter) = shorter.forget_once().unwrap();
    assert_eq!(label, FieldLabel::InPattern(0));
    assert_eq!(shorter.suffix_variance, Variance::Covariant);
    assert!(shorter.forget_once().is_none());
}

#[test]
fn no_constraints_no_graph() {
    let cg = ConstraintGraph::new(Vec::new());
    assert_eq!(cg.graph.node_count(), 0);
    assert_eq!(cg.graph.edge_count(), 0);
}

#[test]
fn self_constraint_adds_no_loop() {
    // the identity edge of `a <= a` would be a loop: it is refused
    let constraints = parse_constraint_str(&["a <= a", "a <= a"]);
    let cg = ConstraintGraph::new(constraints.iter().collect());
    assert_eq!(cg.graph.node_count(), 2);
    assert_eq!(cg.graph.edge_count(), 0);
}

#[test]
fn repeated_constraint_adds_nothing() {
    let once = parse_constraint_str(&["p.load.σ4@0 <= a"]);
    let twice = parse_constraint_str(&["p.load.σ4@0 <= a", "p.load.σ4@0 <= a"]);
    let mut g1 = ConstraintGraph::construct();
    g1.build_initial_graph(once.iter().collect());
    let mut g2 = ConstraintGraph::construct();
    g2.build_initial_graph(twice.iter().collect());
    assert_eq!(g1.graph.node_count(), 8);
    assert_eq!(g1.graph.edge_count(), 6);
    assert_eq!(g2.graph.node_count(), 8);
    assert_eq!(g2.graph.edge_count(), 6);
}

#[test]
fn store_and_load_meet_through_a_pointer() {
    // writing through q and reading through p, with q <= p
    let constraints = parse_constraint_str(&["q <= p", "v <= q.store", "p.load <= w"]);
    let cg = ConstraintGraph::new(constraints.iter().collect());
    assert!(has_edge(
        &cg,
        &node("q.store", Variance::Covariant),
        &node("p.load", Variance::Covariant),
        EdgeLabel::One,
    ));
}
