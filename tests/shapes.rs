use retypd::schema::{Constraint, DerivedTypeVariable, FieldLabel};
use retypd::shapes::{shapes_of, QuotientGraph};
use retypd::text::{parse_constraint, parse_derived_type_variable};

fn constraints(cons: &[&str]) -> Vec<Constraint> {
    cons.iter()
        .map(|c| {
            let (rest, c) = parse_constraint(c).unwrap();
            assert!(rest.is_empty());
            c
        })
        .collect()
}

fn dtv(text: &str) -> DerivedTypeVariable {
    parse_derived_type_variable(text).unwrap().1
}

fn class_of(q: &QuotientGraph, d: &DerivedTypeVariable) -> usize {
    let found: Vec<usize> = (0..q.nodes.len()).filter(|k| q.nodes[*k].iter().any(|x| x == d)).collect();
    assert_eq!(found.len(), 1, "{:?} should be in exactly one class", d);
    found[0]
}

fn assert_deterministic(q: &QuotientGraph) {
    for (i, a) in q.edges.iter().enumerate() {
        for (j, b) in q.edges.iter().enumerate() {
            if i != j {
                assert_ne!(a, b);
            }
            let matching = a.2 == b.2
                || (a.2 == FieldLabel::Load && b.2 == FieldLabel::Store)
                || (a.2 == FieldLabel::Store && b.2 == FieldLabel::Load);
            if a.0 == b.0 && matching {
                assert_eq!(a.1, b.1);
            }
        }
    }
}

#[test]
fn unification_follows_matching_fields() {
    let cs = constraints(&["x <= y", "x.load <= a", "y.store <= b", "x.out_1 <= c", "y.out_1 <= d"]);
    let q = shapes_of(&cs.iter().collect());
    assert_eq!(class_of(&q, &dtv("x")), class_of(&q, &dtv("y")));
    // load of x and store of y name one location
    assert_eq!(class_of(&q, &dtv("x.load")), class_of(&q, &dtv("y.store")));
    assert_eq!(class_of(&q, &dtv("a")), class_of(&q, &dtv("b")));
    assert_eq!(class_of(&q, &dtv("x.out_1")), class_of(&q, &dtv("y.out_1")));
    assert_eq!(class_of(&q, &dtv("c")), class_of(&q, &dtv("d")));
    assert_ne!(class_of(&q, &dtv("a")), class_of(&q, &dtv("c")));
    assert_deterministic(&q);
    // from the class of x: one load, one store, one out_1 edge
    let from_x: Vec<_> = q.edges.iter().filter(|e| e.0 == class_of(&q, &dtv("x"))).collect();
    assert_eq!(from_x.len(), 3);
}

#[test]
fn unrelated_variables_stay_apart() {
    let cs = constraints(&["p <= q", "r.load <= s"]);
    let q = shapes_of(&cs.iter().collect());
    assert_eq!(class_of(&q, &dtv("p")), class_of(&q, &dtv("q")));
    assert_eq!(class_of(&q, &dtv("r.load")), class_of(&q, &dtv("s")));
    assert_ne!(class_of(&q, &dtv("p")), class_of(&q, &dtv("r")));
    assert_eq!(q.nodes.len(), 3);
    assert_eq!(q.edges, vec![(class_of(&q, &dtv("r")), class_of(&q, &dtv("s")), FieldLabel::Load)]);
}

#[test]
fn unification_reaches_nested_fields() {
    let cs = constraints(&["f.in_0 <= g.in_0", "f.in_0.load.σ4@0 <= u", "g.in_0.load.σ4@0 <= v", "f <= g"]);
    let q = shapes_of(&cs.iter().collect());
    assert_eq!(class_of(&q, &dtv("u")), class_of(&q, &dtv("v")));
    assert_eq!(class_of(&q, &dtv("f.in_0.load")), class_of(&q, &dtv("g.in_0.load")));
    assert_deterministic(&q);
}

#[test]
fn no_constraints_no_shapes() {
    let q = shapes_of(&Vec::new());
    assert!(q.nodes.is_empty());
    assert!(q.edges.is_empty());
}

#[test]
fn constraint_order_does_not_change_classes() {
    let texts = ["x <= y", "x.load <= a", "y.store <= b", "p <= q", "q.out_1 <= r"];
    let mut reversed = texts.to_vec();
    reversed.reverse();
    let q1 = shapes_of(&constraints(&texts).iter().collect());
    let q2 = shapes_of(&constraints(&reversed).iter().collect());
    let names = ["x", "y", "a", "b", "p", "q", "r", "x.load", "y.store", "q.out_1"];
    for u in names.iter() {
        for v in names.iter() {
            let same1 = class_of(&q1, &dtv(u)) == class_of(&q1, &dtv(v));
            let same2 = class_of(&q2, &dtv(u)) == class_of(&q2, &dtv(v));
            assert_eq!(same1, same2, "{} {}", u, v);
        }
    }
    assert_ne!(class_of(&q1, &dtv("x")), class_of(&q1, &dtv("p")));
}
