use retypd::schema::{Bound, DerivedTypeVariable, FieldLabel, Variance};
use retypd::text::{parse_constraint, parse_derived_type_variable, ParseError};

fn dtv(text: &str) -> DerivedTypeVariable {
    let (rest, d) = parse_derived_type_variable(text).unwrap();
    assert!(rest.is_empty());
    d
}

#[test]
fn variance_invert_and_combine() {
    assert_eq!(Variance::Covariant.invert(), Variance::Contravariant);
    assert_eq!(Variance::Contravariant.invert(), Variance::Covariant);
    assert_eq!(Variance::Covariant.combine(&Variance::Covariant), Variance::Covariant);
    assert_eq!(Variance::Contravariant.combine(&Variance::Contravariant), Variance::Covariant);
    assert_eq!(Variance::Covariant.combine(&Variance::Contravariant), Variance::Contravariant);
    assert_eq!(Variance::Contravariant.combine(&Variance::Covariant), Variance::Contravariant);
}

#[test]
fn label_variances() {
    assert_eq!(FieldLabel::InPattern(0).variance(), Variance::Contravariant);
    assert_eq!(FieldLabel::Store.variance(), Variance::Contravariant);
    assert_eq!(FieldLabel::OutPattern(2).variance(), Variance::Covariant);
    assert_eq!(FieldLabel::Load.variance(), Variance::Covariant);
    let d = FieldLabel::DerefPattern { size: 4, offset: 0, bound: None };
    assert_eq!(d.variance(), Variance::Covariant);
}

#[test]
fn path_variance_composes_left_to_right() {
    assert_eq!(dtv("x").path_variance(), Variance::Covariant);
    assert_eq!(dtv("x.in_0").path_variance(), Variance::Contravariant);
    assert_eq!(dtv("x.in_0.store").path_variance(), Variance::Covariant);
    assert_eq!(dtv("x.load.σ4@0.store").path_variance(), Variance::Contravariant);
}

#[test]
fn sub_dtv_takes_a_prefix() {
    let d = dtv("f.in_1.load.σ8@-4");
    assert_eq!(d.get_sub_dtv(0), dtv("f"));
    assert_eq!(d.get_sub_dtv(2), dtv("f.in_1.load"));
    assert_eq!(d.get_sub_dtv(3), d);
}

#[test]
fn parse_reads_every_label_form() {
    let d = dtv("F.in_3.out_7.out.σ4@-8.σ2@0*[16].σ1@1*[nullterm].σ1@2*[nobound].load.store");
    assert_eq!(d.name, "F");
    assert_eq!(
        d.fields,
        vec![
            FieldLabel::InPattern(3),
            FieldLabel::OutPattern(7),
            FieldLabel::OutPattern(0),
            FieldLabel::DerefPattern { size: 4, offset: -8, bound: None },
            FieldLabel::DerefPattern { size: 2, offset: 0, bound: Some(Bound::Fixed(16)) },
            FieldLabel::DerefPattern { size: 1, offset: 1, bound: Some(Bound::NullTerm) },
            FieldLabel::DerefPattern { size: 1, offset: 2, bound: Some(Bound::NoBound) },
            FieldLabel::Load,
            FieldLabel::Store,
        ]
    );
}

#[test]
fn parse_stops_where_the_grammar_stops() {
    let (rest, d) = parse_derived_type_variable("x.load rest").unwrap();
    assert_eq!(d, dtv("x.load"));
    assert_eq!(rest, " rest");
    // a label that does not parse ends the path
    let (rest, d) = parse_derived_type_variable("x.foo").unwrap();
    assert_eq!(d, dtv("x"));
    assert_eq!(rest, ".foo");
    // too large for u32
    let (rest, d) = parse_derived_type_variable("x.in_4294967296").unwrap();
    assert_eq!(d.fields.len(), 0);
    assert_eq!(rest, ".in_4294967296");
    // a bound that is not closed is left unread
    let (rest, d) = parse_derived_type_variable("x.σ4@0*[3").unwrap();
    assert_eq!(d.fields, vec![FieldLabel::DerefPattern { size: 4, offset: 0, bound: None }]);
    assert_eq!(rest, "*[3");
    // i32 range
    let (_, d) = parse_derived_type_variable("x.σ4@-2147483648").unwrap();
    assert_eq!(d.fields, vec![FieldLabel::DerefPattern { size: 4, offset: i32::MIN, bound: None }]);
}

#[test]
fn parse_errors() {
    assert_eq!(parse_derived_type_variable("").unwrap_err(), ParseError::Mismatch);
    assert_eq!(parse_derived_type_variable(".load").unwrap_err(), ParseError::Mismatch);
    assert_eq!(parse_derived_type_variable(" x").unwrap_err(), ParseError::Mismatch);
    assert!(parse_constraint("x <").is_err());
    assert!(parse_constraint("x <= ").is_err());
    assert!(parse_constraint("x y").is_err());
}

#[test]
fn parse_constraints() {
    let (rest, c) = parse_constraint("y.load <= _B").unwrap();
    assert!(rest.is_empty());
    assert_eq!(c.left, dtv("y.load"));
    assert_eq!(c.right, dtv("_B"));
    // without a gap the name runs on over the operator
    assert!(parse_constraint("a⊑b.store").is_err());
    let (rest, c) = parse_constraint("a \t⊑\n b.store tail").unwrap();
    assert_eq!(rest, " tail");
    assert_eq!(c.left, dtv("a"));
    assert_eq!(c.right, dtv("b.store"));
}

#[test]
fn label_text_forms() {
    assert_eq!(FieldLabel::InPattern(12).to_text(), "in_12");
    assert_eq!(FieldLabel::OutPattern(0).to_text(), "out_0");
    assert_eq!(FieldLabel::DerefPattern { size: 4, offset: -8, bound: Some(Bound::Fixed(3)) }.to_text(), "σ4@-8*[3]");
    assert_eq!(FieldLabel::DerefPattern { size: 1, offset: 0, bound: Some(Bound::NullTerm) }.to_text(), "σ1@0*[nullterm]");
    assert_eq!(Bound::NoBound.to_text(), "*[nobound]");
    assert_eq!(FieldLabel::Load.to_text(), "load");
    assert_eq!(FieldLabel::Store.to_text(), "store");
    assert_eq!(dtv("close.in_0.load").to_text(), "close.in_0.load");
    let (_, c) = parse_constraint("p ⊑ x.store").unwrap();
    assert_eq!(c.to_text(), "p <= x.store");
}

#[test]
fn written_variables_read_back() {
    let labels = vec![
        FieldLabel::InPattern(0),
        FieldLabel::InPattern(u32::MAX),
        FieldLabel::OutPattern(5),
        FieldLabel::DerefPattern { size: 0, offset: i32::MIN, bound: None },
        FieldLabel::DerefPattern { size: u32::MAX, offset: i32::MAX, bound: Some(Bound::Fixed(0)) },
        FieldLabel::DerefPattern { size: 8, offset: -1, bound: Some(Bound::NullTerm) },
        FieldLabel::DerefPattern { size: 8, offset: 10, bound: Some(Bound::NoBound) },
        FieldLabel::Load,
        FieldLabel::Store,
    ];
    for l in &labels {
        let d = DerivedTypeVariable { name: "v".to_string(), fields: vec![*l] };
        let (rest, back) = parse_derived_type_variable(&d.to_text()).unwrap();
        assert!(rest.is_empty());
        assert_eq!(back, d);
    }
    let d = DerivedTypeVariable { name: "洧띺'".to_string(), fields: labels.clone() };
    let (rest, back) = parse_derived_type_variable(&d.to_text()).unwrap();
    assert!(rest.is_empty());
    assert_eq!(back, d);
}
