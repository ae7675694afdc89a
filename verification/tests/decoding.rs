use step_resolve::decode::{decode_keyed, decode_record, decode_seq};
use step_resolve::encode::record_of;
use step_resolve::error::Error;
use step_resolve::record::{KeyedRecord, Record, Scalar, Value};
use step_resolve::resolve::UnresolvedValue;
use step_resolve::schema::{EntityDef, FieldKind, Schema, TypeDef, UnionDef, VariantDef};

fn real_param(x: f64) -> Value {
    Value::Simple(Scalar::Real(x.to_bits()))
}

fn entity(name: &str, fields: Vec<FieldKind>) -> TypeDef {
    TypeDef::EntityType(EntityDef { name: name.to_string(), fields })
}

fn point_schema() -> Schema {
    Schema { types: vec![entity("POINT", vec![FieldKind::Plain, FieldKind::Plain])] }
}

fn shape_schema() -> Schema {
    Schema {
        types: vec![
            entity("CIRCLE", vec![FieldKind::Plain]),
            entity("SQUARE", vec![FieldKind::Plain]),
            TypeDef::UnionType(UnionDef {
                name: "SHAPE".to_string(),
                variants: vec![
                    VariantDef { tag: "CIRCLE".to_string(), kind: FieldKind::Inline(0) },
                    VariantDef { tag: "SQUARE".to_string(), kind: FieldKind::Inline(1) },
                ],
            }),
        ],
    }
}

fn unresolved_real(x: f64) -> UnresolvedValue {
    UnresolvedValue::Scal(Scalar::Real(x.to_bits()))
}

#[test]
fn sequence_decode_succeeds_on_matching_arity() {
    let s = point_schema();
    let params = vec![real_param(1.0), real_param(2.0)];
    let decoded = decode_seq(&s, 0, &params).unwrap();
    assert_eq!(
        decoded,
        UnresolvedValue::Fields(vec![unresolved_real(1.0), unresolved_real(2.0)])
    );
}

#[test]
fn sequence_decode_rejects_wrong_arity() {
    let s = point_schema();
    let params = vec![real_param(1.0), real_param(2.0), real_param(3.0)];
    assert_eq!(decode_seq(&s, 0, &params), Err(Error::ArityMismatch(2, 3)));
}

#[test]
fn sequence_decode_loses_no_parameter() {
    let s = point_schema();
    let a = vec![real_param(1.0), real_param(2.0)];
    let b = vec![real_param(1.0), real_param(3.0)];
    let da = decode_seq(&s, 0, &a).unwrap();
    let db = decode_seq(&s, 0, &b).unwrap();
    assert_ne!(da, db);
}

#[test]
fn keyed_decode_checks_the_tag() {
    let s = point_schema();
    let wrong = KeyedRecord {
        entry: Some(Record { tag: "LINE".to_string(), params: vec![real_param(1.0), real_param(2.0)] }),
    };
    assert_eq!(
        decode_keyed(&s, 0, &wrong),
        Err(Error::UnexpectedTag("POINT".to_string(), "LINE".to_string()))
    );
    let right = KeyedRecord {
        entry: Some(Record { tag: "POINT".to_string(), params: vec![real_param(1.0), real_param(2.0)] }),
    };
    let decoded = decode_keyed(&s, 0, &right).unwrap();
    assert_eq!(decoded, decode_seq(&s, 0, &vec![real_param(1.0), real_param(2.0)]).unwrap());
}

#[test]
fn empty_keyed_record_is_a_decode_error() {
    let s = point_schema();
    let empty = KeyedRecord { entry: None };
    assert_eq!(decode_keyed(&s, 0, &empty), Err(Error::EmptyRecord));
}

#[test]
fn union_keyed_decode_dispatches_on_tag() {
    let s = shape_schema();
    let circle = KeyedRecord {
        entry: Some(Record { tag: "CIRCLE".to_string(), params: vec![real_param(5.0)] }),
    };
    let decoded = decode_keyed(&s, 2, &circle).unwrap();
    assert_eq!(
        decoded,
        UnresolvedValue::Case(0, Box::new(UnresolvedValue::Fields(vec![unresolved_real(5.0)])))
    );
}

#[test]
fn union_keyed_decode_rejects_unknown_tag() {
    let s = shape_schema();
    let triangle = KeyedRecord {
        entry: Some(Record { tag: "TRIANGLE".to_string(), params: vec![real_param(5.0)] }),
    };
    assert_eq!(
        decode_keyed(&s, 2, &triangle),
        Err(Error::UnknownVariant("TRIANGLE".to_string()))
    );
}

#[test]
fn reference_field_rejects_a_scalar() {
    let s = Schema {
        types: vec![
            entity("POINT", vec![FieldKind::Plain, FieldKind::Plain]),
            entity("LINE", vec![FieldKind::RefTo(0), FieldKind::RefTo(0)]),
        ],
    };
    let params = vec![real_param(1.0), Value::Ref(1)];
    assert_eq!(decode_seq(&s, 1, &params), Err(Error::UnexpectedValue));
}

#[test]
fn reference_fields_are_captured_as_identifiers() {
    let s = Schema {
        types: vec![
            entity("POINT", vec![FieldKind::Plain, FieldKind::Plain]),
            entity("LINE", vec![FieldKind::RefTo(0), FieldKind::RefTo(0)]),
        ],
    };
    let params = vec![Value::Ref(4), Value::Ref(9)];
    let decoded = decode_seq(&s, 1, &params).unwrap();
    assert_eq!(
        decoded,
        UnresolvedValue::Fields(vec![UnresolvedValue::Ref(4), UnresolvedValue::Ref(9)])
    );
}

#[test]
fn nested_inline_record_decodes_with_its_tag() {
    let s = Schema {
        types: vec![
            entity("POINT", vec![FieldKind::Plain, FieldKind::Plain]),
            entity("MARKER", vec![FieldKind::Inline(0)]),
        ],
    };
    let nested = Record { tag: "POINT".to_string(), params: vec![real_param(1.0), real_param(2.0)] };
    let params = vec![Value::Nested(Box::new(nested))];
    let decoded = decode_seq(&s, 1, &params).unwrap();
    assert_eq!(
        decoded,
        UnresolvedValue::Fields(vec![UnresolvedValue::Fields(vec![
            unresolved_real(1.0),
            unresolved_real(2.0),
        ])])
    );
    let wrong = Record { tag: "LINE".to_string(), params: vec![real_param(1.0), real_param(2.0)] };
    let params = vec![Value::Nested(Box::new(wrong))];
    assert_eq!(
        decode_seq(&s, 1, &params),
        Err(Error::UnexpectedTag("POINT".to_string(), "LINE".to_string()))
    );
}

#[test]
fn record_of_round_trips_through_decode() {
    let s = Schema {
        types: vec![
            entity("POINT", vec![FieldKind::Plain, FieldKind::Plain]),
            entity(
                "PATH",
                vec![
                    FieldKind::ListOf(Box::new(FieldKind::RefTo(0))),
                    FieldKind::OptionalOf(Box::new(FieldKind::Plain)),
                ],
            ),
        ],
    };
    let build = || UnresolvedValue::Fields(vec![
        UnresolvedValue::Items(vec![UnresolvedValue::Ref(1), UnresolvedValue::Ref(2)]),
        UnresolvedValue::Maybe(None),
    ]);
    let rec = record_of(&s, 1, &build());
    assert_eq!(rec.tag, "PATH");
    assert_eq!(decode_record(&s, 1, &rec), Ok(build()));
}

#[test]
fn record_of_round_trips_a_union_case() {
    let s = shape_schema();
    let build = || UnresolvedValue::Case(
        1,
        Box::new(UnresolvedValue::Fields(vec![unresolved_real(3.0)])),
    );
    let rec = record_of(&s, 2, &build());
    assert_eq!(rec.tag, "SQUARE");
    assert_eq!(decode_record(&s, 2, &rec), Ok(build()));
}

#[test]
fn schema_check_rejects_bad_shapes() {
    let dangling = Schema { types: vec![entity("A", vec![FieldKind::RefTo(3)])] };
    assert!(step_resolve::table::Table::new(dangling).is_none());
    let forward_inline = Schema { types: vec![entity("A", vec![FieldKind::Inline(0)])] };
    assert!(step_resolve::table::Table::new(forward_inline).is_none());
    let nested_optional = Schema {
        types: vec![entity(
            "A",
            vec![FieldKind::OptionalOf(Box::new(FieldKind::OptionalOf(Box::new(
                FieldKind::Plain,
            ))))],
        )],
    };
    assert!(step_resolve::table::Table::new(nested_optional).is_none());
    let duplicate_tags = Schema {
        types: vec![
            entity("CIRCLE", vec![FieldKind::Plain]),
            TypeDef::UnionType(UnionDef {
                name: "SHAPE".to_string(),
                variants: vec![
                    VariantDef { tag: "CIRCLE".to_string(), kind: FieldKind::Inline(0) },
                    VariantDef { tag: "CIRCLE".to_string(), kind: FieldKind::Inline(0) },
                ],
            }),
        ],
    };
    assert!(step_resolve::table::Table::new(duplicate_tags).is_none());
}

#[test]
fn schema_reports_name_and_attr_len() {
    let s = point_schema();
    assert_eq!(s.name(0), "POINT");
    assert_eq!(s.attr_len(0), 2);
}

#[test]
fn scalar_dup_copies_content() {
    let sc = Scalar::Text("hello".to_string());
    assert_eq!(sc.dup(), sc);
    let n = Scalar::Integer(-4);
    assert_eq!(n.dup(), n);
}
