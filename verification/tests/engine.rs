use step_resolve::error::Error;
use step_resolve::record::{Record, Scalar, Value};
use step_resolve::resolve::{OwnedValue, UnresolvedValue};
use step_resolve::schema::{EntityDef, FieldKind, Schema, TypeDef, UnionDef, VariantDef};
use step_resolve::table::Table;

fn real_param(x: f64) -> Value {
    Value::Simple(Scalar::Real(x.to_bits()))
}

fn owned_real(x: f64) -> OwnedValue {
    OwnedValue::Scal(Scalar::Real(x.to_bits()))
}

fn entity(name: &str, fields: Vec<FieldKind>) -> TypeDef {
    TypeDef::EntityType(EntityDef { name: name.to_string(), fields })
}

fn point_schema() -> Schema {
    Schema { types: vec![entity("POINT", vec![FieldKind::Plain, FieldKind::Plain])] }
}

fn point_line_schema() -> Schema {
    Schema {
        types: vec![
            entity("POINT", vec![FieldKind::Plain, FieldKind::Plain]),
            entity("LINE", vec![FieldKind::RefTo(0), FieldKind::RefTo(0)]),
        ],
    }
}

fn point_record(x: f64, y: f64) -> Record {
    Record { tag: "POINT".to_string(), params: vec![real_param(x), real_param(y)] }
}

#[test]
fn point_get_owned() {
    let mut table = Table::new(point_schema()).unwrap();
    table.add_record(0, 1, &point_record(1.0, 2.0)).unwrap();
    let owned = table.get_owned(0, 1).unwrap();
    assert_eq!(owned, OwnedValue::Fields(vec![owned_real(1.0), owned_real(2.0)]));
}

#[test]
fn line_resolves_both_ends_independently() {
    let mut table = Table::new(point_line_schema()).unwrap();
    table.add_record(0, 1, &point_record(1.0, 2.0)).unwrap();
    let line = Record {
        tag: "LINE".to_string(),
        params: vec![Value::Ref(1), Value::Ref(1)],
    };
    table.add_record(1, 10, &line).unwrap();
    let owned = table.get_owned(1, 10).unwrap();
    let expected_point = OwnedValue::Fields(vec![owned_real(1.0), owned_real(2.0)]);
    match owned {
        OwnedValue::Fields(ends) => {
            assert_eq!(ends.len(), 2);
            assert_eq!(ends[0], ends[1]);
            assert_eq!(ends[0], expected_point);
        }
        other => panic!("expected fields, got {:?}", other),
    }
}

#[test]
fn missing_id_is_unknown_entity() {
    let mut table = Table::new(point_schema()).unwrap();
    table.add_record(0, 1, &point_record(0.0, 0.0)).unwrap();
    assert_eq!(table.get_owned(0, 99), Err(Error::UnknownEntity(99)));
}

#[test]
fn dangling_reference_is_unknown_entity() {
    let mut table = Table::new(point_line_schema()).unwrap();
    let line = Record {
        tag: "LINE".to_string(),
        params: vec![Value::Ref(5), Value::Ref(5)],
    };
    table.add_record(1, 10, &line).unwrap();
    assert_eq!(table.get_owned(1, 10), Err(Error::UnknownEntity(5)));
}

#[test]
fn owned_iter_isolates_failures_in_insertion_order() {
    let mut table = Table::new(point_line_schema()).unwrap();
    table.add_record(0, 1, &point_record(1.0, 2.0)).unwrap();
    let ok_line = || Record {
        tag: "LINE".to_string(),
        params: vec![Value::Ref(1), Value::Ref(1)],
    };
    let bad_line = Record {
        tag: "LINE".to_string(),
        params: vec![Value::Ref(1), Value::Ref(99)],
    };
    table.add_record(1, 10, &ok_line()).unwrap();
    table.add_record(1, 11, &bad_line).unwrap();
    table.add_record(1, 12, &ok_line()).unwrap();
    let results = table.owned_iter(1);
    assert_eq!(results.len(), 3);
    assert!(results[0].is_ok());
    assert_eq!(results[1], Err(Error::UnknownEntity(99)));
    assert!(results[2].is_ok());
}

#[test]
fn owned_iter_keeps_insertion_order_of_ids() {
    let mut table = Table::new(point_schema()).unwrap();
    table.add_record(0, 3, &point_record(3.0, 0.0)).unwrap();
    table.add_record(0, 1, &point_record(1.0, 0.0)).unwrap();
    table.add_record(0, 2, &point_record(2.0, 0.0)).unwrap();
    let results = table.owned_iter(0);
    let firsts: Vec<f64> = results
        .into_iter()
        .map(|r| match r.unwrap() {
            OwnedValue::Fields(fs) => match &fs[0] {
                OwnedValue::Scal(Scalar::Real(bits)) => f64::from_bits(*bits),
                other => panic!("expected real, got {:?}", other),
            },
            other => panic!("expected fields, got {:?}", other),
        })
        .collect();
    assert_eq!(firsts, vec![3.0, 1.0, 2.0]);
}

#[test]
fn add_record_replaces_in_place() {
    let mut table = Table::new(point_schema()).unwrap();
    table.add_record(0, 1, &point_record(1.0, 1.0)).unwrap();
    table.add_record(0, 2, &point_record(2.0, 2.0)).unwrap();
    table.add_record(0, 1, &point_record(9.0, 9.0)).unwrap();
    let results = table.owned_iter(0);
    assert_eq!(results.len(), 2);
    assert_eq!(
        results[0],
        Ok(OwnedValue::Fields(vec![owned_real(9.0), owned_real(9.0)]))
    );
    assert_eq!(
        results[1],
        Ok(OwnedValue::Fields(vec![owned_real(2.0), owned_real(2.0)]))
    );
}

#[test]
fn self_reference_cycle_hits_depth_limit() {
    let schema = Schema { types: vec![entity("NODE", vec![FieldKind::RefTo(0)])] };
    let mut table = Table::new(schema).unwrap();
    let rec = Record { tag: "NODE".to_string(), params: vec![Value::Ref(1)] };
    table.add_record(0, 1, &rec).unwrap();
    assert_eq!(table.get_owned(0, 1), Err(Error::DepthLimit));
}

#[test]
fn two_record_cycle_hits_depth_limit() {
    let schema = Schema { types: vec![entity("NODE", vec![FieldKind::RefTo(0)])] };
    let mut table = Table::new(schema).unwrap();
    table
        .add_record(0, 1, &Record { tag: "NODE".to_string(), params: vec![Value::Ref(2)] })
        .unwrap();
    table
        .add_record(0, 2, &Record { tag: "NODE".to_string(), params: vec![Value::Ref(1)] })
        .unwrap();
    assert_eq!(table.get_owned(0, 1), Err(Error::DepthLimit));
}

fn shape_schema() -> Schema {
    Schema {
        types: vec![
            entity("CIRCLE", vec![FieldKind::Plain]),
            entity("SQUARE", vec![FieldKind::Plain]),
            TypeDef::UnionType(UnionDef {
                name: "SHAPE".to_string(),
                variants: vec![
                    VariantDef { tag: "CIRCLE".to_string(), kind: FieldKind::Inline(0) },
                    VariantDef { tag: "SQUARE".to_string(), kind: FieldKind::Inline(1) },
                ],
            }),
        ],
    }
}

#[test]
fn union_get_owned_picks_claiming_variant() {
    let mut table = Table::new(shape_schema()).unwrap();
    let circle = Record { tag: "CIRCLE".to_string(), params: vec![real_param(5.0)] };
    table.add_record(0, 7, &circle).unwrap();
    let owned = table.get_owned(2, 7).unwrap();
    assert_eq!(
        owned,
        OwnedValue::Case(0, Box::new(OwnedValue::Fields(vec![owned_real(5.0)])))
    );
}

#[test]
fn union_first_claim_wins_on_shared_id() {
    let mut table = Table::new(shape_schema()).unwrap();
    table
        .add_record(0, 7, &Record { tag: "CIRCLE".to_string(), params: vec![real_param(5.0)] })
        .unwrap();
    table
        .add_record(1, 7, &Record { tag: "SQUARE".to_string(), params: vec![real_param(3.0)] })
        .unwrap();
    let owned = table.get_owned(2, 7).unwrap();
    match owned {
        OwnedValue::Case(variant, _) => assert_eq!(variant, 0),
        other => panic!("expected a union case, got {:?}", other),
    }
}

#[test]
fn union_absent_id_is_unknown_entity() {
    let mut table = Table::new(shape_schema()).unwrap();
    table
        .add_record(0, 7, &Record { tag: "CIRCLE".to_string(), params: vec![real_param(5.0)] })
        .unwrap();
    assert_eq!(table.get_owned(2, 8), Err(Error::UnknownEntity(8)));
}

#[test]
fn union_owned_iter_chains_variant_slots() {
    let mut table = Table::new(shape_schema()).unwrap();
    table
        .add_record(1, 1, &Record { tag: "SQUARE".to_string(), params: vec![real_param(3.0)] })
        .unwrap();
    table
        .add_record(0, 2, &Record { tag: "CIRCLE".to_string(), params: vec![real_param(5.0)] })
        .unwrap();
    let results = table.owned_iter(2);
    assert_eq!(results.len(), 2);
    assert_eq!(
        results[0],
        Ok(OwnedValue::Case(0, Box::new(OwnedValue::Fields(vec![owned_real(5.0)]))))
    );
    assert_eq!(
        results[1],
        Ok(OwnedValue::Case(1, Box::new(OwnedValue::Fields(vec![owned_real(3.0)]))))
    );
}

#[test]
fn list_and_optional_fields_resolve_in_order() {
    let schema = Schema {
        types: vec![
            entity("POINT", vec![FieldKind::Plain, FieldKind::Plain]),
            entity(
                "PATH",
                vec![
                    FieldKind::ListOf(Box::new(FieldKind::RefTo(0))),
                    FieldKind::OptionalOf(Box::new(FieldKind::Plain)),
                ],
            ),
        ],
    };
    let mut table = Table::new(schema).unwrap();
    table.add_record(0, 1, &point_record(1.0, 1.0)).unwrap();
    table.add_record(0, 2, &point_record(2.0, 2.0)).unwrap();
    let path = Record {
        tag: "PATH".to_string(),
        params: vec![
            Value::ListOf(vec![Value::Ref(2), Value::Ref(1)]),
            Value::Unset,
        ],
    };
    table.add_record(1, 5, &path).unwrap();
    let owned = table.get_owned(1, 5).unwrap();
    assert_eq!(
        owned,
        OwnedValue::Fields(vec![
            OwnedValue::Items(vec![
                OwnedValue::Fields(vec![owned_real(2.0), owned_real(2.0)]),
                OwnedValue::Fields(vec![owned_real(1.0), owned_real(1.0)]),
            ]),
            OwnedValue::Maybe(None),
        ])
    );
}

#[test]
fn list_resolution_reports_first_failing_element() {
    let schema = Schema {
        types: vec![
            entity("POINT", vec![FieldKind::Plain, FieldKind::Plain]),
            entity("PATH", vec![FieldKind::ListOf(Box::new(FieldKind::RefTo(0)))]),
        ],
    };
    let mut table = Table::new(schema).unwrap();
    table.add_record(0, 1, &point_record(1.0, 1.0)).unwrap();
    let path = Record {
        tag: "PATH".to_string(),
        params: vec![Value::ListOf(vec![
            Value::Ref(1),
            Value::Ref(77),
            Value::Ref(88),
        ])],
    };
    table.add_record(1, 5, &path).unwrap();
    assert_eq!(table.get_owned(1, 5), Err(Error::UnknownEntity(77)));
}

#[test]
fn resolve_looks_a_captured_reference_up() {
    let mut table = Table::new(point_schema()).unwrap();
    table.add_record(0, 1, &point_record(1.0, 2.0)).unwrap();
    let unresolved = UnresolvedValue::Ref(1);
    let owned = table.resolve(&FieldKind::RefTo(0), &unresolved).unwrap();
    assert_eq!(owned, OwnedValue::Fields(vec![owned_real(1.0), owned_real(2.0)]));
    let scalar = UnresolvedValue::Scal(Scalar::Integer(3));
    assert_eq!(
        table.resolve(&FieldKind::Plain, &scalar),
        Ok(OwnedValue::Scal(Scalar::Integer(3)))
    );
    assert_eq!(
        table.resolve(&FieldKind::RefTo(0), &scalar),
        Err(Error::UnexpectedValue)
    );
}

#[test]
fn repeated_resolution_is_structurally_equal() {
    let mut table = Table::new(point_line_schema()).unwrap();
    table.add_record(0, 1, &point_record(1.0, 2.0)).unwrap();
    let line = Record {
        tag: "LINE".to_string(),
        params: vec![Value::Ref(1), Value::Ref(1)],
    };
    table.add_record(1, 10, &line).unwrap();
    let first = table.get_owned(1, 10).unwrap();
    let second = table.get_owned(1, 10).unwrap();
    assert_eq!(first, second);
}

#[test]
fn error_describe_names_the_sub_check() {
    assert_eq!(Error::UnknownEntity(4).describe(), "unknown entity");
    assert_eq!(Error::ArityMismatch(2, 3).describe(), "arity mismatch");
    assert_eq!(Error::EmptyRecord.describe(), "empty record");
}
