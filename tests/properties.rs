use parity_scale_codec::{Compact, Encode};
use scale_encode::{
    find_single_entry_with_same_repr, skip_through_single_unnamed_fields, Composite,
    CompositeField, Error, ErrorKind, Field, Kind, Location, Primitive, Registry, TypeDef, Value,
    Variant, VariantDef,
};

fn field(name: Option<&str>, id: u32) -> Field {
    Field { name: name.map(|n| n.to_string()), id }
}

fn registry(defs: Vec<TypeDef>) -> Registry {
    Registry::new(defs).expect("acyclic registry")
}

fn entries(vals: Vec<(Option<&str>, Value)>) -> Composite {
    Composite::new(
        vals.into_iter().map(|(n, v)| (n.map(|n| n.to_string()), CompositeField::new(v))).collect(),
    )
}

fn path_of(e: &Error) -> Vec<String> {
    let c = e.context();
    (0..c.len())
        .map(|i| match c.get(i) {
            Location::Idx(i) => format!("{i}"),
            Location::Field(f) => f.clone(),
            Location::Variant(v) => v.clone(),
        })
        .collect()
}

#[test]
fn numeric_narrowing_fits_or_fails() {
    // 0: u8
    let types = registry(vec![TypeDef::Primitive(Primitive::U8)]);
    assert_eq!(Value::UInt(200).encode_as_type(0, &types).unwrap(), vec![200u8]);
    let e = Value::UInt(1234).encode_as_type(0, &types).unwrap_err();
    match e.kind() {
        ErrorKind::NumberOutOfRange { value, expected_id } => {
            assert_eq!(value, "1234");
            assert_eq!(*expected_id, 0);
        }
        other => panic!("unexpected {other:?}"),
    }
    let e = Value::Int(-10).encode_as_type(0, &types).unwrap_err();
    match e.kind() {
        ErrorKind::NumberOutOfRange { value, .. } => assert_eq!(value, "-10"),
        other => panic!("unexpected {other:?}"),
    }
}

#[test]
fn signed_numbers_use_twos_complement() {
    let types = registry(vec![
        TypeDef::Primitive(Primitive::I8),
        TypeDef::Primitive(Primitive::I128),
        TypeDef::Primitive(Primitive::I16),
    ]);
    assert_eq!(Value::Int(-1).encode_as_type(0, &types).unwrap(), vec![0xff]);
    assert_eq!(Value::Int(-128).encode_as_type(0, &types).unwrap(), vec![0x80]);
    assert!(Value::Int(-129).encode_as_type(0, &types).is_err());
    assert_eq!(Value::Int(i128::MIN).encode_as_type(1, &types).unwrap(), i128::MIN.encode());
    assert_eq!(Value::Int(-1234).encode_as_type(2, &types).unwrap(), (-1234i16).encode());
    assert_eq!(Value::Char('a').encode_as_type(2, &types).unwrap(), 97i16.encode());
}

#[test]
fn wrapper_transparency() {
    // 0: u64, 1: Wrapper { value: u64 }, 2: (Wrapper,)
    let types = registry(vec![
        TypeDef::Primitive(Primitive::U64),
        TypeDef::Composite(vec![field(Some("value"), 0)]),
        TypeDef::Tuple(vec![1]),
    ]);
    let wrapper = || Value::Composite(entries(vec![(Some("value"), Value::UInt(123))]));
    let wrapped = Value::Composite(entries(vec![(None, wrapper())]));
    let direct = Value::UInt(123).encode_as_type(0, &types).unwrap();
    assert_eq!(wrapped.encode_as_type(0, &types).unwrap(), direct);
    assert_eq!(direct, 123u64.encode());
    // and the other way round: a bare number into the wrapped type.
    assert_eq!(Value::UInt(123).encode_as_type(2, &types).unwrap(), direct);
}

#[test]
fn named_field_subset_is_ignored() {
    // 0: bool, 1: str, 2: struct { a: bool }
    let types = registry(vec![
        TypeDef::Primitive(Primitive::Bool),
        TypeDef::Primitive(Primitive::Str),
        TypeDef::Composite(vec![field(Some("a"), 0)]),
    ]);
    let v = Value::Composite(entries(vec![
        (Some("a"), Value::Bool(true)),
        (Some("b"), Value::Str("hello".to_string())),
    ]));
    assert_eq!(v.encode_as_type(2, &types).unwrap(), vec![1u8]);
}

#[test]
fn named_field_missing_fails() {
    // 0: bool, 1: str, 2: struct { a: bool, b: String }
    let types = registry(vec![
        TypeDef::Primitive(Primitive::Bool),
        TypeDef::Primitive(Primitive::Str),
        TypeDef::Composite(vec![field(Some("a"), 0), field(Some("b"), 1)]),
    ]);
    let v = Value::Composite(entries(vec![(Some("a"), Value::Bool(true))]));
    let e = v.encode_as_type(2, &types).unwrap_err();
    match e.kind() {
        ErrorKind::CannotFindField { name } => assert_eq!(name, "b"),
        other => panic!("unexpected {other:?}"),
    }
}

#[test]
fn sequence_and_array_interchange() {
    // 0: u64, 1: Vec<u64>, 2: [u64; 5], 3: u8, 4: [u8; 5], 5: [u8; 4]
    let types = registry(vec![
        TypeDef::Primitive(Primitive::U64),
        TypeDef::Sequence(0),
        TypeDef::Array(0, 5),
        TypeDef::Primitive(Primitive::U8),
        TypeDef::Array(3, 5),
        TypeDef::Array(3, 4),
    ]);
    let five = || Value::Sequence((1..=5).map(Value::UInt).collect());
    let as_vec = five().encode_as_type(1, &types).unwrap();
    let as_array = five().encode_as_type(2, &types).unwrap();
    assert_eq!(as_vec, vec![1u64, 2, 3, 4, 5].encode());
    assert_eq!(as_vec[1..], as_array[..]);
    assert_eq!(five().encode_as_type(4, &types).unwrap(), [1u8, 2, 3, 4, 5].encode());
    let e = five().encode_as_type(5, &types).unwrap_err();
    assert!(matches!(e.kind(), ErrorKind::WrongLength { actual_len: 5, expected_len: 4 }));
}

#[test]
fn long_sequence_has_two_byte_length() {
    // 0: u8, 1: Vec<u8>
    let types = registry(vec![TypeDef::Primitive(Primitive::U8), TypeDef::Sequence(0)]);
    let items: Vec<u8> = (0..64).collect();
    let v = Value::Sequence(items.iter().map(|x| Value::UInt(*x as u128)).collect());
    let bytes = v.encode_as_type(1, &types).unwrap();
    assert_eq!(bytes[..2], Compact(64u32).encode()[..]);
    assert_eq!(bytes, items.encode());
}

#[test]
fn variant_matched_by_name_not_position() {
    // 0: u128, 1: enum { Other = 3, Something(u128) = 10 }
    let types = registry(vec![
        TypeDef::Primitive(Primitive::U128),
        TypeDef::Variant(vec![
            VariantDef { name: "Other".to_string(), index: 3, fields: vec![] },
            VariantDef { name: "Something".to_string(), index: 10, fields: vec![field(None, 0)] },
        ]),
    ]);
    let v = Variant { name: "Something".to_string(), fields: entries(vec![(None, Value::UInt(123))]) };
    let bytes = v.encode_variant_as_type(1, &types).unwrap();
    let mut expected = vec![10u8];
    expected.extend(123u128.encode());
    assert_eq!(bytes, expected);
    let missing = Variant { name: "Nothing".to_string(), fields: entries(vec![]) };
    let e = missing.encode_variant_as_type(1, &types).unwrap_err();
    assert!(matches!(e.kind(), ErrorKind::CannotFindVariant { name, expected_id: 1 } if name == "Nothing"));
    let e = Value::Variant(v).encode_as_type(0, &types).unwrap_err();
    assert!(matches!(e.kind(), ErrorKind::WrongShape { actual: Kind::Str, expected_id: 0 }));
}

#[test]
fn map_as_struct_or_sequence() {
    // 0: u64, 1: Vec<u64>, 2: struct { a: u64, b: u64 }
    let types = registry(vec![
        TypeDef::Primitive(Primitive::U64),
        TypeDef::Sequence(0),
        TypeDef::Composite(vec![field(Some("a"), 0), field(Some("b"), 0)]),
    ]);
    let map = |n: u128| {
        let keys = ["a", "b", "c"];
        Value::StringMap(entries(
            (0..n).map(|i| (Some(keys[i as usize]), Value::UInt(i + 1))).collect(),
        ))
    };
    assert_eq!(map(2).encode_as_type(1, &types).unwrap(), vec![1u64, 2].encode());
    assert_eq!(map(3).encode_as_type(2, &types).unwrap(), (1u64, 2u64).encode());
}

#[test]
fn normalization_is_idempotent() {
    // 0: u8, 1: (u8,), 2: struct { x: (u8,) }, 3: [struct; 1], 4: (u8, u8), 5: struct { y: u8 }
    let types = registry(vec![
        TypeDef::Primitive(Primitive::U8),
        TypeDef::Tuple(vec![0]),
        TypeDef::Composite(vec![field(Some("x"), 1)]),
        TypeDef::Array(2, 1),
        TypeDef::Tuple(vec![0, 0]),
        TypeDef::Composite(vec![field(Some("y"), 0)]),
    ]);
    for id in 0..8u32 {
        let once = find_single_entry_with_same_repr(id, &types);
        assert_eq!(find_single_entry_with_same_repr(once, &types), once);
    }
    assert_eq!(find_single_entry_with_same_repr(3, &types), 0);
    assert_eq!(find_single_entry_with_same_repr(4, &types), 4);
    assert_eq!(find_single_entry_with_same_repr(7, &types), 7);
    // a single named field is kept by the composite matcher.
    assert_eq!(skip_through_single_unnamed_fields(5, &types), 5);
    assert_eq!(skip_through_single_unnamed_fields(1, &types), 0);
}

#[test]
fn cyclic_registry_is_refused() {
    // 0: (1,), 1: Vec<0>
    assert!(Registry::new(vec![TypeDef::Tuple(vec![1]), TypeDef::Sequence(0)]).is_none());
    assert!(Registry::new(vec![TypeDef::Composite(vec![field(None, 0)])]).is_none());
    assert!(Registry::new(vec![TypeDef::Sequence(7)]).is_some());
}

#[test]
fn unknown_type_is_not_found() {
    let types = registry(vec![TypeDef::Primitive(Primitive::U8)]);
    let e = Value::Bool(true).encode_as_type(9, &types).unwrap_err();
    assert!(matches!(e.kind(), ErrorKind::TypeNotFound(9)));
    let e = Value::Sequence(vec![]).encode_as_type(9, &types).unwrap_err();
    assert!(matches!(e.kind(), ErrorKind::TypeNotFound(9)));
}

#[test]
fn error_path_leads_to_failure() {
    // 0: u8, 1: Vec<u8>, 2: struct { list: Vec<u8> }
    let types = registry(vec![
        TypeDef::Primitive(Primitive::U8),
        TypeDef::Sequence(0),
        TypeDef::Composite(vec![field(Some("list"), 1), field(Some("flag"), 0)]),
    ]);
    let v = Value::Composite(entries(vec![
        (Some("flag"), Value::UInt(1)),
        (Some("list"), Value::Sequence(vec![Value::UInt(1), Value::UInt(300)])),
    ]));
    let e = v.encode_as_type(2, &types).unwrap_err();
    assert!(matches!(e.kind(), ErrorKind::NumberOutOfRange { .. }));
    assert_eq!(path_of(&e), vec!["1".to_string(), "list".to_string()]);
}

#[test]
fn unnamed_source_into_struct_goes_by_position() {
    // 0: u8, 1: struct { a: u8, b: u8 }
    let types = registry(vec![
        TypeDef::Primitive(Primitive::U8),
        TypeDef::Composite(vec![field(Some("a"), 0), field(Some("b"), 0)]),
    ]);
    let v = Value::Composite(entries(vec![(None, Value::UInt(1)), (None, Value::UInt(2))]));
    assert_eq!(v.encode_as_type(1, &types).unwrap(), vec![1u8, 2]);
    let short = Value::Composite(entries(vec![(None, Value::UInt(1)), (None, Value::UInt(2)), (None, Value::UInt(3))]));
    let e = short.encode_as_type(1, &types).unwrap_err();
    assert!(matches!(e.kind(), ErrorKind::WrongLength { actual_len: 3, expected_len: 2 }));
}

#[test]
fn errors_carry_their_context() {
    let e = Error::custom_str("boom").at_idx(2).at_field("x".to_string()).at_variant("V".to_string());
    assert!(matches!(e.kind(), ErrorKind::Custom(m) if m == "boom"));
    assert_eq!(path_of(&e), vec!["2".to_string(), "x".to_string(), "V".to_string()]);
    let e = Error::custom_string("a".to_string());
    assert_eq!(e.context().len(), 0);
    let e = Error::custom("b".to_string()).at(Location::idx(0));
    assert_eq!(e.context().len(), 1);
    let e = Error::new(ErrorKind::TypeResolvingError("c".to_string()));
    assert!(matches!(e.kind(), ErrorKind::TypeResolvingError(m) if m == "c"));
}

#[test]
fn compact_of_large_numbers() {
    // 0: u128, 1: Compact<u128>, 2: Compact<u8>
    let types = registry(vec![
        TypeDef::Primitive(Primitive::U128),
        TypeDef::Compact(0),
        TypeDef::Primitive(Primitive::U8),
        TypeDef::Compact(2),
    ]);
    for n in [0u128, 63, 64, 16383, 16384, (1 << 30) - 1, 1 << 30, u64::MAX as u128, u128::MAX] {
        assert_eq!(Value::UInt(n).encode_as_type(1, &types).unwrap(), Compact(n).encode());
    }
    assert!(Value::UInt(256).encode_as_type(3, &types).is_err());
    assert!(Value::Int(-1).encode_as_type(1, &types).is_err());
}


#[test]
fn empty_values() {
    // 0: u8, 1: Vec<u8>, 2: (), 3: [u8; 0], 4: bits
    let types = registry(vec![
        TypeDef::Primitive(Primitive::U8),
        TypeDef::Sequence(0),
        TypeDef::Tuple(vec![]),
        TypeDef::Array(0, 0),
        TypeDef::BitSequence(scale_encode::BitsStoreFormat::U8, scale_encode::BitsOrderFormat::Lsb0),
    ]);
    assert_eq!(Value::Sequence(vec![]).encode_as_type(1, &types).unwrap(), vec![0u8]);
    assert_eq!(Value::Sequence(vec![]).encode_as_type(3, &types).unwrap(), Vec::<u8>::new());
    assert_eq!(Value::unit().encode_as_type(2, &types).unwrap(), Vec::<u8>::new());
    assert_eq!(Value::unit().encode_as_type(1, &types).unwrap(), vec![0u8]);
    assert_eq!(Value::Bits(vec![]).encode_as_type(4, &types).unwrap(), vec![0u8]);
    let e = Value::Str(String::new()).encode_as_type(0, &types).unwrap_err();
    assert!(matches!(e.kind(), ErrorKind::WrongShape { actual: Kind::Str, expected_id: 0 }));
}

#[test]
fn later_entry_with_same_name_wins() {
    // 0: u8, 1: struct { a: u8 }
    let types = registry(vec![
        TypeDef::Primitive(Primitive::U8),
        TypeDef::Composite(vec![field(Some("a"), 0), field(Some("b"), 0)]),
    ]);
    let v = Value::Composite(entries(vec![
        (Some("a"), Value::UInt(1)),
        (Some("b"), Value::UInt(2)),
        (Some("a"), Value::UInt(3)),
    ]));
    assert_eq!(v.encode_as_type(1, &types).unwrap(), vec![3u8, 2]);
}

#[test]
fn unnamed_entries_match_by_empty_name() {
    // 0: u8, 1: struct { a: u8, <unnamed>: u8 }
    let types = registry(vec![
        TypeDef::Primitive(Primitive::U8),
        TypeDef::Composite(vec![field(Some("a"), 0), field(None, 0)]),
    ]);
    let v = Value::Composite(entries(vec![(None, Value::UInt(7)), (Some("a"), Value::UInt(1))]));
    assert_eq!(v.encode_as_type(1, &types).unwrap(), vec![1u8, 7]);
    let missing = Value::Composite(entries(vec![(Some("a"), Value::UInt(1))]));
    let e = missing.encode_as_type(1, &types).unwrap_err();
    assert!(matches!(e.kind(), ErrorKind::CannotFindField { name } if name.is_empty()));
}

#[test]
fn largest_numbers() {
    // 0: u128, 1: i128, 2: u64
    let types = registry(vec![
        TypeDef::Primitive(Primitive::U128),
        TypeDef::Primitive(Primitive::I128),
        TypeDef::Primitive(Primitive::U64),
    ]);
    assert_eq!(Value::UInt(u128::MAX).encode_as_type(0, &types).unwrap(), u128::MAX.encode());
    assert_eq!(Value::Int(i128::MAX).encode_as_type(1, &types).unwrap(), i128::MAX.encode());
    let e = Value::UInt(u128::MAX).encode_as_type(1, &types).unwrap_err();
    assert!(matches!(e.kind(), ErrorKind::NumberOutOfRange { value, .. } if value == &u128::MAX.to_string()));
    assert_eq!(Value::UInt(u64::MAX as u128).encode_as_type(2, &types).unwrap(), u64::MAX.encode());
    assert!(Value::UInt(u64::MAX as u128 + 1).encode_as_type(2, &types).is_err());
    let e = Value::Int(i128::MIN).encode_as_type(2, &types).unwrap_err();
    assert!(matches!(e.kind(), ErrorKind::NumberOutOfRange { value, .. } if value == &i128::MIN.to_string()));
}

#[test]
fn options_and_results_are_variants() {
    // 0: u8, 1: Option<u8>
    let types = registry(vec![
        TypeDef::Primitive(Primitive::U8),
        TypeDef::Variant(vec![
            VariantDef { name: "None".to_string(), index: 0, fields: vec![] },
            VariantDef { name: "Some".to_string(), index: 1, fields: vec![field(None, 0)] },
        ]),
    ]);
    assert_eq!(Value::option(Some(Value::UInt(5))).encode_as_type(1, &types).unwrap(), Some(5u8).encode());
    assert_eq!(Value::option(None).encode_as_type(1, &types).unwrap(), None::<u8>.encode());
    let e = Value::result(Ok(Value::UInt(5))).encode_as_type(1, &types).unwrap_err();
    assert!(matches!(e.kind(), ErrorKind::CannotFindVariant { name, expected_id: 1 } if name == "Ok"));
}

#[test]
fn composite_into_single_element_array_is_wrong_shape() {
    // 0: u8, 1: Foo { a: u8, b: u8 }, 2: [Foo; 1]
    let types = registry(vec![
        TypeDef::Primitive(Primitive::U8),
        TypeDef::Composite(vec![field(Some("a"), 0), field(Some("b"), 0)]),
        TypeDef::Array(1, 1),
    ]);
    assert_eq!(skip_through_single_unnamed_fields(2, &types), 2);
    assert_eq!(find_single_entry_with_same_repr(2, &types), 1);
    let v = Value::Composite(entries(vec![(Some("a"), Value::UInt(1)), (Some("b"), Value::UInt(2))]));
    let e = v.encode_as_type(2, &types).unwrap_err();
    assert!(matches!(e.kind(), ErrorKind::WrongShape { actual: Kind::Tuple, expected_id: 2 }));
    assert_eq!(v.encode_as_type(1, &types).unwrap(), vec![1u8, 2]);
}

#[test]
fn errors_leave_only_what_was_written_before_them() {
    // 0: u8, 1: bool, 2: Vec<u8>, 3: [u8; 2], 4: struct { a: u8, b: u8 }, 5: enum { A = 4 }
    let types = registry(vec![
        TypeDef::Primitive(Primitive::U8),
        TypeDef::Primitive(Primitive::Bool),
        TypeDef::Sequence(0),
        TypeDef::Array(0, 2),
        TypeDef::Composite(vec![field(Some("a"), 0), field(Some("b"), 0)]),
        TypeDef::Variant(vec![VariantDef { name: "A".to_string(), index: 4, fields: vec![field(None, 0)] }]),
    ]);
    let run = |v: &Value, id: u32| {
        let mut out = vec![9u8];
        let r = v.encode_as_type_to(id, &types, &mut out);
        assert!(r.is_err());
        out
    };
    // nothing written before the failure.
    assert_eq!(run(&Value::Bool(true), 0), vec![9u8]);
    assert_eq!(run(&Value::Sequence(vec![Value::UInt(1)]), 3), vec![9u8]);
    let missing = Value::Variant(Variant { name: "B".to_string(), fields: entries(vec![]) });
    assert_eq!(run(&missing, 5), vec![9u8]);
    assert_eq!(run(&Value::Bits(vec![true]), 0), vec![9u8]);
    // what came before the failing part stays, nothing after it is written.
    let items = Value::Sequence(vec![Value::UInt(1), Value::UInt(300), Value::UInt(2)]);
    assert_eq!(run(&items, 2), vec![9u8, 12, 1]);
    let partial = Value::Composite(entries(vec![(Some("a"), Value::UInt(1))]));
    assert_eq!(run(&partial, 4), vec![9u8, 1]);
    let bad_field = Value::Variant(Variant { name: "A".to_string(), fields: entries(vec![(None, Value::Bool(true))]) });
    assert_eq!(run(&bad_field, 5), vec![9u8, 4]);
}

#[test]
fn composite_field_encodes_like_its_value() {
    let types = registry(vec![TypeDef::Primitive(Primitive::U8), TypeDef::Sequence(0)]);
    let v = || Value::Sequence(vec![Value::UInt(1), Value::UInt(256)]);
    let f = CompositeField::new(v());
    let (mut a, mut b) = (vec![7u8], vec![7u8]);
    let ra = f.encode_composite_field_to(1, &types, &mut a).unwrap_err();
    let rb = v().encode_as_type_to(1, &types, &mut b).unwrap_err();
    assert_eq!(a, b);
    assert_eq!(path_of(&ra), path_of(&rb));
}
