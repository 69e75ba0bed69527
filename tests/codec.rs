use keenio_batch::codec::{decode, encode, CodecError};
use keenio_batch::shape::{DayItems, Field, FieldValue, Item, ResultShape, ShapeTag};

fn field(name: &str, value: FieldValue) -> Field {
    Field { name: name.to_string(), value }
}

fn item(groups: Vec<Field>, result: i64) -> Item {
    Item { fields: groups, result }
}

fn sample_items() -> Vec<Item> {
    vec![
        item(vec![field("device", FieldValue::Text("iPhone".to_string()))], 12),
        item(vec![field("device", FieldValue::Text("Pixel é漢".to_string())), field("build", FieldValue::Number(-7))], 3),
    ]
}

fn samples() -> Vec<ResultShape> {
    vec![
        ResultShape::Scalar(42),
        ResultShape::Scalar(-1),
        ResultShape::Scalar(i64::MIN),
        ResultShape::ItemList(vec![]),
        ResultShape::ItemList(sample_items()),
        ResultShape::DailyScalar(vec![]),
        ResultShape::DailyScalar(vec![(17000, 5), (17001, 0), (17005, i64::MAX)]),
        ResultShape::DailyItems(vec![]),
        ResultShape::DailyItems(vec![
            DayItems { day: 17000, items: sample_items() },
            DayItems { day: 17002, items: vec![] },
        ]),
    ]
}

#[test]
fn round_trip_every_shape() {
    for v in samples() {
        let bytes = encode(&v);
        let back = decode(&bytes, v.tag()).unwrap();
        assert_eq!(back, v);
    }
}

#[test]
fn encoding_is_deterministic() {
    for v in samples() {
        assert_eq!(encode(&v), encode(&v.clone()));
    }
}

#[test]
fn scalar_encoding_is_text() {
    assert_eq!(encode(&ResultShape::Scalar(5)), b"S0000000000000005".to_vec());
    assert_eq!(encode(&ResultShape::Scalar(-1)), b"Sffffffffffffffff".to_vec());
    assert_eq!(encode(&ResultShape::Scalar(255)), b"S00000000000000ff".to_vec());
}

#[test]
fn text_field_encoding() {
    let v = ResultShape::ItemList(vec![item(vec![field("k", FieldValue::Text("ab".to_string()))], 1)]);
    let one = "0000000000000001";
    let two = "0000000000000002";
    let expected = format!("I{one}{one}{one}kt{two}ab{one}").into_bytes();
    assert_eq!(encode(&v), expected);
}

#[test]
fn shape_mismatch_on_every_other_tag() {
    let tags = [ShapeTag::Scalar, ShapeTag::ItemList, ShapeTag::DailyScalar, ShapeTag::DailyItems];
    for v in samples() {
        let bytes = encode(&v);
        for t in tags {
            if t != v.tag() {
                assert_eq!(decode(&bytes, t), Err(CodecError::ShapeMismatch));
            }
        }
    }
}

#[test]
fn malformed_inputs() {
    assert_eq!(decode(&vec![], ShapeTag::Scalar), Err(CodecError::Malformed));
    assert_eq!(decode(&b"I".to_vec(), ShapeTag::Scalar), Err(CodecError::Malformed));
    assert_eq!(decode(&b"S12".to_vec(), ShapeTag::ItemList), Err(CodecError::Malformed));
    assert_eq!(decode(&b"x000".to_vec(), ShapeTag::Scalar), Err(CodecError::Malformed));
    assert_eq!(decode(&b"S00000000000005".to_vec(), ShapeTag::Scalar), Err(CodecError::Malformed));
    assert_eq!(decode(&b"S000000000000000G".to_vec(), ShapeTag::Scalar), Err(CodecError::Malformed));
    assert_eq!(decode(&b"S000000000000000A".to_vec(), ShapeTag::Scalar), Err(CodecError::Malformed));
    let mut trailing = encode(&ResultShape::Scalar(3));
    trailing.push(b'0');
    assert_eq!(decode(&trailing, ShapeTag::Scalar), Err(CodecError::Malformed));
    let full = encode(&ResultShape::ItemList(sample_items()));
    let cut = full[..full.len() - 3].to_vec();
    assert_eq!(decode(&cut, ShapeTag::ItemList), Err(CodecError::Malformed));
}

#[test]
fn malformed_when_invariants_break() {
    let dup = ResultShape::ItemList(vec![item(
        vec![field("a", FieldValue::Number(1)), field("a", FieldValue::Number(2))],
        1,
    )]);
    assert_eq!(decode(&encode(&dup), ShapeTag::ItemList), Err(CodecError::Malformed));
    let unordered = ResultShape::DailyScalar(vec![(5, 1), (5, 2)]);
    assert_eq!(decode(&encode(&unordered), ShapeTag::DailyScalar), Err(CodecError::Malformed));
    let backwards = ResultShape::DailyItems(vec![
        DayItems { day: 9, items: vec![] },
        DayItems { day: 8, items: vec![] },
    ]);
    assert_eq!(decode(&encode(&backwards), ShapeTag::DailyItems), Err(CodecError::Malformed));
}

#[test]
fn invalid_utf8_text_is_malformed() {
    let v = ResultShape::ItemList(vec![item(vec![field("k", FieldValue::Text("ab".to_string()))], 1)]);
    let mut bytes = encode(&v);
    let pos = bytes.iter().position(|b| *b == b'a').unwrap();
    bytes[pos] = 0xff;
    assert_eq!(decode(&bytes, ShapeTag::ItemList), Err(CodecError::Malformed));
}
