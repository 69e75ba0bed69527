use keenio_batch::codec::{encode, CodecError};
use keenio_batch::handle::{Handle, TransformOp};
use keenio_batch::shape::{Field, FieldValue, Item, ResultShape, ShapeTag};
use keenio_batch::store::{get, put, put_command, read_reply, KvReply, MemoryStore, StoreError};
use keenio_batch::transform::{Operation, TransformError};

fn sample() -> ResultShape {
    ResultShape::ItemList(vec![Item {
        fields: vec![Field { name: "country".to_string(), value: FieldValue::Text("NZ".to_string()) }],
        result: 8,
    }])
}

#[test]
fn cache_round_trip_end_to_end() {
    let mut store = MemoryStore::new();
    let v = sample();
    put(&mut store, "k", &v, 60);
    assert_eq!(get(&store, "k", v.tag()).unwrap(), v);
}

#[test]
fn cache_miss_for_unknown_key() {
    let mut store = MemoryStore::new();
    put(&mut store, "k", &sample(), 60);
    for t in [ShapeTag::Scalar, ShapeTag::ItemList, ShapeTag::DailyScalar, ShapeTag::DailyItems] {
        assert_eq!(get(&store, "nonexistent-key", t).unwrap_err(), StoreError::Miss);
    }
}

#[test]
fn cache_overwrite_keeps_latest() {
    let mut store = MemoryStore::new();
    put(&mut store, "k", &ResultShape::Scalar(1), 0);
    put(&mut store, "other", &ResultShape::Scalar(2), 0);
    put(&mut store, "k", &ResultShape::Scalar(3), 0);
    assert_eq!(get(&store, "k", ShapeTag::Scalar).unwrap(), ResultShape::Scalar(3));
    assert_eq!(get(&store, "other", ShapeTag::Scalar).unwrap(), ResultShape::Scalar(2));
}

#[test]
fn cache_wrong_shape_is_codec_error() {
    let mut store = MemoryStore::new();
    put(&mut store, "k", &sample(), 60);
    assert_eq!(get(&store, "k", ShapeTag::Scalar).unwrap_err(), StoreError::Codec(CodecError::ShapeMismatch));
}

#[test]
fn put_command_expiry() {
    let c = put_command("key", &ResultShape::Scalar(4), 60);
    assert_eq!(c.key, "key");
    assert_eq!(c.value, encode(&ResultShape::Scalar(4)));
    assert_eq!(c.expire_seconds, Some(60));
    assert_eq!(put_command("key", &ResultShape::Scalar(4), 0).expire_seconds, None);
}

#[test]
fn read_reply_outcomes() {
    assert_eq!(read_reply(KvReply::Miss, ShapeTag::Scalar).unwrap_err(), StoreError::Miss);
    assert_eq!(read_reply(KvReply::Failed, ShapeTag::Scalar).unwrap_err(), StoreError::Transport);
    assert_eq!(
        read_reply(KvReply::Hit(b"junk".to_vec()), ShapeTag::Scalar).unwrap_err(),
        StoreError::Codec(CodecError::Malformed)
    );
    let hit = KvReply::Hit(encode(&ResultShape::Scalar(-3)));
    assert_eq!(read_reply(hit, ShapeTag::Scalar).unwrap(), ResultShape::Scalar(-3));
}

#[test]
fn handle_transform_consumes_and_refusal_returns_value() {
    let h = Handle::new(sample());
    assert_eq!(h.tag(), ShapeTag::ItemList);
    let refused = h.transform(TransformOp::Range { from: 0, to: 1 }).unwrap_err();
    assert_eq!(refused.error, TransformError::Unsupported(ShapeTag::ItemList, Operation::Range));
    let h = refused.handle;
    assert_eq!(h.value(), &sample());
    let op = TransformOp::Select { key: "country".to_string(), value: FieldValue::Text("NZ".to_string()), target: ShapeTag::Scalar };
    let h = h.transform(op).unwrap();
    assert_eq!(h.tag(), ShapeTag::Scalar);
    assert_eq!(h.into_value(), ResultShape::Scalar(8));
}

#[test]
fn handle_accumulate_and_cache() {
    let h = Handle::new(ResultShape::DailyScalar(vec![(1, 2), (2, 3)]));
    let c = h.to_cache("sum", 0);
    assert_eq!(c.expire_seconds, None);
    let back = Handle::from_cache(KvReply::Hit(c.value), ShapeTag::DailyScalar).unwrap();
    assert_eq!(back.value(), h.value());
    let total = h.transform(TransformOp::Accumulate(ShapeTag::Scalar)).unwrap();
    assert_eq!(total.into_value(), ResultShape::Scalar(5));
    assert_eq!(Handle::from_cache(KvReply::Miss, ShapeTag::Scalar).unwrap_err(), StoreError::Miss);
}

#[test]
fn handle_to_text() {
    assert_eq!(Handle::new(ResultShape::Scalar(5)).to_text(), "S0000000000000005");
    let v = ResultShape::ItemList(vec![Item {
        fields: vec![Field { name: "pays".to_string(), value: FieldValue::Text("Réunion".to_string()) }],
        result: 2,
    }]);
    let h = Handle::new(v.clone());
    let text = h.to_text();
    assert_eq!(text.as_bytes(), &encode(&v)[..]);
    assert!(text.contains("Réunion"));
}
