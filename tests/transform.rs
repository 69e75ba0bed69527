use keenio_batch::shape::{DayItems, Field, FieldValue, Item, ResultShape, ShapeTag};
use keenio_batch::transform::{Operation, TransformError};

fn text(s: &str) -> FieldValue {
    FieldValue::Text(s.to_string())
}

fn item(device: &str, result: i64) -> Item {
    Item { fields: vec![Field { name: "device".to_string(), value: text(device) }], result }
}

fn items() -> Vec<Item> {
    vec![item("ios", 3), item("android", 4), item("web", 5)]
}

fn days() -> Vec<DayItems> {
    vec![
        DayItems { day: 10, items: vec![item("ios", 1), item("web", 2)] },
        DayItems { day: 11, items: vec![item("web", 7)] },
        DayItems { day: 13, items: vec![item("ios", 4), item("android", 6)] },
    ]
}

#[test]
fn accumulate_scalar_is_refused() {
    for t in [ShapeTag::Scalar, ShapeTag::ItemList, ShapeTag::DailyScalar, ShapeTag::DailyItems] {
        let e = ResultShape::Scalar(9).accumulate(t).unwrap_err();
        assert_eq!(e.error, TransformError::Unsupported(ShapeTag::Scalar, Operation::Accumulate));
        assert_eq!(e.value, ResultShape::Scalar(9));
    }
}

#[test]
fn accumulate_item_list_sums() {
    let r = ResultShape::ItemList(items()).accumulate(ShapeTag::Scalar).unwrap();
    assert_eq!(r, ResultShape::Scalar(12));
    let r = ResultShape::ItemList(vec![]).accumulate(ShapeTag::Scalar).unwrap();
    assert_eq!(r, ResultShape::Scalar(0));
}

#[test]
fn accumulate_daily_scalar_sums() {
    let r = ResultShape::DailyScalar(vec![(1, 2), (2, -5), (3, 10)]).accumulate(ShapeTag::Scalar).unwrap();
    assert_eq!(r, ResultShape::Scalar(7));
}

#[test]
fn accumulate_daily_items_per_day_and_total() {
    let r = ResultShape::DailyItems(days()).accumulate(ShapeTag::DailyScalar).unwrap();
    assert_eq!(r, ResultShape::DailyScalar(vec![(10, 3), (11, 7), (13, 10)]));
    let r = ResultShape::DailyItems(days()).accumulate(ShapeTag::Scalar).unwrap();
    assert_eq!(r, ResultShape::Scalar(20));
}

#[test]
fn accumulate_single_target_shapes_ignore_target() {
    for t in [ShapeTag::Scalar, ShapeTag::ItemList, ShapeTag::DailyScalar, ShapeTag::DailyItems] {
        assert_eq!(ResultShape::ItemList(items()).accumulate(t).unwrap(), ResultShape::Scalar(12));
        let series = ResultShape::DailyScalar(vec![(1, 2), (2, 3)]);
        assert_eq!(series.accumulate(t).unwrap(), ResultShape::Scalar(5));
    }
}

#[test]
fn accumulate_unsupported_target() {
    let e = ResultShape::DailyItems(days()).accumulate(ShapeTag::ItemList).unwrap_err();
    assert_eq!(e.error, TransformError::Unsupported(ShapeTag::DailyItems, Operation::Accumulate));
}

#[test]
fn accumulate_daily_items_total_is_exact() {
    let d = vec![
        DayItems { day: 0, items: vec![item("a", i64::MAX), item("b", 1)] },
        DayItems { day: 1, items: vec![item("a", -2)] },
    ];
    assert_eq!(ResultShape::DailyItems(d.clone()).accumulate(ShapeTag::Scalar).unwrap(), ResultShape::Scalar(i64::MAX - 1));
    let e = ResultShape::DailyItems(d).accumulate(ShapeTag::DailyScalar).unwrap_err();
    assert_eq!(e.error, TransformError::Overflow);
    let low = vec![
        DayItems { day: 0, items: vec![item("a", i64::MIN), item("b", -1)] },
        DayItems { day: 1, items: vec![item("a", 1)] },
    ];
    assert_eq!(ResultShape::DailyItems(low).accumulate(ShapeTag::Scalar).unwrap(), ResultShape::Scalar(i64::MIN));
    let over = vec![DayItems { day: 0, items: vec![item("a", i64::MAX)] }, DayItems { day: 1, items: vec![item("a", 1)] }];
    let e = ResultShape::DailyItems(over).accumulate(ShapeTag::Scalar).unwrap_err();
    assert_eq!(e.error, TransformError::Overflow);
}

#[test]
fn accumulate_overflow() {
    let big = ResultShape::DailyScalar(vec![(1, i64::MAX), (2, 1)]);
    let e = big.accumulate(ShapeTag::Scalar).unwrap_err();
    assert_eq!(e.error, TransformError::Overflow);
    let fits = ResultShape::DailyScalar(vec![(1, i64::MAX), (2, 1), (3, -1)]);
    assert_eq!(fits.accumulate(ShapeTag::Scalar).unwrap(), ResultShape::Scalar(i64::MAX));
}

#[test]
fn select_exactly_one_match() {
    let r = ResultShape::ItemList(items()).select("device", &text("android"), ShapeTag::Scalar).unwrap();
    assert_eq!(r, ResultShape::Scalar(4));
}

#[test]
fn select_zero_or_two_matches_is_ambiguous() {
    let e = ResultShape::ItemList(items()).select("device", &text("tv"), ShapeTag::Scalar).unwrap_err();
    assert_eq!(e.error, TransformError::AmbiguousMatch);
    assert_eq!(e.value, ResultShape::ItemList(items()));
    let twice = vec![item("ios", 1), item("ios", 2)];
    let e = ResultShape::ItemList(twice).select("device", &text("ios"), ShapeTag::Scalar).unwrap_err();
    assert_eq!(e.error, TransformError::AmbiguousMatch);
}

#[test]
fn select_matches_numbers_and_names_exactly() {
    let list = vec![
        Item { fields: vec![Field { name: "build".to_string(), value: FieldValue::Number(7) }], result: 70 },
        Item { fields: vec![Field { name: "build".to_string(), value: text("7") }], result: 1 },
    ];
    let r = ResultShape::ItemList(list.clone()).select("build", &FieldValue::Number(7), ShapeTag::Scalar).unwrap();
    assert_eq!(r, ResultShape::Scalar(70));
    let r = ResultShape::ItemList(list.clone()).select("build", &text("7"), ShapeTag::Scalar).unwrap();
    assert_eq!(r, ResultShape::Scalar(1));
    let e = ResultShape::ItemList(list).select("Build", &FieldValue::Number(7), ShapeTag::Scalar).unwrap_err();
    assert_eq!(e.error, TransformError::AmbiguousMatch);
}

#[test]
fn select_per_day_omits_days_without_match() {
    let r = ResultShape::DailyItems(days()).select("device", &text("ios"), ShapeTag::DailyScalar).unwrap();
    assert_eq!(r, ResultShape::DailyScalar(vec![(10, 1), (13, 4)]));
    let r = ResultShape::DailyItems(days()).select("device", &text("web"), ShapeTag::Scalar).unwrap();
    assert_eq!(r, ResultShape::Scalar(9));
}

#[test]
fn select_filter_keeps_every_day() {
    let r = ResultShape::DailyItems(days()).select("device", &text("web"), ShapeTag::DailyItems).unwrap();
    assert_eq!(
        r,
        ResultShape::DailyItems(vec![
            DayItems { day: 10, items: vec![item("web", 2)] },
            DayItems { day: 11, items: vec![item("web", 7)] },
            DayItems { day: 13, items: vec![] },
        ])
    );
}

#[test]
fn select_day_with_two_matches_is_ambiguous() {
    let d = vec![DayItems { day: 1, items: vec![item("ios", 1), item("ios", 2)] }];
    let e = ResultShape::DailyItems(d).select("device", &text("ios"), ShapeTag::DailyScalar).unwrap_err();
    assert_eq!(e.error, TransformError::AmbiguousMatch);
}

#[test]
fn select_unsupported_shapes() {
    let e = ResultShape::Scalar(1).select("device", &text("ios"), ShapeTag::Scalar).unwrap_err();
    assert_eq!(e.error, TransformError::Unsupported(ShapeTag::Scalar, Operation::Select));
    let e = ResultShape::DailyScalar(vec![(1, 1)]).select("device", &text("ios"), ShapeTag::Scalar).unwrap_err();
    assert_eq!(e.error, TransformError::Unsupported(ShapeTag::DailyScalar, Operation::Select));
    let e = ResultShape::DailyItems(days()).select("device", &text("ios"), ShapeTag::ItemList).unwrap_err();
    assert_eq!(e.error, TransformError::Unsupported(ShapeTag::DailyItems, Operation::Select));
}

#[test]
fn select_on_item_list_ignores_target() {
    for t in [ShapeTag::Scalar, ShapeTag::ItemList, ShapeTag::DailyScalar, ShapeTag::DailyItems] {
        let r = ResultShape::ItemList(items()).select("device", &text("ios"), t).unwrap();
        assert_eq!(r, ResultShape::Scalar(3));
        let e = ResultShape::ItemList(items()).select("device", &text("tv"), t).unwrap_err();
        assert_eq!(e.error, TransformError::AmbiguousMatch);
    }
}

#[test]
fn range_single_day() {
    let series = ResultShape::DailyScalar(vec![(10, 1), (11, 2), (13, 3)]);
    assert_eq!(series.range(11, 11).unwrap(), ResultShape::DailyScalar(vec![(11, 2)]));
    let r = ResultShape::DailyItems(days()).range(11, 11).unwrap();
    assert_eq!(r, ResultShape::DailyItems(vec![DayItems { day: 11, items: vec![item("web", 7)] }]));
}

#[test]
fn range_after_last_and_reversed_are_empty() {
    let series = ResultShape::DailyScalar(vec![(10, 1), (11, 2), (13, 3)]);
    assert_eq!(series.clone().range(14, 14).unwrap(), ResultShape::DailyScalar(vec![]));
    assert_eq!(series.clone().range(13, 10).unwrap(), ResultShape::DailyScalar(vec![]));
    assert_eq!(series.range(10, 12).unwrap(), ResultShape::DailyScalar(vec![(10, 1), (11, 2)]));
    assert_eq!(ResultShape::DailyItems(days()).range(20, 30).unwrap(), ResultShape::DailyItems(vec![]));
}

#[test]
fn range_on_other_shapes_is_refused() {
    let e = ResultShape::ItemList(items()).range(0, 100).unwrap_err();
    assert_eq!(e.error, TransformError::Unsupported(ShapeTag::ItemList, Operation::Range));
    assert_eq!(e.value, ResultShape::ItemList(items()));
    let e = ResultShape::Scalar(3).range(0, 100).unwrap_err();
    assert_eq!(e.error, TransformError::Unsupported(ShapeTag::Scalar, Operation::Range));
}
