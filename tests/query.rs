use keenio_batch::query::{
    filter_from_codes, filter_op_from_code, interval_from_code, metric_from_code, shape_from_code, FilterOp, Interval,
    Metric,
};
use keenio_batch::response::{check_status, daily_items_from_rows, daily_scalar_from_rows, item_from_row, items_from_rows, QueryError};
use keenio_batch::shape::{DayItems, Field, FieldValue, Item, ResultShape, ShapeTag};

#[test]
fn metric_codes() {
    assert_eq!(metric_from_code(0, "x"), Some(Metric::Count));
    assert_eq!(metric_from_code(1, "user.id"), Some(Metric::CountUnique("user.id".to_string())));
    assert_eq!(metric_from_code(2, "x"), None);
    assert_eq!(metric_from_code(-1, "x"), None);
}

#[test]
fn filter_codes() {
    assert_eq!(filter_op_from_code(0), Some(FilterOp::Eq));
    assert_eq!(filter_op_from_code(3), Some(FilterOp::Lte));
    assert_eq!(filter_op_from_code(5), Some(FilterOp::In));
    assert_eq!(filter_op_from_code(6), None);
}

#[test]
fn filter_operand_is_integer_when_it_writes_one() {
    let f = filter_from_codes(1, "age", "42").unwrap();
    assert_eq!(f.op, FilterOp::Lt);
    assert_eq!(f.property, "age");
    assert_eq!(f.operand, FieldValue::Number(42));
    assert_eq!(filter_from_codes(0, "n", "-7").unwrap().operand, FieldValue::Number(-7));
    assert_eq!(filter_from_codes(0, "n", "+8").unwrap().operand, FieldValue::Number(8));
    assert_eq!(filter_from_codes(0, "name", "Spider").unwrap().operand, FieldValue::Text("Spider".to_string()));
    assert_eq!(filter_from_codes(0, "n", "4.5").unwrap().operand, FieldValue::Text("4.5".to_string()));
    assert_eq!(filter_from_codes(0, "n", "").unwrap().operand, FieldValue::Text("".to_string()));
    assert_eq!(filter_from_codes(0, "n", "-").unwrap().operand, FieldValue::Text("-".to_string()));
    let too_big = "9223372036854775808";
    assert_eq!(filter_from_codes(0, "n", too_big).unwrap().operand, FieldValue::Text(too_big.to_string()));
    assert_eq!(filter_from_codes(0, "n", "9223372036854775807").unwrap().operand, FieldValue::Number(i64::MAX));
    assert_eq!(filter_from_codes(9, "n", "1"), None);
}

#[test]
fn interval_and_shape_codes() {
    assert_eq!(interval_from_code(0), Some(Interval::Minutely));
    assert_eq!(interval_from_code(2), Some(Interval::Daily));
    assert_eq!(interval_from_code(5), Some(Interval::Yearly));
    assert_eq!(interval_from_code(6), None);
    assert_eq!(shape_from_code(0), Some(ShapeTag::Scalar));
    assert_eq!(shape_from_code(1), Some(ShapeTag::ItemList));
    assert_eq!(shape_from_code(2), Some(ShapeTag::DailyScalar));
    assert_eq!(shape_from_code(3), Some(ShapeTag::DailyItems));
    assert_eq!(shape_from_code(4), None);
}

fn row(device: &str, count: i64) -> Vec<(String, FieldValue)> {
    vec![
        ("device".to_string(), FieldValue::Text(device.to_string())),
        ("result".to_string(), FieldValue::Number(count)),
    ]
}

fn item(device: &str, count: i64) -> Item {
    Item { fields: vec![Field { name: "device".to_string(), value: FieldValue::Text(device.to_string()) }], result: count }
}

#[test]
fn rows_become_items() {
    assert_eq!(item_from_row(row("ios", 3)).unwrap(), item("ios", 3));
    let flipped = vec![
        ("result".to_string(), FieldValue::Number(5)),
        ("os".to_string(), FieldValue::Number(11)),
    ];
    let it = item_from_row(flipped).unwrap();
    assert_eq!(it.result, 5);
    assert_eq!(it.fields, vec![Field { name: "os".to_string(), value: FieldValue::Number(11) }]);
    assert_eq!(items_from_rows(vec![row("a", 1), row("b", 2)]).unwrap(), vec![item("a", 1), item("b", 2)]);
}

#[test]
fn bad_rows_are_malformed() {
    assert_eq!(item_from_row(vec![("device".to_string(), FieldValue::Number(1))]), Err(QueryError::Malformed));
    assert_eq!(item_from_row(vec![("result".to_string(), FieldValue::Text("3".to_string()))]), Err(QueryError::Malformed));
    let mut two = row("a", 1);
    two.push(("result".to_string(), FieldValue::Number(2)));
    assert_eq!(item_from_row(two), Err(QueryError::Malformed));
    let mut dup = row("a", 1);
    dup.push(("device".to_string(), FieldValue::Text("b".to_string())));
    assert_eq!(item_from_row(dup), Err(QueryError::Malformed));
    assert_eq!(items_from_rows(vec![row("a", 1), vec![]]), Err(QueryError::Malformed));
}

#[test]
fn daily_rows_must_increase() {
    assert_eq!(
        daily_scalar_from_rows(vec![(1, 5), (3, 6)]).unwrap(),
        ResultShape::DailyScalar(vec![(1, 5), (3, 6)])
    );
    assert_eq!(daily_scalar_from_rows(vec![(3, 5), (3, 6)]), Err(QueryError::Malformed));
    let ok = daily_items_from_rows(vec![(1, vec![row("a", 1)]), (2, vec![])]).unwrap();
    assert_eq!(
        ok,
        ResultShape::DailyItems(vec![
            DayItems { day: 1, items: vec![item("a", 1)] },
            DayItems { day: 2, items: vec![] },
        ])
    );
    assert_eq!(daily_items_from_rows(vec![(2, vec![]), (1, vec![])]), Err(QueryError::Malformed));
    assert_eq!(daily_items_from_rows(vec![(1, vec![vec![]])]), Err(QueryError::Malformed));
    assert_eq!(daily_items_from_rows(vec![(1, vec![row("a", 1)]), (2, vec![vec![]])]), Err(QueryError::Malformed));
}

#[test]
fn status_check() {
    assert_eq!(check_status(200, "ok".to_string()), Ok(()));
    assert_eq!(
        check_status(404, "not found".to_string()),
        Err(QueryError::Status { status: 404, message: "not found".to_string() })
    );
}
