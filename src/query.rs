//! The parameters of a query to the analytics service, decided from the
//! plain codes and strings that callers pass. Building and sending the
//! request itself is the service client's work.
use vstd::prelude::*;
use crate::shape::{FieldValue, FieldValueV, ShapeTag};

verus! {

/// What the query measures.
#[derive(Clone, Debug, PartialEq, Eq)]
pub enum Metric {
    Count,
    /// The number of distinct values of a property.
    CountUnique(String),
}

/// How a filter compares a property with its operand.
#[derive(Clone, Copy, Debug, PartialEq, Eq, Structural)]
pub enum FilterOp {
    Eq,
    Lt,
    Gt,
    Lte,
    Gte,
    In,
}

/// A filter on one property.
#[derive(Clone, Debug, PartialEq, Eq)]
pub struct FilterSpec {
    pub op: FilterOp,
    pub property: String,
    pub operand: FieldValue,
}

/// The width of the time buckets of a series.
#[derive(Clone, Copy, Debug, PartialEq, Eq, Structural)]
pub enum Interval {
    Minutely,
    Hourly,
    Daily,
    Weekly,
    Monthly,
    Yearly,
}

pub open spec fn is_digit(c: char) -> bool {
    '0' <= c && c <= '9'
}

/// The value of a string of decimal digits.
pub open spec fn digits_value(d: Seq<char>) -> int
    decreases d.len(),
{
    if d.len() == 0 {
        0
    } else {
        digits_value(d.drop_last()) * 10 + (d.last() as int - '0' as int)
    }
}

pub open spec fn all_digits(d: Seq<char>) -> bool {
    d.len() > 0 && forall|i: int| 0 <= i < d.len() ==> is_digit(#[trigger] d[i])
}

/// The integer that a string writes in decimal, with an optional sign.
pub open spec fn decimal_value(s: Seq<char>) -> Option<int> {
    if s.len() > 0 && s[0] == '-' && all_digits(s.drop_first()) {
        Some(-digits_value(s.drop_first()))
    } else if s.len() > 0 && s[0] == '+' && all_digits(s.drop_first()) {
        Some(digits_value(s.drop_first()))
    } else if all_digits(s) {
        Some(digits_value(s))
    } else {
        None
    }
}

/// The `i64` that a string writes in decimal, when it fits.
pub open spec fn decimal_i64(s: Seq<char>) -> Option<i64> {
    match decimal_value(s) {
        Some(v) => if i64::MIN <= v <= i64::MAX {
            Some(v as i64)
        } else {
            None
        },
        None => None,
    }
}

/// Relies on std's `str::parse::<i64>`: an optional sign and at least one
/// decimal digit, whose value fits in an `i64`; anything else is an error.
#[verifier::external_body]
fn parse_i64(s: &str) -> (r: Option<i64>)
    ensures
        r == decimal_i64(s@),
{
    s.parse::<i64>().ok()
}

/// The metric that `code` names: `0` counts, `1` counts the distinct values
/// of `target`.
pub fn metric_from_code(code: i32, target: &str) -> (r: Option<Metric>)
    ensures
        code == 0 ==> r == Some(Metric::Count),
        code == 1 ==> (r matches Some(Metric::CountUnique(t)) && t@ == target@),
        code != 0 && code != 1 ==> r is None,
{
    if code == 0 {
        Some(Metric::Count)
    } else if code == 1 {
        Some(Metric::CountUnique(target.to_owned()))
    } else {
        None
    }
}

pub open spec fn filter_op_of(code: i32) -> Option<FilterOp> {
    if code == 0 {
        Some(FilterOp::Eq)
    } else if code == 1 {
        Some(FilterOp::Lt)
    } else if code == 2 {
        Some(FilterOp::Gt)
    } else if code == 3 {
        Some(FilterOp::Lte)
    } else if code == 4 {
        Some(FilterOp::Gte)
    } else if code == 5 {
        Some(FilterOp::In)
    } else {
        None
    }
}

/// The comparison that `code` names, from `0` to `5`: equal, less, greater,
/// at most, at least, one of.
pub fn filter_op_from_code(code: i32) -> (r: Option<FilterOp>)
    ensures
        r == filter_op_of(code),
{
    if code == 0 {
        Some(FilterOp::Eq)
    } else if code == 1 {
        Some(FilterOp::Lt)
    } else if code == 2 {
        Some(FilterOp::Gt)
    } else if code == 3 {
        Some(FilterOp::Lte)
    } else if code == 4 {
        Some(FilterOp::Gte)
    } else if code == 5 {
        Some(FilterOp::In)
    } else {
        None
    }
}

/// The operand a filter compares with: the integer that the text writes
/// in decimal, or else the text itself.
pub open spec fn operand_of(s: Seq<char>) -> FieldValueV {
    match decimal_i64(s) {
        Some(n) => FieldValueV::Number(n),
        None => FieldValueV::Text(s),
    }
}

/// The filter that `code` names on `property`, compared with `operand`
/// read as an integer when it writes one; `None` for an unknown code.
pub fn filter_from_codes(code: i32, property: &str, operand: &str) -> (r: Option<FilterSpec>)
    ensures
        filter_op_of(code) is None ==> r is None,
        filter_op_of(code) matches Some(op) ==> (r matches Some(f) && f.op == op && f.property@ == property@
            && f.operand@ == operand_of(operand@)),
{
    match filter_op_from_code(code) {
        None => None,
        Some(op) => {
            let value = match parse_i64(operand) {
                Some(n) => FieldValue::Number(n),
                None => FieldValue::Text(operand.to_owned()),
            };
            Some(FilterSpec { op, property: property.to_owned(), operand: value })
        },
    }
}

pub open spec fn interval_of(code: i32) -> Option<Interval> {
    if code == 0 {
        Some(Interval::Minutely)
    } else if code == 1 {
        Some(Interval::Hourly)
    } else if code == 2 {
        Some(Interval::Daily)
    } else if code == 3 {
        Some(Interval::Weekly)
    } else if code == 4 {
        Some(Interval::Monthly)
    } else if code == 5 {
        Some(Interval::Yearly)
    } else {
        None
    }
}

/// The interval that `code` names, from `0` (minutely) to `5` (yearly).
pub fn interval_from_code(code: i32) -> (r: Option<Interval>)
    ensures
        r == interval_of(code),
{
    if code == 0 {
        Some(Interval::Minutely)
    } else if code == 1 {
        Some(Interval::Hourly)
    } else if code == 2 {
        Some(Interval::Daily)
    } else if code == 3 {
        Some(Interval::Weekly)
    } else if code == 4 {
        Some(Interval::Monthly)
    } else if code == 5 {
        Some(Interval::Yearly)
    } else {
        None
    }
}

/// The shape that `code` names: `0` scalar, `1` item list, `2` daily
/// scalar series, `3` grouped daily series.
pub fn shape_from_code(code: i32) -> (r: Option<ShapeTag>)
    ensures
        code == 0 ==> r == Some(ShapeTag::Scalar),
        code == 1 ==> r == Some(ShapeTag::ItemList),
        code == 2 ==> r == Some(ShapeTag::DailyScalar),
        code == 3 ==> r == Some(ShapeTag::DailyItems),
        !(0 <= code <= 3) ==> r is None,
{
    if code == 0 {
        Some(ShapeTag::Scalar)
    } else if code == 1 {
        Some(ShapeTag::ItemList)
    } else if code == 2 {
        Some(ShapeTag::DailyScalar)
    } else if code == 3 {
        Some(ShapeTag::DailyItems)
    } else {
        None
    }
}

} // verus!
