//! The transformations between shapes: accumulate, select and range.
use vstd::prelude::*;
use crate::shape::{DayItems, DayItemsV, FieldValue, FieldValueV, Item, ItemV, ResultShape, ShapeTag, ShapeV, days_view, item_days_increasing, items_view, scalar_days_increasing};

verus! {

/// The transformations that a result may undergo.
#[derive(Clone, Copy, Debug, PartialEq, Eq, Structural)]
pub enum Operation {
    Accumulate,
    Select,
    Range,
}

/// Why a transformation was refused.
#[derive(Clone, Copy, Debug, PartialEq, Eq, Structural)]
pub enum TransformError {
    /// The operation has no meaning on this shape, or towards the target shape.
    Unsupported(ShapeTag, Operation),
    /// A selection that needs exactly one matching item found none or several.
    AmbiguousMatch,
    /// A sum does not fit in an `i64`.
    Overflow,
}

/// A refused transformation: the input value, unchanged, and the reason.
#[derive(Debug)]
pub struct Rejected {
    pub value: ResultShape,
    pub error: TransformError,
}

pub open spec fn seq_sum(s: Seq<i64>) -> int
    decreases s.len(),
{
    if s.len() == 0 {
        0
    } else {
        seq_sum(s.drop_last()) + s.last()
    }
}

pub open spec fn fits_i64(x: int) -> bool {
    i64::MIN <= x <= i64::MAX
}

/// The sum of the values, or `Overflow` where it does not fit in an `i64`.
pub open spec fn total(s: Seq<i64>) -> Result<i64, TransformError> {
    if fits_i64(seq_sum(s)) {
        Ok(seq_sum(s) as i64)
    } else {
        Err(TransformError::Overflow)
    }
}

pub open spec fn results_of(items: Seq<ItemV>) -> Seq<i64> {
    items.map_values(|it: ItemV| it.result)
}

pub open spec fn counts_of(days: Seq<(i64, i64)>) -> Seq<i64> {
    days.map_values(|p: (i64, i64)| p.1)
}

/// Each day's items summed into one count per day.
pub open spec fn daily_totals(days: Seq<DayItemsV>) -> Result<Seq<(i64, i64)>, TransformError>
    decreases days.len(),
{
    if days.len() == 0 {
        Ok(Seq::empty())
    } else {
        match daily_totals(days.drop_last()) {
            Err(e) => Err(e),
            Ok(prev) => match total(results_of(days.last().items)) {
                Err(e) => Err(e),
                Ok(t) => Ok(prev.push((days.last().day, t))),
            },
        }
    }
}

pub open spec fn scalar_of(r: Result<i64, TransformError>) -> Result<ShapeV, TransformError> {
    match r {
        Ok(t) => Ok(ShapeV::Scalar(t)),
        Err(e) => Err(e),
    }
}

/// The sum of the counts of every item of every day.
pub open spec fn grand_sum(days: Seq<DayItemsV>) -> int
    decreases days.len(),
{
    if days.len() == 0 {
        0
    } else {
        grand_sum(days.drop_last()) + seq_sum(results_of(days.last().items))
    }
}

/// What `accumulate` makes of `v` towards the shape `target`. An item list
/// and a daily scalar series have one target, a scalar, whatever is asked.
pub open spec fn accumulate_spec(v: ShapeV, target: ShapeTag) -> Result<ShapeV, TransformError> {
    match (v, target) {
        (ShapeV::ItemList(items), _) => scalar_of(total(results_of(items))),
        (ShapeV::DailyScalar(days), _) => scalar_of(total(counts_of(days))),
        (ShapeV::DailyItems(days), ShapeTag::DailyScalar) => match daily_totals(days) {
            Ok(d) => Ok(ShapeV::DailyScalar(d)),
            Err(e) => Err(e),
        },
        (ShapeV::DailyItems(days), ShapeTag::Scalar) => if fits_i64(grand_sum(days)) {
            Ok(ShapeV::Scalar(grand_sum(days) as i64))
        } else {
            Err(TransformError::Overflow)
        },
        _ => Err(TransformError::Unsupported(v.tag(), Operation::Accumulate)),
    }
}

/// An item matches `key = val` when one of its fields has that name and value.
pub open spec fn item_matches(it: ItemV, key: Seq<char>, val: FieldValueV) -> bool {
    exists|j: int| 0 <= j < it.fields.len() && #[trigger] it.fields[j].name == key && it.fields[j].value == val
}

/// The items that match `key = val`, in their order.
pub open spec fn matching(items: Seq<ItemV>, key: Seq<char>, val: FieldValueV) -> Seq<ItemV>
    decreases items.len(),
{
    if items.len() == 0 {
        Seq::empty()
    } else {
        let rest = matching(items.drop_last(), key, val);
        if item_matches(items.last(), key, val) {
            rest.push(items.last())
        } else {
            rest
        }
    }
}

/// The count of the one matching item; none or several is `AmbiguousMatch`.
pub open spec fn select_one(items: Seq<ItemV>, key: Seq<char>, val: FieldValueV) -> Result<i64, TransformError> {
    let m = matching(items, key, val);
    if m.len() == 1 {
        Ok(m[0].result)
    } else {
        Err(TransformError::AmbiguousMatch)
    }
}

/// Per day, the count of the one matching item. A day without a match is
/// left out; a day with several matches is `AmbiguousMatch`.
pub open spec fn select_days(days: Seq<DayItemsV>, key: Seq<char>, val: FieldValueV) -> Result<Seq<(i64, i64)>, TransformError>
    decreases days.len(),
{
    if days.len() == 0 {
        Ok(Seq::empty())
    } else {
        match select_days(days.drop_last(), key, val) {
            Err(e) => Err(e),
            Ok(prev) => {
                let m = matching(days.last().items, key, val);
                if m.len() == 0 {
                    Ok(prev)
                } else if m.len() == 1 {
                    Ok(prev.push((days.last().day, m[0].result)))
                } else {
                    Err(TransformError::AmbiguousMatch)
                }
            },
        }
    }
}

/// Every day kept, with only its matching items.
pub open spec fn filter_days(days: Seq<DayItemsV>, key: Seq<char>, val: FieldValueV) -> Seq<DayItemsV> {
    days.map_values(|d: DayItemsV| DayItemsV { day: d.day, items: matching(d.items, key, val) })
}

/// What `select` makes of `v` towards the shape `target`. An item list has
/// one target, a scalar, whatever is asked.
pub open spec fn select_spec(v: ShapeV, key: Seq<char>, val: FieldValueV, target: ShapeTag) -> Result<ShapeV, TransformError> {
    match (v, target) {
        (ShapeV::ItemList(items), _) => scalar_of(select_one(items, key, val)),
        (ShapeV::DailyItems(days), ShapeTag::DailyScalar) => match select_days(days, key, val) {
            Ok(d) => Ok(ShapeV::DailyScalar(d)),
            Err(e) => Err(e),
        },
        (ShapeV::DailyItems(days), ShapeTag::Scalar) => match select_days(days, key, val) {
            Ok(d) => scalar_of(total(counts_of(d))),
            Err(e) => Err(e),
        },
        (ShapeV::DailyItems(days), ShapeTag::DailyItems) => Ok(ShapeV::DailyItems(filter_days(days, key, val))),
        _ => Err(TransformError::Unsupported(v.tag(), Operation::Select)),
    }
}

pub open spec fn in_range(day: i64, from: i64, to: i64) -> bool {
    from <= day && day <= to
}

/// The entries of a daily scalar series whose day lies in `[from, to]`.
pub open spec fn range_counts(days: Seq<(i64, i64)>, from: i64, to: i64) -> Seq<(i64, i64)>
    decreases days.len(),
{
    if days.len() == 0 {
        Seq::empty()
    } else {
        let rest = range_counts(days.drop_last(), from, to);
        if in_range(days.last().0, from, to) {
            rest.push(days.last())
        } else {
            rest
        }
    }
}

/// The entries of a grouped daily series whose day lies in `[from, to]`.
pub open spec fn range_days(days: Seq<DayItemsV>, from: i64, to: i64) -> Seq<DayItemsV>
    decreases days.len(),
{
    if days.len() == 0 {
        Seq::empty()
    } else {
        let rest = range_days(days.drop_last(), from, to);
        if in_range(days.last().day, from, to) {
            rest.push(days.last())
        } else {
            rest
        }
    }
}

/// What `range` makes of `v`.
pub open spec fn range_spec(v: ShapeV, from: i64, to: i64) -> Result<ShapeV, TransformError> {
    match v {
        ShapeV::DailyScalar(days) => Ok(ShapeV::DailyScalar(range_counts(days, from, to))),
        ShapeV::DailyItems(days) => Ok(ShapeV::DailyItems(range_days(days, from, to))),
        _ => Err(TransformError::Unsupported(v.tag(), Operation::Range)),
    }
}

pub open spec fn outcome_view(r: Result<ResultShape, Rejected>) -> Result<ShapeV, TransformError> {
    match r {
        Ok(v) => Ok(v@),
        Err(rej) => Err(rej.error),
    }
}

/// On success, the output's view; on failure the input comes back unchanged.
pub open spec fn outcome_is(
    r: Result<ResultShape, Rejected>,
    input: ShapeV,
    expected: Result<ShapeV, TransformError>,
) -> bool {
    &&& outcome_view(r) == expected
    &&& r matches Err(rej) ==> rej.value@ == input
}

const I64_SPAN: i128 = 0x8000_0000_0000_0000;

fn narrow(acc: i128) -> (r: Result<i64, TransformError>)
    ensures
        r == (if fits_i64(acc as int) { Ok(acc as i64) } else { Err::<i64, TransformError>(TransformError::Overflow) }),
{
    if acc < i64::MIN as i128 || acc > i64::MAX as i128 {
        Err(TransformError::Overflow)
    } else {
        Ok(acc as i64)
    }
}

fn total_results(items: &Vec<Item>) -> (r: Result<i64, TransformError>)
    ensures
        r == total(results_of(items_view(items@))),
{
    let ghost s = results_of(items_view(items@));
    let mut acc: i128 = 0;
    let mut i: usize = 0;
    while i < items.len()
        invariant
            0 <= i <= items.len(),
            s == results_of(items_view(items@)),
            acc as int == seq_sum(s.take(i as int)),
            -(i as int) * (I64_SPAN as int) <= acc as int <= (i as int) * (I64_SPAN as int),
        decreases items.len() - i,
    {
        assert(s.take(i as int + 1).drop_last() =~= s.take(i as int));
        assert(s[i as int] == items@[i as int].result);
        acc = acc + items[i].result as i128;
        i = i + 1;
    }
    assert(s.take(i as int) =~= s);
    narrow(acc)
}

fn total_counts(days: &Vec<(i64, i64)>) -> (r: Result<i64, TransformError>)
    ensures
        r == total(counts_of(days@)),
{
    let ghost s = counts_of(days@);
    let mut acc: i128 = 0;
    let mut i: usize = 0;
    while i < days.len()
        invariant
            0 <= i <= days.len(),
            s == counts_of(days@),
            acc as int == seq_sum(s.take(i as int)),
            -(i as int) * (I64_SPAN as int) <= acc as int <= (i as int) * (I64_SPAN as int),
        decreases days.len() - i,
    {
        assert(s.take(i as int + 1).drop_last() =~= s.take(i as int));
        acc = acc + days[i].1 as i128;
        i = i + 1;
    }
    assert(s.take(i as int) =~= s);
    narrow(acc)
}

fn totals_per_day(days: &Vec<DayItems>) -> (r: Result<Vec<(i64, i64)>, TransformError>)
    ensures
        match r {
            Ok(out) => daily_totals(days_view(days@)) == Ok::<Seq<(i64, i64)>, TransformError>(out@),
            Err(e) => daily_totals(days_view(days@)) == Err::<Seq<(i64, i64)>, TransformError>(e),
        },
{
    let ghost dv = days_view(days@);
    let mut out: Vec<(i64, i64)> = Vec::new();
    let mut i: usize = 0;
    while i < days.len()
        invariant
            0 <= i <= days.len(),
            dv == days_view(days@),
            daily_totals(dv.take(i as int)) == Ok::<Seq<(i64, i64)>, TransformError>(out@),
        decreases days.len() - i,
    {
        assert(dv.take(i as int + 1).drop_last() =~= dv.take(i as int));
        let t = total_results(&days[i].items);
        match t {
            Err(e) => {
                assert(daily_totals(dv.take(i as int + 1)) == Err::<Seq<(i64, i64)>, TransformError>(e));
                proof { lemma_totals_err_extends(dv, i as int + 1); }
                return Err(e);
            },
            Ok(v) => {
                out.push((days[i].day, v));
            },
        }
        i = i + 1;
    }
    assert(dv.take(i as int) =~= dv);
    Ok(out)
}

const LIMB: i128 = 0x4000_0000_0000_0000_0000_0000_0000_0000;

const USIZE_SPAN: u128 = 0x1_0000_0000_0000_0000;

/// The sum of every count of every day, exact: the running sum is held as
/// `hi * LIMB + lo`, so no intermediate sum can overflow.
fn grand_total(days: &Vec<DayItems>) -> (r: Result<i64, TransformError>)
    ensures
        r == (if fits_i64(grand_sum(days_view(days@))) {
            Ok(grand_sum(days_view(days@)) as i64)
        } else {
            Err::<i64, TransformError>(TransformError::Overflow)
        }),
{
    let ghost dv = days_view(days@);
    let mut hi: i128 = 0;
    let mut lo: i128 = 0;
    let ghost mut seen: int = 0;
    let mut d: usize = 0;
    while d < days.len()
        invariant
            d <= days.len(),
            dv == days_view(days@),
            0 <= lo < LIMB,
            hi * (LIMB as int) + lo == grand_sum(dv.take(d as int)),
            0 <= seen <= (d as int) * (USIZE_SPAN as int),
            -seen * (I64_SPAN as int) <= hi * (LIMB as int) + lo <= seen * (I64_SPAN as int),
        decreases days.len() - d,
    {
        let items = &days[d].items;
        let ghost s = results_of(items_view(items@));
        let mut i: usize = 0;
        while i < items.len()
            invariant
                d < days.len(),
                i <= items.len(),
                items == &days@[d as int].items,
                s == results_of(items_view(items@)),
                0 <= lo < LIMB,
                hi * (LIMB as int) + lo == grand_sum(dv.take(d as int)) + seq_sum(s.take(i as int)),
                0 <= seen <= (d as int) * (USIZE_SPAN as int) + i,
                -seen * (I64_SPAN as int) <= hi * (LIMB as int) + lo <= seen * (I64_SPAN as int),
            decreases items.len() - i,
        {
            assert(s.take(i as int + 1).drop_last() =~= s.take(i as int));
            assert(s[i as int] == items@[i as int].result);
            let v: i128 = lo + items[i].result as i128;
            if v < 0 {
                lo = v + LIMB;
                hi = hi - 1;
            } else if v >= LIMB {
                lo = v - LIMB;
                hi = hi + 1;
            } else {
                lo = v;
            }
            proof {
                seen = seen + 1;
            }
            i = i + 1;
        }
        assert(s.take(i as int) =~= s);
        assert(dv.take(d as int + 1).drop_last() =~= dv.take(d as int));
        assert(dv[d as int].items == items_view(items@));
        d = d + 1;
    }
    assert(dv.take(d as int) =~= dv);
    if hi == 0 && lo <= i64::MAX as i128 {
        Ok(lo as i64)
    } else if hi == -1 && lo >= LIMB + i64::MIN as i128 {
        Ok((lo - LIMB) as i64)
    } else {
        Err(TransformError::Overflow)
    }
}

/// Once a prefix fails to total, so does every longer prefix.
proof fn lemma_totals_err_extends(days: Seq<DayItemsV>, k: int)
    requires
        0 <= k <= days.len(),
        daily_totals(days.take(k)) is Err,
    ensures
        daily_totals(days) == daily_totals(days.take(k)),
    decreases days.len() - k,
{
    if k < days.len() {
        assert(days.take(k + 1).drop_last() =~= days.take(k));
        lemma_totals_err_extends(days, k + 1);
    } else {
        assert(days.take(k) =~= days);
    }
}

fn value_eq(a: &FieldValue, b: &FieldValue) -> (r: bool)
    ensures
        r == (a@ == b@),
{
    match (a, b) {
        (FieldValue::Text(x), FieldValue::Text(y)) => x.eq(y),
        (FieldValue::Number(x), FieldValue::Number(y)) => *x == *y,
        _ => false,
    }
}

fn matches_item(it: &Item, key: &String, val: &FieldValue) -> (r: bool)
    ensures
        r == item_matches(it@, key@, val@),
{
    let mut j: usize = 0;
    while j < it.fields.len()
        invariant
            0 <= j <= it.fields.len(),
            forall|k: int| 0 <= k < j ==> !(#[trigger] it@.fields[k].name == key@ && it@.fields[k].value == val@),
        decreases it.fields.len() - j,
    {
        assert(it@.fields[j as int] == it.fields@[j as int]@);
        if it.fields[j].name.eq(key) && value_eq(&it.fields[j].value, val) {
            assert(it@.fields[j as int].name == key@ && it@.fields[j as int].value == val@);
            return true;
        }
        j = j + 1;
    }
    false
}

/// How many items match, and the count of the first one that does.
fn count_matches(items: &Vec<Item>, key: &String, val: &FieldValue) -> (r: (usize, i64))
    ensures
        r.0 as int == matching(items_view(items@), key@, val@).len(),
        r.0 >= 1 ==> r.1 == matching(items_view(items@), key@, val@)[0].result,
{
    let ghost iv = items_view(items@);
    let mut n: usize = 0;
    let mut first: i64 = 0;
    let mut i: usize = 0;
    while i < items.len()
        invariant
            0 <= i <= items.len(),
            iv == items_view(items@),
            n as int == matching(iv.take(i as int), key@, val@).len(),
            n <= i,
            n >= 1 ==> first == matching(iv.take(i as int), key@, val@)[0].result,
        decreases items.len() - i,
    {
        assert(iv.take(i as int + 1).drop_last() =~= iv.take(i as int));
        if matches_item(&items[i], key, val) {
            if n == 0 {
                first = items[i].result;
            }
            n = n + 1;
        }
        i = i + 1;
    }
    assert(iv.take(i as int) =~= iv);
    (n, first)
}

/// Keeps the items that match, in their order.
fn keep_matching(items: Vec<Item>, key: &String, val: &FieldValue) -> (r: Vec<Item>)
    ensures
        items_view(r@) == matching(items_view(items@), key@, val@),
{
    let ghost orig = items_view(items@);
    let mut rest = items;
    let mut out: Vec<Item> = Vec::new();
    while rest.len() > 0
        invariant
            rest@.len() <= orig.len(),
            items_view(rest@) == orig.subrange(orig.len() - rest@.len(), orig.len() as int),
            items_view(out@) == matching(orig.take(orig.len() - rest@.len()), key@, val@),
        decreases rest.len(),
    {
        let ghost k = orig.len() - rest@.len();
        let ghost before = rest@;
        let it = rest.remove(0);
        assert(items_view(before)[0] == it@);
        assert(orig.take(k + 1).drop_last() =~= orig.take(k));
        assert(rest@ =~= before.subrange(1, before.len() as int));
        assert(items_view(rest@) =~= items_view(before).subrange(1, before.len() as int));
        assert(items_view(rest@) =~= orig.subrange(k + 1, orig.len() as int));
        if matches_item(&it, key, val) {
            let ghost prev = out@;
            out.push(it);
            assert(items_view(out@) =~= items_view(prev).push(orig[k]));
        }
    }
    assert(orig.take(orig.len() as int) =~= orig);
    out
}

fn keep_matching_days(days: Vec<DayItems>, key: &String, val: &FieldValue) -> (r: Vec<DayItems>)
    ensures
        days_view(r@) == filter_days(days_view(days@), key@, val@),
{
    let ghost orig = days_view(days@);
    let mut rest = days;
    let mut out: Vec<DayItems> = Vec::new();
    while rest.len() > 0
        invariant
            rest@.len() <= orig.len(),
            days_view(rest@) == orig.subrange(orig.len() - rest@.len(), orig.len() as int),
            days_view(out@) == filter_days(orig.take(orig.len() - rest@.len()), key@, val@),
        decreases rest.len(),
    {
        let ghost k = orig.len() - rest@.len();
        let ghost before = rest@;
        let d = rest.remove(0);
        assert(days_view(before)[0] == d@);
        assert(rest@ =~= before.subrange(1, before.len() as int));
        assert(days_view(rest@) =~= days_view(before).subrange(1, before.len() as int));
        assert(days_view(rest@) =~= orig.subrange(k + 1, orig.len() as int));
        let kept = keep_matching(d.items, key, val);
        let ghost prev = out@;
        out.push(DayItems { day: d.day, items: kept });
        let ghost nd = DayItemsV { day: orig[k].day, items: matching(orig[k].items, key@, val@) };
        assert(days_view(out@) =~= days_view(prev).push(nd));
        assert(filter_days(orig.take(k + 1), key@, val@) =~= filter_days(orig.take(k), key@, val@).push(nd));
    }
    assert(orig.take(orig.len() as int) =~= orig);
    out
}

fn select_per_day(days: &Vec<DayItems>, key: &String, val: &FieldValue) -> (r: Result<Vec<(i64, i64)>, TransformError>)
    ensures
        match r {
            Ok(out) => select_days(days_view(days@), key@, val@) == Ok::<Seq<(i64, i64)>, TransformError>(out@),
            Err(e) => select_days(days_view(days@), key@, val@) == Err::<Seq<(i64, i64)>, TransformError>(e),
        },
{
    let ghost dv = days_view(days@);
    let mut out: Vec<(i64, i64)> = Vec::new();
    let mut i: usize = 0;
    while i < days.len()
        invariant
            0 <= i <= days.len(),
            dv == days_view(days@),
            select_days(dv.take(i as int), key@, val@) == Ok::<Seq<(i64, i64)>, TransformError>(out@),
        decreases days.len() - i,
    {
        assert(dv.take(i as int + 1).drop_last() =~= dv.take(i as int));
        let (n, first) = count_matches(&days[i].items, key, val);
        if n == 1 {
            out.push((days[i].day, first));
        } else if n > 1 {
            proof { lemma_select_err_extends(dv, i as int + 1, key@, val@); }
            return Err(TransformError::AmbiguousMatch);
        }
        i = i + 1;
    }
    assert(dv.take(i as int) =~= dv);
    Ok(out)
}

/// Once a prefix fails to select, so does every longer prefix.
proof fn lemma_select_err_extends(days: Seq<DayItemsV>, k: int, key: Seq<char>, val: FieldValueV)
    requires
        0 <= k <= days.len(),
        select_days(days.take(k), key, val) is Err,
    ensures
        select_days(days, key, val) == select_days(days.take(k), key, val),
    decreases days.len() - k,
{
    if k < days.len() {
        assert(days.take(k + 1).drop_last() =~= days.take(k));
        lemma_select_err_extends(days, k + 1, key, val);
    } else {
        assert(days.take(k) =~= days);
    }
}

fn counts_in_range(days: &Vec<(i64, i64)>, from: i64, to: i64) -> (r: Vec<(i64, i64)>)
    ensures
        r@ == range_counts(days@, from, to),
{
    let mut out: Vec<(i64, i64)> = Vec::new();
    let mut i: usize = 0;
    while i < days.len()
        invariant
            0 <= i <= days.len(),
            out@ == range_counts(days@.take(i as int), from, to),
        decreases days.len() - i,
    {
        assert(days@.take(i as int + 1).drop_last() =~= days@.take(i as int));
        if from <= days[i].0 && days[i].0 <= to {
            out.push(days[i]);
        }
        i = i + 1;
    }
    assert(days@.take(i as int) =~= days@);
    out
}

fn days_in_range(days: Vec<DayItems>, from: i64, to: i64) -> (r: Vec<DayItems>)
    ensures
        days_view(r@) == range_days(days_view(days@), from, to),
{
    let ghost orig = days_view(days@);
    let mut rest = days;
    let mut out: Vec<DayItems> = Vec::new();
    while rest.len() > 0
        invariant
            rest@.len() <= orig.len(),
            days_view(rest@) == orig.subrange(orig.len() - rest@.len(), orig.len() as int),
            days_view(out@) == range_days(orig.take(orig.len() - rest@.len()), from, to),
        decreases rest.len(),
    {
        let ghost k = orig.len() - rest@.len();
        let ghost before = rest@;
        let d = rest.remove(0);
        assert(days_view(before)[0] == d@);
        assert(orig.take(k + 1).drop_last() =~= orig.take(k));
        assert(rest@ =~= before.subrange(1, before.len() as int));
        assert(days_view(rest@) =~= days_view(before).subrange(1, before.len() as int));
        assert(days_view(rest@) =~= orig.subrange(k + 1, orig.len() as int));
        if from <= d.day && d.day <= to {
            let ghost prev = out@;
            out.push(d);
            assert(days_view(out@) =~= days_view(prev).push(orig[k]));
        }
    }
    assert(orig.take(orig.len() as int) =~= orig);
    out
}

impl ResultShape {
    /// Sums along the dimension that separates many rows or days from one
    /// value: an item list or a daily scalar series becomes a scalar, whatever
    /// the target; a grouped daily series becomes a daily scalar series or a
    /// scalar, as the target asks, and is refused towards any other shape. A
    /// scalar is always refused.
    pub fn accumulate(self, target: ShapeTag) -> (r: Result<ResultShape, Rejected>)
        ensures
            outcome_is(r, self@, accumulate_spec(self@, target)),
    {
        let tag = self.tag();
        let res: Result<ResultShape, TransformError> = match (&self, target) {
            (ResultShape::ItemList(items), _) => match total_results(items) {
                Ok(t) => Ok(ResultShape::Scalar(t)),
                Err(e) => Err(e),
            },
            (ResultShape::DailyScalar(days), _) => match total_counts(days) {
                Ok(t) => Ok(ResultShape::Scalar(t)),
                Err(e) => Err(e),
            },
            (ResultShape::DailyItems(days), ShapeTag::DailyScalar) => match totals_per_day(days) {
                Ok(d) => Ok(ResultShape::DailyScalar(d)),
                Err(e) => Err(e),
            },
            (ResultShape::DailyItems(days), ShapeTag::Scalar) => match grand_total(days) {
                Ok(t) => Ok(ResultShape::Scalar(t)),
                Err(e) => Err(e),
            },
            _ => Err(TransformError::Unsupported(tag, Operation::Accumulate)),
        };
        match res {
            Ok(v) => Ok(v),
            Err(error) => Err(Rejected { value: self, error }),
        }
    }
    /// Projects the count of the items whose field `key` holds `value`: an
    /// item list gives the one match as a scalar, whatever the target; a
    /// grouped daily series
    /// gives one count per day with a match, their sum, or itself with only
    /// the matching items kept, as `target` asks.
    pub fn select(self, key: &str, value: &FieldValue, target: ShapeTag) -> (r: Result<ResultShape, Rejected>)
        ensures
            outcome_is(r, self@, select_spec(self@, key@, value@, target)),
    {
        let key = key.to_owned();
        match self {
            ResultShape::ItemList(items) => {
                let (n, first) = count_matches(&items, &key, value);
                if n == 1 {
                    Ok(ResultShape::Scalar(first))
                } else {
                    Err(Rejected { value: ResultShape::ItemList(items), error: TransformError::AmbiguousMatch })
                }
            },
            ResultShape::DailyItems(days) => match target {
                ShapeTag::DailyItems => Ok(ResultShape::DailyItems(keep_matching_days(days, &key, value))),
                ShapeTag::DailyScalar => match select_per_day(&days, &key, value) {
                    Ok(d) => Ok(ResultShape::DailyScalar(d)),
                    Err(error) => Err(Rejected { value: ResultShape::DailyItems(days), error }),
                },
                ShapeTag::Scalar => match select_per_day(&days, &key, value) {
                    Ok(d) => match total_counts(&d) {
                        Ok(t) => Ok(ResultShape::Scalar(t)),
                        Err(error) => Err(Rejected { value: ResultShape::DailyItems(days), error }),
                    },
                    Err(error) => Err(Rejected { value: ResultShape::DailyItems(days), error }),
                },
                ShapeTag::ItemList => Err(Rejected {
                    value: ResultShape::DailyItems(days),
                    error: TransformError::Unsupported(ShapeTag::DailyItems, Operation::Select),
                }),
            },
            other => {
                let t = other.tag();
                Err(Rejected { value: other, error: TransformError::Unsupported(t, Operation::Select) })
            },
        }
    }

    /// Keeps the entries of a daily series whose day lies in `[from, to]`;
    /// `from > to` gives an empty series. Other shapes are refused.
    pub fn range(self, from: i64, to: i64) -> (r: Result<ResultShape, Rejected>)
        ensures
            outcome_is(r, self@, range_spec(self@, from, to)),
    {
        match self {
            ResultShape::DailyScalar(days) => Ok(ResultShape::DailyScalar(counts_in_range(&days, from, to))),
            ResultShape::DailyItems(days) => Ok(ResultShape::DailyItems(days_in_range(days, from, to))),
            other => {
                let t = other.tag();
                Err(Rejected { value: other, error: TransformError::Unsupported(t, Operation::Range) })
            },
        }
    }
}

} // verus!

verus! {

/// Accumulating a scalar is refused towards every target; accumulating an
/// item list, towards any target, gives the sum of its counts as a scalar,
/// when that sum fits in an `i64`.
pub proof fn lemma_accumulate_to_scalar(n: i64, items: Seq<ItemV>, target: ShapeTag)
    ensures
        accumulate_spec(ShapeV::Scalar(n), target) == Err::<ShapeV, TransformError>(
            TransformError::Unsupported(ShapeTag::Scalar, Operation::Accumulate),
        ),
        fits_i64(seq_sum(results_of(items))) ==> accumulate_spec(ShapeV::ItemList(items), target)
            == Ok::<ShapeV, TransformError>(ShapeV::Scalar(seq_sum(results_of(items)) as i64)),
{
}

/// Selecting from an item list, towards any target, succeeds with the count
/// of the matching item when exactly one item matches, and is
/// `AmbiguousMatch` when none or several do.
pub proof fn lemma_select_exact_match(items: Seq<ItemV>, key: Seq<char>, val: FieldValueV, target: ShapeTag)
    ensures
        matching(items, key, val).len() == 1 ==> select_spec(ShapeV::ItemList(items), key, val, target)
            == Ok::<ShapeV, TransformError>(ShapeV::Scalar(matching(items, key, val)[0].result)),
        matching(items, key, val).len() != 1 ==> select_spec(ShapeV::ItemList(items), key, val, target)
            == Err::<ShapeV, TransformError>(TransformError::AmbiguousMatch),
{
}

proof fn lemma_scalar_days_sorted(days: Seq<(i64, i64)>, i: int, j: int)
    requires
        scalar_days_increasing(days),
        0 <= i < j < days.len(),
    ensures
        days[i].0 < days[j].0,
    decreases j - i,
{
    if i + 1 < j {
        lemma_scalar_days_sorted(days, i, j - 1);
    }
}

proof fn lemma_item_days_sorted(days: Seq<DayItemsV>, i: int, j: int)
    requires
        item_days_increasing(days),
        0 <= i < j < days.len(),
    ensures
        days[i].day < days[j].day,
    decreases j - i,
{
    if i + 1 < j {
        lemma_item_days_sorted(days, i, j - 1);
    }
}

proof fn lemma_range_counts_none(days: Seq<(i64, i64)>, from: i64, to: i64)
    requires
        forall|i: int| 0 <= i < days.len() ==> !in_range(#[trigger] days[i].0, from, to),
    ensures
        range_counts(days, from, to) == Seq::<(i64, i64)>::empty(),
    decreases days.len(),
{
    if days.len() > 0 {
        lemma_range_counts_none(days.drop_last(), from, to);
    }
}

proof fn lemma_range_days_none(days: Seq<DayItemsV>, from: i64, to: i64)
    requires
        forall|i: int| 0 <= i < days.len() ==> !in_range(#[trigger] days[i].day, from, to),
    ensures
        range_days(days, from, to) == Seq::<DayItemsV>::empty(),
    decreases days.len(),
{
    if days.len() > 0 {
        lemma_range_days_none(days.drop_last(), from, to);
    }
}

proof fn lemma_range_counts_single(days: Seq<(i64, i64)>, k: int)
    requires
        scalar_days_increasing(days),
        0 <= k < days.len(),
    ensures
        range_counts(days, days[k].0, days[k].0) == seq![days[k]],
    decreases days.len(),
{
    let d = days[k].0;
    if k == days.len() - 1 {
        assert forall|i: int| 0 <= i < days.drop_last().len() implies !in_range(#[trigger] days.drop_last()[i].0, d, d) by {
            lemma_scalar_days_sorted(days, i, k);
        }
        lemma_range_counts_none(days.drop_last(), d, d);
    } else {
        lemma_scalar_days_sorted(days, k, days.len() - 1);
        lemma_range_counts_single(days.drop_last(), k);
    }
}

proof fn lemma_range_days_single(days: Seq<DayItemsV>, k: int)
    requires
        item_days_increasing(days),
        0 <= k < days.len(),
    ensures
        range_days(days, days[k].day, days[k].day) == seq![days[k]],
    decreases days.len(),
{
    let d = days[k].day;
    if k == days.len() - 1 {
        assert forall|i: int| 0 <= i < days.drop_last().len() implies !in_range(#[trigger] days.drop_last()[i].day, d, d) by {
            lemma_item_days_sorted(days, i, k);
        }
        lemma_range_days_none(days.drop_last(), d, d);
    } else {
        lemma_item_days_sorted(days, k, days.len() - 1);
        lemma_range_days_single(days.drop_last(), k);
    }
}

/// On a well-formed daily series, `range(d, d)` for a day `d` of the series
/// keeps exactly that day's entry; a range that starts after the last day,
/// or whose start lies after its end, keeps nothing.
pub proof fn lemma_range_correct(v: ShapeV, k: int, from: i64, to: i64)
    requires
        v.wf(),
        v is DailyScalar || v is DailyItems,
    ensures
        v matches ShapeV::DailyScalar(days) ==> {
            &&& (0 <= k < days.len() ==> range_spec(v, days[k].0, days[k].0)
                == Ok::<ShapeV, TransformError>(ShapeV::DailyScalar(seq![days[k]])))
            &&& ((from > to || (days.len() > 0 && from > days.last().0)) ==> range_spec(v, from, to)
                == Ok::<ShapeV, TransformError>(ShapeV::DailyScalar(Seq::empty())))
        },
        v matches ShapeV::DailyItems(days) ==> {
            &&& (0 <= k < days.len() ==> range_spec(v, days[k].day, days[k].day)
                == Ok::<ShapeV, TransformError>(ShapeV::DailyItems(seq![days[k]])))
            &&& ((from > to || (days.len() > 0 && from > days.last().day)) ==> range_spec(v, from, to)
                == Ok::<ShapeV, TransformError>(ShapeV::DailyItems(Seq::empty())))
        },
{
    match v {
        ShapeV::DailyScalar(days) => {
            if 0 <= k < days.len() {
                lemma_range_counts_single(days, k);
            }
            if from > to || (days.len() > 0 && from > days.last().0) {
                assert forall|i: int| 0 <= i < days.len() implies !in_range(#[trigger] days[i].0, from, to) by {
                    if i < days.len() - 1 {
                        lemma_scalar_days_sorted(days, i, days.len() - 1);
                    }
                }
                lemma_range_counts_none(days, from, to);
            }
        },
        ShapeV::DailyItems(days) => {
            if 0 <= k < days.len() {
                lemma_range_days_single(days, k);
            }
            if from > to || (days.len() > 0 && from > days.last().day) {
                assert forall|i: int| 0 <= i < days.len() implies !in_range(#[trigger] days[i].day, from, to) by {
                    if i < days.len() - 1 {
                        lemma_item_days_sorted(days, i, days.len() - 1);
                    }
                }
                lemma_range_days_none(days, from, to);
            }
        },
        _ => {},
    }
}

} // verus!
