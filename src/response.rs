//! The query service's answer, turned into a result. The service writes each
//! row of a grouped answer as named values, the count under `result`; a
//! daily answer gives one row per day.
use vstd::prelude::*;
use crate::codec::names_distinct;
use crate::shape::{
    DayItems, DayItemsV, Field, FieldV, FieldValue, FieldValueV, Item, ItemV, ResultShape, ShapeV,
    fields_view, items_view, days_view, item_days_increasing, items_wf, names_unique, scalar_days_increasing,
};

verus! {

/// Why the service's answer gave no result.
#[derive(Clone, Debug, PartialEq, Eq)]
pub enum QueryError {
    /// The service answered with a status other than success.
    Status { status: u16, message: String },
    /// The answer does not have the shape that was asked for.
    Malformed,
}

/// The name under which a row holds its count.
pub open spec fn count_name() -> Seq<char> {
    "result"@
}

pub open spec fn row_view(row: Seq<(String, FieldValue)>) -> Seq<(Seq<char>, FieldValueV)> {
    row.map_values(|p: (String, FieldValue)| (p.0@, p.1@))
}

/// A row split into its group-by fields and the values under the count name.
pub open spec fn split_row(row: Seq<(Seq<char>, FieldValueV)>) -> (Seq<FieldV>, Seq<FieldValueV>)
    decreases row.len(),
{
    if row.len() == 0 {
        (Seq::empty(), Seq::empty())
    } else {
        let (f, c) = split_row(row.drop_last());
        let (n, v) = row.last();
        if n == count_name() {
            (f, c.push(v))
        } else {
            (f.push(FieldV { name: n, value: v }), c)
        }
    }
}

/// The item that a row stands for: it has exactly one count, an integer,
/// and its other names are distinct.
pub open spec fn item_of_row(row: Seq<(Seq<char>, FieldValueV)>) -> Option<ItemV> {
    let (f, c) = split_row(row);
    if c.len() == 1 && c[0] is Number && names_unique(f) {
        Some(ItemV { fields: f, result: c[0]->Number_0 })
    } else {
        None
    }
}

/// The item that a row of named values stands for.
pub fn item_from_row(row: Vec<(String, FieldValue)>) -> (r: Result<Item, QueryError>)
    ensures
        match item_of_row(row_view(row@)) {
            Some(it) => r matches Ok(x) && x@ == it,
            None => r == Err::<Item, QueryError>(QueryError::Malformed),
        },
{
    let ghost orig = row_view(row@);
    let count_key = String::from_str("result");
    let mut rest = row;
    let mut fields: Vec<Field> = Vec::new();
    let mut counts: Vec<FieldValue> = Vec::new();
    while rest.len() > 0
        invariant
            rest@.len() <= orig.len(),
            count_key@ == count_name(),
            row_view(rest@) == orig.subrange(orig.len() - rest@.len(), orig.len() as int),
            split_row(orig.take(orig.len() - rest@.len())) == (fields_view(fields@), counts@.map_values(
                |v: FieldValue| v@,
            )),
        decreases rest.len(),
    {
        let ghost k = orig.len() - rest@.len();
        let ghost before = rest@;
        let (name, value) = rest.remove(0);
        assert(row_view(before)[0] == (name@, value@));
        assert(rest@ =~= before.subrange(1, before.len() as int));
        assert(row_view(rest@) =~= row_view(before).subrange(1, before.len() as int));
        assert(row_view(rest@) =~= orig.subrange(k + 1, orig.len() as int));
        assert(orig.take(k + 1).drop_last() =~= orig.take(k));
        let ghost pf = fields@;
        let ghost pc = counts@;
        if name.eq(&count_key) {
            counts.push(value);
            assert(counts@.map_values(|v: FieldValue| v@) =~= pc.map_values(|v: FieldValue| v@).push(orig[k].1));
        } else {
            fields.push(Field { name, value });
            assert(fields_view(fields@) =~= fields_view(pf).push(FieldV { name: orig[k].0, value: orig[k].1 }));
        }
    }
    assert(orig.take(orig.len() as int) =~= orig);
    if counts.len() != 1 {
        return Err(QueryError::Malformed);
    }
    assert(counts@.map_values(|v: FieldValue| v@)[0] == counts@[0]@);
    let result = match &counts[0] {
        FieldValue::Number(n) => *n,
        FieldValue::Text(_) => {
            return Err(QueryError::Malformed);
        },
    };
    if !names_distinct(&fields) {
        return Err(QueryError::Malformed);
    }
    Ok(Item { fields, result })
}

/// Every row stands for an item.
pub open spec fn rows_ok(rows: Seq<Seq<(Seq<char>, FieldValueV)>>) -> bool {
    forall|i: int| 0 <= i < rows.len() ==> (#[trigger] item_of_row(rows[i])) is Some
}

pub open spec fn rows_view(rows: Seq<Vec<(String, FieldValue)>>) -> Seq<Seq<(Seq<char>, FieldValueV)>> {
    rows.map_values(|r: Vec<(String, FieldValue)>| row_view(r@))
}

/// The items that the rows stand for, in their order; `Malformed` when
/// some row stands for none.
pub fn items_from_rows(rows: Vec<Vec<(String, FieldValue)>>) -> (r: Result<Vec<Item>, QueryError>)
    ensures
        rows_ok(rows_view(rows@)) ==> (r matches Ok(items) && items_view(items@).len() == rows@.len()
            && forall|i: int| 0 <= i < rows@.len() ==> item_of_row(#[trigger] rows_view(rows@)[i]) == Some(
            items_view(items@)[i],
        )),
        !rows_ok(rows_view(rows@)) ==> r == Err::<Vec<Item>, QueryError>(QueryError::Malformed),
        r matches Ok(items) ==> items_wf(items_view(items@)),
{
    let ghost orig = rows_view(rows@);
    let mut rest = rows;
    let mut out: Vec<Item> = Vec::new();
    while rest.len() > 0
        invariant
            orig == rows_view(rows@),
            rest@.len() <= orig.len(),
            out@.len() == orig.len() - rest@.len(),
            rows_view(rest@) == orig.subrange(orig.len() - rest@.len(), orig.len() as int),
            forall|i: int| 0 <= i < out@.len() ==> item_of_row(#[trigger] orig[i]) == Some(items_view(out@)[i]),
            items_wf(items_view(out@)),
        decreases rest.len(),
    {
        let ghost k = orig.len() - rest@.len();
        let ghost before = rest@;
        let row = rest.remove(0);
        assert(rows_view(before)[0] == row_view(row@));
        assert(rest@ =~= before.subrange(1, before.len() as int));
        assert(rows_view(rest@) =~= rows_view(before).subrange(1, before.len() as int));
        assert(rows_view(rest@) =~= orig.subrange(k + 1, orig.len() as int));
        match item_from_row(row) {
            Ok(it) => {
                let ghost prev = out@;
                out.push(it);
                assert(items_view(out@) =~= items_view(prev).push(it@));
            },
            Err(e) => {
                assert(item_of_row(orig[k]) is None);
                assert(!rows_ok(orig));
                return Err(e);
            },
        }
    }
    Ok(out)
}

/// A daily scalar series from one `(day, count)` row per day; `Malformed`
/// unless the days strictly increase.
pub fn daily_scalar_from_rows(rows: Vec<(i64, i64)>) -> (r: Result<ResultShape, QueryError>)
    ensures
        scalar_days_increasing(rows@) ==> (r matches Ok(v) && v@ == ShapeV::DailyScalar(rows@)),
        !scalar_days_increasing(rows@) ==> r == Err::<ResultShape, QueryError>(QueryError::Malformed),
{
    let mut i: usize = 1;
    while i < rows.len()
        invariant
            1 <= i,
            forall|j: int| 0 < j < i && j < rows@.len() ==> rows@[j - 1].0 < #[trigger] rows@[j].0,
        decreases rows.len() - i,
    {
        if rows[i - 1].0 >= rows[i].0 {
            return Err(QueryError::Malformed);
        }
        i = i + 1;
    }
    Ok(ResultShape::DailyScalar(rows))
}

/// The days strictly increase and every row of every day stands for an item.
pub open spec fn day_rows_ok(days: Seq<(i64, Vec<Vec<(String, FieldValue)>>)>) -> bool {
    &&& forall|i: int| 0 < i < days.len() ==> days[i - 1].0 < #[trigger] days[i].0
    &&& forall|i: int| 0 <= i < days.len() ==> rows_ok(rows_view(#[trigger] days[i].1@))
}

/// The day entry `d` holds the day and the items that `entry` stands for.
pub open spec fn day_from_entry(entry: (i64, Vec<Vec<(String, FieldValue)>>), d: DayItemsV) -> bool {
    &&& d.day == entry.0
    &&& d.items.len() == entry.1@.len()
    &&& forall|j: int| 0 <= j < d.items.len() ==> item_of_row(#[trigger] rows_view(entry.1@)[j]) == Some(d.items[j])
}

/// A grouped daily series from one `(day, rows)` entry per day, each row
/// turned into its item; `Malformed` unless the days strictly increase and
/// every row stands for an item.
pub fn daily_items_from_rows(days: Vec<(i64, Vec<Vec<(String, FieldValue)>>)>) -> (r: Result<ResultShape, QueryError>)
    ensures
        day_rows_ok(days@) ==> (r matches Ok(v) && v@.wf() && v@ is DailyItems && v@->DailyItems_0.len()
            == days@.len() && forall|i: int| 0 <= i < days@.len() ==> day_from_entry(days@[i], #[trigger] v@->DailyItems_0[i])),
        !day_rows_ok(days@) ==> r == Err::<ResultShape, QueryError>(QueryError::Malformed),
{
    let ghost orig = days@;
    let mut rest = days;
    let mut out: Vec<DayItems> = Vec::new();
    while rest.len() > 0
        invariant
            orig == days@,
            rest@.len() <= orig.len(),
            out@.len() == orig.len() - rest@.len(),
            rest@ == orig.subrange(orig.len() - rest@.len(), orig.len() as int),
            forall|i: int| 0 <= i < out@.len() ==> day_from_entry(orig[i], #[trigger] days_view(out@)[i]),
            forall|i: int| 0 <= i < out@.len() ==> rows_ok(rows_view(#[trigger] orig[i].1@)),
            item_days_increasing(days_view(out@)),
            forall|i: int| 0 <= i < out@.len() ==> items_wf(#[trigger] days_view(out@)[i].items),
            forall|i: int| 0 < i < out@.len() ==> orig[i - 1].0 < #[trigger] orig[i].0,
        decreases rest.len(),
    {
        let ghost k = orig.len() - rest@.len();
        let ghost before = rest@;
        let (day, rows) = rest.remove(0);
        assert(before[0] == orig[k]);
        assert(rest@ =~= orig.subrange(k + 1, orig.len() as int));
        if out.len() > 0 && out[out.len() - 1].day >= day {
            assert(days_view(out@)[k - 1].day == orig[k - 1].0);
            assert(!(orig[k - 1].0 < orig[k].0));
            return Err(QueryError::Malformed);
        }
        assert(k > 0 ==> orig[k - 1].0 < orig[k].0) by {
            if k > 0 {
                assert(days_view(out@)[k - 1].day == orig[k - 1].0);
            }
        }
        match items_from_rows(rows) {
            Ok(items) => {
                let ghost prev = out@;
                out.push(DayItems { day, items });
                assert(days_view(out@) =~= days_view(prev).push(out@[k]@));
                assert(rows_ok(rows_view(orig[k].1@)));
                assert(day_from_entry(orig[k], days_view(out@)[k]));
            },
            Err(e) => {
                assert(!rows_ok(rows_view(orig[k].1@)));
                return Err(e);
            },
        }
    }
    assert(orig.subrange(0, orig.len() as int) =~= orig);
    Ok(ResultShape::DailyItems(out))
}

/// The service's status: success (200) lets the answer through; any other
/// status is refused with the service's message.
pub fn check_status(status: u16, message: String) -> (r: Result<(), QueryError>)
    ensures
        status == 200 ==> r is Ok,
        status != 200 ==> r == Err::<(), QueryError>(QueryError::Status { status, message }),
{
    if status == 200 {
        Ok(())
    } else {
        Err(QueryError::Status { status, message })
    }
}

} // verus!
