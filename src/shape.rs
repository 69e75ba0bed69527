//! The result model: four shapes, their views and their invariants.
use vstd::prelude::*;

verus! {

/// The value of one group-by field: text or an integer.
#[derive(Clone, Debug, PartialEq, Eq)]
pub enum FieldValue {
    Text(String),
    Number(i64),
}

/// One group-by field of an item.
#[derive(Clone, Debug, PartialEq, Eq)]
pub struct Field {
    pub name: String,
    pub value: FieldValue,
}

/// One row of a grouped result: its group-by fields and the count that the
/// query produced for that group.
#[derive(Clone, Debug, PartialEq, Eq)]
pub struct Item {
    pub fields: Vec<Field>,
    pub result: i64,
}

/// One day of a grouped daily series. Days are numbered consecutively.
#[derive(Clone, Debug, PartialEq, Eq)]
pub struct DayItems {
    pub day: i64,
    pub items: Vec<Item>,
}

/// A query result in one of its four shapes. A daily scalar series holds
/// `(day, count)` pairs.
#[derive(Clone, Debug, PartialEq, Eq)]
pub enum ResultShape {
    Scalar(i64),
    ItemList(Vec<Item>),
    DailyScalar(Vec<(i64, i64)>),
    DailyItems(Vec<DayItems>),
}

/// The shape of a result, without its payload.
#[derive(Clone, Copy, Debug, PartialEq, Eq, Structural)]
pub enum ShapeTag {
    Scalar,
    ItemList,
    DailyScalar,
    DailyItems,
}

pub ghost enum FieldValueV {
    Text(Seq<char>),
    Number(i64),
}

pub ghost struct FieldV {
    pub name: Seq<char>,
    pub value: FieldValueV,
}

pub ghost struct ItemV {
    pub fields: Seq<FieldV>,
    pub result: i64,
}

pub ghost struct DayItemsV {
    pub day: i64,
    pub items: Seq<ItemV>,
}

/// The mathematical value of a result.
pub ghost enum ShapeV {
    Scalar(i64),
    ItemList(Seq<ItemV>),
    DailyScalar(Seq<(i64, i64)>),
    DailyItems(Seq<DayItemsV>),
}

impl View for FieldValue {
    type V = FieldValueV;

    open spec fn view(&self) -> FieldValueV {
        match self {
            FieldValue::Text(s) => FieldValueV::Text(s@),
            FieldValue::Number(n) => FieldValueV::Number(*n),
        }
    }
}

impl View for Field {
    type V = FieldV;

    open spec fn view(&self) -> FieldV {
        FieldV { name: self.name@, value: self.value@ }
    }
}

impl View for Item {
    type V = ItemV;

    open spec fn view(&self) -> ItemV {
        ItemV { fields: fields_view(self.fields@), result: self.result }
    }
}

impl View for DayItems {
    type V = DayItemsV;

    open spec fn view(&self) -> DayItemsV {
        DayItemsV { day: self.day, items: items_view(self.items@) }
    }
}

pub open spec fn fields_view(fields: Seq<Field>) -> Seq<FieldV> {
    fields.map_values(|f: Field| f@)
}

pub open spec fn items_view(items: Seq<Item>) -> Seq<ItemV> {
    items.map_values(|it: Item| it@)
}

pub open spec fn days_view(days: Seq<DayItems>) -> Seq<DayItemsV> {
    days.map_values(|d: DayItems| d@)
}

impl View for ResultShape {
    type V = ShapeV;

    open spec fn view(&self) -> ShapeV {
        match self {
            ResultShape::Scalar(n) => ShapeV::Scalar(*n),
            ResultShape::ItemList(items) => ShapeV::ItemList(items_view(items@)),
            ResultShape::DailyScalar(days) => ShapeV::DailyScalar(days@),
            ResultShape::DailyItems(days) => ShapeV::DailyItems(days_view(days@)),
        }
    }
}

/// The names of an item's fields are pairwise distinct.
pub open spec fn names_unique(fields: Seq<FieldV>) -> bool {
    forall|i: int, j: int|
        0 <= i < j < fields.len() ==> #[trigger] fields[i].name != #[trigger] fields[j].name
}

pub open spec fn items_wf(items: Seq<ItemV>) -> bool {
    forall|i: int| 0 <= i < items.len() ==> names_unique(#[trigger] items[i].fields)
}

/// The days of a daily scalar series strictly increase.
pub open spec fn scalar_days_increasing(days: Seq<(i64, i64)>) -> bool {
    forall|i: int| 0 < i < days.len() ==> days[i - 1].0 < #[trigger] days[i].0
}

/// The days of a grouped daily series strictly increase.
pub open spec fn item_days_increasing(days: Seq<DayItemsV>) -> bool {
    forall|i: int| 0 < i < days.len() ==> days[i - 1].day < #[trigger] days[i].day
}

impl ShapeV {
    /// The invariant of a result: days strictly increase, field names are
    /// unique within each item.
    pub open spec fn wf(self) -> bool {
        match self {
            ShapeV::Scalar(_) => true,
            ShapeV::ItemList(items) => items_wf(items),
            ShapeV::DailyScalar(days) => scalar_days_increasing(days),
            ShapeV::DailyItems(days) => {
                &&& item_days_increasing(days)
                &&& forall|i: int| 0 <= i < days.len() ==> items_wf(#[trigger] days[i].items)
            },
        }
    }

    pub open spec fn tag(self) -> ShapeTag {
        match self {
            ShapeV::Scalar(_) => ShapeTag::Scalar,
            ShapeV::ItemList(_) => ShapeTag::ItemList,
            ShapeV::DailyScalar(_) => ShapeTag::DailyScalar,
            ShapeV::DailyItems(_) => ShapeTag::DailyItems,
        }
    }
}

impl ResultShape {
    pub open spec fn wf(&self) -> bool {
        self@.wf()
    }

    /// The shape of this result.
    pub fn tag(&self) -> (t: ShapeTag)
        ensures
            t == self@.tag(),
    {
        match self {
            ResultShape::Scalar(_) => ShapeTag::Scalar,
            ResultShape::ItemList(_) => ShapeTag::ItemList,
            ResultShape::DailyScalar(_) => ShapeTag::DailyScalar,
            ResultShape::DailyItems(_) => ShapeTag::DailyItems,
        }
    }
}

} // verus!
