//! The cache codec: a deterministic text encoding of a result, and its
//! decoder, which checks the shape that the caller expects.
//!
//! Every count and integer is written as sixteen lowercase hexadecimal
//! digits (an `i64` as its two's complement); a string as its UTF-8 length
//! and bytes; a list as its length and its elements; a result as one letter
//! for its shape and its payload.
use vstd::prelude::*;
use vstd::utf8::{decode_utf8, encode_utf8, pop_first_scalar, valid_first_scalar, valid_utf8};
use crate::shape::{
    DayItems, DayItemsV, Field, FieldV, FieldValue, FieldValueV, Item, ItemV, ResultShape,
    ShapeTag, ShapeV, days_view, fields_view, item_days_increasing, items_view, items_wf, names_unique,
    scalar_days_increasing,
};

verus! {

broadcast use vstd::utf8::encode_utf8_valid_utf8, vstd::utf8::encode_utf8_decode_utf8, vstd::utf8::valid_utf8_concat;

/// Why bytes could not be decoded.
#[derive(Clone, Copy, Debug, PartialEq, Eq, Structural)]
pub enum CodecError {
    /// The bytes are not the encoding of any well-formed result.
    Malformed,
    /// The bytes encode a result of another shape than the one expected.
    ShapeMismatch,
}

pub const TAG_SCALAR: u8 = 83;
pub const TAG_ITEMS: u8 = 73;
pub const TAG_DAILY_SCALAR: u8 = 68;
pub const TAG_DAILY_ITEMS: u8 = 71;
pub const TAG_TEXT: u8 = 116;
pub const TAG_NUMBER: u8 = 110;

pub open spec fn hex_digit(d: u64) -> u8 {
    if d < 10 {
        (48 + d) as u8
    } else {
        (87 + d) as u8
    }
}

pub open spec fn nibble(x: u64, k: int) -> u64 {
    (x >> ((60 - 4 * k) as u64)) & 15
}

/// Sixteen hexadecimal digits, most significant first.
pub open spec fn enc_word(x: u64) -> Seq<u8> {
    Seq::new(16, |k: int| hex_digit(nibble(x, k)))
}

pub open spec fn enc_int(x: i64) -> Seq<u8> {
    enc_word(x as u64)
}

pub open spec fn enc_str(s: Seq<char>) -> Seq<u8> {
    enc_word(encode_utf8(s).len() as u64) + encode_utf8(s)
}

pub open spec fn enc_value(v: FieldValueV) -> Seq<u8> {
    match v {
        FieldValueV::Text(s) => seq![TAG_TEXT] + enc_str(s),
        FieldValueV::Number(n) => seq![TAG_NUMBER] + enc_int(n),
    }
}

pub open spec fn enc_field(f: FieldV) -> Seq<u8> {
    enc_str(f.name) + enc_value(f.value)
}

pub open spec fn concat_all(parts: Seq<Seq<u8>>) -> Seq<u8>
    decreases parts.len(),
{
    if parts.len() == 0 {
        Seq::empty()
    } else {
        concat_all(parts.drop_last()) + parts.last()
    }
}

/// A list: its length, then its elements.
pub open spec fn enc_list(parts: Seq<Seq<u8>>) -> Seq<u8> {
    enc_word(parts.len() as u64) + concat_all(parts)
}

pub open spec fn field_parts(fields: Seq<FieldV>) -> Seq<Seq<u8>> {
    fields.map_values(|f: FieldV| enc_field(f))
}

pub open spec fn enc_fields(fields: Seq<FieldV>) -> Seq<u8> {
    enc_list(field_parts(fields))
}

pub open spec fn enc_item(it: ItemV) -> Seq<u8> {
    enc_fields(it.fields) + enc_int(it.result)
}

pub open spec fn item_parts(items: Seq<ItemV>) -> Seq<Seq<u8>> {
    items.map_values(|it: ItemV| enc_item(it))
}

pub open spec fn enc_items(items: Seq<ItemV>) -> Seq<u8> {
    enc_list(item_parts(items))
}

pub open spec fn enc_pair(p: (i64, i64)) -> Seq<u8> {
    enc_int(p.0) + enc_int(p.1)
}

pub open spec fn enc_day(d: DayItemsV) -> Seq<u8> {
    enc_int(d.day) + enc_items(d.items)
}

pub open spec fn pair_parts(days: Seq<(i64, i64)>) -> Seq<Seq<u8>> {
    days.map_values(|p: (i64, i64)| enc_pair(p))
}

pub open spec fn day_parts(days: Seq<DayItemsV>) -> Seq<Seq<u8>> {
    days.map_values(|d: DayItemsV| enc_day(d))
}



/// The letter that announces a shape.
pub open spec fn tag_byte(t: ShapeTag) -> u8 {
    match t {
        ShapeTag::Scalar => TAG_SCALAR,
        ShapeTag::ItemList => TAG_ITEMS,
        ShapeTag::DailyScalar => TAG_DAILY_SCALAR,
        ShapeTag::DailyItems => TAG_DAILY_ITEMS,
    }
}

/// What follows the shape letter.
pub open spec fn payload(v: ShapeV) -> Seq<u8> {
    match v {
        ShapeV::Scalar(n) => enc_int(n),
        ShapeV::ItemList(items) => enc_items(items),
        ShapeV::DailyScalar(days) => enc_list(pair_parts(days)),
        ShapeV::DailyItems(days) => enc_list(day_parts(days)),
    }
}

/// The bytes that `encode` writes for a result.
pub open spec fn encode_spec(v: ShapeV) -> Seq<u8> {
    seq![tag_byte(v.tag())] + payload(v)
}

/// The shape that a leading byte announces.
pub open spec fn tag_of_byte(b: u8) -> Option<ShapeTag> {
    if b == TAG_SCALAR {
        Some(ShapeTag::Scalar)
    } else if b == TAG_ITEMS {
        Some(ShapeTag::ItemList)
    } else if b == TAG_DAILY_SCALAR {
        Some(ShapeTag::DailyScalar)
    } else if b == TAG_DAILY_ITEMS {
        Some(ShapeTag::DailyItems)
    } else {
        None
    }
}

/// `bytes` are the encoding of the well-formed result `w`.
pub open spec fn well_encoded(bytes: Seq<u8>, w: ShapeV) -> bool {
    w.wf() && encode_spec(w) == bytes
}

/// `bytes` are the encoding of a well-formed result of a shape other than
/// `tag`.
pub open spec fn encodes_other(bytes: Seq<u8>, tag: ShapeTag) -> bool {
    exists|w: ShapeV| #[trigger] well_encoded(bytes, w) && w.tag() != tag
}

/// `e` stands in `b` from `pos` on.
pub open spec fn is_at(b: Seq<u8>, pos: int, e: Seq<u8>) -> bool {
    0 <= pos && pos + e.len() <= b.len() && b.subrange(pos, pos + e.len()) == e
}

proof fn lemma_is_at_split(b: Seq<u8>, pos: int, x: Seq<u8>, y: Seq<u8>)
    requires
        is_at(b, pos, x + y),
    ensures
        is_at(b, pos, x),
        is_at(b, pos + x.len(), y),
{
    let whole = b.subrange(pos, pos + x.len() + y.len());
    assert(whole == x + y);
    assert(b.subrange(pos, pos + x.len()) =~= whole.subrange(0, x.len() as int));
    assert(whole.subrange(0, x.len() as int) =~= x);
    assert(b.subrange(pos + x.len(), pos + x.len() + y.len()) =~= whole.subrange(x.len() as int, whole.len() as int));
    assert(whole.subrange(x.len() as int, whole.len() as int) =~= y);
}

proof fn lemma_sub_join(b: Seq<u8>, p: int, q: int, r: int)
    requires
        0 <= p <= q <= r <= b.len(),
    ensures
        b.subrange(p, r) == b.subrange(p, q) + b.subrange(q, r),
{
    assert(b.subrange(p, r) =~= b.subrange(p, q) + b.subrange(q, r));
}

proof fn lemma_concat_split(parts: Seq<Seq<u8>>, j: int)
    requires
        0 <= j <= parts.len(),
    ensures
        concat_all(parts) == concat_all(parts.take(j)) + concat_all(parts.skip(j)),
    decreases parts.len(),
{
    if j == parts.len() {
        assert(parts.take(j) =~= parts);
        assert(parts.skip(j) =~= Seq::<Seq<u8>>::empty());
        assert(concat_all(parts) + Seq::<u8>::empty() =~= concat_all(parts));
    } else {
        let d = parts.drop_last();
        lemma_concat_split(d, j);
        assert(d.take(j) =~= parts.take(j));
        assert(parts.skip(j).drop_last() =~= d.skip(j));
        assert(parts.skip(j).last() == parts.last());
        assert(concat_all(parts) =~= concat_all(parts.take(j)) + concat_all(parts.skip(j)));
    }
}

proof fn lemma_concat_len(parts: Seq<Seq<u8>>)
    requires
        forall|i: int| 0 <= i < parts.len() ==> (#[trigger] parts[i]).len() >= 1,
    ensures
        concat_all(parts).len() >= parts.len(),
    decreases parts.len(),
{
    if parts.len() > 0 {
        lemma_concat_len(parts.drop_last());
    }
}

/// Where a list's encoding stands at `pos`, its element `i` stands after
/// the length and the elements before it.
proof fn lemma_list_element(b: Seq<u8>, pos: int, parts: Seq<Seq<u8>>, i: int)
    requires
        is_at(b, pos, enc_list(parts)),
        0 <= i < parts.len(),
    ensures
        is_at(b, pos + 16 + concat_all(parts.take(i)).len(), parts[i]),
{
    lemma_is_at_split(b, pos, enc_word(parts.len() as u64), concat_all(parts));
    lemma_concat_split(parts, i);
    lemma_is_at_split(b, pos + 16, concat_all(parts.take(i)), concat_all(parts.skip(i)));
    let rest = parts.skip(i);
    lemma_concat_split(rest, 1);
    assert(rest.take(1) =~= seq![parts[i]]);
    assert(rest.take(1).drop_last() =~= Seq::<Seq<u8>>::empty());
    assert(concat_all(rest.take(1)) == concat_all(rest.take(1).drop_last()) + parts[i]);
    assert(concat_all(rest.take(1)) =~= parts[i]);
    lemma_is_at_split(b, pos + 16 + concat_all(parts.take(i)).len(), parts[i], concat_all(rest.skip(1)));
}

proof fn lemma_nibble_step(y: u64, s: u64)
    requires
        s <= 56,
    ensures
        ((y >> (s + 4)) << 4u64) | ((y >> s) & 15) == y >> s,
{
    assert(((y >> (s + 4)) << 4u64) | ((y >> s) & 15) == y >> s) by (bit_vector)
        requires s <= 56;
}

proof fn lemma_nibble_top(y: u64)
    ensures
        (0u64 << 4u64) | ((y >> 60u64) & 15) == y >> 60u64,
        y >> 0u64 == y,
{
    assert((0u64 << 4u64) | ((y >> 60u64) & 15) == y >> 60u64) by (bit_vector);
    assert(y >> 0u64 == y) by (bit_vector);
}

fn hex_char(d: u64) -> (c: u8)
    requires
        d < 16,
    ensures
        c == hex_digit(d),
{
    if d < 10 {
        (48 + d) as u8
    } else {
        (87 + d) as u8
    }
}

fn hex_value(c: u8) -> (r: Option<u64>)
    ensures
        r matches Some(d) ==> d < 16 && hex_digit(d) == c,
        r is None ==> forall|d: u64| d < 16 ==> #[trigger] hex_digit(d) != c,
{
    if 48 <= c && c <= 57 {
        Some((c - 48) as u64)
    } else if 97 <= c && c <= 102 {
        Some((c - 87) as u64)
    } else {
        None
    }
}

fn push_word(out: &mut Vec<u8>, x: u64)
    ensures
        final(out)@ == old(out)@ + enc_word(x),
{
    let ghost start = out@;
    let mut k: u64 = 0;
    while k < 16
        invariant
            k <= 16,
            out@ == start + enc_word(x).take(k as int),
        decreases 16 - k,
    {
        let sh: u64 = 60 - 4 * k;
        let d = (x >> sh) & 15;
        assert(d < 16) by (bit_vector)
            requires d == (x >> sh) & 15;
        out.push(hex_char(d));
        assert(enc_word(x).take(k as int + 1) =~= enc_word(x).take(k as int).push(hex_digit(d)));
        k = k + 1;
    }
    assert(enc_word(x).take(16) =~= enc_word(x));
}

fn parse_word(b: &Vec<u8>, pos: usize) -> (r: Option<u64>)
    ensures
        r matches Some(x) ==> is_at(b@, pos as int, enc_word(x)) && pos + 16 <= b.len(),
        forall|h: u64| #[trigger] is_at(b@, pos as int, enc_word(h)) ==> r == Some(h),
{
    if pos > b.len() || b.len() - pos < 16 {
        return None;
    }
    let mut acc: u64 = 0;
    let mut k: usize = 0;
    while k < 16
        invariant
            k <= 16,
            pos + 16 <= b.len(),
            forall|h: u64| #[trigger] is_at(b@, pos as int, enc_word(h)) ==> (k == 0 ==> acc == 0) && (k > 0
                ==> acc == h >> ((64 - 4 * k) as u64)),
        decreases 16 - k,
    {
        let c = b[pos + k];
        assert forall|h: u64| #[trigger] is_at(b@, pos as int, enc_word(h)) implies c == hex_digit(nibble(h, k as int))
            && nibble(h, k as int) < 16 by {
            assert(c == b@.subrange(pos as int, pos + 16)[k as int]);
            assert(nibble(h, k as int) < 16) by (bit_vector)
                requires nibble(h, k as int) == (h >> ((60 - 4 * k) as u64)) & 15;
        }
        match hex_value(c) {
            None => {
                return None;
            },
            Some(d) => {
                acc = (acc << 4u64) | d;
                assert forall|h: u64| #[trigger] is_at(b@, pos as int, enc_word(h)) implies acc == h >> ((64 - 4 * (k
                    + 1)) as u64) by {
                    assert(d == nibble(h, k as int));
                    if k == 0 {
                        lemma_nibble_top(h);
                    } else {
                        lemma_nibble_step(h, (60 - 4 * k) as u64);
                    }
                }
            },
        }
        k = k + 1;
    }
    assert forall|h: u64| #[trigger] is_at(b@, pos as int, enc_word(h)) implies acc == h by {
        lemma_nibble_top(h);
    }
    let mut j: usize = 0;
    while j < 16
        invariant
            j <= 16,
            pos + 16 <= b.len(),
            forall|i: int| 0 <= i < j ==> b@[pos + i] == #[trigger] enc_word(acc)[i],
            forall|h: u64| #[trigger] is_at(b@, pos as int, enc_word(h)) ==> acc == h,
        decreases 16 - j,
    {
        let sh: u64 = 60 - 4 * (j as u64);
        let d = (acc >> sh) & 15;
        assert(d < 16) by (bit_vector)
            requires d == (acc >> sh) & 15;
        assert forall|h: u64| #[trigger] is_at(b@, pos as int, enc_word(h)) implies b@[pos + j] == hex_digit(d) by {
            assert(b@[pos + j] == b@.subrange(pos as int, pos + 16)[j as int]);
        }
        if b[pos + j] != hex_char(d) {
            return None;
        }
        j = j + 1;
    }
    assert(b@.subrange(pos as int, pos + 16) =~= enc_word(acc));
    Some(acc)
}

/// The invariant of a grouped daily series.
pub open spec fn days_wf(days: Seq<DayItemsV>) -> bool {
    &&& item_days_increasing(days)
    &&& forall|i: int| 0 <= i < days.len() ==> items_wf(#[trigger] days[i].items)
}

/// Relies on std's `String::from_utf8`: it succeeds exactly on valid UTF-8,
/// and the string then holds those bytes.
#[verifier::external_body]
fn string_from_utf8(bytes: Vec<u8>) -> (r: Option<String>)
    ensures
        r is Some <==> valid_utf8(bytes@),
        r matches Some(s) ==> encode_utf8(s@) == bytes@,
{
    String::from_utf8(bytes).ok()
}

fn push_int(out: &mut Vec<u8>, x: i64)
    ensures
        final(out)@ == old(out)@ + enc_int(x),
{
    push_word(out, x as u64);
}

fn push_str(out: &mut Vec<u8>, s: &String)
    ensures
        final(out)@ == old(out)@ + enc_str(s@),
{
    let bytes = s.as_str().as_bytes();
    let ghost start = out@;
    push_word(out, bytes.len() as u64);
    let ghost mid = out@;
    let mut i: usize = 0;
    while i < bytes.len()
        invariant
            0 <= i <= bytes.len(),
            bytes@ == encode_utf8(s@),
            mid == start + enc_word(bytes@.len() as u64),
            out@ == mid + bytes@.take(i as int),
        decreases bytes.len() - i,
    {
        out.push(bytes[i]);
        assert(bytes@.take(i as int + 1) =~= bytes@.take(i as int).push(bytes@[i as int]));
        i = i + 1;
    }
    assert(bytes@.take(i as int) =~= bytes@);
    assert(out@ =~= start + enc_str(s@));
}

fn push_value(out: &mut Vec<u8>, v: &FieldValue)
    ensures
        final(out)@ == old(out)@ + enc_value(v@),
{
    let ghost start = out@;
    match v {
        FieldValue::Text(t) => {
            out.push(TAG_TEXT);
            push_str(out, t);
        },
        FieldValue::Number(n) => {
            out.push(TAG_NUMBER);
            push_int(out, *n);
        },
    }
    assert(out@ =~= start + enc_value(v@));
}

fn push_field(out: &mut Vec<u8>, f: &Field)
    ensures
        final(out)@ == old(out)@ + enc_field(f@),
{
    let ghost start = out@;
    push_str(out, &f.name);
    push_value(out, &f.value);
    assert(out@ =~= start + enc_field(f@));
}

fn push_pair(out: &mut Vec<u8>, p: (i64, i64))
    ensures
        final(out)@ == old(out)@ + enc_pair(p),
{
    let ghost start = out@;
    push_int(out, p.0);
    push_int(out, p.1);
    assert(out@ =~= start + enc_pair(p));
}

fn parse_int(b: &Vec<u8>, pos: usize) -> (r: Option<(i64, usize)>)
    ensures
        r matches Some((x, n)) ==> is_at(b@, pos as int, enc_int(x)) && n == pos + 16,
        forall|h: i64| #[trigger] is_at(b@, pos as int, enc_int(h)) ==> (r matches Some((x, n)) && x == h),
{
    assert forall|h: i64| #[trigger] is_at(b@, pos as int, enc_int(h)) implies is_at(b@, pos as int, enc_word(h as u64)) by {}
    match parse_word(b, pos) {
        None => None,
        Some(w) => {
            let x = w as i64;
            assert(x as u64 == w) by (bit_vector)
                requires x == w as i64;
            assert forall|h: i64| #[trigger] is_at(b@, pos as int, enc_int(h)) implies x == h by {
                assert((h as u64) as i64 == h) by (bit_vector);
            }
            Some((x, pos + 16))
        },
    }
}

fn parse_str(b: &Vec<u8>, pos: usize) -> (r: Option<(String, usize)>)
    ensures
        r matches Some((s, n)) ==> is_at(b@, pos as int, enc_str(s@)) && n == pos + enc_str(s@).len(),
        forall|h: Seq<char>| #[trigger] is_at(b@, pos as int, enc_str(h)) ==> (r matches Some((s, n)) && s@ == h),
{
    assert forall|h: Seq<char>| #[trigger] is_at(b@, pos as int, enc_str(h)) implies is_at(
        b@,
        pos as int,
        enc_word(encode_utf8(h).len() as u64),
    ) && is_at(b@, pos + 16, encode_utf8(h)) by {
        lemma_is_at_split(b@, pos as int, enc_word(encode_utf8(h).len() as u64), encode_utf8(h));
    }
    let len = match parse_word(b, pos) {
        None => {
            return None;
        },
        Some(w) => w,
    };
    let start = pos + 16;
    if len > (b.len() - start) as u64 {
        return None;
    }
    let end = start + len as usize;
    let mut bytes: Vec<u8> = Vec::new();
    let mut k: usize = start;
    while k < end
        invariant
            start <= k <= end <= b.len(),
            bytes@ == b@.subrange(start as int, k as int),
        decreases end - k,
    {
        bytes.push(b[k]);
        assert(b@.subrange(start as int, k + 1) =~= b@.subrange(start as int, k as int).push(b@[k as int]));
        k = k + 1;
    }
    let ghost raw = bytes@;
    assert forall|h: Seq<char>| #[trigger] is_at(b@, pos as int, enc_str(h)) implies raw == encode_utf8(h) && valid_utf8(raw) by {}
    match string_from_utf8(bytes) {
        None => None,
        Some(s) => {
            proof {
                lemma_sub_join(b@, pos as int, start as int, end as int);
                assert(decode_utf8(encode_utf8(s@)) == s@);
            }
            assert forall|h: Seq<char>| #[trigger] is_at(b@, pos as int, enc_str(h)) implies s@ == h by {
                assert(decode_utf8(encode_utf8(h)) == h);
            }
            Some((s, end))
        },
    }
}

fn parse_value(b: &Vec<u8>, pos: usize) -> (r: Option<(FieldValue, usize)>)
    ensures
        r matches Some((v, n)) ==> is_at(b@, pos as int, enc_value(v@)) && n == pos + enc_value(v@).len(),
        forall|h: FieldValueV| #[trigger] is_at(b@, pos as int, enc_value(h)) ==> (r matches Some((v, n)) && v@ == h),
{
    if pos >= b.len() {
        return None;
    }
    let t = b[pos];
    assert forall|h: FieldValueV| #[trigger] is_at(b@, pos as int, enc_value(h)) implies match h {
        FieldValueV::Text(s) => t == TAG_TEXT && is_at(b@, pos + 1, enc_str(s)),
        FieldValueV::Number(n) => t == TAG_NUMBER && is_at(b@, pos + 1, enc_int(n)),
    } by {
        match h {
            FieldValueV::Text(s) => lemma_is_at_split(b@, pos as int, seq![TAG_TEXT], enc_str(s)),
            FieldValueV::Number(n) => lemma_is_at_split(b@, pos as int, seq![TAG_NUMBER], enc_int(n)),
        }
        assert(b@[pos as int] == b@.subrange(pos as int, pos + 1)[0]);
    }
    if t == TAG_TEXT {
        match parse_str(b, pos + 1) {
            None => None,
            Some((s, n)) => {
                proof {
                    lemma_sub_join(b@, pos as int, pos + 1, n as int);
                    assert(b@.subrange(pos as int, pos + 1) =~= seq![TAG_TEXT]);
                }
                Some((FieldValue::Text(s), n))
            },
        }
    } else if t == TAG_NUMBER {
        match parse_int(b, pos + 1) {
            None => None,
            Some((x, n)) => {
                proof {
                    lemma_sub_join(b@, pos as int, pos + 1, n as int);
                    assert(b@.subrange(pos as int, pos + 1) =~= seq![TAG_NUMBER]);
                }
                Some((FieldValue::Number(x), n))
            },
        }
    } else {
        None
    }
}

fn parse_field(b: &Vec<u8>, pos: usize) -> (r: Option<(Field, usize)>)
    ensures
        r matches Some((f, n)) ==> is_at(b@, pos as int, enc_field(f@)) && n == pos + enc_field(f@).len(),
        forall|h: FieldV| #[trigger] is_at(b@, pos as int, enc_field(h)) ==> (r matches Some((f, n)) && f@ == h),
{
    assert forall|h: FieldV| #[trigger] is_at(b@, pos as int, enc_field(h)) implies is_at(b@, pos as int, enc_str(h.name))
        && is_at(b@, pos + enc_str(h.name).len(), enc_value(h.value)) by {
        lemma_is_at_split(b@, pos as int, enc_str(h.name), enc_value(h.value));
    }
    let (name, mid) = match parse_str(b, pos) {
        None => {
            return None;
        },
        Some(x) => x,
    };
    let (value, end) = match parse_value(b, mid) {
        None => {
            return None;
        },
        Some(x) => x,
    };
    proof {
        lemma_sub_join(b@, pos as int, mid as int, end as int);
    }
    Some((Field { name, value }, end))
}

fn parse_pair(b: &Vec<u8>, pos: usize) -> (r: Option<((i64, i64), usize)>)
    ensures
        r matches Some((p, n)) ==> is_at(b@, pos as int, enc_pair(p)) && n == pos + enc_pair(p).len(),
        forall|h: (i64, i64)| #[trigger] is_at(b@, pos as int, enc_pair(h)) ==> (r matches Some((p, n)) && p == h),
{
    assert forall|h: (i64, i64)| #[trigger] is_at(b@, pos as int, enc_pair(h)) implies is_at(b@, pos as int, enc_int(h.0))
        && is_at(b@, pos + 16, enc_int(h.1)) by {
        lemma_is_at_split(b@, pos as int, enc_int(h.0), enc_int(h.1));
    }
    let (day, mid) = match parse_int(b, pos) {
        None => {
            return None;
        },
        Some(x) => x,
    };
    let (count, end) = match parse_int(b, mid) {
        None => {
            return None;
        },
        Some(x) => x,
    };
    proof {
        lemma_sub_join(b@, pos as int, mid as int, end as int);
    }
    Some(((day, count), end))
}

fn push_fields(out: &mut Vec<u8>, xs: &Vec<Field>)
    ensures
        final(out)@ == old(out)@ + enc_list(field_parts(fields_view(xs@))),
{
    let ghost start = out@;
    let ghost parts = field_parts(fields_view(xs@));
    push_word(out, xs.len() as u64);
    let ghost mid = out@;
    let mut i: usize = 0;
    while i < xs.len()
        invariant
            0 <= i <= xs.len(),
            parts == field_parts(fields_view(xs@)),
            mid == start + enc_word(xs@.len() as u64),
            out@ == mid + concat_all(parts.take(i as int)),
        decreases xs.len() - i,
    {
        push_field(out, &xs[i]);
        assert(parts.take(i as int + 1).drop_last() =~= parts.take(i as int));
        assert(parts[i as int] == enc_field(xs@[i as int]@));
        i = i + 1;
    }
    assert(parts.take(i as int) =~= parts);
    assert(out@ =~= start + enc_list(parts));
}

fn parse_fields(b: &Vec<u8>, pos: usize) -> (r: Option<(Vec<Field>, usize)>)
    ensures
        r matches Some((xs, n)) ==> is_at(b@, pos as int, enc_list(field_parts(fields_view(xs@)))) && n == pos + enc_list(
            field_parts(fields_view(xs@)),
        ).len() && names_unique(fields_view(xs@)),
        forall|h: Seq<FieldV>| names_unique(h) && #[trigger] is_at(b@, pos as int, enc_list(field_parts(h))) ==> (r matches Some((xs, n))
            && fields_view(xs@) == h),
{
    assert forall|h: Seq<FieldV>| names_unique(h) && #[trigger] is_at(b@, pos as int, enc_list(field_parts(h))) implies is_at(
        b@,
        pos as int,
        enc_word(h.len() as u64),
    ) && h.len() <= b@.len() by {
        lemma_is_at_split(b@, pos as int, enc_word(field_parts(h).len() as u64), concat_all(field_parts(h)));
        lemma_concat_len(field_parts(h));
    }
    let count = match parse_word(b, pos) {
        None => {
            return None;
        },
        Some(c) => c,
    };
    let mut out: Vec<Field> = Vec::new();
    let mut cur: usize = pos + 16;
    let mut i: u64 = 0;
    assert(b@.subrange(pos + 16, cur as int) =~= concat_all(field_parts(fields_view(out@))));
    while i < count
        invariant
            pos + 16 <= cur <= b.len(),
            out@.len() == i,
            i <= count,
            is_at(b@, pos as int, enc_word(count)),
            b@.subrange(pos + 16, cur as int) == concat_all(field_parts(fields_view(out@))),
            true,
            forall|h: Seq<FieldV>| names_unique(h) && #[trigger] is_at(b@, pos as int, enc_list(field_parts(h))) ==> count as int == h.len()
                && fields_view(out@) == h.take(i as int),
        decreases count - i,
    {
        let ghost prev = fields_view(out@);
        assert forall|h: Seq<FieldV>| names_unique(h) && #[trigger] is_at(b@, pos as int, enc_list(field_parts(h))) implies is_at(
            b@,
            cur as int,
            enc_field(h[i as int]),
        ) && true by {
            lemma_list_element(b@, pos as int, field_parts(h), i as int);
            assert(field_parts(h).take(i as int) =~= field_parts(prev));
        }
        let (x, n) = match parse_field(b, cur) {
            None => {
                return None;
            },
            Some(y) => y,
        };
        proof {
            lemma_sub_join(b@, pos + 16, cur as int, n as int);
        }
        out.push(x);
        proof {
            assert(fields_view(out@) =~= prev.push(x@));
            assert(field_parts(fields_view(out@)) =~= field_parts(prev).push(enc_field(x@)));
            assert(field_parts(fields_view(out@)).drop_last() =~= field_parts(prev));
        }
        assert forall|h: Seq<FieldV>| names_unique(h) && #[trigger] is_at(b@, pos as int, enc_list(field_parts(h))) implies fields_view(out@)
            == h.take(i as int + 1) by {
            assert(h.take(i as int + 1) =~= h.take(i as int).push(h[i as int]));
        }
        cur = n;
        i = i + 1;
    }
    if !names_distinct(&out) {
        return None;
    }
    proof {
        lemma_sub_join(b@, pos as int, pos + 16, cur as int);
        assert(b@.subrange(pos as int, pos + 16) == enc_word(count));
    }
    assert forall|h: Seq<FieldV>| names_unique(h) && #[trigger] is_at(b@, pos as int, enc_list(field_parts(h))) implies fields_view(out@) == h by {
        assert(h.take(i as int) =~= h);
    }
    Some((out, cur))
}

fn push_items(out: &mut Vec<u8>, xs: &Vec<Item>)
    ensures
        final(out)@ == old(out)@ + enc_list(item_parts(items_view(xs@))),
{
    let ghost start = out@;
    let ghost parts = item_parts(items_view(xs@));
    push_word(out, xs.len() as u64);
    let ghost mid = out@;
    let mut i: usize = 0;
    while i < xs.len()
        invariant
            0 <= i <= xs.len(),
            parts == item_parts(items_view(xs@)),
            mid == start + enc_word(xs@.len() as u64),
            out@ == mid + concat_all(parts.take(i as int)),
        decreases xs.len() - i,
    {
        push_item(out, &xs[i]);
        assert(parts.take(i as int + 1).drop_last() =~= parts.take(i as int));
        assert(parts[i as int] == enc_item(xs@[i as int]@));
        i = i + 1;
    }
    assert(parts.take(i as int) =~= parts);
    assert(out@ =~= start + enc_list(parts));
}

fn parse_items(b: &Vec<u8>, pos: usize) -> (r: Option<(Vec<Item>, usize)>)
    ensures
        r matches Some((xs, n)) ==> is_at(b@, pos as int, enc_list(item_parts(items_view(xs@)))) && n == pos + enc_list(
            item_parts(items_view(xs@)),
        ).len() && items_wf(items_view(xs@)),
        forall|h: Seq<ItemV>| items_wf(h) && #[trigger] is_at(b@, pos as int, enc_list(item_parts(h))) ==> (r matches Some((xs, n))
            && items_view(xs@) == h),
{
    assert forall|h: Seq<ItemV>| items_wf(h) && #[trigger] is_at(b@, pos as int, enc_list(item_parts(h))) implies is_at(
        b@,
        pos as int,
        enc_word(h.len() as u64),
    ) && h.len() <= b@.len() by {
        lemma_is_at_split(b@, pos as int, enc_word(item_parts(h).len() as u64), concat_all(item_parts(h)));
        lemma_concat_len(item_parts(h));
    }
    let count = match parse_word(b, pos) {
        None => {
            return None;
        },
        Some(c) => c,
    };
    let mut out: Vec<Item> = Vec::new();
    let mut cur: usize = pos + 16;
    let mut i: u64 = 0;
    assert(b@.subrange(pos + 16, cur as int) =~= concat_all(item_parts(items_view(out@))));
    while i < count
        invariant
            pos + 16 <= cur <= b.len(),
            out@.len() == i,
            i <= count,
            is_at(b@, pos as int, enc_word(count)),
            b@.subrange(pos + 16, cur as int) == concat_all(item_parts(items_view(out@))),
            items_wf(items_view(out@)),
            forall|h: Seq<ItemV>| items_wf(h) && #[trigger] is_at(b@, pos as int, enc_list(item_parts(h))) ==> count as int == h.len()
                && items_view(out@) == h.take(i as int),
        decreases count - i,
    {
        let ghost prev = items_view(out@);
        assert forall|h: Seq<ItemV>| items_wf(h) && #[trigger] is_at(b@, pos as int, enc_list(item_parts(h))) implies is_at(
            b@,
            cur as int,
            enc_item(h[i as int]),
        ) && names_unique(h[i as int].fields) by {
            lemma_list_element(b@, pos as int, item_parts(h), i as int);
            assert(item_parts(h).take(i as int) =~= item_parts(prev));
        }
        let (x, n) = match parse_item(b, cur) {
            None => {
                return None;
            },
            Some(y) => y,
        };
        proof {
            lemma_sub_join(b@, pos + 16, cur as int, n as int);
        }
        out.push(x);
        proof {
            assert(items_view(out@) =~= prev.push(x@));
            assert(item_parts(items_view(out@)) =~= item_parts(prev).push(enc_item(x@)));
            assert(item_parts(items_view(out@)).drop_last() =~= item_parts(prev));
        }
        assert forall|h: Seq<ItemV>| items_wf(h) && #[trigger] is_at(b@, pos as int, enc_list(item_parts(h))) implies items_view(out@)
            == h.take(i as int + 1) by {
            assert(h.take(i as int + 1) =~= h.take(i as int).push(h[i as int]));
        }
        cur = n;
        i = i + 1;
    }
    proof {
        lemma_sub_join(b@, pos as int, pos + 16, cur as int);
        assert(b@.subrange(pos as int, pos + 16) == enc_word(count));
    }
    assert forall|h: Seq<ItemV>| items_wf(h) && #[trigger] is_at(b@, pos as int, enc_list(item_parts(h))) implies items_view(out@) == h by {
        assert(h.take(i as int) =~= h);
    }
    Some((out, cur))
}

fn push_pairs(out: &mut Vec<u8>, xs: &Vec<(i64, i64)>)
    ensures
        final(out)@ == old(out)@ + enc_list(pair_parts(xs@)),
{
    let ghost start = out@;
    let ghost parts = pair_parts(xs@);
    push_word(out, xs.len() as u64);
    let ghost mid = out@;
    let mut i: usize = 0;
    while i < xs.len()
        invariant
            0 <= i <= xs.len(),
            parts == pair_parts(xs@),
            mid == start + enc_word(xs@.len() as u64),
            out@ == mid + concat_all(parts.take(i as int)),
        decreases xs.len() - i,
    {
        push_pair(out, xs[i]);
        assert(parts.take(i as int + 1).drop_last() =~= parts.take(i as int));
        assert(parts[i as int] == enc_pair(xs@[i as int]));
        i = i + 1;
    }
    assert(parts.take(i as int) =~= parts);
    assert(out@ =~= start + enc_list(parts));
}

fn parse_pairs(b: &Vec<u8>, pos: usize) -> (r: Option<(Vec<(i64, i64)>, usize)>)
    ensures
        r matches Some((xs, n)) ==> is_at(b@, pos as int, enc_list(pair_parts(xs@))) && n == pos + enc_list(
            pair_parts(xs@),
        ).len() && scalar_days_increasing(xs@),
        forall|h: Seq<(i64, i64)>| scalar_days_increasing(h) && #[trigger] is_at(b@, pos as int, enc_list(pair_parts(h))) ==> (r matches Some((xs, n))
            && xs@ == h),
{
    assert forall|h: Seq<(i64, i64)>| scalar_days_increasing(h) && #[trigger] is_at(b@, pos as int, enc_list(pair_parts(h))) implies is_at(
        b@,
        pos as int,
        enc_word(h.len() as u64),
    ) && h.len() <= b@.len() by {
        lemma_is_at_split(b@, pos as int, enc_word(pair_parts(h).len() as u64), concat_all(pair_parts(h)));
        lemma_concat_len(pair_parts(h));
    }
    let count = match parse_word(b, pos) {
        None => {
            return None;
        },
        Some(c) => c,
    };
    let mut out: Vec<(i64, i64)> = Vec::new();
    let mut cur: usize = pos + 16;
    let mut i: u64 = 0;
    assert(b@.subrange(pos + 16, cur as int) =~= concat_all(pair_parts(out@)));
    while i < count
        invariant
            pos + 16 <= cur <= b.len(),
            out@.len() == i,
            i <= count,
            is_at(b@, pos as int, enc_word(count)),
            b@.subrange(pos + 16, cur as int) == concat_all(pair_parts(out@)),
            scalar_days_increasing(out@),
            forall|h: Seq<(i64, i64)>| scalar_days_increasing(h) && #[trigger] is_at(b@, pos as int, enc_list(pair_parts(h))) ==> count as int == h.len()
                && out@ == h.take(i as int),
        decreases count - i,
    {
        let ghost prev = out@;
        assert forall|h: Seq<(i64, i64)>| scalar_days_increasing(h) && #[trigger] is_at(b@, pos as int, enc_list(pair_parts(h))) implies is_at(
            b@,
            cur as int,
            enc_pair(h[i as int]),
        ) && true by {
            lemma_list_element(b@, pos as int, pair_parts(h), i as int);
            assert(pair_parts(h).take(i as int) =~= pair_parts(prev));
        }
        let (x, n) = match parse_pair(b, cur) {
            None => {
                return None;
            },
            Some(y) => y,
        };
        if out.len() > 0 && out[out.len() - 1].0 >= x.0 {
            assert forall|h: Seq<(i64, i64)>| scalar_days_increasing(h) && #[trigger] is_at(b@, pos as int, enc_list(pair_parts(h))) implies false by {
                assert(out@[i - 1] == h[i - 1]);
            }
            return None;
        }
        proof {
            lemma_sub_join(b@, pos + 16, cur as int, n as int);
        }
        out.push(x);
        proof {
            assert(out@ =~= prev.push(x));
            assert(pair_parts(out@) =~= pair_parts(prev).push(enc_pair(x)));
            assert(pair_parts(out@).drop_last() =~= pair_parts(prev));
        }
        assert forall|h: Seq<(i64, i64)>| scalar_days_increasing(h) && #[trigger] is_at(b@, pos as int, enc_list(pair_parts(h))) implies out@
            == h.take(i as int + 1) by {
            assert(h.take(i as int + 1) =~= h.take(i as int).push(h[i as int]));
        }
        cur = n;
        i = i + 1;
    }
    proof {
        lemma_sub_join(b@, pos as int, pos + 16, cur as int);
        assert(b@.subrange(pos as int, pos + 16) == enc_word(count));
    }
    assert forall|h: Seq<(i64, i64)>| scalar_days_increasing(h) && #[trigger] is_at(b@, pos as int, enc_list(pair_parts(h))) implies out@ == h by {
        assert(h.take(i as int) =~= h);
    }
    Some((out, cur))
}

fn push_days(out: &mut Vec<u8>, xs: &Vec<DayItems>)
    ensures
        final(out)@ == old(out)@ + enc_list(day_parts(days_view(xs@))),
{
    let ghost start = out@;
    let ghost parts = day_parts(days_view(xs@));
    push_word(out, xs.len() as u64);
    let ghost mid = out@;
    let mut i: usize = 0;
    while i < xs.len()
        invariant
            0 <= i <= xs.len(),
            parts == day_parts(days_view(xs@)),
            mid == start + enc_word(xs@.len() as u64),
            out@ == mid + concat_all(parts.take(i as int)),
        decreases xs.len() - i,
    {
        push_day(out, &xs[i]);
        assert(parts.take(i as int + 1).drop_last() =~= parts.take(i as int));
        assert(parts[i as int] == enc_day(xs@[i as int]@));
        i = i + 1;
    }
    assert(parts.take(i as int) =~= parts);
    assert(out@ =~= start + enc_list(parts));
}

fn parse_days(b: &Vec<u8>, pos: usize) -> (r: Option<(Vec<DayItems>, usize)>)
    ensures
        r matches Some((xs, n)) ==> is_at(b@, pos as int, enc_list(day_parts(days_view(xs@)))) && n == pos + enc_list(
            day_parts(days_view(xs@)),
        ).len() && days_wf(days_view(xs@)),
        forall|h: Seq<DayItemsV>| days_wf(h) && #[trigger] is_at(b@, pos as int, enc_list(day_parts(h))) ==> (r matches Some((xs, n))
            && days_view(xs@) == h),
{
    assert forall|h: Seq<DayItemsV>| days_wf(h) && #[trigger] is_at(b@, pos as int, enc_list(day_parts(h))) implies is_at(
        b@,
        pos as int,
        enc_word(h.len() as u64),
    ) && h.len() <= b@.len() by {
        lemma_is_at_split(b@, pos as int, enc_word(day_parts(h).len() as u64), concat_all(day_parts(h)));
        lemma_concat_len(day_parts(h));
    }
    let count = match parse_word(b, pos) {
        None => {
            return None;
        },
        Some(c) => c,
    };
    let mut out: Vec<DayItems> = Vec::new();
    let mut cur: usize = pos + 16;
    let mut i: u64 = 0;
    assert(b@.subrange(pos + 16, cur as int) =~= concat_all(day_parts(days_view(out@))));
    while i < count
        invariant
            pos + 16 <= cur <= b.len(),
            out@.len() == i,
            i <= count,
            is_at(b@, pos as int, enc_word(count)),
            b@.subrange(pos + 16, cur as int) == concat_all(day_parts(days_view(out@))),
            days_wf(days_view(out@)),
            forall|h: Seq<DayItemsV>| days_wf(h) && #[trigger] is_at(b@, pos as int, enc_list(day_parts(h))) ==> count as int == h.len()
                && days_view(out@) == h.take(i as int),
        decreases count - i,
    {
        let ghost prev = days_view(out@);
        assert forall|h: Seq<DayItemsV>| days_wf(h) && #[trigger] is_at(b@, pos as int, enc_list(day_parts(h))) implies is_at(
            b@,
            cur as int,
            enc_day(h[i as int]),
        ) && items_wf(h[i as int].items) by {
            lemma_list_element(b@, pos as int, day_parts(h), i as int);
            assert(day_parts(h).take(i as int) =~= day_parts(prev));
        }
        let (x, n) = match parse_day(b, cur) {
            None => {
                return None;
            },
            Some(y) => y,
        };
        if out.len() > 0 && out[out.len() - 1].day >= x.day {
            assert forall|h: Seq<DayItemsV>| days_wf(h) && #[trigger] is_at(b@, pos as int, enc_list(day_parts(h))) implies false by {
                assert(days_view(out@)[i - 1] == h[i - 1]);
            }
            return None;
        }
        proof {
            lemma_sub_join(b@, pos + 16, cur as int, n as int);
        }
        out.push(x);
        proof {
            assert(days_view(out@) =~= prev.push(x@));
            assert(day_parts(days_view(out@)) =~= day_parts(prev).push(enc_day(x@)));
            assert(day_parts(days_view(out@)).drop_last() =~= day_parts(prev));
        }
        assert forall|h: Seq<DayItemsV>| days_wf(h) && #[trigger] is_at(b@, pos as int, enc_list(day_parts(h))) implies days_view(out@)
            == h.take(i as int + 1) by {
            assert(h.take(i as int + 1) =~= h.take(i as int).push(h[i as int]));
        }
        cur = n;
        i = i + 1;
    }
    proof {
        lemma_sub_join(b@, pos as int, pos + 16, cur as int);
        assert(b@.subrange(pos as int, pos + 16) == enc_word(count));
    }
    assert forall|h: Seq<DayItemsV>| days_wf(h) && #[trigger] is_at(b@, pos as int, enc_list(day_parts(h))) implies days_view(out@) == h by {
        assert(h.take(i as int) =~= h);
    }
    Some((out, cur))
}

pub(crate) fn names_distinct(fs: &Vec<Field>) -> (r: bool)
    ensures
        r == names_unique(fields_view(fs@)),
{
    let mut i: usize = 0;
    while i < fs.len()
        invariant
            0 <= i <= fs.len(),
            forall|a: int, c: int| 0 <= a < i && a < c < fs.len() ==> #[trigger] fs@[a].name@ != #[trigger] fs@[c].name@,
        decreases fs.len() - i,
    {
        let mut j: usize = i + 1;
        while j < fs.len()
            invariant
                i < fs.len(),
                i + 1 <= j <= fs.len(),
                forall|a: int, c: int| 0 <= a < i && a < c < fs.len() ==> #[trigger] fs@[a].name@ != #[trigger] fs@[c].name@,
                forall|c: int| i < c < j ==> fs@[i as int].name@ != #[trigger] fs@[c].name@,
            decreases fs.len() - j,
        {
            if fs[i].name.eq(&fs[j].name) {
                assert(fields_view(fs@)[i as int].name == fields_view(fs@)[j as int].name);
                return false;
            }
            j = j + 1;
        }
        i = i + 1;
    }
    assert forall|a: int, c: int| 0 <= a < c < fields_view(fs@).len() implies #[trigger] fields_view(fs@)[a].name
        != #[trigger] fields_view(fs@)[c].name by {
        assert(fs@[a].name@ != fs@[c].name@);
    }
    true
}

fn push_item(out: &mut Vec<u8>, it: &Item)
    ensures
        final(out)@ == old(out)@ + enc_item(it@),
{
    let ghost start = out@;
    push_fields(out, &it.fields);
    push_int(out, it.result);
    assert(out@ =~= start + enc_item(it@));
}

fn parse_item(b: &Vec<u8>, pos: usize) -> (r: Option<(Item, usize)>)
    ensures
        r matches Some((it, n)) ==> is_at(b@, pos as int, enc_item(it@)) && n == pos + enc_item(it@).len()
            && names_unique(it@.fields),
        forall|h: ItemV| names_unique(h.fields) && #[trigger] is_at(b@, pos as int, enc_item(h)) ==> (r matches Some((it, n))
            && it@ == h),
{
    assert forall|h: ItemV| names_unique(h.fields) && #[trigger] is_at(b@, pos as int, enc_item(h)) implies is_at(
        b@,
        pos as int,
        enc_list(field_parts(h.fields)),
    ) && is_at(b@, pos + enc_fields(h.fields).len(), enc_int(h.result)) by {
        lemma_is_at_split(b@, pos as int, enc_fields(h.fields), enc_int(h.result));
    }
    let (fields, mid) = match parse_fields(b, pos) {
        None => {
            return None;
        },
        Some(x) => x,
    };
    let (result, end) = match parse_int(b, mid) {
        None => {
            return None;
        },
        Some(x) => x,
    };
    proof {
        lemma_sub_join(b@, pos as int, mid as int, end as int);
    }
    Some((Item { fields, result }, end))
}

fn push_day(out: &mut Vec<u8>, d: &DayItems)
    ensures
        final(out)@ == old(out)@ + enc_day(d@),
{
    let ghost start = out@;
    push_int(out, d.day);
    push_items(out, &d.items);
    assert(out@ =~= start + enc_day(d@));
}

fn parse_day(b: &Vec<u8>, pos: usize) -> (r: Option<(DayItems, usize)>)
    ensures
        r matches Some((d, n)) ==> is_at(b@, pos as int, enc_day(d@)) && n == pos + enc_day(d@).len() && items_wf(
            d@.items,
        ),
        forall|h: DayItemsV| items_wf(h.items) && #[trigger] is_at(b@, pos as int, enc_day(h)) ==> (r matches Some((d, n))
            && d@ == h),
{
    assert forall|h: DayItemsV| items_wf(h.items) && #[trigger] is_at(b@, pos as int, enc_day(h)) implies is_at(
        b@,
        pos as int,
        enc_int(h.day),
    ) && is_at(b@, pos + 16, enc_list(item_parts(h.items))) by {
        lemma_is_at_split(b@, pos as int, enc_int(h.day), enc_items(h.items));
    }
    let (day, mid) = match parse_int(b, pos) {
        None => {
            return None;
        },
        Some(x) => x,
    };
    let (items, end) = match parse_items(b, mid) {
        None => {
            return None;
        },
        Some(x) => x,
    };
    proof {
        lemma_sub_join(b@, pos as int, mid as int, end as int);
    }
    Some((DayItems { day, items }, end))
}

/// `v` is a well-formed result of the shape `expected` whose encoding is
/// `bytes`.
pub open spec fn decodes_as(bytes: Seq<u8>, expected: ShapeTag, v: ShapeV) -> bool {
    &&& well_encoded(bytes, v)
    &&& v.tag() == expected
}

/// What `decode` promises of its outcome `r` on `bytes` and `expected`:
/// the value that the bytes encode, `ShapeMismatch` exactly when they
/// encode a well-formed result of another shape, and `Malformed` when they
/// encode no well-formed result at all.
pub open spec fn decode_post(bytes: Seq<u8>, expected: ShapeTag, r: Result<ResultShape, CodecError>) -> bool {
    &&& r matches Ok(v) ==> decodes_as(bytes, expected, v@)
    &&& (r == Err::<ResultShape, CodecError>(CodecError::ShapeMismatch)) <==> encodes_other(bytes, expected)
    &&& r == Err::<ResultShape, CodecError>(CodecError::Malformed) ==> forall|w: ShapeV| !well_encoded(bytes, w)
    &&& forall|v: ShapeV| #[trigger] decodes_as(bytes, expected, v) ==> (r matches Ok(x) && x@ == v)
}

fn shape_byte(t: ShapeTag) -> (r: u8)
    ensures
        r == tag_byte(t),
{
    match t {
        ShapeTag::Scalar => TAG_SCALAR,
        ShapeTag::ItemList => TAG_ITEMS,
        ShapeTag::DailyScalar => TAG_DAILY_SCALAR,
        ShapeTag::DailyItems => TAG_DAILY_ITEMS,
    }
}

fn byte_shape(b: u8) -> (r: Option<ShapeTag>)
    ensures
        r == tag_of_byte(b),
{
    if b == TAG_SCALAR {
        Some(ShapeTag::Scalar)
    } else if b == TAG_ITEMS {
        Some(ShapeTag::ItemList)
    } else if b == TAG_DAILY_SCALAR {
        Some(ShapeTag::DailyScalar)
    } else if b == TAG_DAILY_ITEMS {
        Some(ShapeTag::DailyItems)
    } else {
        None
    }
}

/// Writes a result as bytes: its shape letter, then its payload. Equal
/// values give equal bytes.
pub fn encode(v: &ResultShape) -> (r: Vec<u8>)
    ensures
        r@ == encode_spec(v@),
{
    let mut out: Vec<u8> = Vec::new();
    out.push(shape_byte(v.tag()));
    match v {
        ResultShape::Scalar(n) => push_int(&mut out, *n),
        ResultShape::ItemList(items) => push_items(&mut out, items),
        ResultShape::DailyScalar(days) => push_pairs(&mut out, days),
        ResultShape::DailyItems(days) => push_days(&mut out, days),
    }
    assert(out@ =~= encode_spec(v@));
    out
}

/// The payload of a result of the shape `expected`, from byte one on.
fn parse_payload(bytes: &Vec<u8>, expected: ShapeTag) -> (r: Option<(ResultShape, usize)>)
    ensures
        r matches Some((v, n)) ==> v@.wf() && v@.tag() == expected && is_at(bytes@, 1, payload(v@)) && n == 1
            + payload(v@).len(),
        forall|v: ShapeV| v.wf() && v.tag() == expected && #[trigger] is_at(bytes@, 1, payload(v)) ==> (r matches Some((x, n))
            && x@ == v),
{
    match expected {
        ShapeTag::Scalar => match parse_int(bytes, 1) {
            Some((x, n)) => Some((ResultShape::Scalar(x), n)),
            None => None,
        },
        ShapeTag::ItemList => match parse_items(bytes, 1) {
            Some((x, n)) => Some((ResultShape::ItemList(x), n)),
            None => None,
        },
        ShapeTag::DailyScalar => match parse_pairs(bytes, 1) {
            Some((x, n)) => Some((ResultShape::DailyScalar(x), n)),
            None => None,
        },
        ShapeTag::DailyItems => match parse_days(bytes, 1) {
            Some((x, n)) => Some((ResultShape::DailyItems(x), n)),
            None => None,
        },
    }
}

/// Reads back a result of the shape `expected` from bytes that `encode`
/// wrote. Bytes that encode a result of another shape give
/// `ShapeMismatch`; bytes that encode no well-formed result give
/// `Malformed`.
pub fn decode(bytes: &Vec<u8>, expected: ShapeTag) -> (r: Result<ResultShape, CodecError>)
    ensures
        decode_post(bytes@, expected, r),
{
    assert forall|w: ShapeV| #[trigger] well_encoded(bytes@, w) implies bytes@.len() >= 1 && tag_of_byte(bytes@[0])
        == Some(w.tag()) && is_at(bytes@, 1, payload(w)) && bytes@.len() == 1 + payload(w).len() by {
        assert(bytes@.subrange(0, bytes@.len() as int) =~= bytes@);
        lemma_is_at_split(bytes@, 0, seq![tag_byte(w.tag())], payload(w));
        assert(bytes@[0] == bytes@.subrange(0, 1)[0]);
    }
    if bytes.len() == 0 {
        return Err(CodecError::Malformed);
    }
    let announced = match byte_shape(bytes[0]) {
        None => {
            return Err(CodecError::Malformed);
        },
        Some(a) => a,
    };
    match parse_payload(bytes, announced) {
        Some((v, n)) => {
            if n == bytes.len() {
                proof {
                    assert(bytes@ =~= seq![bytes@[0]] + bytes@.subrange(1, n as int));
                    assert(well_encoded(bytes@, v@));
                }
                if announced == expected {
                    Ok(v)
                } else {
                    Err(CodecError::ShapeMismatch)
                }
            } else {
                Err(CodecError::Malformed)
            }
        },
        None => Err(CodecError::Malformed),
    }
}

/// Decoding the encoding of a well-formed result, with its own shape,
/// gives that result back.
pub proof fn lemma_round_trip(v: ShapeV, r: Result<ResultShape, CodecError>)
    requires
        v.wf(),
        decode_post(encode_spec(v), v.tag(), r),
    ensures
        r matches Ok(x) && x@ == v,
{
    assert(decodes_as(encode_spec(v), v.tag(), v));
}

/// Decoding the encoding of a well-formed result with the shape of another
/// result of a different shape always gives `ShapeMismatch`.
pub proof fn lemma_shape_mismatch(v: ShapeV, w: ShapeV, r: Result<ResultShape, CodecError>)
    requires
        v.wf(),
        v.tag() != w.tag(),
        decode_post(encode_spec(v), w.tag(), r),
    ensures
        r == Err::<ResultShape, CodecError>(CodecError::ShapeMismatch),
{
    assert(well_encoded(encode_spec(v), v));
}

proof fn lemma_ascii_valid(b: Seq<u8>)
    requires
        forall|i: int| 0 <= i < b.len() ==> #[trigger] b[i] <= 0x7f,
    ensures
        valid_utf8(b),
    decreases b.len(),
{
    if b.len() > 0 {
        assert(valid_first_scalar(b));
        assert(pop_first_scalar(b) =~= b.subrange(1, b.len() as int));
        lemma_ascii_valid(b.subrange(1, b.len() as int));
    }
}

proof fn lemma_low_nibble(x: u64, s: u64)
    ensures
        (x >> s) & 15 < 16,
{
    assert((x >> s) & 15 < 16) by (bit_vector);
}

proof fn lemma_word_valid(x: u64)
    ensures
        valid_utf8(enc_word(x)),
{
    assert forall|i: int| 0 <= i < enc_word(x).len() implies #[trigger] enc_word(x)[i] <= 0x7f by {
        lemma_low_nibble(x, (60 - 4 * i) as u64);
    }
    lemma_ascii_valid(enc_word(x));
}

proof fn lemma_byte_valid(b: u8)
    requires
        b <= 0x7f,
    ensures
        valid_utf8(seq![b]),
{
    lemma_ascii_valid(seq![b]);
}

proof fn lemma_str_valid(s: Seq<char>)
    ensures
        valid_utf8(enc_str(s)),
{
    lemma_word_valid(encode_utf8(s).len() as u64);
}

proof fn lemma_field_valid(f: FieldV)
    ensures
        valid_utf8(enc_field(f)),
{
    lemma_str_valid(f.name);
    match f.value {
        FieldValueV::Text(t) => {
            lemma_byte_valid(TAG_TEXT);
            lemma_str_valid(t);
            assert(valid_utf8(seq![TAG_TEXT] + enc_str(t)));
            assert(enc_value(f.value) == seq![TAG_TEXT] + enc_str(t));
        },
        FieldValueV::Number(n) => {
            lemma_byte_valid(TAG_NUMBER);
            lemma_word_valid(n as u64);
            assert(valid_utf8(seq![TAG_NUMBER] + enc_int(n)));
        },
    }
    vstd::utf8::valid_utf8_concat(enc_str(f.name), enc_value(f.value));
}

proof fn lemma_concat_valid(parts: Seq<Seq<u8>>)
    requires
        forall|i: int| 0 <= i < parts.len() ==> valid_utf8(#[trigger] parts[i]),
    ensures
        valid_utf8(concat_all(parts)),
    decreases parts.len(),
{
    if parts.len() > 0 {
        lemma_concat_valid(parts.drop_last());
    } else {
        assert(valid_utf8(Seq::<u8>::empty()));
    }
}

proof fn lemma_list_valid(parts: Seq<Seq<u8>>)
    requires
        forall|i: int| 0 <= i < parts.len() ==> valid_utf8(#[trigger] parts[i]),
    ensures
        valid_utf8(enc_list(parts)),
{
    lemma_word_valid(parts.len() as u64);
    lemma_concat_valid(parts);
}

proof fn lemma_item_valid(it: ItemV)
    ensures
        valid_utf8(enc_item(it)),
{
    assert forall|i: int| 0 <= i < field_parts(it.fields).len() implies valid_utf8(#[trigger] field_parts(it.fields)[i]) by {
        lemma_field_valid(it.fields[i]);
    }
    lemma_list_valid(field_parts(it.fields));
    lemma_word_valid(it.result as u64);
}

proof fn lemma_items_valid(items: Seq<ItemV>)
    ensures
        valid_utf8(enc_items(items)),
{
    assert forall|i: int| 0 <= i < item_parts(items).len() implies valid_utf8(#[trigger] item_parts(items)[i]) by {
        lemma_item_valid(items[i]);
    }
    lemma_list_valid(item_parts(items));
}

/// Every encoding is valid UTF-8 text.
proof fn lemma_encoding_valid(v: ShapeV)
    ensures
        valid_utf8(encode_spec(v)),
{
    lemma_byte_valid(tag_byte(v.tag()));
    match v {
        ShapeV::Scalar(n) => lemma_word_valid(n as u64),
        ShapeV::ItemList(items) => lemma_items_valid(items),
        ShapeV::DailyScalar(days) => {
            assert forall|i: int| 0 <= i < pair_parts(days).len() implies valid_utf8(#[trigger] pair_parts(days)[i]) by {
                lemma_word_valid(days[i].0 as u64);
                lemma_word_valid(days[i].1 as u64);
            }
            lemma_list_valid(pair_parts(days));
        },
        ShapeV::DailyItems(days) => {
            assert forall|i: int| 0 <= i < day_parts(days).len() implies valid_utf8(#[trigger] day_parts(days)[i]) by {
                lemma_word_valid(days[i].day as u64);
                lemma_items_valid(days[i].items);
            }
            lemma_list_valid(day_parts(days));
        },
    }
}

/// The encoding of a result as a string: its bytes are exactly those that
/// `encode` writes.
pub fn to_text(v: &ResultShape) -> (r: String)
    ensures
        encode_utf8(r@) == encode_spec(v@),
{
    proof {
        lemma_encoding_valid(v@);
    }
    match string_from_utf8(encode(v)) {
        Some(s) => s,
        None => String::new(),
    }
}

} // verus!
