//! The payloads of the columns of a raw segment, before compression.

use vstd::prelude::*;

use crate::bytes;
use crate::bytes::{push_le, read_le};
use crate::model::dimensions;
use crate::model::dimensions::SmallDimensions;
use crate::model::event;
use crate::model::event::{EventKind, EventModel, UsageEvent};
use crate::storage::encoding;
use crate::storage::encoding::{
    decode_deltas, encode_deltas, pack_quantities, rle_decode, rle_encode, unpack_quantities,
    DictionaryEncoder,
};
use crate::storage::segment_format::Encoding;
use crate::storage::wire;
use crate::text;
use crate::textmap;

verus! {

// ---------------------------------------------------------------------------
// Words
// ---------------------------------------------------------------------------

/// Numbers of `width` bytes each, one after the other.
pub open spec fn words(values: Seq<int>, width: nat) -> Seq<u8>
    decreases values.len(),
{
    if values.len() == 0 {
        Seq::empty()
    } else {
        words(values.drop_last(), width) + bytes::le_bytes(values.last(), width)
    }
}

/// The `i`-th number of `width` bytes.
pub open spec fn word_at(p: Seq<u8>, i: int, width: int) -> int {
    bytes::le_value(p.subrange(width * i, width * i + width))
}

pub proof fn lemma_words(values: Seq<int>, width: nat, tail: Seq<u8>)
    requires
        forall|i: int| 0 <= i < values.len() ==> 0 <= #[trigger] values[i] < bytes::pow256(width),
    ensures
        words(values, width).len() == width * values.len(),
        forall|i: int|
            0 <= i < values.len() ==> #[trigger] word_at(words(values, width) + tail, i, width as int)
                == values[i],
    decreases values.len(),
{
    let all = words(values, width);
    if values.len() > 0 {
        let init = values.drop_last();
        let last = bytes::le_bytes(values.last(), width);
        let n = init.len() as int;
        assert forall|i: int| 0 <= i < init.len() implies 0 <= #[trigger] init[i] < bytes::pow256(
            width,
        ) by {
            assert(init[i] == values[i]);
        }
        lemma_words(init, width, last + tail);
        bytes::lemma_le_round_trip(values[n], width);
        assert(width * values.len() == width * n + width) by (nonlinear_arith)
            requires
                values.len() == n + 1,
        ;
        assert(all + tail =~= words(init, width) + (last + tail));
        assert forall|i: int| 0 <= i < values.len() implies #[trigger] word_at(
            all + tail,
            i,
            width as int,
        ) == values[i] by {
            if i < n {
                assert(word_at(words(init, width) + (last + tail), i, width as int) == init[i]);
            } else {
                assert((all + tail).subrange(width * i, width * i + width) =~= last);
            }
        }
    } else {
        assert(width * values.len() == 0) by (nonlinear_arith)
            requires
                values.len() == 0,
        ;
    }
}

proof fn lemma_word_range(p: Seq<u8>, i: int, n: int, width: int)
    requires
        0 <= i < n,
        width >= 0,
        width * n <= p.len(),
    ensures
        0 <= width * i,
        width * i + width <= p.len(),
        0 <= word_at(p, i, width) < bytes::pow256(width as nat),
{
    assert(width * i + width <= width * n && 0 <= width * i) by (nonlinear_arith)
        requires
            0 <= i < n,
            width >= 0,
    ;
    bytes::lemma_le_value_bound(p.subrange(width * i, width * i + width));
}

// ---------------------------------------------------------------------------
// Event ids
// ---------------------------------------------------------------------------

/// The texts of a plain column, where there are `rows` of them.
pub open spec fn plain_texts(p: Seq<u8>, rows: nat) -> Option<Seq<Seq<char>>> {
    match wire::texts_at(p) {
        Some(v) => if v.len() == rows {
            Some(v)
        } else {
            None
        },
        None => None,
    }
}

pub(crate) fn read_plain_texts(p: &[u8], rows: usize) -> (r: Option<Vec<String>>)
    ensures
        match r {
            Some(v) => plain_texts(p@, rows as nat) == Some(text::text_views(v@)),
            None => plain_texts(p@, rows as nat) is None,
        },
{
    match wire::read_texts(p) {
        Some(v) => if v.len() == rows {
            Some(v)
        } else {
            None
        },
        None => None,
    }
}

/// The event ids of events.
pub open spec fn event_ids(events: Seq<EventModel>) -> Seq<Seq<char>> {
    events.map_values(|e: EventModel| e.event_id)
}

pub(crate) fn write_event_ids(events: &Vec<UsageEvent>) -> (r: Vec<u8>)
    ensures
        r@ == wire::texts_wire(event_ids(event::event_views(events@))),
        plain_texts(r@, events@.len()) == Some(event_ids(event::event_views(events@))),
{
    let ghost all = event::event_views(events@);
    let mut ids: Vec<String> = Vec::new();
    for i in 0..events.len()
        invariant
            all == event::event_views(events@),
            text::text_views(ids@) == event_ids(all).take(i as int),
    {
        let id = events[i].event_id.0.clone();
        proof {
            text::lemma_texts_push(ids@, id);
        }
        ids.push(id);
        assert(text::text_views(ids@) =~= event_ids(all).take(i + 1));
    }
    assert(text::text_views(ids@) =~= event_ids(all));
    let r = wire::write_texts(ids.as_slice());
    assert(r@.len() == r.len());
    proof {
        wire::lemma_texts_round_trip(text::text_views(ids@));
    }
    r
}

// ---------------------------------------------------------------------------
// Dictionary columns
// ---------------------------------------------------------------------------

/// The fields that are kept with a dictionary.
#[derive(Debug, Clone, Copy, PartialEq, Eq, Structural)]
pub enum Label {
    Account,
    Subscription,
    Product,
    Meter,
    Unit,
    Source,
    Model,
}

/// What an event has in such a field.
pub open spec fn label_of(e: EventModel, label: Label) -> Option<Seq<char>> {
    match label {
        Label::Account => Some(e.account_id),
        Label::Subscription => e.subscription_id,
        Label::Product => Some(e.product_id),
        Label::Meter => Some(e.meter_id),
        Label::Unit => Some(e.unit),
        Label::Source => Some(e.source),
        Label::Model => e.model_id,
    }
}

/// What events have in such a field.
pub open spec fn labels_of(events: Seq<EventModel>, label: Label) -> Seq<Option<Seq<char>>> {
    events.map_values(|e: EventModel| label_of(e, label))
}

fn label_text<'a>(e: &'a UsageEvent, label: Label) -> (r: Option<&'a String>)
    ensures
        match r {
            Some(s) => label_of(e@, label) == Some(s@),
            None => label_of(e@, label) is None,
        },
{
    match label {
        Label::Account => Some(&e.account_id.0),
        Label::Subscription => match &e.subscription_id {
            Some(s) => Some(&s.0),
            None => None,
        },
        Label::Product => Some(&e.product_id.0),
        Label::Meter => Some(&e.meter_id.0),
        Label::Unit => Some(&e.unit.0),
        Label::Source => Some(&e.source.0),
        Label::Model => match &e.model_id {
            Some(m) => Some(&m.0),
            None => None,
        },
    }
}

/// What the number `n` stands for: nothing, or the text before the `n`-th place
/// of the dictionary.
pub open spec fn entry_of(dict: Seq<Seq<char>>, n: int) -> Option<Seq<char>> {
    if n == 0 {
        None
    } else {
        Some(dict[n - 1])
    }
}

/// The values of a dictionary column of `rows` rows.
pub open spec fn dictionary_values(p: Seq<u8>, rows: nat) -> Option<Seq<Option<Seq<char>>>> {
    if p.len() < 4 * rows {
        None
    } else {
        match wire::texts_at(p.skip(4 * rows as int)) {
            None => None,
            Some(dict) => if forall|i: int| 0 <= i < rows ==> #[trigger] word_at(p, i, 4)
                <= dict.len() {
                Some(Seq::new(rows, |i: int| entry_of(dict, word_at(p, i, 4))))
            } else {
                None
            },
        }
    }
}

/// The texts among labels, in the order of their first appearance.
pub open spec fn dictionary_of(labels: Seq<Option<Seq<char>>>) -> Seq<Seq<char>>
    decreases labels.len(),
{
    if labels.len() == 0 {
        Seq::empty()
    } else {
        match labels.last() {
            None => dictionary_of(labels.drop_last()),
            Some(s) => encoding::with_text(dictionary_of(labels.drop_last()), s),
        }
    }
}

/// The number that stands for a label: zero for none, and one above the text's
/// place in the dictionary.
pub open spec fn number_of(dict: Seq<Seq<char>>, label: Option<Seq<char>>) -> int {
    match label {
        None => 0,
        Some(s) => dict.index_of(s) + 1,
    }
}

/// A dictionary column: a number of four bytes for each row, and the dictionary.
pub open spec fn dictionary_bytes(labels: Seq<Option<Seq<char>>>) -> Seq<u8> {
    let dict = dictionary_of(labels);
    words(labels.map_values(|l: Option<Seq<char>>| number_of(dict, l)), 4) + wire::texts_wire(dict)
}

proof fn lemma_dictionary_distinct(labels: Seq<Option<Seq<char>>>)
    ensures
        encoding::texts_distinct(dictionary_of(labels)),
    decreases labels.len(),
{
    if labels.len() > 0 {
        lemma_dictionary_distinct(labels.drop_last());
        let before = dictionary_of(labels.drop_last());
        let dict = dictionary_of(labels);
        assert forall|i: int, j: int| 0 <= i < j < dict.len() implies #[trigger] dict[i]
            != #[trigger] dict[j] by {
            if j < before.len() {
                assert(before[i] != before[j]);
            } else {
                assert(before.contains(before[i]));
            }
        }
    }
}

spec fn numbers_fit(
    numbers: Seq<u32>,
    dict: Seq<Seq<char>>,
    labels: Seq<Option<Seq<char>>>,
) -> bool {
    &&& numbers.len() <= labels.len()
    &&& forall|i: int|
        0 <= i < numbers.len() ==> (#[trigger] numbers[i]) as int <= dict.len() && entry_of(
            dict,
            numbers[i] as int,
        ) == labels[i]
}

spec fn as_ints(numbers: Seq<u32>) -> Seq<int> {
    numbers.map_values(|n: u32| n as int)
}

pub(crate) fn write_labels(events: &Vec<UsageEvent>, label: Label) -> (r: Vec<u8>)
    requires
        events@.len() <= u32::MAX,
    ensures
        r@ == dictionary_bytes(labels_of(event::event_views(events@), label)),
        dictionary_values(r@, events@.len()) == Some(
            labels_of(event::event_views(events@), label),
        ),
{
    let ghost all = event::event_views(events@);
    let ghost labels = labels_of(all, label);
    let mut dict = DictionaryEncoder::new();
    let mut out: Vec<u8> = Vec::new();
    let ghost mut numbers: Seq<u32> = Seq::empty();
    assert(as_ints(numbers) =~= Seq::empty());
    for i in 0..events.len()
        invariant
            events@.len() <= u32::MAX,
            all == event::event_views(events@),
            labels == labels_of(all, label),
            dict.wf(),
            dict@ == dictionary_of(labels.take(i as int)),
            dict@.len() <= i,
            numbers.len() == i,
            numbers_fit(numbers, dict@, labels),
            out@ == words(as_ints(numbers), 4),
    {
        assert(labels[i as int] == label_of(events@[i as int]@, label));
        assert(labels.take(i + 1).drop_last() =~= labels.take(i as int));
        assert(labels.take(i + 1).last() == labels[i as int]);
        let ghost before = dict@;
        let n: u32 = match label_text(&events[i], label) {
            None => 0,
            Some(s) => dict.encode(s.as_str()) + 1,
        };
        push_le(&mut out, n as u128, 4);
        proof {
            let grown = numbers.push(n);
            assert(as_ints(grown).drop_last() =~= as_ints(numbers));
            assert(as_ints(grown).last() == n as int);
            assert forall|k: int| 0 <= k < grown.len() implies (#[trigger] grown[k]) as int
                <= dict@.len() && entry_of(dict@, grown[k] as int) == labels[k] by {
                if k < i {
                    assert(grown[k] == numbers[k]);
                    assert(numbers[k] as int <= before.len());
                    assert(entry_of(before, numbers[k] as int) == labels[k]);
                }
            }
            numbers = grown;
        }
    }
    let ghost head = out@;
    let mut texts = wire::write_texts(dict.get_dictionary());
    let ghost tail = texts@;
    assert(texts@.len() == texts.len());
    out.append(&mut texts);
    proof {
        let rows = events@.len();
        bytes::lemma_pow256_values();
        lemma_words(as_ints(numbers), 4, tail);
        wire::lemma_texts_round_trip(dict@);
        assert(out@ =~= head + tail);
        assert(out@.skip(4 * rows as int) =~= tail);
        assert forall|i: int| 0 <= i < rows implies #[trigger] word_at(out@, i, 4)
            <= dict@.len() && entry_of(dict@, word_at(out@, i, 4)) == labels[i] by {
            assert(word_at(out@, i, 4) == as_ints(numbers)[i]);
            assert(numbers[i] as int <= dict@.len());
        }
        assert(Seq::new(rows, |i: int| entry_of(dict@, word_at(out@, i, 4))) =~= labels);
        assert(labels.take(labels.len() as int) =~= labels);
        lemma_dictionary_distinct(labels);
        let whole = labels.map_values(|l: Option<Seq<char>>| number_of(dict@, l));
        assert forall|i: int| 0 <= i < rows implies as_ints(numbers)[i] == whole[i] by {
            assert(entry_of(dict@, numbers[i] as int) == labels[i]);
            if labels[i] is Some {
                assert(dict@[numbers[i] as int - 1] == labels[i]->0);
                assert(dict@[dict@.index_of(labels[i]->0)] == labels[i]->0);
            }
        }
        assert(as_ints(numbers) =~= whole);
    }
    out
}

fn read_labels(p: &[u8], rows: usize) -> (r: Option<Vec<Option<String>>>)
    ensures
        match r {
            Some(v) => dictionary_values(p@, rows as nat) == Some(text::option_views(v@)),
            None => dictionary_values(p@, rows as nat) is None,
        },
{
    assert(p@.len() == p.len());
    if p.len() / 4 < rows {
        return None;
    }
    let start: usize = 4 * rows;
    let tail = vstd::slice::slice_subrange(p, start, p.len());
    assert(tail@ =~= p@.skip(4 * rows as int));
    let dict = match wire::read_texts(tail) {
        None => {
            return None;
        },
        Some(d) => d,
    };
    let ghost texts = text::text_views(dict@);
    let mut out: Vec<Option<String>> = Vec::new();
    for i in 0..rows
        invariant
            4 * rows <= p@.len(),
            p@.len() == p.len(),
            texts == text::text_views(dict@),
            wire::texts_at(p@.skip(4 * rows as int)) == Some(texts),
            out@.len() == i,
            forall|k: int|
                0 <= k < i ==> #[trigger] word_at(p@, k, 4) <= texts.len() && text::option_views(out@)[k]
                    == entry_of(texts, word_at(p@, k, 4)),
    {
        proof {
            lemma_word_range(p@, i as int, rows as int, 4);
            bytes::lemma_pow256_values();
        }
        let n: usize = read_le(p, 4 * i, 4) as usize;
        assert(n == word_at(p@, i as int, 4));
        let ghost before = out@;
        if n > dict.len() {
            return None;
        }
        let value: Option<String> = if n == 0 {
            None
        } else {
            Some(dict[n - 1].clone())
        };
        out.push(value);
        assert forall|k: int| 0 <= k < i + 1 implies #[trigger] word_at(p@, k, 4) <= texts.len()
            && text::option_views(out@)[k] == entry_of(texts, word_at(p@, k, 4)) by {
            if k < i {
                assert(text::option_views(out@)[k] == text::option_views(before)[k]);
            }
        }
    }
    assert(text::option_views(out@) =~= Seq::new(
        rows as nat,
        |i: int| entry_of(texts, word_at(p@, i, 4)),
    ));
    Some(out)
}

/// The optional texts of a plain column, where there are `rows` of them.
pub open spec fn plain_options(p: Seq<u8>, rows: nat) -> Option<Seq<Option<Seq<char>>>> {
    match wire::options_at(p) {
        Some(v) => if v.len() == rows {
            Some(v)
        } else {
            None
        },
        None => None,
    }
}

fn read_plain_options(p: &[u8], rows: usize) -> (r: Option<Vec<Option<String>>>)
    ensures
        match r {
            Some(v) => plain_options(p@, rows as nat) == Some(text::option_views(v@)),
            None => plain_options(p@, rows as nat) is None,
        },
{
    match wire::read_options(p) {
        Some(v) => if v.len() == rows {
            Some(v)
        } else {
            None
        },
        None => None,
    }
}

/// The optional texts of a column of `rows` rows.
pub open spec fn option_values(encoding: Encoding, p: Seq<u8>, rows: nat) -> Option<
    Seq<Option<Seq<char>>>,
> {
    match encoding {
        Encoding::Plain => plain_options(p, rows),
        Encoding::Dictionary => dictionary_values(p, rows),
        _ => None,
    }
}

pub(crate) fn read_options(encoding: Encoding, p: &[u8], rows: usize) -> (r: Option<
    Vec<Option<String>>,
>)
    ensures
        match r {
            Some(v) => option_values(encoding, p@, rows as nat) == Some(text::option_views(v@)),
            None => option_values(encoding, p@, rows as nat) is None,
        },
{
    match encoding {
        Encoding::Plain => read_plain_options(p, rows),
        Encoding::Dictionary => read_labels(p, rows),
        _ => None,
    }
}

// ---------------------------------------------------------------------------
// Times
// ---------------------------------------------------------------------------

/// The signed number whose eight-byte form denotes `u`.
pub open spec fn signed64(u: int) -> int {
    if u > i64::MAX {
        u - 0x1_0000_0000_0000_0000
    } else {
        u
    }
}

/// The times of a delta column of `rows` rows.
pub open spec fn delta_values(p: Seq<u8>, rows: nat) -> Option<Seq<i64>> {
    if p.len() != 8 * rows {
        None
    } else {
        Some(encoding::sums_of(Seq::new(rows, |i: int| signed64(word_at(p, i, 8)) as i64)))
    }
}

pub open spec fn unsigned_words(values: Seq<i64>) -> Seq<int> {
    values.map_values(|v: i64| bytes::unsigned64(v as int))
}

/// A delta column: each difference in eight bytes.
pub open spec fn delta_bytes(values: Seq<i64>) -> Seq<u8> {
    words(unsigned_words(encoding::deltas_of(values)), 8)
}

pub(crate) fn write_times(values: &Vec<i64>) -> (r: Vec<u8>)
    ensures
        r@ == delta_bytes(values@),
        delta_values(r@, values@.len()) == Some(values@),
{
    let deltas = encode_deltas(values.as_slice());
    let mut out: Vec<u8> = Vec::new();
    assert(unsigned_words(deltas@.take(0)) =~= Seq::empty());
    for i in 0..deltas.len()
        invariant
            out@ == words(unsigned_words(deltas@.take(i as int)), 8),
    {
        let d: i64 = deltas[i];
        let u: u128 = bytes::unsigned64_of(d);
        push_le(&mut out, u, 8);
        proof {
            let now = unsigned_words(deltas@.take(i + 1));
            assert(now.drop_last() =~= unsigned_words(deltas@.take(i as int)));
            assert(now.last() == u as int);
        }
    }
    proof {
        let w = unsigned_words(deltas@);
        assert(deltas@.take(deltas@.len() as int) =~= deltas@);
        bytes::lemma_pow256_values();
        lemma_words(w, 8, Seq::empty());
        assert(out@ + Seq::<u8>::empty() =~= out@);
        let read = Seq::new(values@.len(), |i: int| signed64(word_at(out@, i, 8)) as i64);
        assert forall|i: int| 0 <= i < values@.len() implies read[i] == deltas@[i] by {
            assert(word_at(out@ + Seq::<u8>::empty(), i, 8) == w[i]);
        }
        assert(read =~= deltas@);
        encoding::law_deltas_round_trip(values@);
    }
    out
}

fn read_times(p: &[u8], rows: usize) -> (r: Option<Vec<i64>>)
    ensures
        match r {
            Some(v) => delta_values(p@, rows as nat) == Some(v@) && v@.len() == rows,
            None => delta_values(p@, rows as nat) is None,
        },
{
    assert(p@.len() == p.len());
    if p.len() % 8 != 0 || p.len() / 8 != rows {
        return None;
    }
    let mut deltas: Vec<i64> = Vec::new();
    for i in 0..rows
        invariant
            p@.len() == 8 * rows,
            p@.len() == p.len(),
            deltas@.len() == i,
            forall|k: int|
                0 <= k < i ==> (#[trigger] deltas@[k]) as int == signed64(word_at(p@, k, 8)),
    {
        proof {
            lemma_word_range(p@, i as int, rows as int, 8);
            bytes::lemma_pow256_values();
        }
        let u: u128 = read_le(p, 8 * i, 8);
        let d: i64 = if u > i64::MAX as u128 {
            (u as i128 - 0x1_0000_0000_0000_0000) as i64
        } else {
            u as i64
        };
        deltas.push(d);
    }
    assert(deltas@ =~= Seq::new(rows as nat, |i: int| signed64(word_at(p@, i, 8)) as i64));
    proof {
        encoding::lemma_sums_len(deltas@);
    }
    Some(decode_deltas(deltas.as_slice()))
}

/// The times of a plain column, where there are `rows` of them.
pub open spec fn plain_times(p: Seq<u8>, rows: nat) -> Option<Seq<i64>> {
    match wire::times_at(p) {
        Some(v) => if v.len() == rows {
            Some(v)
        } else {
            None
        },
        None => None,
    }
}

fn read_plain_times(p: &[u8], rows: usize) -> (r: Option<Vec<i64>>)
    ensures
        match r {
            Some(v) => plain_times(p@, rows as nat) == Some(v@),
            None => plain_times(p@, rows as nat) is None,
        },
{
    match wire::read_times(p) {
        Some(v) => if v.len() == rows {
            Some(v)
        } else {
            None
        },
        None => None,
    }
}

/// The times of a column of `rows` rows.
pub open spec fn time_values(encoding: Encoding, p: Seq<u8>, rows: nat) -> Option<Seq<i64>> {
    match encoding {
        Encoding::Plain => plain_times(p, rows),
        Encoding::Delta => delta_values(p, rows),
        _ => None,
    }
}

pub(crate) fn read_time_values(encoding: Encoding, p: &[u8], rows: usize) -> (r: Option<Vec<i64>>)
    ensures
        match r {
            Some(v) => time_values(encoding, p@, rows as nat) == Some(v@) && v@.len() == rows,
            None => time_values(encoding, p@, rows as nat) is None,
        },
{
    match encoding {
        Encoding::Plain => read_plain_times(p, rows),
        Encoding::Delta => read_times(p, rows),
        _ => None,
    }
}

// ---------------------------------------------------------------------------
// Quantities
// ---------------------------------------------------------------------------

/// The quantities of a packed column, where there are `rows` of them.
pub open spec fn packed_values(p: Seq<u8>, rows: nat) -> Option<Seq<i128>> {
    match encoding::unpacked(p) {
        Some(v) => if v.len() == rows {
            Some(v)
        } else {
            None
        },
        None => None,
    }
}

pub(crate) fn write_quantities(values: &Vec<i128>) -> (r: Vec<u8>)
    ensures
        r@ == encoding::packed(values@),
        packed_values(r@, values@.len()) == Some(values@),
{
    proof {
        encoding::law_packing_round_trip(values@);
    }
    pack_quantities(values.as_slice())
}

fn read_quantities(p: &[u8], rows: usize) -> (r: Option<Vec<i128>>)
    ensures
        match r {
            Some(v) => packed_values(p@, rows as nat) == Some(v@),
            None => packed_values(p@, rows as nat) is None,
        },
{
    match unpack_quantities(p) {
        Some(v) => if v.len() == rows {
            Some(v)
        } else {
            None
        },
        None => None,
    }
}

/// The quantities of a plain column, where there are `rows` of them.
pub open spec fn plain_quantities(p: Seq<u8>, rows: nat) -> Option<Seq<i128>> {
    match wire::quantities_at(p) {
        Some(v) => if v.len() == rows {
            Some(v)
        } else {
            None
        },
        None => None,
    }
}

fn read_plain_quantities(p: &[u8], rows: usize) -> (r: Option<Vec<i128>>)
    ensures
        match r {
            Some(v) => plain_quantities(p@, rows as nat) == Some(v@),
            None => plain_quantities(p@, rows as nat) is None,
        },
{
    match wire::read_quantities(p) {
        Some(v) => if v.len() == rows {
            Some(v)
        } else {
            None
        },
        None => None,
    }
}

/// The quantities of a column of `rows` rows.
pub open spec fn quantity_values(encoding: Encoding, p: Seq<u8>, rows: nat) -> Option<Seq<i128>> {
    match encoding {
        Encoding::Plain => plain_quantities(p, rows),
        Encoding::ZigzagVarint => packed_values(p, rows),
        _ => None,
    }
}

pub(crate) fn read_quantity_values(encoding: Encoding, p: &[u8], rows: usize) -> (r: Option<
    Vec<i128>,
>)
    ensures
        match r {
            Some(v) => quantity_values(encoding, p@, rows as nat) == Some(v@),
            None => quantity_values(encoding, p@, rows as nat) is None,
        },
{
    match encoding {
        Encoding::Plain => read_plain_quantities(p, rows),
        Encoding::ZigzagVarint => read_quantities(p, rows),
        _ => None,
    }
}

// ---------------------------------------------------------------------------
// Kinds
// ---------------------------------------------------------------------------

/// Runs as bytes: the kind's number, and the length in four bytes.
pub open spec fn run_bytes(runs: Seq<(EventKind, u32)>) -> Seq<u8>
    decreases runs.len(),
{
    if runs.len() == 0 {
        Seq::empty()
    } else {
        run_bytes(runs.drop_last()) + (seq![encoding::kind_byte(runs.last().0)] + bytes::le_bytes(
            runs.last().1 as int,
            4,
        ))
    }
}

/// The run in the five bytes at `5 * i`.
pub open spec fn run_at(p: Seq<u8>, i: int) -> (EventKind, u32) {
    (
        encoding::kind_of_byte(p[5 * i])->0,
        bytes::le_value(p.subrange(5 * i + 1, 5 * i + 5)) as u32,
    )
}

/// The runs that bytes give, where they are whole.
pub open spec fn runs_of(p: Seq<u8>) -> Option<Seq<(EventKind, u32)>> {
    if p.len() % 5 == 0 && forall|i: int|
        0 <= i < p.len() / 5 ==> encoding::kind_of_byte(#[trigger] p[5 * i]) is Some {
        Some(Seq::new(p.len() / 5, |i: int| run_at(p, i)))
    } else {
        None
    }
}

/// The kinds of a column of `rows` rows.
pub open spec fn kind_values(p: Seq<u8>, rows: nat) -> Option<Seq<EventKind>> {
    match runs_of(p) {
        Some(runs) => if encoding::expanded(runs).len() == rows {
            Some(encoding::expanded(runs))
        } else {
            None
        },
        None => None,
    }
}

proof fn lemma_runs(runs: Seq<(EventKind, u32)>)
    ensures
        run_bytes(runs).len() == 5 * runs.len(),
        runs_of(run_bytes(runs)) == Some(runs),
    decreases runs.len(),
{
    let p = run_bytes(runs);
    if runs.len() > 0 {
        let init = runs.drop_last();
        let before = run_bytes(init);
        let n = init.len() as int;
        let last = runs.last();
        lemma_runs(init);
        bytes::lemma_pow256_values();
        bytes::lemma_le_round_trip(last.1 as int, 4);
        assert forall|i: int| 0 <= i < p.len() / 5 implies encoding::kind_of_byte(
            #[trigger] p[5 * i],
        ) is Some && run_at(p, i) == runs[i] by {
            if i < n {
                assert(p[5 * i] == before[5 * i]);
                assert(encoding::kind_of_byte(before[5 * i]) is Some);
                assert(p.subrange(5 * i + 1, 5 * i + 5) =~= before.subrange(5 * i + 1, 5 * i + 5));
                assert(runs_of(before)->0[i] == run_at(before, i));
                assert(init[i] == runs[i]);
            } else {
                assert(p[5 * i] == encoding::kind_byte(last.0));
                assert(p.subrange(5 * i + 1, 5 * i + 5) =~= bytes::le_bytes(last.1 as int, 4));
            }
        }
        assert(Seq::new(p.len() / 5, |i: int| run_at(p, i)) =~= runs);
    } else {
        assert(Seq::new(p.len() / 5, |i: int| run_at(p, i)) =~= runs);
    }
}

pub(crate) fn write_kinds(kinds: &Vec<EventKind>) -> (r: Vec<u8>)
    requires
        kinds@.len() <= u32::MAX,
    ensures
        r@ == run_bytes(encoding::runs(kinds@)),
        kind_values(r@, kinds@.len()) == Some(kinds@),
{
    let runs = rle_encode(kinds.as_slice());
    let mut out: Vec<u8> = Vec::new();
    for i in 0..runs.len()
        invariant
            out@ == run_bytes(runs@.take(i as int)),
    {
        assert(runs@.take(i + 1).drop_last() =~= runs@.take(i as int));
        let ghost before = out@;
        out.push(encoding::byte_of(runs[i].0));
        push_le(&mut out, runs[i].1 as u128, 4);
        assert(out@ =~= run_bytes(runs@.take(i + 1)));
    }
    proof {
        assert(runs@.take(runs@.len() as int) =~= runs@);
        lemma_runs(runs@);
    }
    out
}

fn read_kinds(p: &[u8], rows: usize) -> (r: Option<Vec<EventKind>>)
    ensures
        match r {
            Some(v) => kind_values(p@, rows as nat) == Some(v@),
            None => kind_values(p@, rows as nat) is None,
        },
{
    assert(p@.len() == p.len());
    if p.len() % 5 != 0 {
        return None;
    }
    let count: usize = p.len() / 5;
    let mut runs: Vec<(EventKind, u32)> = Vec::new();
    for i in 0..count
        invariant
            p@.len() == 5 * count,
            p@.len() == p.len(),
            runs@.len() == i,
            forall|k: int|
                0 <= k < i ==> encoding::kind_of_byte(#[trigger] p@[5 * k]) is Some && runs@[k]
                    == run_at(p@, k),
    {
        proof {
            bytes::lemma_pow256_values();
        }
        let kind = match encoding::kind_from(p[5 * i]) {
            None => {
                assert(encoding::kind_of_byte(p@[5 * i]) is None);
                return None;
            },
            Some(k) => k,
        };
        let length: u32 = read_le(p, 5 * i + 1, 4) as u32;
        runs.push((kind, length));
    }
    assert(runs@ =~= Seq::new(p@.len() / 5, |i: int| run_at(p@, i)));
    rle_decode(runs.as_slice(), rows)
}

/// The event kind with that number.
pub open spec fn kind_of_number(n: u32) -> Option<EventKind> {
    if n <= u8::MAX {
        encoding::kind_of_byte(n as u8)
    } else {
        None
    }
}

/// The kinds of a plain column, where there are `rows` of them.
pub open spec fn plain_kinds(p: Seq<u8>, rows: nat) -> Option<Seq<EventKind>> {
    match wire::numbers_at(p) {
        Some(v) => if v.len() == rows && forall|i: int|
            0 <= i < v.len() ==> kind_of_number(#[trigger] v[i]) is Some {
            Some(v.map_values(|n: u32| kind_of_number(n)->0))
        } else {
            None
        },
        None => None,
    }
}

fn read_plain_kinds(p: &[u8], rows: usize) -> (r: Option<Vec<EventKind>>)
    ensures
        match r {
            Some(v) => plain_kinds(p@, rows as nat) == Some(v@),
            None => plain_kinds(p@, rows as nat) is None,
        },
{
    let numbers = match wire::read_numbers(p) {
        Some(v) => v,
        None => {
            return None;
        },
    };
    if numbers.len() != rows {
        return None;
    }
    let mut out: Vec<EventKind> = Vec::new();
    for i in 0..numbers.len()
        invariant
            numbers@.len() == rows,
            wire::numbers_at(p@) == Some(numbers@),
            out@.len() == i,
            forall|k: int|
                0 <= k < i ==> kind_of_number(#[trigger] numbers@[k]) == Some(out@[k]),
    {
        let n: u32 = numbers[i];
        let kind = if n <= 255 {
            encoding::kind_from(n as u8)
        } else {
            None
        };
        match kind {
            Some(k) => {
                out.push(k);
            },
            None => {
                assert(kind_of_number(numbers@[i as int]) is None);
                return None;
            },
        }
    }
    assert(out@ =~= numbers@.map_values(|n: u32| kind_of_number(n)->0));
    Some(out)
}

/// The kinds of a column of `rows` rows.
pub open spec fn kinds_in(encoding: Encoding, p: Seq<u8>, rows: nat) -> Option<Seq<EventKind>> {
    match encoding {
        Encoding::Plain => plain_kinds(p, rows),
        Encoding::Rle => kind_values(p, rows),
        _ => None,
    }
}

pub(crate) fn read_kinds_in(encoding: Encoding, p: &[u8], rows: usize) -> (r: Option<
    Vec<EventKind>,
>)
    ensures
        match r {
            Some(v) => kinds_in(encoding, p@, rows as nat) == Some(v@),
            None => kinds_in(encoding, p@, rows as nat) is None,
        },
{
    match encoding {
        Encoding::Plain => read_plain_kinds(p, rows),
        Encoding::Rle => read_kinds(p, rows),
        _ => None,
    }
}

// ---------------------------------------------------------------------------
// Corrections and dimensions
// ---------------------------------------------------------------------------

/// The corrections of a plain column, where there are `rows` of them.
pub open spec fn correction_values(p: Seq<u8>, rows: nat) -> Option<
    Seq<Option<(Seq<char>, Seq<char>)>>,
> {
    match wire::corrections_at(p) {
        Some(v) => if v.len() == rows {
            Some(v)
        } else {
            None
        },
        None => None,
    }
}

/// The corrections of events.
pub open spec fn corrections_of(events: Seq<EventModel>) -> Seq<Option<(Seq<char>, Seq<char>)>> {
    events.map_values(|e: EventModel| e.correction_ref)
}

pub(crate) fn write_correction_refs(events: &Vec<UsageEvent>) -> (r: Vec<u8>)
    ensures
        r@ == wire::corrections_wire(corrections_of(event::event_views(events@))),
        correction_values(r@, events@.len()) == Some(
            corrections_of(event::event_views(events@)),
        ),
{
    let ghost all = corrections_of(event::event_views(events@));
    let mut values: Vec<Option<(String, String)>> = Vec::new();
    for i in 0..events.len()
        invariant
            all == corrections_of(event::event_views(events@)),
            values@.len() == i,
            forall|k: int|
                0 <= k < i ==> #[trigger] wire::correction_views(values@)[k] == all[k],
    {
        let ghost before = values@;
        let value: Option<(String, String)> = match &events[i].correction_ref {
            Some(c) => Some((c.original_event_id.0.clone(), c.reason.clone())),
            None => None,
        };
        values.push(value);
        assert forall|k: int| 0 <= k < i + 1 implies #[trigger] wire::correction_views(values@)[k]
            == all[k] by {
            if k < i {
                assert(wire::correction_views(before)[k] == all[k]);
            } else {
                assert(all[k] == events@[k]@.correction_ref);
            }
        }
    }
    assert(wire::correction_views(values@) =~= all);
    let r = wire::write_corrections(&values);
    assert(r@.len() == r.len());
    proof {
        wire::lemma_corrections_round_trip(all);
    }
    r
}

pub(crate) fn read_correction_refs(p: &[u8], rows: usize) -> (r: Option<
    Vec<Option<(String, String)>>,
>)
    ensures
        match r {
            Some(v) => correction_values(p@, rows as nat) == Some(wire::correction_views(v@)),
            None => correction_values(p@, rows as nat) is None,
        },
{
    match wire::read_corrections(p) {
        Some(v) => if v.len() == rows {
            Some(v)
        } else {
            None
        },
        None => None,
    }
}

/// The dimensions of a plain column, where there are `rows` of them.
pub open spec fn dimension_values(p: Seq<u8>, rows: nat) -> Option<
    Seq<Seq<(Seq<char>, Seq<char>)>>,
> {
    match wire::dimensions_at(p) {
        Some(v) => if v.len() == rows {
            Some(v.map_values(|d: Seq<(Seq<char>, Seq<char>)>| dimensions::gathered(d)))
        } else {
            None
        },
        None => None,
    }
}

/// The dimensions of events.
pub open spec fn dimensions_of(events: Seq<EventModel>) -> Seq<Seq<(Seq<char>, Seq<char>)>> {
    events.map_values(|e: EventModel| e.dimensions)
}

pub(crate) fn write_event_dimensions(events: &Vec<UsageEvent>) -> (r: Vec<u8>)
    ensures
        r@ == wire::dimensions_wire(dimensions_of(event::event_views(events@))),
        dimension_values(r@, events@.len()) == Some(
            dimensions_of(event::event_views(events@)),
        ),
{
    let ghost all = dimensions_of(event::event_views(events@));
    let mut values: Vec<Vec<(String, String)>> = Vec::new();
    for i in 0..events.len()
        invariant
            all == dimensions_of(event::event_views(events@)),
            all.len() == events@.len(),
            wire::pairs_views(values@) == all.take(i as int),
            forall|k: int| 0 <= k < i ==> textmap::keys_ascend(#[trigger] all[k]),
    {
        let ghost before = values@;
        let pairs = events[i].dimensions.to_pairs();
        values.push(pairs);
        assert(all[i as int] == events@[i as int]@.dimensions);
        assert(wire::pairs_views(values@) =~= wire::pairs_views(before).push(
            dimensions::string_pairs(pairs@),
        ));
        assert(all.take(i + 1) =~= all.take(i as int).push(all[i as int]));
    }
    assert(all.take(all.len() as int) =~= all);
    assert(wire::pairs_views(values@) =~= all);
    let r = wire::write_dimensions(&values);
    assert(r@.len() == r.len());
    proof {
        wire::lemma_dimensions_round_trip(all);
        let read = all.map_values(|d: Seq<(Seq<char>, Seq<char>)>| dimensions::gathered(d));
        assert forall|k: int| 0 <= k < all.len() implies read[k] == all[k] by {
            dimensions::lemma_gathered(all[k]);
        }
        assert(read =~= all);
    }
    r
}

pub open spec fn dimension_views(values: Seq<SmallDimensions>) -> Seq<
    Seq<(Seq<char>, Seq<char>)>,
> {
    values.map_values(|d: SmallDimensions| d@)
}

pub(crate) fn read_event_dimensions(p: &[u8], rows: usize) -> (r: Option<Vec<SmallDimensions>>)
    ensures
        match r {
            Some(v) => dimension_values(p@, rows as nat) == Some(dimension_views(v@)),
            None => dimension_values(p@, rows as nat) is None,
        },
{
    let lists = match wire::read_dimensions(p) {
        None => {
            return None;
        },
        Some(v) => v,
    };
    if lists.len() != rows {
        return None;
    }
    let ghost all = wire::pairs_views(lists@);
    let mut out: Vec<SmallDimensions> = Vec::new();
    for i in 0..lists.len()
        invariant
            all == wire::pairs_views(lists@),
            out@.len() == i,
            forall|k: int|
                0 <= k < i ==> (#[trigger] dimension_views(out@)[k]) == dimensions::gathered(all[k]),
    {
        let ghost before = out@;
        let d = SmallDimensions::from_pairs(&lists[i]);
        out.push(d);
        assert forall|k: int| 0 <= k < i + 1 implies (#[trigger] dimension_views(out@)[k])
            == dimensions::gathered(all[k]) by {
            if k < i {
                assert(dimension_views(before)[k] == dimensions::gathered(all[k]));
            } else {
                assert(all[k] == dimensions::string_pairs(lists@[k]@));
            }
        }
    }
    assert(dimension_views(out@) =~= all.map_values(
        |d: Seq<(Seq<char>, Seq<char>)>| dimensions::gathered(d),
    ));
    Some(out)
}

/// A run stands as the number of its kind, zero for usage, one for a correction and two
/// for a retraction, and its length in four bytes, the lowest first.
pub proof fn law_layout_of_runs(runs: Seq<(EventKind, u32)>, kind: EventKind, n: u32)
    ensures
        ({
            let before = run_bytes(runs);
            let after = run_bytes(runs.push((kind, n)));
            let at = before.len() as int;
            &&& after.len() == at + 5
            &&& after.take(at) == before
            &&& after[at] == match kind {
                EventKind::Usage => 0u8,
                EventKind::Correction => 1,
                EventKind::Retraction => 2,
            }
            &&& bytes::le_value(after.skip(at + 1)) == n
        }),
{
    let before = run_bytes(runs);
    let after = run_bytes(runs.push((kind, n)));
    let at = before.len() as int;
    assert(runs.push((kind, n)).drop_last() =~= runs);
    bytes::lemma_pow256_values();
    bytes::lemma_le_bytes_len(n as int, 4);
    bytes::lemma_le_round_trip(n as int, 4);
    assert(after.take(at) =~= before);
    assert(after.skip(at + 1) =~= bytes::le_bytes(n as int, 4));
}

/// A column of times has eight bytes for each: those of the first time, and those of the
/// difference from the time before for each other. (The difference must not be negative,
/// and fit.)
pub proof fn law_layout_of_times(values: Seq<i64>, i: int)
    requires
        0 <= i < values.len(),
    ensures
        delta_bytes(values).len() == 8 * values.len(),
        values[0] >= 0 ==> bytes::le_value(delta_bytes(values).subrange(0, 8)) == values[0],
        i > 0 && 0 <= values[i] - values[i - 1] <= i64::MAX ==> bytes::le_value(
            delta_bytes(values).subrange(8 * i, 8 * i + 8),
        ) == values[i] - values[i - 1],
{
    let words_of = unsigned_words(encoding::deltas_of(values));
    bytes::lemma_pow256_values();
    lemma_words(words_of, 8, Seq::empty());
    assert(words(words_of, 8) + Seq::<u8>::empty() =~= words(words_of, 8));
    encoding::law_deltas_are_differences(values, i);
    assert(word_at(words(words_of, 8) + Seq::<u8>::empty(), i, 8) == words_of[i]);
    assert(word_at(words(words_of, 8) + Seq::<u8>::empty(), 0, 8) == words_of[0]);
}

/// A column of texts has four bytes for each row, zero where there is no text, and then the
/// texts, each once, in the order in which they first come.
pub proof fn law_layout_of_dictionaries(labels: Seq<Option<Seq<char>>>, i: int)
    requires
        0 <= i < labels.len(),
        dictionary_of(labels).len() < u32::MAX,
    ensures
        ({
            let dict = dictionary_of(labels);
            let b = dictionary_bytes(labels);
            let number = bytes::le_value(b.subrange(4 * i, 4 * i + 4));
            &&& labels[i] is None ==> number == 0
            &&& labels[i] matches Some(t) ==> 1 <= number <= dict.len() && dict[number - 1] == t
            &&& b.skip(4 * labels.len() as int) == wire::texts_wire(dict)
            &&& encoding::texts_distinct(dict)
        }),
{
    let dict = dictionary_of(labels);
    let numbers = labels.map_values(|l: Option<Seq<char>>| number_of(dict, l));
    lemma_dictionary_distinct(labels);
    bytes::lemma_pow256_values();
    assert forall|k: int| 0 <= k < numbers.len() implies 0 <= #[trigger] numbers[k]
        < bytes::pow256(4) && numbers[k] == number_of(dict, labels[k]) && (labels[k] matches Some(t)
        ==> dict.contains(t)) by {
        if let Some(t) = labels[k] {
            lemma_in_dictionary(labels, k);
            assert(dict.contains(t));
        }
    }
    lemma_words(numbers, 4, wire::texts_wire(dict));
    let b = dictionary_bytes(labels);
    assert(word_at(words(numbers, 4) + wire::texts_wire(dict), i, 4) == numbers[i]);
    assert(b.skip(4 * labels.len() as int) =~= wire::texts_wire(dict));
}

proof fn lemma_in_dictionary(labels: Seq<Option<Seq<char>>>, k: int)
    requires
        0 <= k < labels.len(),
        labels[k] is Some,
    ensures
        dictionary_of(labels).contains(labels[k]->0),
    decreases labels.len(),
{
    let init = labels.drop_last();
    let before = dictionary_of(init);
    if k < init.len() {
        lemma_in_dictionary(init, k);
        assert(init[k] == labels[k]);
        if let Some(s) = labels.last() {
            encoding::law_dictionaries_grow(before, s);
            let i = choose|i: int| 0 <= i < before.len() && before[i] == labels[k]->0;
            assert(encoding::with_text(before, s)[i] == before[i]);
        }
    } else if let Some(s) = labels.last() {
        encoding::law_dictionaries_grow(before, s);
    }
}

} // verus!
