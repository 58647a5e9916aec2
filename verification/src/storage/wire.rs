//! Values as `bincode` lays them out: numbers in little-endian order, a length of
//! eight bytes before each text and each list, one byte before an optional value.

use vstd::prelude::*;

use crate::bytes;
use crate::model::dimensions;
use crate::model::ids::{
    AccountId, MeterId, ModelId, ProductId, SourceId, SubscriptionId, Unit,
};
use crate::rollup::hourly::{HourlyRollupRecord, KeyModel, RecordModel};
use crate::text;

verus! {

/// Bytes that a machine can hold are fewer than these.
pub open spec fn addressable(data: Seq<u8>) -> bool {
    data.len() < 0x1_0000_0000_0000_0000
}

// ---------------------------------------------------------------------------
// Layouts
// ---------------------------------------------------------------------------

/// The layout of a text.
pub open spec fn text_wire(s: Seq<char>) -> Seq<u8> {
    let utf8 = vstd::utf8::encode_utf8(s);
    bytes::le_bytes(utf8.len() as int, 8) + utf8
}

/// The layouts of values one after the other.
pub open spec fn joined<T>(values: Seq<T>, form: spec_fn(T) -> Seq<u8>) -> Seq<u8>
    decreases values.len(),
{
    if values.len() == 0 {
        Seq::empty()
    } else {
        form(values[0]) + joined(values.drop_first(), form)
    }
}

/// The layout of a list.
pub open spec fn list_wire<T>(values: Seq<T>, form: spec_fn(T) -> Seq<u8>) -> Seq<u8> {
    bytes::le_bytes(values.len() as int, 8) + joined(values, form)
}

pub open spec fn option_wire<T>(value: Option<T>, form: spec_fn(T) -> Seq<u8>) -> Seq<u8> {
    match value {
        Some(v) => seq![1u8] + form(v),
        None => seq![0u8],
    }
}

pub open spec fn pair_wire(p: (Seq<char>, Seq<char>)) -> Seq<u8> {
    text_wire(p.0) + text_wire(p.1)
}

pub open spec fn text_form() -> spec_fn(Seq<char>) -> Seq<u8> {
    |s: Seq<char>| text_wire(s)
}

pub open spec fn pair_form() -> spec_fn((Seq<char>, Seq<char>)) -> Seq<u8> {
    |p: (Seq<char>, Seq<char>)| pair_wire(p)
}

pub open spec fn correction_form() -> spec_fn(Option<(Seq<char>, Seq<char>)>) -> Seq<u8> {
    |c: Option<(Seq<char>, Seq<char>)>| option_wire(c, pair_form())
}

pub open spec fn pairs_form() -> spec_fn(Seq<(Seq<char>, Seq<char>)>) -> Seq<u8> {
    |d: Seq<(Seq<char>, Seq<char>)>| list_wire(d, pair_form())
}

pub open spec fn entry_form() -> spec_fn((u128, u128, i64)) -> Seq<u8> {
    |e: (u128, u128, i64)| entry_wire(e)
}

pub open spec fn option_form() -> spec_fn(Option<Seq<char>>) -> Seq<u8> {
    |t: Option<Seq<char>>| option_wire(t, text_form())
}

pub open spec fn number_form() -> spec_fn(u32) -> Seq<u8> {
    |n: u32| bytes::le_bytes(n as int, 4)
}

pub open spec fn time_form() -> spec_fn(i64) -> Seq<u8> {
    |t: i64| bytes::le_bytes(bytes::unsigned64(t as int), 8)
}

pub open spec fn quantity_form() -> spec_fn(i128) -> Seq<u8> {
    |q: i128| bytes::le_bytes(bytes::unsigned128(q as int), 16)
}

/// The layout of an entry of a dedupe index.
pub open spec fn entry_wire(e: (u128, u128, i64)) -> Seq<u8> {
    bytes::le_bytes(e.0 as int, 16) + bytes::le_bytes(e.1 as int, 16) + bytes::le_bytes(
        bytes::unsigned64(e.2 as int),
        8,
    )
}

/// The layout of a list of texts.
pub open spec fn texts_wire(values: Seq<Seq<char>>) -> Seq<u8> {
    list_wire(values, text_form())
}

/// The layout of a list of optional corrections.
pub open spec fn corrections_wire(values: Seq<Option<(Seq<char>, Seq<char>)>>) -> Seq<u8> {
    list_wire(values, correction_form())
}

/// The layout of a list of dimensions.
pub open spec fn dimensions_wire(values: Seq<Seq<(Seq<char>, Seq<char>)>>) -> Seq<u8> {
    list_wire(values, pairs_form())
}

/// The layout of the entries of a dedupe index.
pub open spec fn entries_wire(values: Seq<(u128, u128, i64)>) -> Seq<u8> {
    list_wire(values, entry_form())
}

/// The layout of a list of optional texts.
pub open spec fn options_wire(values: Seq<Option<Seq<char>>>) -> Seq<u8> {
    list_wire(values, option_form())
}

/// The layout of a list of numbers of four bytes.
pub open spec fn numbers_wire(values: Seq<u32>) -> Seq<u8> {
    list_wire(values, number_form())
}

/// The layout of a list of times.
pub open spec fn times_wire(values: Seq<i64>) -> Seq<u8> {
    list_wire(values, time_form())
}

/// The layout of a list of quantities.
pub open spec fn quantities_wire(values: Seq<i128>) -> Seq<u8> {
    list_wire(values, quantity_form())
}

/// The layout of a rollup row: its fields one after the other.
#[verifier::opaque]
pub open spec fn record_wire(r: RecordModel) -> Seq<u8> {
    text_wire(r.key.account_id) + (option_wire(r.key.subscription_id, text_form()) + (text_wire(
        r.key.product_id,
    ) + (text_wire(r.key.meter_id) + (option_wire(r.key.model_id, text_form()) + (text_wire(
        r.key.source,
    ) + (text_wire(r.key.unit) + (bytes::le_bytes(
        bytes::unsigned64(r.key.hour_start_ms as int),
        8,
    ) + (text_wire(r.key.dimensions_canonical) + (bytes::le_bytes(
        bytes::unsigned128(r.quantity_sum as int),
        16,
    ) + (bytes::le_bytes(r.event_count as int, 8) + (bytes::le_bytes(
        bytes::unsigned64(r.first_event_ms as int),
        8,
    ) + bytes::le_bytes(bytes::unsigned64(r.last_event_ms as int), 8))))))))))))
}

// ---------------------------------------------------------------------------
// A layout belongs to one value
// ---------------------------------------------------------------------------

/// No bytes begin with the layouts of two values.
pub open spec fn unambiguous<T>(form: spec_fn(T) -> Seq<u8>) -> bool {
    forall|a: T, b: T, data: Seq<u8>|
        addressable(data) && #[trigger] form(a).is_prefix_of(data) && #[trigger] form(
            b,
        ).is_prefix_of(data) ==> a == b
}

pub proof fn lemma_head(head: Seq<u8>, tail: Seq<u8>, data: Seq<u8>)
    requires
        (head + tail).is_prefix_of(data),
    ensures
        head.is_prefix_of(data),
        tail.is_prefix_of(data.skip(head.len() as int)),
{
    assert((head + tail).subrange(0, head.len() as int) =~= head);
    assert(data.subrange(0, head.len() as int) =~= (head + tail).subrange(0, head.len() as int));
    assert(data.skip(head.len() as int).subrange(0, tail.len() as int) =~= tail) by {
        assert forall|i: int| 0 <= i < tail.len() implies data.skip(head.len() as int)[i]
            == tail[i] by {
            assert(data.subrange(0, (head + tail).len() as int)[head.len() + i] == (head
                + tail)[head.len() + i]);
        }
    }
}

proof fn lemma_same_length(a: Seq<u8>, b: Seq<u8>, data: Seq<u8>)
    requires
        a.is_prefix_of(data),
        b.is_prefix_of(data),
        a.len() == b.len(),
    ensures
        a == b,
{
    assert(a =~= b);
}

pub proof fn lemma_same_number(a: int, b: int, n: nat, data: Seq<u8>)
    requires
        0 <= a < bytes::pow256(n),
        0 <= b < bytes::pow256(n),
        bytes::le_bytes(a, n).is_prefix_of(data),
        bytes::le_bytes(b, n).is_prefix_of(data),
    ensures
        a == b,
{
    bytes::lemma_le_round_trip(a, n);
    bytes::lemma_le_round_trip(b, n);
    lemma_same_length(bytes::le_bytes(a, n), bytes::le_bytes(b, n), data);
}

proof fn lemma_same_text(a: Seq<char>, b: Seq<char>, data: Seq<u8>)
    requires
        addressable(data),
        text_wire(a).is_prefix_of(data),
        text_wire(b).is_prefix_of(data),
    ensures
        a == b,
{
    let ua = vstd::utf8::encode_utf8(a);
    let ub = vstd::utf8::encode_utf8(b);
    bytes::lemma_pow256_values();
    bytes::lemma_le_bytes_len(ua.len() as int, 8);
    bytes::lemma_le_bytes_len(ub.len() as int, 8);
    lemma_head(bytes::le_bytes(ua.len() as int, 8), ua, data);
    lemma_head(bytes::le_bytes(ub.len() as int, 8), ub, data);
    lemma_same_number(ua.len() as int, ub.len() as int, 8, data);
    lemma_same_length(ua, ub, data.skip(8));
    vstd::utf8::encode_utf8_decode_utf8(a);
    vstd::utf8::encode_utf8_decode_utf8(b);
}

proof fn lemma_text_form()
    ensures
        unambiguous(text_form()),
        forall|s: Seq<char>| #[trigger] text_form()(s).len() > 0,
{
    assert forall|a: Seq<char>, b: Seq<char>, data: Seq<u8>|
        addressable(data) && #[trigger] text_form()(a).is_prefix_of(data) && #[trigger] text_form()(
            b,
        ).is_prefix_of(data) implies a == b by {
        lemma_same_text(a, b, data);
    }
    assert forall|s: Seq<char>| #[trigger] text_form()(s).len() > 0 by {
        bytes::lemma_le_bytes_len(vstd::utf8::encode_utf8(s).len() as int, 8);
    }
}

proof fn lemma_same_pair(a: (Seq<char>, Seq<char>), b: (Seq<char>, Seq<char>), data: Seq<u8>)
    requires
        addressable(data),
        pair_wire(a).is_prefix_of(data),
        pair_wire(b).is_prefix_of(data),
    ensures
        a == b,
{
    lemma_head(text_wire(a.0), text_wire(a.1), data);
    lemma_head(text_wire(b.0), text_wire(b.1), data);
    lemma_same_text(a.0, b.0, data);
    lemma_same_text(a.1, b.1, data.skip(text_wire(a.0).len() as int));
}

pub proof fn lemma_pair_form()
    ensures
        unambiguous(pair_form()),
        forall|p: (Seq<char>, Seq<char>)| #[trigger] pair_form()(p).len() > 0,
{
    assert forall|a: (Seq<char>, Seq<char>), b: (Seq<char>, Seq<char>), data: Seq<u8>|
        addressable(data) && #[trigger] pair_form()(a).is_prefix_of(data) && #[trigger] pair_form()(
            b,
        ).is_prefix_of(data) implies a == b by {
        lemma_same_pair(a, b, data);
    }
    assert forall|p: (Seq<char>, Seq<char>)| #[trigger] pair_form()(p).len() > 0 by {
        bytes::lemma_le_bytes_len(vstd::utf8::encode_utf8(p.0).len() as int, 8);
    }
}

pub proof fn lemma_same_option<T>(
    a: Option<T>,
    b: Option<T>,
    form: spec_fn(T) -> Seq<u8>,
    data: Seq<u8>,
)
    requires
        unambiguous(form),
        addressable(data),
        option_wire(a, form).is_prefix_of(data),
        option_wire(b, form).is_prefix_of(data),
    ensures
        a == b,
{
    assert(option_wire(a, form)[0] == data.subrange(0, option_wire(a, form).len() as int)[0]);
    assert(option_wire(b, form)[0] == data.subrange(0, option_wire(b, form).len() as int)[0]);
    if let (Some(x), Some(y)) = (a, b) {
        lemma_head(seq![1u8], form(x), data);
        lemma_head(seq![1u8], form(y), data);
        assert(form(x).is_prefix_of(data.skip(1)));
        assert(form(y).is_prefix_of(data.skip(1)));
    }
}

proof fn lemma_correction_form()
    ensures
        unambiguous(correction_form()),
        forall|c: Option<(Seq<char>, Seq<char>)>| #[trigger] correction_form()(c).len() > 0,
{
    lemma_pair_form();
    assert forall|
        a: Option<(Seq<char>, Seq<char>)>,
        b: Option<(Seq<char>, Seq<char>)>,
        data: Seq<u8>,
    |
        addressable(data) && #[trigger] correction_form()(a).is_prefix_of(data)
            && #[trigger] correction_form()(b).is_prefix_of(data) implies a == b by {
        lemma_same_option(a, b, pair_form(), data);
    }
}

proof fn lemma_joined_grows<T>(values: Seq<T>, form: spec_fn(T) -> Seq<u8>)
    requires
        forall|v: T| #[trigger] form(v).len() > 0,
    ensures
        joined(values, form).len() >= values.len(),
    decreases values.len(),
{
    if values.len() > 0 {
        lemma_joined_grows(values.drop_first(), form);
        assert(form(values[0]).len() > 0);
    }
}

proof fn lemma_same_joined<T>(
    a: Seq<T>,
    b: Seq<T>,
    form: spec_fn(T) -> Seq<u8>,
    data: Seq<u8>,
)
    requires
        unambiguous(form),
        addressable(data),
        a.len() == b.len(),
        joined(a, form).is_prefix_of(data),
        joined(b, form).is_prefix_of(data),
    ensures
        a == b,
    decreases a.len(),
{
    if a.len() > 0 {
        lemma_head(form(a[0]), joined(a.drop_first(), form), data);
        lemma_head(form(b[0]), joined(b.drop_first(), form), data);
        assert(a[0] == b[0]);
        let rest = data.skip(form(a[0]).len() as int);
        lemma_same_joined(a.drop_first(), b.drop_first(), form, rest);
        assert(seq![a[0]] + a.drop_first() =~= a);
        assert(seq![b[0]] + b.drop_first() =~= b);
    } else {
        assert(a =~= b);
    }
}

pub proof fn lemma_same_list<T>(
    a: Seq<T>,
    b: Seq<T>,
    form: spec_fn(T) -> Seq<u8>,
    data: Seq<u8>,
)
    requires
        unambiguous(form),
        forall|v: T| #[trigger] form(v).len() > 0,
        addressable(data),
        list_wire(a, form).is_prefix_of(data),
        list_wire(b, form).is_prefix_of(data),
    ensures
        a == b,
{
    bytes::lemma_pow256_values();
    bytes::lemma_le_bytes_len(a.len() as int, 8);
    bytes::lemma_le_bytes_len(b.len() as int, 8);
    lemma_joined_grows(a, form);
    lemma_joined_grows(b, form);
    lemma_head(bytes::le_bytes(a.len() as int, 8), joined(a, form), data);
    lemma_head(bytes::le_bytes(b.len() as int, 8), joined(b, form), data);
    lemma_same_number(a.len() as int, b.len() as int, 8, data);
    lemma_same_joined(a, b, form, data.skip(8));
}

proof fn lemma_pairs_form()
    ensures
        unambiguous(pairs_form()),
        forall|d: Seq<(Seq<char>, Seq<char>)>| #[trigger] pairs_form()(d).len() > 0,
{
    lemma_pair_form();
    assert forall|
        a: Seq<(Seq<char>, Seq<char>)>,
        b: Seq<(Seq<char>, Seq<char>)>,
        data: Seq<u8>,
    |
        addressable(data) && #[trigger] pairs_form()(a).is_prefix_of(data)
            && #[trigger] pairs_form()(b).is_prefix_of(data) implies a == b by {
        lemma_same_list(a, b, pair_form(), data);
    }
    assert forall|d: Seq<(Seq<char>, Seq<char>)>| #[trigger] pairs_form()(d).len() > 0 by {
        bytes::lemma_le_bytes_len(d.len() as int, 8);
    }
}

proof fn lemma_entry_form()
    ensures
        unambiguous(entry_form()),
        forall|e: (u128, u128, i64)| #[trigger] entry_form()(e).len() > 0,
{
    bytes::lemma_pow256_values();
    assert forall|e: (u128, u128, i64)| #[trigger] entry_form()(e).len() > 0 by {
        bytes::lemma_le_bytes_len(e.0 as int, 16);
    }
    assert forall|a: (u128, u128, i64), b: (u128, u128, i64), data: Seq<u8>|
        addressable(data) && #[trigger] entry_form()(a).is_prefix_of(data)
            && #[trigger] entry_form()(b).is_prefix_of(data) implies a == b by {
        lemma_same_entry(a, b, data);
    }
}

proof fn lemma_same_entry(a: (u128, u128, i64), b: (u128, u128, i64), data: Seq<u8>)
    requires
        addressable(data),
        entry_wire(a).is_prefix_of(data),
        entry_wire(b).is_prefix_of(data),
    ensures
        a == b,
{
    bytes::lemma_pow256_values();
    let a0 = bytes::le_bytes(a.0 as int, 16);
    let a1 = bytes::le_bytes(a.1 as int, 16);
    let a2 = bytes::le_bytes(bytes::unsigned64(a.2 as int), 8);
    let b0 = bytes::le_bytes(b.0 as int, 16);
    let b1 = bytes::le_bytes(b.1 as int, 16);
    let b2 = bytes::le_bytes(bytes::unsigned64(b.2 as int), 8);
    bytes::lemma_le_bytes_len(a.0 as int, 16);
    bytes::lemma_le_bytes_len(a.1 as int, 16);
    bytes::lemma_le_bytes_len(b.0 as int, 16);
    bytes::lemma_le_bytes_len(b.1 as int, 16);
    lemma_head(a0 + a1, a2, data);
    lemma_head(b0 + b1, b2, data);
    lemma_head(a0, a1, data);
    lemma_head(b0, b1, data);
    lemma_same_number(a.0 as int, b.0 as int, 16, data);
    lemma_same_number(a.1 as int, b.1 as int, 16, data.skip(16));
    lemma_same_number(
        bytes::unsigned64(a.2 as int),
        bytes::unsigned64(b.2 as int),
        8,
        data.skip(32),
    );
}

proof fn lemma_option_form()
    ensures
        unambiguous(option_form()),
        forall|t: Option<Seq<char>>| #[trigger] option_form()(t).len() > 0,
{
    lemma_text_form();
    assert forall|a: Option<Seq<char>>, b: Option<Seq<char>>, data: Seq<u8>|
        addressable(data) && #[trigger] option_form()(a).is_prefix_of(data)
            && #[trigger] option_form()(b).is_prefix_of(data) implies a == b by {
        lemma_same_option(a, b, text_form(), data);
    }
}

proof fn lemma_number_forms()
    ensures
        unambiguous(number_form()),
        forall|n: u32| #[trigger] number_form()(n).len() > 0,
        unambiguous(time_form()),
        forall|t: i64| #[trigger] time_form()(t).len() > 0,
        unambiguous(quantity_form()),
        forall|q: i128| #[trigger] quantity_form()(q).len() > 0,
{
    bytes::lemma_pow256_values();
    assert forall|a: u32, b: u32, data: Seq<u8>|
        addressable(data) && #[trigger] number_form()(a).is_prefix_of(data)
            && #[trigger] number_form()(b).is_prefix_of(data) implies a == b by {
        lemma_same_number(a as int, b as int, 4, data);
    }
    assert forall|a: i64, b: i64, data: Seq<u8>|
        addressable(data) && #[trigger] time_form()(a).is_prefix_of(data)
            && #[trigger] time_form()(b).is_prefix_of(data) implies a == b by {
        lemma_same_number(bytes::unsigned64(a as int), bytes::unsigned64(b as int), 8, data);
    }
    assert forall|a: i128, b: i128, data: Seq<u8>|
        addressable(data) && #[trigger] quantity_form()(a).is_prefix_of(data)
            && #[trigger] quantity_form()(b).is_prefix_of(data) implies a == b by {
        lemma_same_number(bytes::unsigned128(a as int), bytes::unsigned128(b as int), 16, data);
    }
    assert forall|n: u32| #[trigger] number_form()(n).len() > 0 by {
        bytes::lemma_le_bytes_len(n as int, 4);
    }
    assert forall|t: i64| #[trigger] time_form()(t).len() > 0 by {
        bytes::lemma_le_bytes_len(bytes::unsigned64(t as int), 8);
    }
    assert forall|q: i128| #[trigger] quantity_form()(q).len() > 0 by {
        bytes::lemma_le_bytes_len(bytes::unsigned128(q as int), 16);
    }
}

pub proof fn lemma_whole_prefix(data: Seq<u8>)
    ensures
        data.is_prefix_of(data),
{
    assert(data.subrange(0, data.len() as int) =~= data);
}

// ---------------------------------------------------------------------------
// What bytes begin with
// ---------------------------------------------------------------------------

/// The list of texts that `data` begins with, if any.
pub open spec fn texts_at(data: Seq<u8>) -> Option<Seq<Seq<char>>> {
    if exists|v: Seq<Seq<char>>| #[trigger] texts_wire(v).is_prefix_of(data) {
        Some(choose|v: Seq<Seq<char>>| #[trigger] texts_wire(v).is_prefix_of(data))
    } else {
        None
    }
}

/// The list of optional corrections that `data` begins with, if any.
pub open spec fn corrections_at(data: Seq<u8>) -> Option<Seq<Option<(Seq<char>, Seq<char>)>>> {
    if exists|v: Seq<Option<(Seq<char>, Seq<char>)>>|
        #[trigger] corrections_wire(v).is_prefix_of(data) {
        Some(
            choose|v: Seq<Option<(Seq<char>, Seq<char>)>>|
                #[trigger] corrections_wire(v).is_prefix_of(data),
        )
    } else {
        None
    }
}

/// The list of dimensions that `data` begins with, if any.
pub open spec fn dimensions_at(data: Seq<u8>) -> Option<Seq<Seq<(Seq<char>, Seq<char>)>>> {
    if exists|v: Seq<Seq<(Seq<char>, Seq<char>)>>|
        #[trigger] dimensions_wire(v).is_prefix_of(data) {
        Some(
            choose|v: Seq<Seq<(Seq<char>, Seq<char>)>>|
                #[trigger] dimensions_wire(v).is_prefix_of(data),
        )
    } else {
        None
    }
}

/// The entries that `data` begins with, if any.
pub open spec fn entries_at(data: Seq<u8>) -> Option<Seq<(u128, u128, i64)>> {
    if exists|v: Seq<(u128, u128, i64)>| #[trigger] entries_wire(v).is_prefix_of(data) {
        Some(choose|v: Seq<(u128, u128, i64)>| #[trigger] entries_wire(v).is_prefix_of(data))
    } else {
        None
    }
}

/// The list of optional texts that `data` begins with, if any.
pub open spec fn options_at(data: Seq<u8>) -> Option<Seq<Option<Seq<char>>>> {
    if exists|v: Seq<Option<Seq<char>>>| #[trigger] options_wire(v).is_prefix_of(data) {
        Some(choose|v: Seq<Option<Seq<char>>>| #[trigger] options_wire(v).is_prefix_of(data))
    } else {
        None
    }
}

/// The list of numbers that `data` begins with, if any.
pub open spec fn numbers_at(data: Seq<u8>) -> Option<Seq<u32>> {
    if exists|v: Seq<u32>| #[trigger] numbers_wire(v).is_prefix_of(data) {
        Some(choose|v: Seq<u32>| #[trigger] numbers_wire(v).is_prefix_of(data))
    } else {
        None
    }
}

/// The list of times that `data` begins with, if any.
pub open spec fn times_at(data: Seq<u8>) -> Option<Seq<i64>> {
    if exists|v: Seq<i64>| #[trigger] times_wire(v).is_prefix_of(data) {
        Some(choose|v: Seq<i64>| #[trigger] times_wire(v).is_prefix_of(data))
    } else {
        None
    }
}

/// The list of quantities that `data` begins with, if any.
pub open spec fn quantities_at(data: Seq<u8>) -> Option<Seq<i128>> {
    if exists|v: Seq<i128>| #[trigger] quantities_wire(v).is_prefix_of(data) {
        Some(choose|v: Seq<i128>| #[trigger] quantities_wire(v).is_prefix_of(data))
    } else {
        None
    }
}

/// The rollup row that `data` begins with, if any.
#[verifier::opaque]
pub open spec fn record_at(data: Seq<u8>) -> Option<RecordModel> {
    if exists|r: RecordModel| #[trigger] record_wire(r).is_prefix_of(data) {
        Some(choose|r: RecordModel| #[trigger] record_wire(r).is_prefix_of(data))
    } else {
        None
    }
}

pub proof fn lemma_texts_at(v: Seq<Seq<char>>, data: Seq<u8>)
    requires
        addressable(data),
        texts_wire(v).is_prefix_of(data),
    ensures
        texts_at(data) == Some(v),
{
    lemma_text_form();
    let w = texts_at(data)->0;
    lemma_same_list(v, w, text_form(), data);
}

pub proof fn lemma_corrections_at(v: Seq<Option<(Seq<char>, Seq<char>)>>, data: Seq<u8>)
    requires
        addressable(data),
        corrections_wire(v).is_prefix_of(data),
    ensures
        corrections_at(data) == Some(v),
{
    lemma_correction_form();
    let w = corrections_at(data)->0;
    lemma_same_list(v, w, correction_form(), data);
}

pub proof fn lemma_dimensions_at(v: Seq<Seq<(Seq<char>, Seq<char>)>>, data: Seq<u8>)
    requires
        addressable(data),
        dimensions_wire(v).is_prefix_of(data),
    ensures
        dimensions_at(data) == Some(v),
{
    lemma_pairs_form();
    let w = dimensions_at(data)->0;
    lemma_same_list(v, w, pairs_form(), data);
}

pub proof fn lemma_entries_at(v: Seq<(u128, u128, i64)>, data: Seq<u8>)
    requires
        addressable(data),
        entries_wire(v).is_prefix_of(data),
    ensures
        entries_at(data) == Some(v),
{
    lemma_entry_form();
    let w = entries_at(data)->0;
    lemma_same_list(v, w, entry_form(), data);
}

pub proof fn lemma_options_at(v: Seq<Option<Seq<char>>>, data: Seq<u8>)
    requires
        addressable(data),
        options_wire(v).is_prefix_of(data),
    ensures
        options_at(data) == Some(v),
{
    lemma_option_form();
    let w = options_at(data)->0;
    lemma_same_list(v, w, option_form(), data);
}

pub proof fn lemma_numbers_at(v: Seq<u32>, data: Seq<u8>)
    requires
        addressable(data),
        numbers_wire(v).is_prefix_of(data),
    ensures
        numbers_at(data) == Some(v),
{
    lemma_number_forms();
    let w = numbers_at(data)->0;
    lemma_same_list(v, w, number_form(), data);
}

pub proof fn lemma_times_at(v: Seq<i64>, data: Seq<u8>)
    requires
        addressable(data),
        times_wire(v).is_prefix_of(data),
    ensures
        times_at(data) == Some(v),
{
    lemma_number_forms();
    let w = times_at(data)->0;
    lemma_same_list(v, w, time_form(), data);
}

pub proof fn lemma_quantities_at(v: Seq<i128>, data: Seq<u8>)
    requires
        addressable(data),
        quantities_wire(v).is_prefix_of(data),
    ensures
        quantities_at(data) == Some(v),
{
    lemma_number_forms();
    let w = quantities_at(data)->0;
    lemma_same_list(v, w, quantity_form(), data);
}

/// The entries of an index read back from their own layout.
pub proof fn lemma_entries_round_trip(v: Seq<(u128, u128, i64)>)
    requires
        addressable(entries_wire(v)),
    ensures
        entries_at(entries_wire(v)) == Some(v),
{
    lemma_whole_prefix(entries_wire(v));
    lemma_entries_at(v, entries_wire(v));
}

/// Texts read back from their own layout.
pub proof fn lemma_texts_round_trip(v: Seq<Seq<char>>)
    requires
        addressable(texts_wire(v)),
    ensures
        texts_at(texts_wire(v)) == Some(v),
{
    lemma_whole_prefix(texts_wire(v));
    lemma_texts_at(v, texts_wire(v));
}

/// Corrections read back from their own layout.
pub proof fn lemma_corrections_round_trip(v: Seq<Option<(Seq<char>, Seq<char>)>>)
    requires
        addressable(corrections_wire(v)),
    ensures
        corrections_at(corrections_wire(v)) == Some(v),
{
    lemma_whole_prefix(corrections_wire(v));
    lemma_corrections_at(v, corrections_wire(v));
}

/// Dimensions read back from their own layout.
pub proof fn lemma_dimensions_round_trip(v: Seq<Seq<(Seq<char>, Seq<char>)>>)
    requires
        addressable(dimensions_wire(v)),
    ensures
        dimensions_at(dimensions_wire(v)) == Some(v),
{
    lemma_whole_prefix(dimensions_wire(v));
    lemma_dimensions_at(v, dimensions_wire(v));
}

pub proof fn lemma_next_text(a: Seq<char>, ra: Seq<u8>, b: Seq<char>, rb: Seq<u8>, data: Seq<u8>) -> (
    rest: Seq<u8>)
    requires
        addressable(data),
        (text_wire(a) + ra).is_prefix_of(data),
        (text_wire(b) + rb).is_prefix_of(data),
    ensures
        a == b,
        addressable(rest),
        ra.is_prefix_of(rest),
        rb.is_prefix_of(rest),
{
    lemma_head(text_wire(a), ra, data);
    lemma_head(text_wire(b), rb, data);
    lemma_same_text(a, b, data);
    data.skip(text_wire(a).len() as int)
}

pub proof fn lemma_next_option(
    a: Option<Seq<char>>,
    ra: Seq<u8>,
    b: Option<Seq<char>>,
    rb: Seq<u8>,
    data: Seq<u8>,
) -> (rest: Seq<u8>)
    requires
        addressable(data),
        (option_wire(a, text_form()) + ra).is_prefix_of(data),
        (option_wire(b, text_form()) + rb).is_prefix_of(data),
    ensures
        a == b,
        addressable(rest),
        ra.is_prefix_of(rest),
        rb.is_prefix_of(rest),
{
    lemma_text_form();
    lemma_head(option_wire(a, text_form()), ra, data);
    lemma_head(option_wire(b, text_form()), rb, data);
    lemma_same_option(a, b, text_form(), data);
    data.skip(option_wire(a, text_form()).len() as int)
}

pub proof fn lemma_next_number(a: int, ra: Seq<u8>, b: int, rb: Seq<u8>, n: nat, data: Seq<u8>) -> (
    rest: Seq<u8>)
    requires
        addressable(data),
        0 <= a < bytes::pow256(n),
        0 <= b < bytes::pow256(n),
        (bytes::le_bytes(a, n) + ra).is_prefix_of(data),
        (bytes::le_bytes(b, n) + rb).is_prefix_of(data),
    ensures
        a == b,
        addressable(rest),
        ra.is_prefix_of(rest),
        rb.is_prefix_of(rest),
{
    lemma_head(bytes::le_bytes(a, n), ra, data);
    lemma_head(bytes::le_bytes(b, n), rb, data);
    lemma_same_number(a, b, n, data);
    data.skip(bytes::le_bytes(a, n).len() as int)
}

pub proof fn lemma_record_at(r: RecordModel, data: Seq<u8>)
    requires
        addressable(data),
        record_wire(r).is_prefix_of(data),
    ensures
        record_at(data) == Some(r),
{
    reveal(record_wire);
    reveal(record_at);
    let w = record_at(data)->0;
    let r12 = bytes::le_bytes(bytes::unsigned64(r.last_event_ms as int), 8);
    let w12 = bytes::le_bytes(bytes::unsigned64(w.last_event_ms as int), 8);
    let r11 = bytes::le_bytes(bytes::unsigned64(r.first_event_ms as int), 8) + r12;
    let w11 = bytes::le_bytes(bytes::unsigned64(w.first_event_ms as int), 8) + w12;
    let r10 = bytes::le_bytes(r.event_count as int, 8) + r11;
    let w10 = bytes::le_bytes(w.event_count as int, 8) + w11;
    let r9 = bytes::le_bytes(bytes::unsigned128(r.quantity_sum as int), 16) + r10;
    let w9 = bytes::le_bytes(bytes::unsigned128(w.quantity_sum as int), 16) + w10;
    let r8 = text_wire(r.key.dimensions_canonical) + r9;
    let w8 = text_wire(w.key.dimensions_canonical) + w9;
    let r7 = bytes::le_bytes(bytes::unsigned64(r.key.hour_start_ms as int), 8) + r8;
    let w7 = bytes::le_bytes(bytes::unsigned64(w.key.hour_start_ms as int), 8) + w8;
    let r6 = text_wire(r.key.unit) + r7;
    let w6 = text_wire(w.key.unit) + w7;
    let r5 = text_wire(r.key.source) + r6;
    let w5 = text_wire(w.key.source) + w6;
    let r4 = option_wire(r.key.model_id, text_form()) + r5;
    let w4 = option_wire(w.key.model_id, text_form()) + w5;
    let r3 = text_wire(r.key.meter_id) + r4;
    let w3 = text_wire(w.key.meter_id) + w4;
    let r2 = text_wire(r.key.product_id) + r3;
    let w2 = text_wire(w.key.product_id) + w3;
    let r1 = option_wire(r.key.subscription_id, text_form()) + r2;
    let w1 = option_wire(w.key.subscription_id, text_form()) + w2;
    bytes::lemma_pow256_values();
    let d1 = lemma_next_text(r.key.account_id, r1, w.key.account_id, w1, data);
    let d2 = lemma_next_option(r.key.subscription_id, r2, w.key.subscription_id, w2, d1);
    let d3 = lemma_next_text(r.key.product_id, r3, w.key.product_id, w3, d2);
    let d4 = lemma_next_text(r.key.meter_id, r4, w.key.meter_id, w4, d3);
    let d5 = lemma_next_option(r.key.model_id, r5, w.key.model_id, w5, d4);
    let d6 = lemma_next_text(r.key.source, r6, w.key.source, w6, d5);
    let d7 = lemma_next_text(r.key.unit, r7, w.key.unit, w7, d6);
    let d8 = lemma_next_number(
        bytes::unsigned64(r.key.hour_start_ms as int),
        r8,
        bytes::unsigned64(w.key.hour_start_ms as int),
        w8,
        8,
        d7,
    );
    let d9 = lemma_next_text(r.key.dimensions_canonical, r9, w.key.dimensions_canonical, w9, d8);
    let d10 = lemma_next_number(
        bytes::unsigned128(r.quantity_sum as int),
        r10,
        bytes::unsigned128(w.quantity_sum as int),
        w10,
        16,
        d9,
    );
    let d11 = lemma_next_number(r.event_count as int, r11, w.event_count as int, w11, 8, d10);
    let d12 = lemma_next_number(
        bytes::unsigned64(r.first_event_ms as int),
        r12,
        bytes::unsigned64(w.first_event_ms as int),
        w12,
        8,
        d11,
    );
    lemma_same_number(
        bytes::unsigned64(r.last_event_ms as int),
        bytes::unsigned64(w.last_event_ms as int),
        8,
        d12,
    );
    assert(r.key =~= w.key);
}

/// A rollup row reads back from its own layout.
pub proof fn lemma_record_round_trip(r: RecordModel)
    requires
        addressable(record_wire(r)),
    ensures
        record_at(record_wire(r)) == Some(r),
{
    lemma_whole_prefix(record_wire(r));
    lemma_record_at(r, record_wire(r));
}

// ---------------------------------------------------------------------------
// Writing and reading
// ---------------------------------------------------------------------------

/// Optional pairs of texts by their contents.
pub open spec fn correction_views(values: Seq<Option<(String, String)>>) -> Seq<
    Option<(Seq<char>, Seq<char>)>,
> {
    values.map_values(
        |c: Option<(String, String)>|
            match c {
                Some(p) => Some((p.0@, p.1@)),
                None => None,
            },
    )
}

/// Lists of pairs of texts by their contents.
pub open spec fn pairs_views(values: Seq<Vec<(String, String)>>) -> Seq<
    Seq<(Seq<char>, Seq<char>)>,
> {
    values.map_values(|d: Vec<(String, String)>| dimensions::string_pairs(d@))
}

/// `bincode::serialize` of a list of texts: it writes the list's layout, and
/// fails on none, as no size limit is set and the lengths are known.
#[verifier::external_body]
pub(crate) fn write_texts(values: &[String]) -> (r: Vec<u8>)
    ensures
        r@ == texts_wire(text::text_views(values@)),
{
    bincode::serialize(values).unwrap_or_default()
}

/// `bincode::deserialize` into a list of texts: it reads the list whose layout
/// the bytes begin with, lets what follows be, and fails where there is none.
#[verifier::external_body]
fn parse_texts(data: &[u8]) -> (r: Option<Vec<String>>)
    ensures
        match r {
            Some(v) => texts_wire(text::text_views(v@)).is_prefix_of(data@),
            None => forall|w: Seq<Seq<char>>| !(#[trigger] texts_wire(w).is_prefix_of(data@)),
        },
{
    bincode::deserialize(data).ok()
}

/// `bincode::serialize` of a list of optional pairs of texts: it writes the
/// list's layout, and fails on none.
#[verifier::external_body]
pub(crate) fn write_corrections(values: &Vec<Option<(String, String)>>) -> (r: Vec<u8>)
    ensures
        r@ == corrections_wire(correction_views(values@)),
{
    bincode::serialize(values).unwrap_or_default()
}

/// `bincode::deserialize` into a list of optional pairs of texts: it reads the
/// list whose layout the bytes begin with, and fails where there is none.
#[verifier::external_body]
fn parse_corrections(data: &[u8]) -> (r: Option<Vec<Option<(String, String)>>>)
    ensures
        match r {
            Some(v) => corrections_wire(correction_views(v@)).is_prefix_of(data@),
            None => forall|w: Seq<Option<(Seq<char>, Seq<char>)>>|
                !(#[trigger] corrections_wire(w).is_prefix_of(data@)),
        },
{
    bincode::deserialize(data).ok()
}

/// `bincode::serialize` of a list of lists of pairs of texts: it writes the
/// list's layout, and fails on none.
#[verifier::external_body]
pub(crate) fn write_dimensions(values: &Vec<Vec<(String, String)>>) -> (r: Vec<u8>)
    ensures
        r@ == dimensions_wire(pairs_views(values@)),
{
    bincode::serialize(values).unwrap_or_default()
}

/// `bincode::deserialize` into a list of lists of pairs of texts: it reads the
/// list whose layout the bytes begin with, and fails where there is none.
#[verifier::external_body]
fn parse_dimensions(data: &[u8]) -> (r: Option<Vec<Vec<(String, String)>>>)
    ensures
        match r {
            Some(v) => dimensions_wire(pairs_views(v@)).is_prefix_of(data@),
            None => forall|w: Seq<Seq<(Seq<char>, Seq<char>)>>|
                !(#[trigger] dimensions_wire(w).is_prefix_of(data@)),
        },
{
    bincode::deserialize(data).ok()
}

/// `bincode::serialize` of a list of number triples: it writes the list's
/// layout, and fails on none.
#[verifier::external_body]
pub(crate) fn write_entries(values: &[(u128, u128, i64)]) -> (r: Vec<u8>)
    ensures
        r@ == entries_wire(values@),
{
    bincode::serialize(values).unwrap_or_default()
}

/// `bincode::deserialize` into a list of number triples: it reads the list whose
/// layout the bytes begin with, and fails where there is none.
#[verifier::external_body]
fn parse_entries(data: &[u8]) -> (r: Option<Vec<(u128, u128, i64)>>)
    ensures
        match r {
            Some(v) => entries_wire(v@).is_prefix_of(data@),
            None => forall|w: Seq<(u128, u128, i64)>|
                !(#[trigger] entries_wire(w).is_prefix_of(data@)),
        },
{
    bincode::deserialize(data).ok()
}

/// `bincode::deserialize` into a list of optional texts: it reads the list whose layout
/// the bytes begin with, and fails where there is none.
#[verifier::external_body]
fn parse_options(data: &[u8]) -> (r: Option<Vec<Option<String>>>)
    ensures
        match r {
            Some(v) => options_wire(text::option_views(v@)).is_prefix_of(data@),
            None => forall|w: Seq<Option<Seq<char>>>| !(#[trigger] options_wire(w).is_prefix_of(data@)),
        },
{
    bincode::deserialize(data).ok()
}

/// `bincode::deserialize` into a list of numbers: it reads the list whose layout
/// the bytes begin with, and fails where there is none.
#[verifier::external_body]
fn parse_numbers(data: &[u8]) -> (r: Option<Vec<u32>>)
    ensures
        match r {
            Some(v) => numbers_wire(v@).is_prefix_of(data@),
            None => forall|w: Seq<u32>| !(#[trigger] numbers_wire(w).is_prefix_of(data@)),
        },
{
    bincode::deserialize(data).ok()
}

/// `bincode::deserialize` into a list of times: it reads the list whose layout
/// the bytes begin with, and fails where there is none.
#[verifier::external_body]
fn parse_times(data: &[u8]) -> (r: Option<Vec<i64>>)
    ensures
        match r {
            Some(v) => times_wire(v@).is_prefix_of(data@),
            None => forall|w: Seq<i64>| !(#[trigger] times_wire(w).is_prefix_of(data@)),
        },
{
    bincode::deserialize(data).ok()
}

/// `bincode::deserialize` into a list of quantities: it reads the list whose layout
/// the bytes begin with, and fails where there is none.
#[verifier::external_body]
fn parse_quantities(data: &[u8]) -> (r: Option<Vec<i128>>)
    ensures
        match r {
            Some(v) => quantities_wire(v@).is_prefix_of(data@),
            None => forall|w: Seq<i128>| !(#[trigger] quantities_wire(w).is_prefix_of(data@)),
        },
{
    bincode::deserialize(data).ok()
}

/// `bincode::serialize` of the fields of a rollup row, as a tuple: it writes
/// their layouts one after the other, and fails on none.
#[verifier::external_body]
pub(crate) fn write_record(r: &HourlyRollupRecord) -> (out: Vec<u8>)
    ensures
        out@ == record_wire(r@),
{
    let subscription = r.subscription_id.as_ref().map(|s| &s.0);
    let model = r.model_id.as_ref().map(|m| &m.0);
    let head = (&r.account_id.0, subscription, &r.product_id.0, &r.meter_id.0, model);
    let key = (&r.source.0, &r.unit.0, r.hour_start_ms, &r.dimensions_canonical);
    let sums = (r.quantity_sum, r.event_count, r.first_event_ms, r.last_event_ms);
    bincode::serialize(&(head, key, sums)).unwrap_or_default()
}

/// The fields of a rollup row, as they are laid out.
pub type RecordFields = (
    (String, Option<String>, String, String, Option<String>),
    (String, String, i64, String),
    (i128, u64, i64, i64),
);

/// The rollup row with those fields.
pub open spec fn record_of_fields(f: RecordFields) -> RecordModel {
    RecordModel {
        key: KeyModel {
            account_id: f.0.0@,
            subscription_id: text::option_view(f.0.1),
            product_id: f.0.2@,
            meter_id: f.0.3@,
            model_id: text::option_view(f.0.4),
            source: f.1.0@,
            unit: f.1.1@,
            hour_start_ms: f.1.2,
            dimensions_canonical: f.1.3@,
        },
        quantity_sum: f.2.0,
        event_count: f.2.1,
        first_event_ms: f.2.2,
        last_event_ms: f.2.3,
    }
}

/// `bincode::deserialize` into the fields of a rollup row: it reads the fields
/// whose layouts the bytes begin with, and fails where there are none.
#[verifier::external_body]
fn parse_record(data: &[u8]) -> (r: Option<RecordFields>)
    ensures
        match r {
            Some(f) => record_wire(record_of_fields(f)).is_prefix_of(data@),
            None => forall|w: RecordModel| !(#[trigger] record_wire(w).is_prefix_of(data@)),
        },
{
    bincode::deserialize(data).ok()
}

/// Reads the list of texts that `data` begins with.
pub fn read_texts(data: &[u8]) -> (r: Option<Vec<String>>)
    ensures
        match r {
            Some(v) => texts_at(data@) == Some(text::text_views(v@)),
            None => texts_at(data@) is None,
        },
{
    let r = parse_texts(data);
    assert(data@.len() == data.len());
    proof {
        if r is Some {
            lemma_texts_at(text::text_views(r->0@), data@);
        }
    }
    r
}

/// Reads the list of optional corrections that `data` begins with.
pub fn read_corrections(data: &[u8]) -> (r: Option<Vec<Option<(String, String)>>>)
    ensures
        match r {
            Some(v) => corrections_at(data@) == Some(correction_views(v@)),
            None => corrections_at(data@) is None,
        },
{
    let r = parse_corrections(data);
    assert(data@.len() == data.len());
    proof {
        if r is Some {
            lemma_corrections_at(correction_views(r->0@), data@);
        }
    }
    r
}

/// Reads the list of dimensions that `data` begins with.
pub fn read_dimensions(data: &[u8]) -> (r: Option<Vec<Vec<(String, String)>>>)
    ensures
        match r {
            Some(v) => dimensions_at(data@) == Some(pairs_views(v@)),
            None => dimensions_at(data@) is None,
        },
{
    let r = parse_dimensions(data);
    assert(data@.len() == data.len());
    proof {
        if r is Some {
            lemma_dimensions_at(pairs_views(r->0@), data@);
        }
    }
    r
}

/// Reads the entries that `data` begins with.
pub fn read_entries(data: &[u8]) -> (r: Option<Vec<(u128, u128, i64)>>)
    ensures
        match r {
            Some(v) => entries_at(data@) == Some(v@),
            None => entries_at(data@) is None,
        },
{
    let r = parse_entries(data);
    assert(data@.len() == data.len());
    proof {
        if r is Some {
            lemma_entries_at(r->0@, data@);
        }
    }
    r
}

/// Reads the list of optional texts that `data` begins with.
pub fn read_options(data: &[u8]) -> (r: Option<Vec<Option<String>>>)
    ensures
        match r {
            Some(v) => options_at(data@) == Some(text::option_views(v@)),
            None => options_at(data@) is None,
        },
{
    let r = parse_options(data);
    assert(data@.len() == data.len());
    proof {
        if r is Some {
            lemma_options_at(text::option_views(r->0@), data@);
        }
    }
    r
}

/// Reads the list of numbers that `data` begins with.
pub fn read_numbers(data: &[u8]) -> (r: Option<Vec<u32>>)
    ensures
        match r {
            Some(v) => numbers_at(data@) == Some(v@),
            None => numbers_at(data@) is None,
        },
{
    let r = parse_numbers(data);
    assert(data@.len() == data.len());
    proof {
        if r is Some {
            lemma_numbers_at(r->0@, data@);
        }
    }
    r
}

/// Reads the list of times that `data` begins with.
pub fn read_times(data: &[u8]) -> (r: Option<Vec<i64>>)
    ensures
        match r {
            Some(v) => times_at(data@) == Some(v@),
            None => times_at(data@) is None,
        },
{
    let r = parse_times(data);
    assert(data@.len() == data.len());
    proof {
        if r is Some {
            lemma_times_at(r->0@, data@);
        }
    }
    r
}

/// Reads the list of quantities that `data` begins with.
pub fn read_quantities(data: &[u8]) -> (r: Option<Vec<i128>>)
    ensures
        match r {
            Some(v) => quantities_at(data@) == Some(v@),
            None => quantities_at(data@) is None,
        },
{
    let r = parse_quantities(data);
    assert(data@.len() == data.len());
    proof {
        if r is Some {
            lemma_quantities_at(r->0@, data@);
        }
    }
    r
}

/// Reads the rollup row that `data` begins with.
pub fn read_record(data: &[u8]) -> (r: Option<HourlyRollupRecord>)
    ensures
        match r {
            Some(v) => record_at(data@) == Some(v@),
            None => record_at(data@) is None,
        },
{
    reveal(record_at);
    assert(data@.len() == data.len());
    match parse_record(data) {
        None => None,
        Some((head, key, sums)) => {
            proof {
                lemma_record_at(record_of_fields((head, key, sums)), data@);
            }
            let (account_id, subscription, product_id, meter_id, model) = head;
            let (source, unit, hour_start_ms, dimensions_canonical) = key;
            let (quantity_sum, event_count, first_event_ms, last_event_ms) = sums;
            let subscription_id: Option<SubscriptionId> = match subscription {
                Some(s) => Some(SubscriptionId(s)),
                None => None,
            };
            let model_id: Option<ModelId> = match model {
                Some(m) => Some(ModelId(m)),
                None => None,
            };
            Some(
                HourlyRollupRecord {
                    account_id: AccountId(account_id),
                    subscription_id,
                    product_id: ProductId(product_id),
                    meter_id: MeterId(meter_id),
                    model_id,
                    source: SourceId(source),
                    unit: Unit(unit),
                    hour_start_ms,
                    dimensions_canonical,
                    quantity_sum,
                    event_count,
                    first_event_ms,
                    last_event_ms,
                },
            )
        },
    }
}

/// A text stands behind its length in eight bytes, what may be missing behind a byte that
/// is one where it is there and zero where not, and a list behind the number of its items.
pub proof fn law_layout_of_values(s: Seq<char>, t: Seq<char>, more: Seq<Seq<char>>)
    requires
        vstd::utf8::encode_utf8(s).len() <= u64::MAX,
        more.len() < u64::MAX,
    ensures
        ({
            let utf8 = vstd::utf8::encode_utf8(s);
            &&& text_wire(s).len() == utf8.len() + 8
            &&& bytes::le_value(text_wire(s).take(8)) == utf8.len()
            &&& text_wire(s).skip(8) == utf8
        }),
        option_wire(Some(s), text_form())[0] == 1,
        option_wire(Some(s), text_form()).drop_first() == text_wire(s),
        option_wire(None, text_form()) == seq![0u8],
        pair_wire((s, t)) == text_wire(s) + text_wire(t),
        bytes::le_value(texts_wire(more).take(8)) == more.len(),
        texts_wire(seq![s] + more).skip(8) == text_wire(s) + texts_wire(more).skip(8),
{
    bytes::lemma_pow256_values();
    let utf8 = vstd::utf8::encode_utf8(s);
    bytes::lemma_le_round_trip(utf8.len() as int, 8);
    bytes::lemma_le_bytes_len(utf8.len() as int, 8);
    assert(text_wire(s).take(8) =~= bytes::le_bytes(utf8.len() as int, 8));
    assert(text_wire(s).skip(8) =~= utf8);
    assert(option_wire(Some(s), text_form()).drop_first() =~= text_wire(s));
    bytes::lemma_le_round_trip(more.len() as int, 8);
    bytes::lemma_le_bytes_len(more.len() as int, 8);
    bytes::lemma_le_bytes_len((seq![s] + more).len() as int, 8);
    assert(texts_wire(more).take(8) =~= bytes::le_bytes(more.len() as int, 8));
    assert(texts_wire(more).skip(8) =~= joined(more, text_form()));
    assert((seq![s] + more).drop_first() =~= more);
    assert(texts_wire(seq![s] + more).skip(8) =~= joined(seq![s] + more, text_form()));
}

} // verus!
