//! Rebuilding what was in memory when the process ended.

use vstd::prelude::*;

use crate::bytes;
use crate::bytes::{blake3_of, push_le, read_le};
use crate::ingest::dedupe::EventHash;
use crate::model::dimensions::SmallDimensions;
use crate::model::event::{EventModel, UsageEvent};
use crate::storage::encoding;
use crate::storage::wire;

verus! {

/// The start-up of the database at a place.
#[derive(Debug, PartialEq, Eq)]
pub struct Recovery {
    pub db_root: String,
}

impl Recovery {
    pub fn new(db_root: String) -> (r: Self)
        ensures
            r.db_root@ == db_root@,
    {
        Recovery { db_root }
    }
}

// ---------------------------------------------------------------------------
// Hashes
// ---------------------------------------------------------------------------

/// What an event says, apart from its id and from when it was taken in.
pub open spec fn payload_wire(e: EventModel) -> Seq<u8> {
    bytes::le_bytes(encoding::kind_byte(e.kind) as int, 1) + (wire::option_wire(
        e.correction_ref,
        wire::pair_form(),
    ) + (wire::text_wire(e.account_id) + (wire::option_wire(e.subscription_id, wire::text_form())
        + (wire::text_wire(e.product_id) + (wire::text_wire(e.meter_id) + (bytes::le_bytes(
        bytes::unsigned64(e.timestamp_ms as int),
        8,
    ) + (bytes::le_bytes(bytes::unsigned128(e.quantity as int), 16) + (wire::text_wire(e.unit) + (
    wire::text_wire(e.source) + (wire::option_wire(e.model_id, wire::text_form())
        + wire::list_wire(e.dimensions, wire::pair_form())))))))))))
}

/// The first sixteen bytes of the BLAKE3 digest of `data`, as a number.
pub open spec fn hash_of(data: Seq<u8>) -> int {
    bytes::le_value(bytes::blake3_digest(data).subrange(0, 16))
}

/// The hash of an event's id.
pub open spec fn id_hash(e: EventModel) -> int {
    hash_of(vstd::utf8::encode_utf8(e.event_id))
}

/// The hash of what an event says.
pub open spec fn payload_hash(e: EventModel) -> int {
    hash_of(payload_wire(e))
}

/// The hash by which an event's id is known.
#[verifier::opaque]
pub open spec fn id_of(e: EventModel) -> EventHash {
    id_hash(e) as u128
}

/// The hash by which an event's payload is known.
#[verifier::opaque]
pub open spec fn payload_of(e: EventModel) -> EventHash {
    payload_hash(e) as u128
}

/// Events' hashes, in their order.
pub open spec fn hashes_of(events: Seq<EventModel>) -> Seq<(EventHash, EventHash)> {
    events.map_values(|e: EventModel| (id_of(e), payload_of(e)))
}

/// Two events say the same, whatever their ids and whenever they were taken in.
pub open spec fn same_payload(a: EventModel, b: EventModel) -> bool {
    a == (EventModel { event_id: a.event_id, ingested_at_ms: a.ingested_at_ms, ..b })
}

fn hash_bytes(data: &[u8]) -> (r: EventHash)
    ensures
        r == hash_of(data@),
{
    let digest = blake3_of(data);
    read_le(digest.as_slice(), 0, 16)
}

fn push_text(out: &mut Vec<u8>, s: &str)
    ensures
        final(out)@ == old(out)@ + wire::text_wire(s@),
{
    let utf8 = s.as_bytes();
    let ghost start = out@;
    push_le(out, utf8.len() as u128, 8);
    let ghost head = out@;
    for i in 0..utf8.len()
        invariant
            out@ == head + utf8@.take(i as int),
    {
        out.push(utf8[i]);
        assert(out@ =~= head + utf8@.take(i + 1));
    }
    assert(utf8@.take(utf8@.len() as int) =~= utf8@);
    assert(out@ =~= start + wire::text_wire(s@));
}

fn push_option(out: &mut Vec<u8>, s: Option<&String>)
    ensures
        final(out)@ == old(out)@ + wire::option_wire(
            match s {
                Some(s) => Some(s@),
                None => None,
            },
            wire::text_form(),
        ),
{
    let ghost start = out@;
    match s {
        Some(s) => {
            out.push(1);
            push_text(out, s.as_str());
            assert(out@ =~= start + (seq![1u8] + wire::text_wire(s@)));
        },
        None => {
            out.push(0);
            assert(out@ =~= start + seq![0u8]);
        },
    }
}

fn push_dimensions(out: &mut Vec<u8>, d: &SmallDimensions)
    ensures
        final(out)@ == old(out)@ + wire::list_wire(d@, wire::pair_form()),
{
    let ghost start = out@;
    let n: usize = d.inner.len();
    push_le(out, n as u128, 8);
    let ghost head = out@;
    let ghost all = d@;
    assert(wire::joined(all.take(0), wire::pair_form()) =~= Seq::empty());
    for i in 0..n
        invariant
            all == d@,
            n == d.inner@.len(),
            out@ == head + wire::joined(all.take(i as int), wire::pair_form()),
    {
        let ghost before = out@;
        push_text(out, d.inner.key_at(i).as_str());
        push_text(out, d.inner.value_at(i).as_str());
        proof {
            let p = all[i as int];
            assert(p == (d.inner@[i as int].0, d.inner@[i as int].1@));
            lemma_joined_push(all.take(i as int), p);
            assert(all.take(i + 1) =~= all.take(i as int).push(p));
            assert(out@ =~= before + wire::pair_wire(p));
            assert(out@ =~= head + wire::joined(all.take(i + 1), wire::pair_form()));
        }
    }
    assert(all.take(all.len() as int) =~= all);
    assert(out@ =~= start + wire::list_wire(d@, wire::pair_form()));
}

proof fn lemma_joined_push(pairs: Seq<(Seq<char>, Seq<char>)>, p: (Seq<char>, Seq<char>))
    ensures
        wire::joined(pairs.push(p), wire::pair_form()) == wire::joined(pairs, wire::pair_form())
            + wire::pair_wire(p),
    decreases pairs.len(),
{
    let form = wire::pair_form();
    let all = pairs.push(p);
    if pairs.len() == 0 {
        assert(all.drop_first() =~= Seq::empty());
        assert(all[0] == p);
        assert(wire::joined(all.drop_first(), form) =~= Seq::empty());
        assert(wire::joined(pairs, form) =~= Seq::empty());
        assert(wire::joined(all, form) == form(p) + wire::joined(all.drop_first(), form));
        assert(form(p) == wire::pair_wire(p));
        assert(wire::joined(all, form) =~= wire::joined(pairs, form) + wire::pair_wire(p));
    } else {
        lemma_joined_push(pairs.drop_first(), p);
        assert(all.drop_first() =~= pairs.drop_first().push(p));
        assert(wire::joined(all, form) =~= wire::joined(pairs, form) + wire::pair_wire(p));
    }
}

proof fn lemma_regrouped(a: Seq<u8>, b: Seq<u8>, c: Seq<u8>)
    ensures
        (a + b) + c == a + (b + c),
{
    assert((a + b) + c =~= a + (b + c));
}

fn push_correction(out: &mut Vec<u8>, e: &UsageEvent)
    ensures
        final(out)@ == old(out)@ + wire::option_wire(e@.correction_ref, wire::pair_form()),
{
    let ghost start = out@;
    match &e.correction_ref {
        Some(c) => {
            out.push(1);
            push_text(out, c.original_event_id.0.as_str());
            push_text(out, c.reason.as_str());
            assert(out@ =~= start + (seq![1u8] + (wire::text_wire(c.original_event_id@)
                + wire::text_wire(c.reason@))));
        },
        None => {
            out.push(0);
            assert(out@ =~= start + seq![0u8]);
        },
    }
}

fn payload_bytes(e: &UsageEvent) -> (out: Vec<u8>)
    ensures
        out@ == payload_wire(e@),
{
    let mut out: Vec<u8> = Vec::new();
    push_le(&mut out, encoding::byte_of(e.kind) as u128, 1);
    let ghost l0 = out@;
    push_correction(&mut out, e);
    let ghost l1 = out@;
    push_text(&mut out, e.account_id.0.as_str());
    let ghost l2 = out@;
    push_option(
        &mut out,
        match &e.subscription_id {
            Some(s) => Some(&s.0),
            None => None,
        },
    );
    let ghost l3 = out@;
    push_text(&mut out, e.product_id.0.as_str());
    let ghost l4 = out@;
    push_text(&mut out, e.meter_id.0.as_str());
    let ghost l5 = out@;
    push_le(&mut out, bytes::unsigned64_of(e.timestamp_ms), 8);
    let ghost l6 = out@;
    push_le(&mut out, bytes::unsigned128_of(e.quantity), 16);
    let ghost l7 = out@;
    push_text(&mut out, e.unit.0.as_str());
    let ghost l8 = out@;
    push_text(&mut out, e.source.0.as_str());
    let ghost l9 = out@;
    push_option(
        &mut out,
        match &e.model_id {
            Some(m) => Some(&m.0),
            None => None,
        },
    );
    let ghost l10 = out@;
    push_dimensions(&mut out, &e.dimensions);
    proof {
        let v = e@;
        let p1 = wire::option_wire(v.correction_ref, wire::pair_form());
        let p2 = wire::text_wire(v.account_id);
        let p3 = wire::option_wire(v.subscription_id, wire::text_form());
        let p4 = wire::text_wire(v.product_id);
        let p5 = wire::text_wire(v.meter_id);
        let p6 = bytes::le_bytes(bytes::unsigned64(v.timestamp_ms as int), 8);
        let p7 = bytes::le_bytes(bytes::unsigned128(v.quantity as int), 16);
        let p8 = wire::text_wire(v.unit);
        let p9 = wire::text_wire(v.source);
        let p10 = wire::option_wire(v.model_id, wire::text_form());
        let r11 = wire::list_wire(v.dimensions, wire::pair_form());
        let r10 = p10 + r11;
        let r9 = p9 + r10;
        let r8 = p8 + r9;
        let r7 = p7 + r8;
        let r6 = p6 + r7;
        let r5 = p5 + r6;
        let r4 = p4 + r5;
        let r3 = p3 + r4;
        let r2 = p2 + r3;
        lemma_regrouped(l9, p10, r11);
        lemma_regrouped(l8, p9, r10);
        lemma_regrouped(l7, p8, r9);
        lemma_regrouped(l6, p7, r8);
        lemma_regrouped(l5, p6, r7);
        lemma_regrouped(l4, p5, r6);
        lemma_regrouped(l3, p4, r5);
        lemma_regrouped(l2, p3, r4);
        lemma_regrouped(l1, p2, r3);
        lemma_regrouped(l0, p1, r2);
        assert(l0 =~= bytes::le_bytes(encoding::kind_byte(v.kind) as int, 1));
    }
    out
}

/// The hash of an event's id, and that of what it says. When it was taken in
/// does not count, so that a retry has the same hashes.
pub fn compute_event_hashes(event: &UsageEvent) -> (r: (EventHash, EventHash))
    ensures
        r.0 == id_hash(event@),
        r.1 == payload_hash(event@),
        r.0 == id_of(event@),
        r.1 == payload_of(event@),
{
    reveal(id_of);
    reveal(payload_of);
    let id = hash_bytes(event.event_id.0.as_str().as_bytes());
    let payload = payload_bytes(event);
    (id, hash_bytes(payload.as_slice()))
}

/// What is hashed tells payloads apart: events with the same bytes say the same.
pub proof fn law_payloads_are_told_apart(a: EventModel, b: EventModel)
    requires
        wire::addressable(payload_wire(a)),
        payload_wire(a) == payload_wire(b),
    ensures
        same_payload(a, b),
{
    let data = payload_wire(a);
    wire::lemma_whole_prefix(data);
    bytes::lemma_pow256_values();
    wire::lemma_pair_form();
    let a11 = wire::list_wire(a.dimensions, wire::pair_form());
    let b11 = wire::list_wire(b.dimensions, wire::pair_form());
    let a10 = wire::option_wire(a.model_id, wire::text_form()) + a11;
    let b10 = wire::option_wire(b.model_id, wire::text_form()) + b11;
    let a9 = wire::text_wire(a.source) + a10;
    let b9 = wire::text_wire(b.source) + b10;
    let a8 = wire::text_wire(a.unit) + a9;
    let b8 = wire::text_wire(b.unit) + b9;
    let a7 = bytes::le_bytes(bytes::unsigned128(a.quantity as int), 16) + a8;
    let b7 = bytes::le_bytes(bytes::unsigned128(b.quantity as int), 16) + b8;
    let a6 = bytes::le_bytes(bytes::unsigned64(a.timestamp_ms as int), 8) + a7;
    let b6 = bytes::le_bytes(bytes::unsigned64(b.timestamp_ms as int), 8) + b7;
    let a5 = wire::text_wire(a.meter_id) + a6;
    let b5 = wire::text_wire(b.meter_id) + b6;
    let a4 = wire::text_wire(a.product_id) + a5;
    let b4 = wire::text_wire(b.product_id) + b5;
    let a3 = wire::option_wire(a.subscription_id, wire::text_form()) + a4;
    let b3 = wire::option_wire(b.subscription_id, wire::text_form()) + b4;
    let a2 = wire::text_wire(a.account_id) + a3;
    let b2 = wire::text_wire(b.account_id) + b3;
    let a1 = wire::option_wire(a.correction_ref, wire::pair_form()) + a2;
    let b1 = wire::option_wire(b.correction_ref, wire::pair_form()) + b2;
    let d1 = wire::lemma_next_number(
        encoding::kind_byte(a.kind) as int,
        a1,
        encoding::kind_byte(b.kind) as int,
        b1,
        1,
        data,
    );
    wire::lemma_head(wire::option_wire(a.correction_ref, wire::pair_form()), a2, d1);
    wire::lemma_head(wire::option_wire(b.correction_ref, wire::pair_form()), b2, d1);
    wire::lemma_same_option(a.correction_ref, b.correction_ref, wire::pair_form(), d1);
    let d2 = d1.skip(wire::option_wire(a.correction_ref, wire::pair_form()).len() as int);
    let d3 = wire::lemma_next_text(a.account_id, a3, b.account_id, b3, d2);
    let d4 = wire::lemma_next_option(a.subscription_id, a4, b.subscription_id, b4, d3);
    let d5 = wire::lemma_next_text(a.product_id, a5, b.product_id, b5, d4);
    let d6 = wire::lemma_next_text(a.meter_id, a6, b.meter_id, b6, d5);
    let d7 = wire::lemma_next_number(
        bytes::unsigned64(a.timestamp_ms as int),
        a7,
        bytes::unsigned64(b.timestamp_ms as int),
        b7,
        8,
        d6,
    );
    let d8 = wire::lemma_next_number(
        bytes::unsigned128(a.quantity as int),
        a8,
        bytes::unsigned128(b.quantity as int),
        b8,
        16,
        d7,
    );
    let d9 = wire::lemma_next_text(a.unit, a9, b.unit, b9, d8);
    let d10 = wire::lemma_next_text(a.source, a10, b.source, b10, d9);
    let d11 = wire::lemma_next_option(a.model_id, a11, b.model_id, b11, d10);
    wire::lemma_same_list(a.dimensions, b.dimensions, wire::pair_form(), d11);
    assert(encoding::kind_of_byte(encoding::kind_byte(a.kind)) == Some(a.kind));
    assert(encoding::kind_of_byte(encoding::kind_byte(b.kind)) == Some(b.kind));
    assert(a =~= (EventModel {
        event_id: a.event_id,
        ingested_at_ms: a.ingested_at_ms,
        ..b
    }));
}

/// An event is known by its id alone, and what it says by all but its id and the time at
/// which it was taken in. Ids whose digests begin with the same sixteen bytes are one;
/// others are told apart.
pub proof fn law_hashes_of_events(a: EventModel, b: EventModel)
    ensures
        a.event_id == b.event_id ==> id_of(a) == id_of(b),
        a.kind == b.kind && a.correction_ref == b.correction_ref && a.account_id == b.account_id
            && a.subscription_id == b.subscription_id && a.product_id == b.product_id && a.meter_id
            == b.meter_id && a.timestamp_ms == b.timestamp_ms && a.quantity == b.quantity && a.unit
            == b.unit && a.source == b.source && a.model_id == b.model_id && a.dimensions
            == b.dimensions ==> payload_of(a) == payload_of(b),
        ({
            let one = bytes::blake3_digest(vstd::utf8::encode_utf8(a.event_id));
            let two = bytes::blake3_digest(vstd::utf8::encode_utf8(b.event_id));
            one.len() >= 16 && two.len() >= 16 ==> (id_of(a) == id_of(b) <==> one.take(16)
                == two.take(16))
        }),
        ({
            let one = bytes::blake3_digest(payload_wire(a));
            let two = bytes::blake3_digest(payload_wire(b));
            one.len() >= 16 && two.len() >= 16 ==> (payload_of(a) == payload_of(b) <==> one.take(16)
                == two.take(16))
        }),
{
    reveal(id_of);
    reveal(payload_of);
    lemma_first_sixteen(
        bytes::blake3_digest(vstd::utf8::encode_utf8(a.event_id)),
        bytes::blake3_digest(vstd::utf8::encode_utf8(b.event_id)),
    );
    lemma_first_sixteen(
        bytes::blake3_digest(payload_wire(a)),
        bytes::blake3_digest(payload_wire(b)),
    );
}

proof fn lemma_first_sixteen(one: Seq<u8>, two: Seq<u8>)
    ensures
        one.len() >= 16 && two.len() >= 16 ==> {
            let m = bytes::le_value(one.subrange(0, 16));
            let n = bytes::le_value(two.subrange(0, 16));
            &&& 0 <= m <= u128::MAX
            &&& 0 <= n <= u128::MAX
            &&& m == n <==> one.take(16) == two.take(16)
        },
{
    if one.len() >= 16 && two.len() >= 16 {
        let p = one.subrange(0, 16);
        let q = two.subrange(0, 16);
        assert(p =~= one.take(16));
        assert(q =~= two.take(16));
        bytes::lemma_le_value_bytes(p);
        bytes::lemma_le_value_bytes(q);
        bytes::lemma_le_value_bound(p);
        bytes::lemma_le_value_bound(q);
        bytes::lemma_pow256_values();
    }
}

} // verus!
