//! Reading raw segments.

use vstd::prelude::*;

use crate::model::dimensions::SmallDimensions;
use crate::model::event;
use crate::model::event::{CorrectionRef, EventKind, EventModel, UsageEvent};
use crate::model::ids::{
    AccountId, EventId, MeterId, ModelId, ProductId, SourceId, SubscriptionId, Unit,
};
use crate::storage::compression;
use crate::storage::compression::decompress;
use crate::storage::payload;
use crate::storage::segment_format;
use crate::storage::segment_format::col;
use crate::storage::segment_format::frame;
use crate::storage::segment_format::frame::{read_contents, Column, ColumnModel, SegmentFault};
use crate::storage::segment_format::Encoding;
use crate::storage::wire;
use crate::text;
use crate::text::same_text;

verus! {

// ---------------------------------------------------------------------------
// Columns
// ---------------------------------------------------------------------------

/// The last column with that name.
pub open spec fn found(cols: Seq<ColumnModel>, name: Seq<u8>) -> Option<ColumnModel>
    decreases cols.len(),
{
    if cols.len() == 0 {
        None
    } else if cols.last().name == name {
        Some(cols.last())
    } else {
        found(cols.drop_last(), name)
    }
}

/// The payload of the column `name`, decompressed, and how it is encoded.
pub open spec fn column_payload(cols: Seq<ColumnModel>, name: &'static str) -> Result<
    (Encoding, Seq<u8>),
    SegmentFault,
> {
    match found(cols, vstd::utf8::encode_utf8(name@)) {
        None => Err(SegmentFault::MissingColumn(name)),
        Some(c) => match compression::plain(c.payload, segment_format::compression_of(c.codec)) {
            None => Err(SegmentFault::CorruptColumn(name)),
            Some(p) => Ok((c.encoding, p)),
        },
    }
}

/// The values of a column, out of its payload.
pub open spec fn values_in<T>(
    p: Result<(Encoding, Seq<u8>), SegmentFault>,
    values: spec_fn(Encoding, Seq<u8>) -> Option<Seq<T>>,
    name: &'static str,
) -> Result<Seq<T>, SegmentFault> {
    match p {
        Err(f) => Err(f),
        Ok((e, p)) => match values(e, p) {
            None => Err(SegmentFault::CorruptColumn(name)),
            Some(v) => Ok(v),
        },
    }
}

/// The values of a column that is only ever plain.
pub open spec fn if_plain<T>(encoding: Encoding, values: Option<Seq<T>>) -> Option<Seq<T>> {
    if encoding == Encoding::Plain {
        values
    } else {
        None
    }
}

/// The values of a dictionary column in which every row has one.
pub open spec fn required(values: Option<Seq<Option<Seq<char>>>>) -> Option<Seq<Seq<char>>> {
    match values {
        None => None,
        Some(v) => if forall|i: int| 0 <= i < v.len() ==> (#[trigger] v[i]) is Some {
            Some(v.map_values(|s: Option<Seq<char>>| s->0))
        } else {
            None
        },
    }
}

/// The texts of a column in which every row has one.
pub open spec fn label_values(encoding: Encoding, p: Seq<u8>, rows: nat) -> Option<
    Seq<Seq<char>>,
> {
    match encoding {
        Encoding::Plain => payload::plain_texts(p, rows),
        Encoding::Dictionary => required(payload::dictionary_values(p, rows)),
        _ => None,
    }
}

pub open spec fn id_column(cols: Seq<ColumnModel>, rows: nat) -> Result<
    Seq<Seq<char>>,
    SegmentFault,
> {
    values_in(
        column_payload(cols, col::EVENT_ID),
        |e: Encoding, p: Seq<u8>| if_plain(e, payload::plain_texts(p, rows)),
        col::EVENT_ID,
    )
}

pub open spec fn kind_column(cols: Seq<ColumnModel>, rows: nat) -> Result<
    Seq<EventKind>,
    SegmentFault,
> {
    values_in(
        column_payload(cols, col::KIND),
        |e: Encoding, p: Seq<u8>| payload::kinds_in(e, p, rows),
        col::KIND,
    )
}

pub open spec fn correction_column(cols: Seq<ColumnModel>, rows: nat) -> Result<
    Seq<Option<(Seq<char>, Seq<char>)>>,
    SegmentFault,
> {
    values_in(
        column_payload(cols, col::CORRECTION_REF),
        |e: Encoding, p: Seq<u8>| if_plain(e, payload::correction_values(p, rows)),
        col::CORRECTION_REF,
    )
}

pub open spec fn dimension_column(cols: Seq<ColumnModel>, rows: nat) -> Result<
    Seq<Seq<(Seq<char>, Seq<char>)>>,
    SegmentFault,
> {
    values_in(
        column_payload(cols, col::DIMENSIONS),
        |e: Encoding, p: Seq<u8>| if_plain(e, payload::dimension_values(p, rows)),
        col::DIMENSIONS,
    )
}

pub open spec fn quantity_column(cols: Seq<ColumnModel>, rows: nat) -> Result<
    Seq<i128>,
    SegmentFault,
> {
    values_in(
        column_payload(cols, col::QUANTITY),
        |e: Encoding, p: Seq<u8>| payload::quantity_values(e, p, rows),
        col::QUANTITY,
    )
}

pub open spec fn time_column(cols: Seq<ColumnModel>, name: &'static str, rows: nat) -> Result<
    Seq<i64>,
    SegmentFault,
> {
    values_in(
        column_payload(cols, name),
        |e: Encoding, p: Seq<u8>| payload::time_values(e, p, rows),
        name,
    )
}

pub open spec fn label_column(cols: Seq<ColumnModel>, name: &'static str, rows: nat) -> Result<
    Seq<Seq<char>>,
    SegmentFault,
> {
    values_in(
        column_payload(cols, name),
        |e: Encoding, p: Seq<u8>| label_values(e, p, rows),
        name,
    )
}

pub open spec fn option_column(cols: Seq<ColumnModel>, name: &'static str, rows: nat) -> Result<
    Seq<Option<Seq<char>>>,
    SegmentFault,
> {
    values_in(
        column_payload(cols, name),
        |e: Encoding, p: Seq<u8>| payload::option_values(e, p, rows),
        name,
    )
}

/// The events that columns give: the first column that cannot be read decides,
/// in the order in which they are written.
pub open spec fn events_in(cols: Seq<ColumnModel>, rows: nat) -> Result<
    Seq<EventModel>,
    SegmentFault,
> {
    let event_id = id_column(cols, rows);
    let kind = kind_column(cols, rows);
    let correction_ref = correction_column(cols, rows);
    let account_id = label_column(cols, col::ACCOUNT_ID, rows);
    let subscription_id = option_column(cols, col::SUBSCRIPTION_ID, rows);
    let product_id = label_column(cols, col::PRODUCT_ID, rows);
    let meter_id = label_column(cols, col::METER_ID, rows);
    let timestamp_ms = time_column(cols, col::TIMESTAMP_MS, rows);
    let quantity = quantity_column(cols, rows);
    let unit = label_column(cols, col::UNIT, rows);
    let source = label_column(cols, col::SOURCE, rows);
    let model_id = option_column(cols, col::MODEL_ID, rows);
    let dimensions = dimension_column(cols, rows);
    let ingested_at_ms = time_column(cols, col::INGESTED_AT_MS, rows);
    if event_id is Err {
        Err(event_id->Err_0)
    } else if kind is Err {
        Err(kind->Err_0)
    } else if correction_ref is Err {
        Err(correction_ref->Err_0)
    } else if account_id is Err {
        Err(account_id->Err_0)
    } else if subscription_id is Err {
        Err(subscription_id->Err_0)
    } else if product_id is Err {
        Err(product_id->Err_0)
    } else if meter_id is Err {
        Err(meter_id->Err_0)
    } else if timestamp_ms is Err {
        Err(timestamp_ms->Err_0)
    } else if quantity is Err {
        Err(quantity->Err_0)
    } else if unit is Err {
        Err(unit->Err_0)
    } else if source is Err {
        Err(source->Err_0)
    } else if model_id is Err {
        Err(model_id->Err_0)
    } else if dimensions is Err {
        Err(dimensions->Err_0)
    } else if ingested_at_ms is Err {
        Err(ingested_at_ms->Err_0)
    } else {
        Ok(
            Seq::new(
                rows,
                |i: int|
                    EventModel {
                        event_id: event_id->Ok_0[i],
                        kind: kind->Ok_0[i],
                        correction_ref: correction_ref->Ok_0[i],
                        account_id: account_id->Ok_0[i],
                        subscription_id: subscription_id->Ok_0[i],
                        product_id: product_id->Ok_0[i],
                        meter_id: meter_id->Ok_0[i],
                        timestamp_ms: timestamp_ms->Ok_0[i],
                        quantity: quantity->Ok_0[i],
                        unit: unit->Ok_0[i],
                        source: source->Ok_0[i],
                        model_id: model_id->Ok_0[i],
                        dimensions: dimensions->Ok_0[i],
                        ingested_at_ms: ingested_at_ms->Ok_0[i],
                    },
            ),
        )
    }
}

/// The events of a raw segment file.
pub open spec fn segment_events(data: Seq<u8>) -> Result<Seq<EventModel>, SegmentFault> {
    match frame::contents(data) {
        Err(f) => Err(f),
        Ok((rows, cols)) => events_in(cols, rows),
    }
}

fn same_name(a: &Vec<u8>, b: &[u8]) -> (r: bool)
    ensures
        r == (a@ == b@),
{
    if a.len() != b.len() {
        return false;
    }
    for i in 0..a.len()
        invariant
            a@.len() == b@.len(),
            forall|k: int| 0 <= k < i ==> a@[k] == b@[k],
    {
        if a[i] != b[i] {
            return false;
        }
    }
    assert(a@ =~= b@);
    true
}

fn payload_of(cols: &Vec<Column>, name: &'static str) -> (r: Result<
    (Encoding, Vec<u8>),
    SegmentFault,
>)
    ensures
        match r {
            Ok((e, p)) => column_payload(frame::column_views(cols@), name) == Ok::<
                _,
                SegmentFault,
            >((e, p@)),
            Err(f) => column_payload(frame::column_views(cols@), name) == Err::<
                (Encoding, Seq<u8>),
                _,
            >(f),
        },
{
    let ghost views = frame::column_views(cols@);
    let ghost wanted = vstd::utf8::encode_utf8(name@);
    let utf8 = name.as_bytes();
    let mut i: usize = cols.len();
    assert(views.take(views.len() as int) =~= views);
    while i > 0
        invariant
            i <= cols@.len(),
            views == frame::column_views(cols@),
            wanted == vstd::utf8::encode_utf8(name@),
            utf8@ == wanted,
            found(views, wanted) == found(views.take(i as int), wanted),
        decreases i,
    {
        proof {
            let part = views.take(i as int);
            assert(part.drop_last() =~= views.take(i - 1));
            assert(part.last() == cols@[i - 1]@);
        }
        let c = &cols[i - 1];
        if same_name(&c.name, utf8) {
            return match decompress(c.payload.as_slice(), c.codec.compression()) {
                Ok(p) => Ok((c.encoding, p)),
                Err(_) => Err(SegmentFault::CorruptColumn(name)),
            };
        }
        i = i - 1;
    }
    Err(SegmentFault::MissingColumn(name))
}

fn read_required(cols: &Vec<Column>, name: &'static str, rows: usize) -> (r: Result<
    Vec<String>,
    SegmentFault,
>)
    ensures
        match r {
            Ok(v) => label_column(frame::column_views(cols@), name, rows as nat) == Ok::<
                _,
                SegmentFault,
            >(text::text_views(v@)) && v@.len() == rows,
            Err(f) => label_column(frame::column_views(cols@), name, rows as nat) == Err::<
                Seq<Seq<char>>,
                _,
            >(f),
        },
{
    let (encoding, p) = match payload_of(cols, name) {
        Ok(c) => c,
        Err(f) => {
            return Err(f);
        },
    };
    if encoding == Encoding::Plain {
        return match payload::read_plain_texts(p.as_slice(), rows) {
            Some(v) => {
                assert(text::text_views(v@).len() == rows);
                Ok(v)
            },
            None => Err(SegmentFault::CorruptColumn(name)),
        };
    }
    let values = match payload::read_options(encoding, p.as_slice(), rows) {
        Some(v) => v,
        None => {
            return Err(SegmentFault::CorruptColumn(name));
        },
    };
    let ghost views = text::option_views(values@);
    let mut out: Vec<String> = Vec::new();
    for i in 0..values.len()
        invariant
            views == text::option_views(values@),
            encoding == Encoding::Dictionary,
            payload::dictionary_values(p@, rows as nat) == Some(views),
            column_payload(frame::column_views(cols@), name) == Ok::<_, SegmentFault>(
                (encoding, p@),
            ),
            out@.len() == i,
            forall|k: int|
                0 <= k < i ==> (#[trigger] views[k]) is Some && text::text_views(out@)[k]
                    == views[k]->0,
    {
        assert(views[i as int] == text::option_view(values@[i as int]));
        let ghost before = out@;
        match &values[i] {
            None => {
                return Err(SegmentFault::CorruptColumn(name));
            },
            Some(s) => {
                out.push(s.clone());
                assert forall|k: int| 0 <= k < i + 1 implies (#[trigger] views[k]) is Some
                    && text::text_views(out@)[k] == views[k]->0 by {
                    if k < i {
                        assert(text::text_views(out@)[k] == text::text_views(before)[k]);
                    }
                }
            },
        }
    }
    assert(text::text_views(out@) =~= views.map_values(|s: Option<Seq<char>>| s->0));
    Ok(out)
}

fn read_optional(cols: &Vec<Column>, name: &'static str, rows: usize) -> (r: Result<
    Vec<Option<String>>,
    SegmentFault,
>)
    ensures
        match r {
            Ok(v) => option_column(frame::column_views(cols@), name, rows as nat) == Ok::<
                _,
                SegmentFault,
            >(text::option_views(v@)) && v@.len() == rows,
            Err(f) => option_column(frame::column_views(cols@), name, rows as nat) == Err::<
                Seq<Option<Seq<char>>>,
                _,
            >(f),
        },
{
    let (encoding, p) = match payload_of(cols, name) {
        Ok(c) => c,
        Err(f) => {
            return Err(f);
        },
    };
    match payload::read_options(encoding, p.as_slice(), rows) {
        Some(v) => {
            assert(text::option_views(v@).len() == rows);
            Ok(v)
        },
        None => Err(SegmentFault::CorruptColumn(name)),
    }
}

fn read_time(cols: &Vec<Column>, name: &'static str, rows: usize) -> (r: Result<
    Vec<i64>,
    SegmentFault,
>)
    ensures
        match r {
            Ok(v) => time_column(frame::column_views(cols@), name, rows as nat) == Ok::<
                _,
                SegmentFault,
            >(v@) && v@.len() == rows,
            Err(f) => time_column(frame::column_views(cols@), name, rows as nat) == Err::<
                Seq<i64>,
                _,
            >(f),
        },
{
    let (encoding, p) = match payload_of(cols, name) {
        Ok(c) => c,
        Err(f) => {
            return Err(f);
        },
    };
    match payload::read_time_values(encoding, p.as_slice(), rows) {
        Some(v) => Ok(v),
        None => Err(SegmentFault::CorruptColumn(name)),
    }
}

fn read_ids(cols: &Vec<Column>, rows: usize) -> (r: Result<Vec<String>, SegmentFault>)
    ensures
        match r {
            Ok(v) => id_column(frame::column_views(cols@), rows as nat) == Ok::<_, SegmentFault>(
                text::text_views(v@),
            ) && v@.len() == rows,
            Err(f) => id_column(frame::column_views(cols@), rows as nat) == Err::<
                Seq<Seq<char>>,
                _,
            >(f),
        },
{
    let (encoding, p) = match payload_of(cols, col::EVENT_ID) {
        Ok(c) => c,
        Err(f) => {
            return Err(f);
        },
    };
    if encoding != Encoding::Plain {
        return Err(SegmentFault::CorruptColumn(col::EVENT_ID));
    }
    match payload::read_plain_texts(p.as_slice(), rows) {
        Some(v) => {
            assert(text::text_views(v@).len() == rows);
            Ok(v)
        },
        None => Err(SegmentFault::CorruptColumn(col::EVENT_ID)),
    }
}

fn read_kind(cols: &Vec<Column>, rows: usize) -> (r: Result<Vec<EventKind>, SegmentFault>)
    ensures
        match r {
            Ok(v) => kind_column(frame::column_views(cols@), rows as nat) == Ok::<_, SegmentFault>(
                v@,
            ) && v@.len() == rows,
            Err(f) => kind_column(frame::column_views(cols@), rows as nat) == Err::<
                Seq<EventKind>,
                _,
            >(f),
        },
{
    let (encoding, p) = match payload_of(cols, col::KIND) {
        Ok(c) => c,
        Err(f) => {
            return Err(f);
        },
    };
    match payload::read_kinds_in(encoding, p.as_slice(), rows) {
        Some(v) => Ok(v),
        None => Err(SegmentFault::CorruptColumn(col::KIND)),
    }
}

fn read_quantity(cols: &Vec<Column>, rows: usize) -> (r: Result<Vec<i128>, SegmentFault>)
    ensures
        match r {
            Ok(v) => quantity_column(frame::column_views(cols@), rows as nat) == Ok::<
                _,
                SegmentFault,
            >(v@) && v@.len() == rows,
            Err(f) => quantity_column(frame::column_views(cols@), rows as nat) == Err::<
                Seq<i128>,
                _,
            >(f),
        },
{
    let (encoding, p) = match payload_of(cols, col::QUANTITY) {
        Ok(c) => c,
        Err(f) => {
            return Err(f);
        },
    };
    match payload::read_quantity_values(encoding, p.as_slice(), rows) {
        Some(v) => Ok(v),
        None => Err(SegmentFault::CorruptColumn(col::QUANTITY)),
    }
}

fn read_corrections(cols: &Vec<Column>, rows: usize) -> (r: Result<
    Vec<Option<(String, String)>>,
    SegmentFault,
>)
    ensures
        match r {
            Ok(v) => correction_column(frame::column_views(cols@), rows as nat) == Ok::<
                _,
                SegmentFault,
            >(wire::correction_views(v@)) && v@.len() == rows,
            Err(f) => correction_column(frame::column_views(cols@), rows as nat) == Err::<
                Seq<Option<(Seq<char>, Seq<char>)>>,
                _,
            >(f),
        },
{
    let (encoding, p) = match payload_of(cols, col::CORRECTION_REF) {
        Ok(c) => c,
        Err(f) => {
            return Err(f);
        },
    };
    if encoding != Encoding::Plain {
        return Err(SegmentFault::CorruptColumn(col::CORRECTION_REF));
    }
    match payload::read_correction_refs(p.as_slice(), rows) {
        Some(v) => {
            assert(wire::correction_views(v@).len() == rows);
            Ok(v)
        },
        None => Err(SegmentFault::CorruptColumn(col::CORRECTION_REF)),
    }
}

fn read_dimensions(cols: &Vec<Column>, rows: usize) -> (r: Result<
    Vec<SmallDimensions>,
    SegmentFault,
>)
    ensures
        match r {
            Ok(v) => dimension_column(frame::column_views(cols@), rows as nat) == Ok::<
                _,
                SegmentFault,
            >(payload::dimension_views(v@)) && v@.len() == rows,
            Err(f) => dimension_column(frame::column_views(cols@), rows as nat) == Err::<
                Seq<Seq<(Seq<char>, Seq<char>)>>,
                _,
            >(f),
        },
{
    let (encoding, p) = match payload_of(cols, col::DIMENSIONS) {
        Ok(c) => c,
        Err(f) => {
            return Err(f);
        },
    };
    if encoding != Encoding::Plain {
        return Err(SegmentFault::CorruptColumn(col::DIMENSIONS));
    }
    match payload::read_event_dimensions(p.as_slice(), rows) {
        Some(v) => {
            assert(payload::dimension_views(v@).len() == rows);
            Ok(v)
        },
        None => Err(SegmentFault::CorruptColumn(col::DIMENSIONS)),
    }
}

fn read_events(cols: &Vec<Column>, rows: usize) -> (r: Result<Vec<UsageEvent>, SegmentFault>)
    ensures
        match r {
            Ok(v) => events_in(frame::column_views(cols@), rows as nat) == Ok::<_, SegmentFault>(
                event::event_views(v@),
            ),
            Err(f) => events_in(frame::column_views(cols@), rows as nat) == Err::<
                Seq<EventModel>,
                _,
            >(f),
        },
{
    let event_id = match read_ids(cols, rows) {
        Ok(v) => v,
        Err(f) => {
            return Err(f);
        },
    };
    let kind = match read_kind(cols, rows) {
        Ok(v) => v,
        Err(f) => {
            return Err(f);
        },
    };
    let correction_ref = match read_corrections(cols, rows) {
        Ok(v) => v,
        Err(f) => {
            return Err(f);
        },
    };
    let account_id = match read_required(cols, col::ACCOUNT_ID, rows) {
        Ok(v) => v,
        Err(f) => {
            return Err(f);
        },
    };
    let subscription_id = match read_optional(cols, col::SUBSCRIPTION_ID, rows) {
        Ok(v) => v,
        Err(f) => {
            return Err(f);
        },
    };
    let product_id = match read_required(cols, col::PRODUCT_ID, rows) {
        Ok(v) => v,
        Err(f) => {
            return Err(f);
        },
    };
    let meter_id = match read_required(cols, col::METER_ID, rows) {
        Ok(v) => v,
        Err(f) => {
            return Err(f);
        },
    };
    let timestamp_ms = match read_time(cols, col::TIMESTAMP_MS, rows) {
        Ok(v) => v,
        Err(f) => {
            return Err(f);
        },
    };
    let quantity = match read_quantity(cols, rows) {
        Ok(v) => v,
        Err(f) => {
            return Err(f);
        },
    };
    let unit = match read_required(cols, col::UNIT, rows) {
        Ok(v) => v,
        Err(f) => {
            return Err(f);
        },
    };
    let source = match read_required(cols, col::SOURCE, rows) {
        Ok(v) => v,
        Err(f) => {
            return Err(f);
        },
    };
    let model_id = match read_optional(cols, col::MODEL_ID, rows) {
        Ok(v) => v,
        Err(f) => {
            return Err(f);
        },
    };
    let dimensions = match read_dimensions(cols, rows) {
        Ok(v) => v,
        Err(f) => {
            return Err(f);
        },
    };
    let ingested_at_ms = match read_time(cols, col::INGESTED_AT_MS, rows) {
        Ok(v) => v,
        Err(f) => {
            return Err(f);
        },
    };
    let ghost all = events_in(frame::column_views(cols@), rows as nat)->Ok_0;
    let mut out: Vec<UsageEvent> = Vec::new();
    assert(event::event_views(out@) =~= all.take(0));
    for i in 0..rows
        invariant
            event_id@.len() == rows,
            kind@.len() == rows,
            correction_ref@.len() == rows,
            account_id@.len() == rows,
            subscription_id@.len() == rows,
            product_id@.len() == rows,
            meter_id@.len() == rows,
            timestamp_ms@.len() == rows,
            quantity@.len() == rows,
            unit@.len() == rows,
            source@.len() == rows,
            model_id@.len() == rows,
            dimensions@.len() == rows,
            ingested_at_ms@.len() == rows,
            all.len() == rows,
            forall|k: int|
                0 <= k < rows ==> #[trigger] all[k] == (EventModel {
                    event_id: event_id@[k]@,
                    kind: kind@[k],
                    correction_ref: wire::correction_views(correction_ref@)[k],
                    account_id: account_id@[k]@,
                    subscription_id: text::option_view(subscription_id@[k]),
                    product_id: product_id@[k]@,
                    meter_id: meter_id@[k]@,
                    timestamp_ms: timestamp_ms@[k],
                    quantity: quantity@[k],
                    unit: unit@[k]@,
                    source: source@[k]@,
                    model_id: text::option_view(model_id@[k]),
                    dimensions: dimensions@[k]@,
                    ingested_at_ms: ingested_at_ms@[k],
                }),
            event::event_views(out@) == all.take(i as int),
    {
        let correction: Option<CorrectionRef> = match &correction_ref[i] {
            Some(c) => Some(
                CorrectionRef { original_event_id: EventId(c.0.clone()), reason: c.1.clone() },
            ),
            None => None,
        };
        let subscription: Option<SubscriptionId> = match &subscription_id[i] {
            Some(s) => Some(SubscriptionId(s.clone())),
            None => None,
        };
        let model: Option<ModelId> = match &model_id[i] {
            Some(m) => Some(ModelId(m.clone())),
            None => None,
        };
        let e = UsageEvent {
            event_id: EventId(event_id[i].clone()),
            kind: kind[i],
            correction_ref: correction,
            account_id: AccountId(account_id[i].clone()),
            subscription_id: subscription,
            product_id: ProductId(product_id[i].clone()),
            meter_id: MeterId(meter_id[i].clone()),
            timestamp_ms: timestamp_ms[i],
            quantity: quantity[i],
            unit: Unit(unit[i].clone()),
            source: SourceId(source[i].clone()),
            model_id: model,
            dimensions: dimensions[i].clone(),
            ingested_at_ms: ingested_at_ms[i],
        };
        proof {
            event::lemma_views_push(out@, e);
            assert(e@ =~= all[i as int]);
            assert(all.take(i + 1) =~= all.take(i as int).push(all[i as int]));
        }
        out.push(e);
    }
    assert(all.take(rows as int) =~= all);
    Ok(out)
}

// ---------------------------------------------------------------------------
// The reader
// ---------------------------------------------------------------------------

/// The events of a raw segment, handed out one by one.
#[derive(Debug)]
pub struct RawSegmentReader {
    events: Vec<UsageEvent>,
    cursor: usize,
}

impl RawSegmentReader {
    /// All events of the segment.
    pub closed spec fn events(self) -> Seq<EventModel> {
        event::event_views(self.events@)
    }

    /// How many events have been handed out.
    pub closed spec fn position(self) -> nat {
        self.cursor as nat
    }

    pub closed spec fn wf(self) -> bool {
        self.cursor <= self.events@.len()
    }

    /// Reads a segment file.
    pub fn new(data: &[u8]) -> (r: Result<Self, SegmentFault>)
        ensures
            match r {
                Ok(reader) => segment_events(data@) == Ok::<_, SegmentFault>(reader.events())
                    && reader.position() == 0 && reader.wf(),
                Err(f) => segment_events(data@) == Err::<Seq<EventModel>, _>(f),
            },
    {
        match read_contents(data) {
            Err(f) => Err(f),
            Ok((rows, cols)) => match read_events(&cols, rows) {
                Err(f) => Err(f),
                Ok(events) => Ok(RawSegmentReader { events, cursor: 0 }),
            },
        }
    }

    /// How many events the segment holds.
    pub fn row_count(&self) -> (n: usize)
        ensures
            n == self.events().len(),
    {
        self.events.len()
    }

    /// The next event, in the order of the file.
    pub fn read_next(&mut self) -> (r: Result<Option<UsageEvent>, SegmentFault>)
        requires
            old(self).wf(),
        ensures
            final(self).wf(),
            final(self).events() == old(self).events(),
            if old(self).position() < old(self).events().len() {
                r matches Ok(Some(e)) && e@ == old(self).events()[old(self).position() as int]
                    && final(self).position() == old(self).position() + 1
            } else {
                r == Ok::<Option<UsageEvent>, SegmentFault>(None) && final(self).position()
                    == old(self).position()
            },
    {
        if self.cursor >= self.events.len() {
            return Ok(None);
        }
        let e = self.events[self.cursor].clone();
        self.cursor = self.cursor + 1;
        Ok(Some(e))
    }

    /// All events, in the order of the file.
    pub fn into_events(self) -> (r: Vec<UsageEvent>)
        ensures
            event::event_views(r@) == self.events(),
    {
        self.events
    }

    /// The events of one account among those that have not been handed out.
    pub fn scan_by_account(self, target_account: &AccountId) -> (r: Result<
        Vec<UsageEvent>,
        SegmentFault,
    >)
        requires
            self.wf(),
        ensures
            r matches Ok(v) && event::event_views(v@) == of_account(
                self.events().skip(self.position() as int),
                target_account@,
            ),
    {
        let ghost rest = self.events().skip(self.position() as int);
        let mut out: Vec<UsageEvent> = Vec::new();
        let start: usize = self.cursor;
        let mut i: usize = start;
        assert(event::event_views(out@) =~= of_account(rest.take(0), target_account@));
        while i < self.events.len()
            invariant
                start <= i <= self.events@.len(),
                rest == event::event_views(self.events@).skip(start as int),
                event::event_views(out@) == of_account(rest.take(i - start), target_account@),
            decreases self.events@.len() - i,
        {
            proof {
                assert(rest.take(i - start + 1).drop_last() =~= rest.take(i - start));
                assert(rest.take(i - start + 1).last() == self.events@[i as int]@);
            }
            if same_text(self.events[i].account_id.0.as_str(), target_account.0.as_str()) {
                let e = self.events[i].clone();
                proof {
                    event::lemma_views_push(out@, e);
                }
                out.push(e);
            }
            i = i + 1;
        }
        assert(rest.take(rest.len() as int) =~= rest);
        Ok(out)
    }
}

/// The events of an account, in their order.
pub open spec fn of_account(events: Seq<EventModel>, account: Seq<char>) -> Seq<EventModel>
    decreases events.len(),
{
    if events.len() == 0 {
        Seq::empty()
    } else if events.last().account_id == account {
        of_account(events.drop_last(), account).push(events.last())
    } else {
        of_account(events.drop_last(), account)
    }
}

/// The events of an account are those that name it, in their order.
pub proof fn law_events_of_accounts(events: Seq<EventModel>, account: Seq<char>)
    ensures
        of_account(events, account) == events.filter(|e: EventModel| e.account_id == account),
    decreases events.len(),
{
    reveal(Seq::filter);
    let own = |e: EventModel| e.account_id == account;
    if events.len() > 0 {
        law_events_of_accounts(events.drop_last(), account);
    } else {
        assert(of_account(events, account) =~= events.filter(own));
    }
}

} // verus!
