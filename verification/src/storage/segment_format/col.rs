//! The names of the columns of a raw segment.

use vstd::prelude::*;

verus! {

pub const EVENT_ID: &'static str = "event_id";

pub const KIND: &'static str = "kind";

pub const CORRECTION_REF: &'static str = "correction_ref";

pub const ACCOUNT_ID: &'static str = "account_id";

pub const SUBSCRIPTION_ID: &'static str = "subscription_id";

pub const PRODUCT_ID: &'static str = "product_id";

pub const METER_ID: &'static str = "meter_id";

pub const TIMESTAMP_MS: &'static str = "timestamp_ms";

pub const QUANTITY: &'static str = "quantity";

pub const UNIT: &'static str = "unit";

pub const SOURCE: &'static str = "source";

pub const MODEL_ID: &'static str = "model_id";

pub const DIMENSIONS: &'static str = "dimensions";

pub const INGESTED_AT_MS: &'static str = "ingested_at_ms";

/// The columns in the order in which they are written. A reader finds them by
/// their names, whatever their order.
pub const ORDER: [&'static str; 14] = [
    EVENT_ID,
    KIND,
    CORRECTION_REF,
    ACCOUNT_ID,
    SUBSCRIPTION_ID,
    PRODUCT_ID,
    METER_ID,
    TIMESTAMP_MS,
    QUANTITY,
    UNIT,
    SOURCE,
    MODEL_ID,
    DIMENSIONS,
    INGESTED_AT_MS,
];

/// The columns' names differ.
pub proof fn lemma_names_differ()
    ensures
        forall|i: int, j: int| 0 <= i < j < 14 ==> (#[trigger] ORDER@[i])@ != (#[trigger] ORDER@[j])@,
{
    reveal_strlit("event_id");
    reveal_strlit("kind");
    reveal_strlit("correction_ref");
    reveal_strlit("account_id");
    reveal_strlit("subscription_id");
    reveal_strlit("product_id");
    reveal_strlit("meter_id");
    reveal_strlit("timestamp_ms");
    reveal_strlit("quantity");
    reveal_strlit("unit");
    reveal_strlit("source");
    reveal_strlit("model_id");
    reveal_strlit("dimensions");
    reveal_strlit("ingested_at_ms");
    assert(EVENT_ID@.len() != KIND@.len());
    assert(EVENT_ID@.len() != CORRECTION_REF@.len());
    assert(EVENT_ID@.len() != ACCOUNT_ID@.len());
    assert(EVENT_ID@.len() != SUBSCRIPTION_ID@.len());
    assert(EVENT_ID@.len() != PRODUCT_ID@.len());
    assert(EVENT_ID@[0] != METER_ID@[0]);
    assert(EVENT_ID@.len() != TIMESTAMP_MS@.len());
    assert(EVENT_ID@[0] != QUANTITY@[0]);
    assert(EVENT_ID@.len() != UNIT@.len());
    assert(EVENT_ID@.len() != SOURCE@.len());
    assert(EVENT_ID@[0] != MODEL_ID@[0]);
    assert(EVENT_ID@.len() != DIMENSIONS@.len());
    assert(EVENT_ID@.len() != INGESTED_AT_MS@.len());
    assert(KIND@.len() != CORRECTION_REF@.len());
    assert(KIND@.len() != ACCOUNT_ID@.len());
    assert(KIND@.len() != SUBSCRIPTION_ID@.len());
    assert(KIND@.len() != PRODUCT_ID@.len());
    assert(KIND@.len() != METER_ID@.len());
    assert(KIND@.len() != TIMESTAMP_MS@.len());
    assert(KIND@.len() != QUANTITY@.len());
    assert(KIND@[0] != UNIT@[0]);
    assert(KIND@.len() != SOURCE@.len());
    assert(KIND@.len() != MODEL_ID@.len());
    assert(KIND@.len() != DIMENSIONS@.len());
    assert(KIND@.len() != INGESTED_AT_MS@.len());
    assert(CORRECTION_REF@.len() != ACCOUNT_ID@.len());
    assert(CORRECTION_REF@.len() != SUBSCRIPTION_ID@.len());
    assert(CORRECTION_REF@.len() != PRODUCT_ID@.len());
    assert(CORRECTION_REF@.len() != METER_ID@.len());
    assert(CORRECTION_REF@.len() != TIMESTAMP_MS@.len());
    assert(CORRECTION_REF@.len() != QUANTITY@.len());
    assert(CORRECTION_REF@.len() != UNIT@.len());
    assert(CORRECTION_REF@.len() != SOURCE@.len());
    assert(CORRECTION_REF@.len() != MODEL_ID@.len());
    assert(CORRECTION_REF@.len() != DIMENSIONS@.len());
    assert(CORRECTION_REF@[0] != INGESTED_AT_MS@[0]);
    assert(ACCOUNT_ID@.len() != SUBSCRIPTION_ID@.len());
    assert(ACCOUNT_ID@[0] != PRODUCT_ID@[0]);
    assert(ACCOUNT_ID@.len() != METER_ID@.len());
    assert(ACCOUNT_ID@.len() != TIMESTAMP_MS@.len());
    assert(ACCOUNT_ID@.len() != QUANTITY@.len());
    assert(ACCOUNT_ID@.len() != UNIT@.len());
    assert(ACCOUNT_ID@.len() != SOURCE@.len());
    assert(ACCOUNT_ID@.len() != MODEL_ID@.len());
    assert(ACCOUNT_ID@[0] != DIMENSIONS@[0]);
    assert(ACCOUNT_ID@.len() != INGESTED_AT_MS@.len());
    assert(SUBSCRIPTION_ID@.len() != PRODUCT_ID@.len());
    assert(SUBSCRIPTION_ID@.len() != METER_ID@.len());
    assert(SUBSCRIPTION_ID@.len() != TIMESTAMP_MS@.len());
    assert(SUBSCRIPTION_ID@.len() != QUANTITY@.len());
    assert(SUBSCRIPTION_ID@.len() != UNIT@.len());
    assert(SUBSCRIPTION_ID@.len() != SOURCE@.len());
    assert(SUBSCRIPTION_ID@.len() != MODEL_ID@.len());
    assert(SUBSCRIPTION_ID@.len() != DIMENSIONS@.len());
    assert(SUBSCRIPTION_ID@.len() != INGESTED_AT_MS@.len());
    assert(PRODUCT_ID@.len() != METER_ID@.len());
    assert(PRODUCT_ID@.len() != TIMESTAMP_MS@.len());
    assert(PRODUCT_ID@.len() != QUANTITY@.len());
    assert(PRODUCT_ID@.len() != UNIT@.len());
    assert(PRODUCT_ID@.len() != SOURCE@.len());
    assert(PRODUCT_ID@.len() != MODEL_ID@.len());
    assert(PRODUCT_ID@[0] != DIMENSIONS@[0]);
    assert(PRODUCT_ID@.len() != INGESTED_AT_MS@.len());
    assert(METER_ID@.len() != TIMESTAMP_MS@.len());
    assert(METER_ID@[0] != QUANTITY@[0]);
    assert(METER_ID@.len() != UNIT@.len());
    assert(METER_ID@.len() != SOURCE@.len());
    assert(METER_ID@[1] != MODEL_ID@[1]);
    assert(METER_ID@.len() != DIMENSIONS@.len());
    assert(METER_ID@.len() != INGESTED_AT_MS@.len());
    assert(TIMESTAMP_MS@.len() != QUANTITY@.len());
    assert(TIMESTAMP_MS@.len() != UNIT@.len());
    assert(TIMESTAMP_MS@.len() != SOURCE@.len());
    assert(TIMESTAMP_MS@.len() != MODEL_ID@.len());
    assert(TIMESTAMP_MS@.len() != DIMENSIONS@.len());
    assert(TIMESTAMP_MS@.len() != INGESTED_AT_MS@.len());
    assert(QUANTITY@.len() != UNIT@.len());
    assert(QUANTITY@.len() != SOURCE@.len());
    assert(QUANTITY@[0] != MODEL_ID@[0]);
    assert(QUANTITY@.len() != DIMENSIONS@.len());
    assert(QUANTITY@.len() != INGESTED_AT_MS@.len());
    assert(UNIT@.len() != SOURCE@.len());
    assert(UNIT@.len() != MODEL_ID@.len());
    assert(UNIT@.len() != DIMENSIONS@.len());
    assert(UNIT@.len() != INGESTED_AT_MS@.len());
    assert(SOURCE@.len() != MODEL_ID@.len());
    assert(SOURCE@.len() != DIMENSIONS@.len());
    assert(SOURCE@.len() != INGESTED_AT_MS@.len());
    assert(MODEL_ID@.len() != DIMENSIONS@.len());
    assert(MODEL_ID@.len() != INGESTED_AT_MS@.len());
    assert(DIMENSIONS@.len() != INGESTED_AT_MS@.len());
}

/// Names are short, in bytes too.
pub proof fn lemma_name_short(k: int)
    requires
        0 <= k < 14,
    ensures
        vstd::utf8::encode_utf8(ORDER@[k]@).len() <= 15,
{
    reveal_strlit("event_id");
    reveal_strlit("kind");
    reveal_strlit("correction_ref");
    reveal_strlit("account_id");
    reveal_strlit("subscription_id");
    reveal_strlit("product_id");
    reveal_strlit("meter_id");
    reveal_strlit("timestamp_ms");
    reveal_strlit("quantity");
    reveal_strlit("unit");
    reveal_strlit("source");
    reveal_strlit("model_id");
    reveal_strlit("dimensions");
    reveal_strlit("ingested_at_ms");
    let name = ORDER@[k]@;
    assert(name.len() <= 15 && vstd::utf8::is_ascii_chars(name));
    vstd::utf8::is_ascii_chars_encode_utf8(name);
}

} // verus!
