//! What is known of a block of rows without reading it.

use vstd::prelude::*;

use crate::model::event::EventModel;
use crate::model::ids::{AccountId, ProductId};
use crate::text;
use crate::text::str_less;
use crate::textset::TextSet;

verus! {

/// The bounds of a block of rows.
#[derive(Debug)]
pub struct BlockMeta {
    pub row_start: u32,
    pub row_count: u32,
    pub min_timestamp_ms: i64,
    pub max_timestamp_ms: i64,
    pub min_account_id: AccountId,
    pub max_account_id: AccountId,
    pub product_ids: TextSet,
    pub meter_ids: TextSet,
    pub offset: u64,
    pub len: u32,
}

impl BlockMeta {
    /// The event lies within the bounds of the block.
    pub open spec fn bounds(self, e: EventModel) -> bool {
        &&& self.min_timestamp_ms <= e.timestamp_ms <= self.max_timestamp_ms
        &&& text::text_le(self.min_account_id@, e.account_id)
        &&& text::text_le(e.account_id, self.max_account_id@)
        &&& self.product_ids@.contains(e.product_id)
        &&& self.meter_ids@.contains(e.meter_id)
    }

    /// A row that is asked for can lie within the bounds.
    pub open spec fn may_contain(
        self,
        account: Option<Seq<char>>,
        product: Option<Seq<char>>,
        min_time: int,
        max_time: int,
    ) -> bool {
        &&& account matches Some(a) ==> text::text_le(self.min_account_id@, a) && text::text_le(
            a,
            self.max_account_id@,
        )
        &&& product matches Some(p) ==> self.product_ids@.contains(p)
        &&& min_time <= self.max_timestamp_ms
        &&& max_time >= self.min_timestamp_ms
    }

    /// Whether the block can hold a row of that account and that product with a
    /// time between `min_time` and `max_time`.
    pub fn might_contain(
        &self,
        account_id: Option<&AccountId>,
        product_id: Option<&ProductId>,
        min_time: i64,
        max_time: i64,
    ) -> (r: bool)
        ensures
            r == self.may_contain(
                match account_id {
                    Some(a) => Some(a@),
                    None => None,
                },
                match product_id {
                    Some(p) => Some(p@),
                    None => None,
                },
                min_time as int,
                max_time as int,
            ),
    {
        if let Some(a) = account_id {
            proof {
                text::lemma_text_lt_total(a@, self.min_account_id@);
                text::lemma_text_lt_total(a@, self.max_account_id@);
                text::lemma_text_lt_irreflexive(a@);
                if text::text_lt(a@, self.min_account_id@) {
                    text::lemma_text_lt_asymmetric(a@, self.min_account_id@);
                }
                if text::text_lt(self.max_account_id@, a@) {
                    text::lemma_text_lt_asymmetric(self.max_account_id@, a@);
                }
            }
            if str_less(a.0.as_str(), self.min_account_id.0.as_str()) || str_less(
                self.max_account_id.0.as_str(),
                a.0.as_str(),
            ) {
                return false;
            }
        }
        if let Some(p) = product_id {
            if !self.product_ids.contains(p.0.as_str()) {
                return false;
            }
        }
        min_time <= self.max_timestamp_ms && max_time >= self.min_timestamp_ms
    }
}

/// A block that holds a row that is asked for is never passed by.
pub proof fn law_no_row_is_skipped(
    block: BlockMeta,
    e: EventModel,
    account: Option<Seq<char>>,
    product: Option<Seq<char>>,
    min_time: int,
    max_time: int,
)
    requires
        block.bounds(e),
        account matches Some(a) ==> e.account_id == a,
        product matches Some(p) ==> e.product_id == p,
        min_time <= e.timestamp_ms <= max_time,
    ensures
        block.may_contain(account, product, min_time, max_time),
{
}

/// A block is passed by where no row within its bounds could be asked for: all its times,
/// or all its accounts, lie before or behind, or it has no row of the product.
pub proof fn law_blocks_that_are_passed_by(
    block: BlockMeta,
    account: Option<Seq<char>>,
    product: Option<Seq<char>>,
    min_time: int,
    max_time: int,
)
    ensures
        !block.may_contain(account, product, min_time, max_time) <==> {
            ||| block.max_timestamp_ms < min_time
            ||| block.min_timestamp_ms > max_time
            ||| product is Some && !block.product_ids@.contains(product->0)
            ||| account is Some && text::text_lt(account->0, block.min_account_id@)
            ||| account is Some && text::text_lt(block.max_account_id@, account->0)
        },
{
    if let Some(a) = account {
        text::lemma_text_lt_total(a, block.min_account_id@);
        text::lemma_text_lt_total(block.max_account_id@, a);
        text::lemma_text_lt_irreflexive(a);
        if text::text_lt(a, block.min_account_id@) {
            text::lemma_text_lt_asymmetric(a, block.min_account_id@);
        }
        if text::text_lt(block.max_account_id@, a) {
            text::lemma_text_lt_asymmetric(block.max_account_id@, a);
        }
    }
}

} // verus!
