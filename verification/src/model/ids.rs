//! Identifiers, and the bucket that an account falls into.

use vstd::prelude::*;

use crate::bytes;
use crate::bytes::{blake3_of, read_le};

verus! {

/// The stable identifier of an event.
#[derive(Debug, PartialEq, Eq, Hash)]
pub struct EventId(pub String);

impl View for EventId {
    type V = Seq<char>;

    open spec fn view(&self) -> Seq<char> {
        self.0@
    }
}

impl Clone for EventId {
    fn clone(&self) -> (r: Self)
        ensures
            r@ == self@,
    {
        EventId(self.0.clone())
    }
}

/// The account that is billed.
#[derive(Debug, PartialEq, Eq, Hash)]
pub struct AccountId(pub String);

impl View for AccountId {
    type V = Seq<char>;

    open spec fn view(&self) -> Seq<char> {
        self.0@
    }
}

impl Clone for AccountId {
    fn clone(&self) -> (r: Self)
        ensures
            r@ == self@,
    {
        AccountId(self.0.clone())
    }
}

/// The subscription under which usage fell.
#[derive(Debug, PartialEq, Eq, Hash)]
pub struct SubscriptionId(pub String);

impl View for SubscriptionId {
    type V = Seq<char>;

    open spec fn view(&self) -> Seq<char> {
        self.0@
    }
}

impl Clone for SubscriptionId {
    fn clone(&self) -> (r: Self)
        ensures
            r@ == self@,
    {
        SubscriptionId(self.0.clone())
    }
}

/// The product that was used.
#[derive(Debug, PartialEq, Eq, Hash)]
pub struct ProductId(pub String);

impl View for ProductId {
    type V = Seq<char>;

    open spec fn view(&self) -> Seq<char> {
        self.0@
    }
}

impl Clone for ProductId {
    fn clone(&self) -> (r: Self)
        ensures
            r@ == self@,
    {
        ProductId(self.0.clone())
    }
}

/// What was measured.
#[derive(Debug, PartialEq, Eq, Hash)]
pub struct MeterId(pub String);

impl View for MeterId {
    type V = Seq<char>;

    open spec fn view(&self) -> Seq<char> {
        self.0@
    }
}

impl Clone for MeterId {
    fn clone(&self) -> (r: Self)
        ensures
            r@ == self@,
    {
        MeterId(self.0.clone())
    }
}

/// The system that reported the event.
#[derive(Debug, PartialEq, Eq, Hash)]
pub struct SourceId(pub String);

impl View for SourceId {
    type V = Seq<char>;

    open spec fn view(&self) -> Seq<char> {
        self.0@
    }
}

impl Clone for SourceId {
    fn clone(&self) -> (r: Self)
        ensures
            r@ == self@,
    {
        SourceId(self.0.clone())
    }
}

/// The model that was used.
#[derive(Debug, PartialEq, Eq, Hash)]
pub struct ModelId(pub String);

impl View for ModelId {
    type V = Seq<char>;

    open spec fn view(&self) -> Seq<char> {
        self.0@
    }
}

impl Clone for ModelId {
    fn clone(&self) -> (r: Self)
        ensures
            r@ == self@,
    {
        ModelId(self.0.clone())
    }
}

/// The unit in which the quantity is given.
#[derive(Debug, PartialEq, Eq, Hash)]
pub struct Unit(pub String);

impl View for Unit {
    type V = Seq<char>;

    open spec fn view(&self) -> Seq<char> {
        self.0@
    }
}

impl Clone for Unit {
    fn clone(&self) -> (r: Self)
        ensures
            r@ == self@,
    {
        Unit(self.0.clone())
    }
}

/// The bucket of an account among `bucket_count` buckets: the first four bytes
/// of the BLAKE3 digest of its name, as a little-endian number, modulo the
/// number of buckets. Without buckets it is bucket zero.
pub open spec fn account_bucket(account: Seq<char>, bucket_count: int) -> int {
    if bucket_count == 0 {
        0
    } else {
        bytes::le_value(
            bytes::blake3_digest(vstd::utf8::encode_utf8(account)).subrange(0, 4),
        ) % bucket_count
    }
}

/// Map an account to its bucket within a given bucket count. The assignment is
/// stable across versions and builds; the bucket count is fixed when a database
/// is created, as another one would invalidate the label of every segment.
pub fn bucket_for_account(account_id: &AccountId, bucket_count: u32) -> (r: u32)
    ensures
        r == account_bucket(account_id@, bucket_count as int),
        bucket_count > 0 ==> r < bucket_count,
{
    if bucket_count == 0 {
        return 0;
    }
    let digest = blake3_of(account_id.0.as_str().as_bytes());
    let prefix: u128 = read_le(digest.as_slice(), 0, 4);
    (prefix % (bucket_count as u128)) as u32
}

/// The bucket of an account is one of those that there are, and is reckoned from the
/// first four bytes of its digest.
pub proof fn law_buckets(account: Seq<char>, bucket_count: int)
    requires
        bucket_count > 0,
        bytes::blake3_digest(vstd::utf8::encode_utf8(account)).len() >= 4,
    ensures
        0 <= account_bucket(account, bucket_count) < bucket_count,
        ({
            let d = bytes::blake3_digest(vstd::utf8::encode_utf8(account));
            account_bucket(account, bucket_count) == (d[0] + 256 * d[1] + 65_536 * d[2]
                + 16_777_216 * d[3]) % bucket_count
        }),
        account_bucket(account, 0) == 0,
{
    let d = bytes::blake3_digest(vstd::utf8::encode_utf8(account)).subrange(0, 4);
    reveal_with_fuel(bytes::le_value, 5);
    let (a, b, c) = (d.drop_first(), d.drop_first().drop_first(), d.drop_first().drop_first().drop_first());
    assert(a[0] == d[1] && b[0] == d[2] && c[0] == d[3]);
    assert(c.drop_first().len() == 0);
}

} // verus!
