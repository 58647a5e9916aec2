//! What a usage request may ask for.

use vstd::prelude::*;

verus! {

/// Where a usage request is to be answered from.
#[derive(Debug, Clone, Copy, PartialEq, Eq, Structural)]
pub enum QuerySource {
    Auto,
    RollupsOnly,
    RawOnly,
}

/// What the lines of an answer are grouped by.
#[derive(Debug, PartialEq, Eq)]
pub enum GroupKey {
    Account,
    Subscription,
    Product,
    Meter,
    Model,
    Day,
    Hour,
    Dimension(String),
}

impl Clone for GroupKey {
    fn clone(&self) -> (r: Self)
        ensures
            r == *self,
    {
        match self {
            GroupKey::Account => GroupKey::Account,
            GroupKey::Subscription => GroupKey::Subscription,
            GroupKey::Product => GroupKey::Product,
            GroupKey::Meter => GroupKey::Meter,
            GroupKey::Model => GroupKey::Model,
            GroupKey::Day => GroupKey::Day,
            GroupKey::Hour => GroupKey::Hour,
            GroupKey::Dimension(name) => GroupKey::Dimension(name.clone()),
        }
    }
}

} // verus!
