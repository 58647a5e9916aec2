//! What the parts of a running database hand to each other, and how the manifest
//! changes under them.

use vstd::prelude::*;

use crate::model::event::UsageEvent;
use crate::storage::manifest::{Manifest, ManifestModel};

verus! {

/// Drained events on their way into segments, and the log file that was sealed
/// behind them. The files up to it can go once the segments are committed.
#[derive(Debug)]
pub struct FlushMessage {
    pub events: Vec<UsageEvent>,
    pub sealed_wal_id: u64,
}

/// The log file up to which a flush may seal: its own, or none at all (zero) where
/// events of an older file have gone back to the memtable. Such events are held in
/// files below `held_from`, and only a later flush brings them into segments.
pub open spec fn sealing(sealed: u64, held_from: u64) -> u64 {
    if sealed >= held_from {
        sealed
    } else {
        0
    }
}

/// The log file up to which a flush may seal.
pub fn seal_of(sealed_wal_id: u64, held_from: u64) -> (r: u64)
    ensures
        r == sealing(sealed_wal_id, held_from),
{
    if sealed_wal_id >= held_from {
        sealed_wal_id
    } else {
        0
    }
}

/// The manifest after an attempt to change it: what was saved, and what it was
/// before where the change was given up or could not be saved.
pub open spec fn settled(
    current: ManifestModel,
    saved: Option<ManifestModel>,
) -> ManifestModel {
    match saved {
        Some(m) => m,
        None => current,
    }
}

/// Makes a change to the manifest visible, once it has been saved. `saved` is
/// what was written; where nothing was, nobody is to see the change.
pub fn settle(current: &mut Manifest, saved: Option<Manifest>)
    ensures
        final(current)@ == settled(
            old(current)@,
            match saved {
                Some(m) => Some(m@),
                None => None,
            },
        ),
{
    if let Some(m) = saved {
        *current = m;
    }
}

/// A flush seals the log up to its own file, and seals nothing where that file is one
/// whose events have gone back to the memtable.
pub proof fn law_sealing(sealed: u64, held_from: u64)
    ensures
        sealed >= held_from ==> sealing(sealed, held_from) == sealed,
        sealed < held_from ==> sealing(sealed, held_from) == 0,
{
}

/// A change counts where it has been saved, and only there.
pub proof fn law_settling(current: ManifestModel, next: ManifestModel)
    ensures
        settled(current, Some(next)) == next,
        settled(current, None) == current,
{
}

} // verus!
