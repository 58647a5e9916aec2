//! The numbering of the write-ahead log's files.
//!
//! Events are appended to the active file. When the memtable is drained the active
//! file is sealed and the next one begins; once the drained events are in committed
//! segments, the manifest records the sealed number, and the files up to it can go.

use vstd::prelude::*;

use crate::text;
use crate::names;
use crate::names::{number_in_name, numbered_name};

verus! {

/// Which file of the log is written to.
#[derive(Debug, Clone, Copy, PartialEq, Eq, Structural)]
pub struct Wal {
    pub active_id: u64,
}

/// The greatest of `ids`, or `least` where that is greater.
pub open spec fn greatest_id(ids: Seq<u64>, least: int) -> int
    decreases ids.len(),
{
    if ids.len() == 0 {
        least
    } else {
        let before = greatest_id(ids.drop_last(), least);
        if ids.last() > before {
            ids.last() as int
        } else {
            before
        }
    }
}

impl Wal {
    /// Opens a log of which the files `existing` are there, and those up to
    /// `last_sealed` are in segments. The newest file is written on with; where
    /// there is none, the one behind the sealed files begins.
    pub fn open(existing: &Vec<u64>, last_sealed: u64) -> (r: Self)
        requires
            last_sealed < u64::MAX,
        ensures
            r.active_id == greatest_id(existing@, last_sealed + 1),
            r.active_id > last_sealed,
            forall|i: int| 0 <= i < existing@.len() ==> #[trigger] existing@[i] <= r.active_id,
    {
        let mut active: u64 = last_sealed + 1;
        for i in 0..existing.len()
            invariant
                last_sealed < u64::MAX,
                active == greatest_id(existing@.take(i as int), last_sealed + 1),
                active > last_sealed,
                forall|k: int| 0 <= k < i ==> #[trigger] existing@[k] <= active,
        {
            assert(existing@.take(i + 1).drop_last() =~= existing@.take(i as int));
            if existing[i] > active {
                active = existing[i];
            }
        }
        assert(existing@.take(existing@.len() as int) =~= existing@);
        Wal { active_id: active }
    }

    /// Seals the active file, whose number comes back, and begins the next one.
    pub fn rotate(&mut self) -> (sealed: u64)
        requires
            old(self).active_id < u64::MAX,
        ensures
            sealed == old(self).active_id,
            final(self).active_id == old(self).active_id + 1,
    {
        let sealed: u64 = self.active_id;
        self.active_id = sealed + 1;
        sealed
    }

    /// The files behind `after`, in ascending order: those to replay.
    pub fn list_files_after(existing: &Vec<u64>, after: u64) -> (r: Vec<u64>)
        ensures
            forall|i: int, j: int| 0 <= i < j < r@.len() ==> #[trigger] r@[i] <= #[trigger] r@[j],
            r@.to_multiset() == picked(existing@, after as int, true).to_multiset(),
    {
        let mut out: Vec<u64> = Vec::new();
        proof {
            assert(existing@.take(0) =~= Seq::<u64>::empty());
        }
        for i in 0..existing.len()
            invariant
                forall|a: int, b: int|
                    0 <= a < b < out@.len() ==> #[trigger] out@[a] <= #[trigger] out@[b],
                out@.to_multiset() == picked(
                    existing@.take(i as int),
                    after as int,
                    true,
                ).to_multiset(),
        {
            let ghost part = existing@.take(i + 1);
            assert(part.drop_last() =~= existing@.take(i as int));
            if existing[i] > after {
                let ghost before = out@;
                let ghost chosen = picked(existing@.take(i as int), after as int, true);
                insert_sorted(&mut out, existing[i]);
                proof {
                    chosen.to_multiset_ensures();
                    assert(out@.to_multiset() =~= before.to_multiset().insert(existing@[i as int]));
                }
            }
        }
        assert(existing@.take(existing@.len() as int) =~= existing@);
        out
    }

    /// The files up to `through`, in their order: those that can go.
    pub fn delete_files_through(existing: &Vec<u64>, through: u64) -> (r: Vec<u64>)
        ensures
            r@ == picked(existing@, through as int, false),
    {
        let mut out: Vec<u64> = Vec::new();
        for i in 0..existing.len()
            invariant
                out@ == picked(existing@.take(i as int), through as int, false),
        {
            assert(existing@.take(i + 1).drop_last() =~= existing@.take(i as int));
            if existing[i] <= through {
                out.push(existing[i]);
            }
        }
        assert(existing@.take(existing@.len() as int) =~= existing@);
        out
    }
}

/// The numbers behind `bound`, or those up to it, in their order.
pub open spec fn picked(ids: Seq<u64>, bound: int, behind: bool) -> Seq<u64>
    decreases ids.len(),
{
    if ids.len() == 0 {
        Seq::empty()
    } else if (ids.last() > bound) == behind {
        picked(ids.drop_last(), bound, behind).push(ids.last())
    } else {
        picked(ids.drop_last(), bound, behind)
    }
}

fn insert_sorted(v: &mut Vec<u64>, id: u64)
    requires
        forall|i: int, j: int|
            0 <= i < j < old(v)@.len() ==> #[trigger] old(v)@[i] <= #[trigger] old(v)@[j],
    ensures
        forall|i: int, j: int|
            0 <= i < j < final(v)@.len() ==> #[trigger] final(v)@[i] <= #[trigger] final(v)@[j],
        final(v)@.to_multiset() == old(v)@.to_multiset().insert(id),
{
    let ghost before = v@;
    let mut p: usize = v.len();
    while p > 0 && v[p - 1] > id
        invariant
            p <= v@.len(),
            v@ == before,
            forall|j: int| p <= j < v@.len() ==> #[trigger] v@[j] > id,
        decreases p,
    {
        p = p - 1;
    }
    v.insert(p, id);
    proof {
        let after = before.insert(p as int, id);
        assert(v@ =~= after);
        after.to_multiset_ensures();
        assert(after.remove(p as int) =~= before);
        assert(after[p as int] == id);
        assert(after.contains(id));
        assert(after.to_multiset() =~= before.to_multiset().insert(id));
        assert forall|i: int, j: int| 0 <= i < j < v@.len() implies #[trigger] v@[i]
            <= #[trigger] v@[j] by {
            if i < p && j > p {
                assert(before[i] <= before[j - 1]);
            } else if i < p && j == p {
                if i < p - 1 {
                    assert(before[i] <= before[p - 1]);
                }
            } else if i > p {
                assert(before[i - 1] <= before[j - 1]);
            } else if j < p {
                assert(before[i] <= before[j]);
            }
        }
    }
}

// ---------------------------------------------------------------------------
// File names
// ---------------------------------------------------------------------------

/// The name of the log's file with that number.
pub open spec fn wal_name(id: int) -> Seq<char> {
    names::numbered("wal-"@, id, ".jsonl"@)
}

/// The name of the log's file with that number.
pub fn wal_file_name(id: u64) -> (r: String)
    ensures
        r@ == wal_name(id as int),
{
    numbered_name("wal-", id, ".jsonl")
}

/// The number of a log file, by its name.
pub fn wal_file_id(name: &str) -> (r: Option<u64>)
    ensures
        r == names::number_in(name@, "wal-"@, ".jsonl"@),
{
    number_in_name(name, "wal-", ".jsonl")
}

/// The greatest number is one of those given, or the least one asked for, and none is
/// greater.
pub proof fn law_greatest_number(ids: Seq<u64>, least: int)
    ensures
        greatest_id(ids, least) >= least,
        forall|i: int| 0 <= i < ids.len() ==> #[trigger] ids[i] <= greatest_id(ids, least),
        greatest_id(ids, least) == least || exists|i: int|
            0 <= i < ids.len() && #[trigger] ids[i] == greatest_id(ids, least),
    decreases ids.len(),
{
    if ids.len() > 0 {
        let init = ids.drop_last();
        law_greatest_number(init, least);
        assert(ids[ids.len() - 1] == ids.last());
        assert forall|i: int| 0 <= i < ids.len() implies #[trigger] ids[i] <= greatest_id(
            ids,
            least,
        ) by {
            if i < init.len() {
                assert(ids[i] == init[i]);
            }
        }
        if greatest_id(init, least) != least {
            let i = choose|i: int|
                0 <= i < init.len() && #[trigger] init[i] == greatest_id(init, least);
            assert(ids[i] == init[i]);
        }
    }
}

/// The files to replay are those with a greater number than the last sealed one; those
/// to delete are all others.
pub proof fn law_files_behind_and_before(ids: Seq<u64>, bound: int)
    ensures
        picked(ids, bound, true) == ids.filter(|id: u64| id > bound),
        picked(ids, bound, false) == ids.filter(|id: u64| id <= bound),
    decreases ids.len(),
{
    reveal(Seq::filter);
    if ids.len() > 0 {
        law_files_behind_and_before(ids.drop_last(), bound);
    } else {
        assert(picked(ids, bound, true) =~= ids.filter(|id: u64| id > bound));
        assert(picked(ids, bound, false) =~= ids.filter(|id: u64| id <= bound));
    }
}

/// A log file is named by its number, in at least six digits, and no two have one name.
pub proof fn law_names_of_log_files(a: u64, b: u64)
    ensures
        wal_name(a as int) == "wal-"@ + text::padded_decimal(a as int) + ".jsonl"@,
        names::number_in(wal_name(a as int), "wal-"@, ".jsonl"@) == Some(a),
        wal_name(a as int) == wal_name(b as int) ==> a == b,
{
    names::law_name_round_trip("wal-"@, a, ".jsonl"@);
    names::law_name_round_trip("wal-"@, b, ".jsonl"@);
}

} // verus!
