//! What a database holds, through everything that happens to it.
//!
//! A database takes batches in, drains and flushes its memtable, merges segments,
//! lets merged ones go, rolls hours up, closes months and is started again, in any
//! order, and a flush can fail. None of that loses an event or counts one twice.

use vstd::multiset::Multiset;
use vstd::prelude::*;

use crate::api::http_server;
use crate::compact::planner;
use crate::compact::worker;
use crate::ingest::dedupe;
use crate::ingest::dedupe::{EventHash, KnownModel};
use crate::ingest::partition;
use crate::ingest::partition::PartModel;
use crate::ingest::wal;
use crate::model::event::EventModel;
use crate::model::ids;
use crate::period;
use crate::query::executor;
use crate::query::order;
use crate::query::plan::PlanModel;
use crate::query::reconcile;
use crate::rollup::worker as rollup_worker;
use crate::runtime::recovery;
use crate::runtime::replay;
use crate::runtime::state;
use crate::storage::generations;
use crate::storage::manifest::{ClosedModel, ManifestModel, MetaModel, ReplacementModel};

verus! {

/// Drained events on their way into segments, and the log file that was sealed
/// behind them.
#[verifier::ext_equal]
pub struct DrainedModel {
    pub events: Seq<EventModel>,
    pub sealed: u64,
}

/// A database: its manifest; what the files of raw segments hold, by the segments'
/// names; the memtable; what has been drained and waits to be flushed; the log,
/// each event with the number of its file, and the file that is written to; the
/// file from which on a flush may seal again after one has failed; and which events
/// are known.
#[verifier::ext_equal]
pub struct DatabaseModel {
    pub manifest: ManifestModel,
    pub files: Map<Seq<char>, Seq<EventModel>>,
    pub memtable: Seq<EventModel>,
    pub drained: Seq<DrainedModel>,
    pub log: Seq<(u64, EventModel)>,
    pub active: u64,
    pub held_from: u64,
    pub known: KnownModel,
}

/// All that waits to be flushed.
pub open spec fn waiting(drained: Seq<DrainedModel>) -> Seq<EventModel>
    decreases drained.len(),
{
    if drained.len() == 0 {
        Seq::empty()
    } else {
        drained[0].events + waiting(drained.drop_first())
    }
}

/// The events of the log's files behind `after`, in their order.
pub open spec fn logged(log: Seq<(u64, EventModel)>, after: u64) -> Seq<EventModel>
    decreases log.len(),
{
    if log.len() == 0 {
        Seq::empty()
    } else if log.last().0 > after {
        logged(log.drop_last(), after).push(log.last().1)
    } else {
        logged(log.drop_last(), after)
    }
}

/// The log without the files up to `through`.
pub open spec fn log_behind(log: Seq<(u64, EventModel)>, through: u64) -> Seq<(u64, EventModel)>
    decreases log.len(),
{
    if log.len() == 0 {
        Seq::empty()
    } else if log.last().0 > through {
        log_behind(log.drop_last(), through).push(log.last())
    } else {
        log_behind(log.drop_last(), through)
    }
}

/// An event stands in a file of the log behind `after`.
pub open spec fn in_log(log: Seq<(u64, EventModel)>, e: EventModel, after: u64) -> bool {
    exists|k: int| 0 <= k < log.len() && (#[trigger] log[k]).1 == e && log[k].0 > after
}

/// The events of the named files, one file's behind the other's.
pub open spec fn rows_of(ids: Seq<Seq<char>>, files: Map<Seq<char>, Seq<EventModel>>) -> Seq<
    EventModel,
>
    decreases ids.len(),
{
    if ids.len() == 0 {
        Seq::empty()
    } else {
        rows_of(ids.drop_last(), files) + files[ids.last()]
    }
}

/// The names of segments, in their order.
pub open spec fn names_of(metas: Seq<MetaModel>) -> Seq<Seq<char>> {
    metas.map_values(|m: MetaModel| m.segment_id)
}

impl DatabaseModel {
    /// The events of the segments.
    pub open spec fn rows(self) -> Seq<EventModel> {
        rows_of(names_of(self.manifest.raw_segments), self.files)
    }

    /// The events that no segment holds yet.
    pub open spec fn unwritten(self) -> Multiset<EventModel> {
        waiting(self.drained).to_multiset().add(self.memtable.to_multiset())
    }

    /// All events, each as often as it is there.
    pub open spec fn holdings(self) -> Multiset<EventModel> {
        self.rows().to_multiset().add(self.unwritten())
    }

    /// An event is in the log for as long as it has to be: behind the sealed files,
    /// and behind those that the flushes ahead of its own will seal.
    pub open spec fn outlives(self, e: EventModel, ahead: int) -> bool {
        &&& in_log(self.log, e, self.manifest.last_sealed_wal_id)
        &&& forall|i: int|
            0 <= i < ahead && (#[trigger] self.drained[i]).sealed >= self.held_from ==> in_log(
                self.log,
                e,
                self.drained[i].sealed,
            )
    }

    /// The log can give back what no segment holds yet, and nothing else.
    pub open spec fn log_is_whole(self) -> bool {
        &&& forall|e: EventModel| #[trigger]
            self.memtable.contains(e) ==> self.outlives(e, self.drained.len() as int)
        &&& forall|j: int, e: EventModel|
            0 <= j < self.drained.len() && #[trigger] self.drained[j].events.contains(e)
                ==> self.outlives(e, j)
        &&& forall|k: int|
            0 <= k < self.log.len() && (#[trigger] self.log[k]).0
                > self.manifest.last_sealed_wal_id ==> self.holdings().count(self.log[k].1) > 0
        &&& forall|j: int, k: int|
            0 <= j < k < self.log.len() && self.log[j].0 > self.manifest.last_sealed_wal_id
                && self.log[k].0 > self.manifest.last_sealed_wal_id ==> recovery::id_of(
                (#[trigger] self.log[j]).1,
            ) != recovery::id_of((#[trigger] self.log[k]).1)
        &&& forall|k: int| 0 <= k < self.log.len() ==> (#[trigger] self.log[k]).0 <= self.active
        &&& forall|i: int|
            0 <= i < self.drained.len() ==> (#[trigger] self.drained[i]).sealed < self.active
        &&& self.manifest.last_sealed_wal_id < self.active
    }

    /// The segments are told apart by their names, and each has its file.
    pub open spec fn segments_are_there(self) -> bool {
        &&& worker::names_distinct(self.manifest.raw_segments)
        &&& forall|i: int|
            0 <= i < self.manifest.raw_segments.len() ==> self.files.dom().contains(
                (#[trigger] self.manifest.raw_segments[i]).segment_id,
            )
    }

    /// Nothing that has been replaced is still read.
    pub open spec fn replaced_are_out(self) -> bool {
        forall|i: int, k: int|
            0 <= i < self.manifest.compacted_replacements.len() && 0 <= k
                < self.manifest.compacted_replacements[i].old_segments.len() ==> !names_of(
                self.manifest.raw_segments,
            ).contains(#[trigger] self.manifest.compacted_replacements[i].old_segments[k])
    }

    /// Every event that is there is known.
    pub open spec fn remembers(self) -> bool {
        forall|e: EventModel|
            self.holdings().count(e) > 0 ==> self.known.payloads.dom().contains(
                #[trigger] recovery::id_of(e),
            )
    }

    /// Everything is as it should be: the log can give back what is not in segments
    /// yet, no event is there twice, and each is known.
    pub open spec fn in_order(self) -> bool {
        &&& self.segments_are_there()
        &&& self.replaced_are_out()
        &&& self.log_is_whole()
        &&& each_once(self.holdings())
        &&& self.remembers()
    }
}

/// No event is there twice, and no two have one id.
pub open spec fn each_once(events: Multiset<EventModel>) -> bool {
    &&& forall|e: EventModel| #[trigger] events.count(e) <= 1
    &&& forall|a: EventModel, b: EventModel|
        events.count(a) > 0 && events.count(b) > 0 && #[trigger] recovery::id_of(a)
            == #[trigger] recovery::id_of(b) ==> a == b
}

/// A name that has not been used.
pub open spec fn is_new_name(s: DatabaseModel, id: Seq<char>) -> bool {
    &&& !s.files.dom().contains(id)
    &&& forall|i: int, k: int|
        0 <= i < s.manifest.compacted_replacements.len() && 0 <= k
            < s.manifest.compacted_replacements[i].old_segments.len() ==> #[trigger]
        s.manifest.compacted_replacements[i].old_segments[k] != id
}

/// The files with one for each part, under the names of the segments.
pub open spec fn with_parts(
    files: Map<Seq<char>, Seq<EventModel>>,
    metas: Seq<MetaModel>,
    parts: Seq<PartModel>,
) -> Map<Seq<char>, Seq<EventModel>>
    decreases metas.len(),
{
    if metas.len() == 0 || parts.len() == 0 {
        files
    } else {
        with_parts(files, metas.drop_last(), parts.drop_last()).insert(
            metas.last().segment_id,
            parts.last().events,
        )
    }
}

/// What can happen to a database.
pub enum Step {
    /// A batch comes in.
    Ingest { events: Seq<EventModel>, now: i64 },
    /// The memtable is drained, and the active file of the log is sealed.
    Drain,
    /// What was drained first is written to segments.
    Flush { metas: Seq<MetaModel>, parts: Seq<PartModel> },
    /// What was drained first could not be written and goes back to the memtable.
    FlushFails { back: Seq<EventModel> },
    /// The files of the log go that segments hold.
    TrimLog,
    /// The segments of a bucket are merged.
    Compact { bucket: u32, merged: MetaModel, events: Seq<EventModel>, now: i64 },
    /// Segments that have been merged for long enough go.
    Finalize { now: i64, grace: i64 },
    /// The database is started again, with the files `existing` of the log; what was
    /// in memory is gone.
    Restart { now: i64, existing: Seq<u64> },
    /// Hours are rolled up or rewound, a month is closed or opened again, or the
    /// manifest is saved.
    Aside { manifest: ManifestModel },
}

/// What a step takes in.
pub open spec fn taken_in(s: DatabaseModel, step: Step) -> Seq<EventModel> {
    match step {
        Step::Ingest { events, now } => http_server::new_events(
            s.known,
            http_server::admitted(events, s.manifest.closed_periods, now),
        ),
        _ => Seq::empty(),
    }
}

/// What is known once the named files' events have been made known, one file after
/// the other.
pub open spec fn known_of_files(
    known: KnownModel,
    ids: Seq<Seq<char>>,
    files: Map<Seq<char>, Seq<EventModel>>,
) -> KnownModel
    decreases ids.len(),
{
    if ids.len() == 0 {
        known
    } else {
        dedupe::all_committed(
            known_of_files(known, ids.drop_last(), files),
            recovery::hashes_of(files[ids.last()]),
        )
    }
}

/// Nothing is known.
pub open spec fn nothing_known() -> KnownModel {
    KnownModel { payloads: Map::empty() }
}

/// A step leads from one state to another. Files get names that have not been
/// used. An event is not forgotten across a start: all segments are recent.
pub open spec fn leads_to(s: DatabaseModel, step: Step, t: DatabaseModel) -> bool {
    match step {
        Step::Ingest { .. } => {
            let fresh = taken_in(s, step);
            &&& t == (DatabaseModel {
                memtable: s.memtable + fresh,
                log: s.log + fresh.map_values(|e: EventModel| (s.active, e)),
                known: dedupe::all_committed(s.known, recovery::hashes_of(fresh)),
                ..s
            })
        },
        Step::Drain => {
            &&& s.active < u64::MAX
            &&& t == (DatabaseModel {
                memtable: Seq::empty(),
                drained: s.drained.push(DrainedModel { events: s.memtable, sealed: s.active }),
                active: (s.active + 1) as u64,
                ..s
            })
        },
        Step::Flush { metas, parts } => {
            &&& s.drained.len() > 0
            &&& partition::are_flush_parts(
                parts,
                s.drained[0].events,
                s.manifest.bucket_count as int,
            )
            &&& metas.len() == parts.len()
            &&& worker::names_distinct(metas)
            &&& forall|i: int|
                0 <= i < metas.len() ==> is_new_name(s, (#[trigger] metas[i]).segment_id)
            &&& t == (DatabaseModel {
                manifest: partition::flushed_manifest(
                    s.manifest,
                    metas,
                    state::sealing(s.drained[0].sealed, s.held_from),
                ),
                files: with_parts(s.files, metas, parts),
                drained: s.drained.drop_first(),
                ..s
            })
        },
        Step::FlushFails { back } => {
            &&& s.drained.len() > 0
            &&& back.to_multiset() == s.drained[0].events.to_multiset()
            &&& t == (DatabaseModel {
                memtable: back + s.memtable,
                drained: s.drained.drop_first(),
                held_from: s.active,
                ..s
            })
        },
        Step::TrimLog => {
            t == (DatabaseModel {
                log: log_behind(s.log, s.manifest.last_sealed_wal_id),
                ..s
            })
        },
        Step::Compact { bucket, merged, events, now } => {
            let ids = planner::bucket_ids(s.manifest.raw_segments, bucket);
            &&& worker::is_merge(rows_of(ids, s.files), events)
            &&& is_new_name(s, merged.segment_id)
            &&& t == (DatabaseModel {
                manifest: worker::compacted_manifest(s.manifest, ids, merged, now),
                files: s.files.insert(merged.segment_id, events),
                ..s
            })
        },
        Step::Finalize { now, grace } => {
            t == (DatabaseModel {
                manifest: ManifestModel {
                    compacted_replacements: worker::not_due(
                        s.manifest.compacted_replacements,
                        now as int,
                        grace as int,
                    ),
                    ..s.manifest
                },
                files: s.files.remove_keys(
                    worker::due_ids(
                        s.manifest.compacted_replacements,
                        now as int,
                        grace as int,
                    ).to_set(),
                ),
                ..s
            })
        },
        Step::Restart { now, existing } => {
            let known = known_of_files(
                nothing_known(),
                replay::recent_ids(s.manifest.raw_segments, now as int),
                s.files,
            );
            let (after, memtable) = replay::replayed(
                known,
                logged(s.log, s.manifest.last_sealed_wal_id),
            );
            &&& forall|i: int|
                0 <= i < s.manifest.raw_segments.len() ==> replay::is_recent(
                    #[trigger] s.manifest.raw_segments[i],
                    now as int,
                )
            &&& forall|k: int|
                0 <= k < s.log.len() ==> existing.contains((#[trigger] s.log[k]).0)
            &&& s.manifest.last_sealed_wal_id < u64::MAX
            &&& t == (DatabaseModel {
                memtable,
                drained: Seq::empty(),
                active: wal::greatest_id(existing, s.manifest.last_sealed_wal_id + 1) as u64,
                held_from: 0,
                known: after,
                ..s
            })
        },
        Step::Aside { manifest } => {
            &&& manifest.raw_segments == s.manifest.raw_segments
            &&& manifest.compacted_replacements == s.manifest.compacted_replacements
            &&& manifest.last_sealed_wal_id == s.manifest.last_sealed_wal_id
            &&& t == (DatabaseModel { manifest, ..s })
        },
    }
}

// ---------------------------------------------------------------------------
// Rows
// ---------------------------------------------------------------------------

proof fn lemma_rows_append(
    a: Seq<Seq<char>>,
    b: Seq<Seq<char>>,
    files: Map<Seq<char>, Seq<EventModel>>,
)
    ensures
        rows_of(a + b, files) == rows_of(a, files) + rows_of(b, files),
    decreases b.len(),
{
    if b.len() == 0 {
        assert(a + b =~= a);
        assert(rows_of(a, files) + rows_of(b, files) =~= rows_of(a, files));
    } else {
        lemma_rows_append(a, b.drop_last(), files);
        assert((a + b).drop_last() =~= a + b.drop_last());
        assert((a + b).last() == b.last());
        assert(rows_of(a + b, files) =~= rows_of(a, files) + rows_of(b, files));
    }
}

proof fn lemma_rows_same(
    ids: Seq<Seq<char>>,
    f: Map<Seq<char>, Seq<EventModel>>,
    g: Map<Seq<char>, Seq<EventModel>>,
)
    requires
        forall|i: int| 0 <= i < ids.len() ==> f[#[trigger] ids[i]] == g[ids[i]],
    ensures
        rows_of(ids, f) == rows_of(ids, g),
    decreases ids.len(),
{
    if ids.len() > 0 {
        let rest = ids.drop_last();
        assert forall|i: int| 0 <= i < rest.len() implies f[#[trigger] rest[i]] == g[rest[i]] by {
            assert(rest[i] == ids[i]);
        }
        lemma_rows_same(rest, f, g);
        assert(ids[ids.len() - 1] == ids.last());
    }
}

/// Rows whose ids are all different, and different from those of other rows.
spec fn ids_apart(events: Seq<EventModel>) -> bool {
    forall|i: int, j: int|
        0 <= i < j < events.len() ==> recovery::id_of(#[trigger] events[i]) != recovery::id_of(
            #[trigger] events[j],
        )
}

/// Rows that are among events of which each is there once have different ids.
proof fn lemma_apart(events: Seq<EventModel>, all: Multiset<EventModel>)
    requires
        each_once(all),
        forall|e: EventModel| #[trigger] events.to_multiset().count(e) <= all.count(e),
    ensures
        ids_apart(events),
{
    events.to_multiset_ensures();
    assert forall|i: int, j: int| 0 <= i < j < events.len() implies recovery::id_of(
        #[trigger] events[i],
    ) != recovery::id_of(#[trigger] events[j]) by {
        let a = events[i];
        let b = events[j];
        assert(events.contains(a) && events.contains(b));
        assert(events.to_multiset().count(a) > 0 && events.to_multiset().count(b) > 0);
        assert(all.count(a) > 0 && all.count(b) > 0);
        if recovery::id_of(a) == recovery::id_of(b) {
            assert(a == b);
            let rest = events.remove(j);
            rest.to_multiset_ensures();
            assert(rest[i] == a);
            assert(rest.contains(a));
            assert(rest.to_multiset().count(a) > 0);
            assert(rest.to_multiset() =~= events.to_multiset().remove(b));
            assert(all.count(a) <= 1);
        }
    }
}

/// Events with different ids are each there once.
proof fn lemma_once(events: Seq<EventModel>)
    requires
        ids_apart(events),
    ensures
        each_once(events.to_multiset()),
{
    events.to_multiset_ensures();
    assert(events.no_duplicates()) by {
        assert forall|i: int, j: int|
            0 <= i < events.len() && 0 <= j < events.len() && i != j implies events[i]
            != events[j] by {
            if i < j {
                assert(recovery::id_of(events[i]) != recovery::id_of(events[j]));
            } else {
                assert(recovery::id_of(events[j]) != recovery::id_of(events[i]));
            }
        }
    }
    events.lemma_multiset_has_no_duplicates();
    assert forall|e: EventModel| #[trigger] events.to_multiset().count(e) <= 1 by {
        if events.to_multiset().count(e) > 0 {
            assert(events.to_multiset().contains(e));
        }
    }
    assert forall|a: EventModel, b: EventModel|
        events.to_multiset().count(a) > 0 && events.to_multiset().count(b) > 0
            && #[trigger] recovery::id_of(a) == #[trigger] recovery::id_of(b) implies a == b by {
        assert(events.contains(a) && events.contains(b));
        let i = choose|i: int| 0 <= i < events.len() && events[i] == a;
        let j = choose|j: int| 0 <= j < events.len() && events[j] == b;
        if i < j {
            assert(recovery::id_of(events[i]) != recovery::id_of(events[j]));
        } else if j < i {
            assert(recovery::id_of(events[j]) != recovery::id_of(events[i]));
        }
    }
}

// ---------------------------------------------------------------------------
// Taking in
// ---------------------------------------------------------------------------

/// Events that are not known, with different ids, come to events that are known:
/// each is there once afterwards.
proof fn lemma_more(all: Multiset<EventModel>, known: KnownModel, fresh: Seq<EventModel>)
    requires
        each_once(all),
        forall|e: EventModel|
            all.count(e) > 0 ==> known.payloads.dom().contains(#[trigger] recovery::id_of(e)),
        http_server::all_fresh(known, fresh),
    ensures
        each_once(all.add(fresh.to_multiset())),
{
    let both = all.add(fresh.to_multiset());
    fresh.to_multiset_ensures();
    lemma_once(fresh);
    assert forall|e: EventModel| fresh.to_multiset().count(e) > 0 implies all.count(e) == 0
        && !known.payloads.dom().contains(#[trigger] recovery::id_of(e)) by {
        assert(fresh.contains(e));
        let i = choose|i: int| 0 <= i < fresh.len() && fresh[i] == e;
        assert(!known.payloads.dom().contains(recovery::id_of(fresh[i])));
        if all.count(e) > 0 {
            assert(known.payloads.dom().contains(recovery::id_of(e)));
        }
    }
    assert forall|e: EventModel| #[trigger] both.count(e) <= 1 by {
        assert(all.count(e) <= 1 && fresh.to_multiset().count(e) <= 1);
        if fresh.to_multiset().count(e) > 0 {
            assert(!known.payloads.dom().contains(recovery::id_of(e)));
        }
    }
    assert forall|a: EventModel, b: EventModel|
        both.count(a) > 0 && both.count(b) > 0 && #[trigger] recovery::id_of(a)
            == #[trigger] recovery::id_of(b) implies a == b by {
        if all.count(a) > 0 && all.count(b) > 0 {
        } else if fresh.to_multiset().count(a) > 0 && fresh.to_multiset().count(b) > 0 {
        } else if all.count(a) > 0 {
            assert(known.payloads.dom().contains(recovery::id_of(a)));
            assert(!known.payloads.dom().contains(recovery::id_of(b)));
        } else {
            assert(!known.payloads.dom().contains(recovery::id_of(a)));
            assert(known.payloads.dom().contains(recovery::id_of(b)));
        }
    }
}

/// What was known and what has been made known is known, and nothing else.
proof fn lemma_learned(known: KnownModel, fresh: Seq<EventModel>)
    requires
        http_server::all_fresh(known, fresh),
    ensures
        ({
            let after = dedupe::all_committed(known, recovery::hashes_of(fresh));
            &&& forall|id: EventHash| #[trigger]
                after.payloads.dom().contains(id) <==> known.payloads.dom().contains(id) || exists|
                    i: int,
                |
                    0 <= i < fresh.len() && recovery::id_of(#[trigger] fresh[i]) == id
        }),
{
    let after = dedupe::all_committed(known, recovery::hashes_of(fresh));
    http_server::lemma_made_known(known, fresh);
    assert forall|id: EventHash| #[trigger]
        after.payloads.dom().contains(id) <==> known.payloads.dom().contains(id) || exists|i: int|
            0 <= i < fresh.len() && recovery::id_of(#[trigger] fresh[i]) == id by {
        http_server::lemma_batch_ids(fresh, id);
        if known.payloads.dom().contains(id) {
            assert(after.payloads.dom().contains(id));
        }
        if http_server::payloads_by_id(fresh).dom().contains(id) {
            assert(after.payloads.dom().contains(id));
        }
    }
}

proof fn lemma_in_log_grows(
    log: Seq<(u64, EventModel)>,
    more: Seq<(u64, EventModel)>,
    e: EventModel,
    after: u64,
)
    requires
        in_log(log, e, after),
    ensures
        in_log(log + more, e, after),
{
    let k = choose|k: int| 0 <= k < log.len() && (#[trigger] log[k]).1 == e && log[k].0 > after;
    assert((log + more)[k] == log[k]);
}

/// What outlives the flushes ahead of it does so in a longer log.
proof fn lemma_outlives_grows(s: DatabaseModel, t: DatabaseModel, e: EventModel, ahead: int)
    requires
        s.outlives(e, ahead),
        s.log.is_prefix_of(t.log),
        t.manifest.last_sealed_wal_id == s.manifest.last_sealed_wal_id,
        t.held_from == s.held_from,
        ahead <= s.drained.len() <= t.drained.len(),
        forall|i: int| 0 <= i < ahead ==> #[trigger] t.drained[i] == s.drained[i],
    ensures
        t.outlives(e, ahead),
{
    let more = t.log.skip(s.log.len() as int);
    assert(t.log =~= s.log + more);
    lemma_in_log_grows(s.log, more, e, s.manifest.last_sealed_wal_id);
    assert forall|i: int|
        0 <= i < ahead && (#[trigger] t.drained[i]).sealed >= t.held_from implies in_log(
        t.log,
        e,
        t.drained[i].sealed,
    ) by {
        assert(t.drained[i] == s.drained[i]);
        lemma_in_log_grows(s.log, more, e, s.drained[i].sealed);
    }
}

proof fn lemma_ingest(s: DatabaseModel, step: Step, t: DatabaseModel)
    requires
        s.in_order(),
        step is Ingest,
        leads_to(s, step, t),
    ensures
        t.in_order(),
        t.holdings() == s.holdings().add(taken_in(s, step).to_multiset()),
{
    let fresh = taken_in(s, step);
    let passed = http_server::admitted(
        step->Ingest_events,
        s.manifest.closed_periods,
        step->Ingest_now,
    );
    http_server::law_new_events_are_distinct(s.known, passed);
    assert(http_server::all_fresh(s.known, fresh));
    vstd::seq_lib::lemma_multiset_commutative(s.memtable, fresh);
    assert(t.holdings() =~= s.holdings().add(fresh.to_multiset()));
    lemma_more(s.holdings(), s.known, fresh);
    lemma_learned(s.known, fresh);
    fresh.to_multiset_ensures();
    assert forall|e: EventModel| t.holdings().count(e) > 0 implies t.known.payloads.dom().contains(
        #[trigger] recovery::id_of(e),
    ) by {
        if s.holdings().count(e) > 0 {
            assert(s.known.payloads.dom().contains(recovery::id_of(e)));
        } else {
            assert(fresh.to_multiset().count(e) > 0);
            assert(fresh.contains(e));
            let i = choose|i: int| 0 <= i < fresh.len() && fresh[i] == e;
            assert(recovery::id_of(fresh[i]) == recovery::id_of(e));
        }
    }
    lemma_ingest_log(s, step, t);
}

proof fn lemma_ingest_log(s: DatabaseModel, step: Step, t: DatabaseModel)
    requires
        s.in_order(),
        step is Ingest,
        leads_to(s, step, t),
        http_server::all_fresh(s.known, taken_in(s, step)),
        t.holdings() == s.holdings().add(taken_in(s, step).to_multiset()),
    ensures
        t.log_is_whole(),
{
    let fresh = taken_in(s, step);
    let sealed = s.manifest.last_sealed_wal_id;
    let n = s.log.len();
    fresh.to_multiset_ensures();
    assert(s.log.is_prefix_of(t.log)) by {
        assert(t.log.subrange(0, n as int) =~= s.log);
    }
    assert forall|i: int| 0 <= i < fresh.len() implies #[trigger] t.log[n + i] == (
        s.active,
        fresh[i],
    ) by {}
    assert forall|e: EventModel| #[trigger] t.memtable.contains(e) implies t.outlives(
        e,
        t.drained.len() as int,
    ) by {
        let i = choose|i: int| 0 <= i < t.memtable.len() && t.memtable[i] == e;
        if i < s.memtable.len() {
            assert(s.memtable[i] == e);
            assert(s.memtable.contains(e));
            lemma_outlives_grows(s, t, e, s.drained.len() as int);
        } else {
            let k = n + (i - s.memtable.len());
            assert(fresh[i - s.memtable.len()] == e);
            assert(t.log[k] == (s.active, e));
            assert(in_log(t.log, e, sealed));
            assert forall|x: int|
                0 <= x < t.drained.len() && (#[trigger] t.drained[x]).sealed
                    >= t.held_from implies in_log(t.log, e, t.drained[x].sealed) by {
                assert(s.drained[x].sealed < s.active);
                assert(t.log[k].1 == e);
            }
        }
    }
    assert forall|j: int, e: EventModel|
        0 <= j < t.drained.len() && #[trigger] t.drained[j].events.contains(e) implies t.outlives(
        e,
        j,
    ) by {
        assert(s.drained[j].events.contains(e));
        lemma_outlives_grows(s, t, e, j);
    }
    assert forall|k: int|
        0 <= k < t.log.len() && (#[trigger] t.log[k]).0 > sealed implies t.holdings().count(
        t.log[k].1,
    ) > 0 by {
        if k < n {
            assert(t.log[k] == s.log[k]);
        } else {
            assert(t.log[n + (k - n)] == (s.active, fresh[k - n]));
            assert(fresh.contains(fresh[k - n]));
        }
    }
    assert forall|j: int, k: int|
        0 <= j < k < t.log.len() && t.log[j].0 > sealed && t.log[k].0
            > sealed implies recovery::id_of((#[trigger] t.log[j]).1) != recovery::id_of(
        (#[trigger] t.log[k]).1,
    ) by {
        if k < n {
            assert(t.log[j] == s.log[j] && t.log[k] == s.log[k]);
        } else {
            assert(t.log[n + (k - n)] == (s.active, fresh[k - n]));
            assert(!s.known.payloads.dom().contains(recovery::id_of(fresh[k - n])));
            if j < n {
                assert(t.log[j] == s.log[j]);
                assert(s.holdings().count(s.log[j].1) > 0);
                assert(s.known.payloads.dom().contains(recovery::id_of(s.log[j].1)));
            } else {
                assert(t.log[n + (j - n)] == (s.active, fresh[j - n]));
                assert(recovery::id_of(fresh[j - n]) != recovery::id_of(fresh[k - n]));
            }
        }
    }
    assert forall|k: int| 0 <= k < t.log.len() implies (#[trigger] t.log[k]).0 <= t.active by {
        if k < n {
            assert(t.log[k] == s.log[k]);
        } else {
            assert(t.log[n + (k - n)] == (s.active, fresh[k - n]));
        }
    }
}

// ---------------------------------------------------------------------------
// Draining
// ---------------------------------------------------------------------------

proof fn lemma_waiting_push(drained: Seq<DrainedModel>, d: DrainedModel)
    ensures
        waiting(drained.push(d)) == waiting(drained) + d.events,
    decreases drained.len(),
{
    let all = drained.push(d);
    if drained.len() == 0 {
        assert(all.drop_first() =~= Seq::empty());
        assert(waiting(all.drop_first()) =~= Seq::empty());
        assert(waiting(all) =~= waiting(drained) + d.events);
    } else {
        assert(all.drop_first() =~= drained.drop_first().push(d));
        assert(all[0] == drained[0]);
        lemma_waiting_push(drained.drop_first(), d);
        assert(waiting(all) =~= waiting(drained) + d.events);
    }
}

proof fn lemma_drain(s: DatabaseModel, step: Step, t: DatabaseModel)
    requires
        s.in_order(),
        step is Drain,
        leads_to(s, step, t),
    ensures
        t.in_order(),
        t.holdings() == s.holdings(),
{
    let d = DrainedModel { events: s.memtable, sealed: s.active };
    lemma_waiting_push(s.drained, d);
    vstd::seq_lib::lemma_multiset_commutative(waiting(s.drained), s.memtable);
    t.memtable.to_multiset_ensures();
    assert(t.memtable.to_multiset() =~= Multiset::empty());
    assert(t.rows() == s.rows());
    assert(t.holdings() =~= s.holdings());
    assert(s.log.is_prefix_of(t.log)) by {
        assert(t.log.subrange(0, s.log.len() as int) =~= s.log);
    }
    assert forall|j: int, e: EventModel|
        0 <= j < t.drained.len() && #[trigger] t.drained[j].events.contains(e) implies t.outlives(
        e,
        j,
    ) by {
        if j < s.drained.len() {
            assert(s.drained[j].events.contains(e));
            lemma_outlives_grows(s, t, e, j);
        } else {
            assert(s.memtable.contains(e));
            lemma_outlives_grows(s, t, e, s.drained.len() as int);
        }
    }
    assert forall|i: int| 0 <= i < t.drained.len() implies (#[trigger] t.drained[i]).sealed
        < t.active by {
        if i < s.drained.len() {
            assert(t.drained[i] == s.drained[i]);
        }
    }
}

/// What goes back to the memtable is still in the log, and no flush that is still
/// to come seals its file unless it brings it into segments itself.
proof fn lemma_flush_fails(s: DatabaseModel, step: Step, t: DatabaseModel)
    requires
        s.in_order(),
        step is FlushFails,
        leads_to(s, step, t),
    ensures
        t.in_order(),
        t.holdings() == s.holdings(),
{
    let back = step->back;
    let head = s.drained[0].events;
    vstd::seq_lib::lemma_multiset_commutative(back, s.memtable);
    vstd::seq_lib::lemma_multiset_commutative(head, waiting(s.drained.drop_first()));
    assert(t.rows() == s.rows());
    assert(t.holdings() =~= s.holdings());
    back.to_multiset_ensures();
    head.to_multiset_ensures();
    assert forall|i: int| 0 <= i < t.drained.len() implies (#[trigger] t.drained[i]).sealed
        < t.active by {
        assert(t.drained[i] == s.drained[i + 1]);
    }
    assert forall|e: EventModel| #[trigger] t.memtable.contains(e) implies t.outlives(
        e,
        t.drained.len() as int,
    ) by {
        let i = choose|i: int| 0 <= i < t.memtable.len() && t.memtable[i] == e;
        if i < back.len() {
            assert(back[i] == e);
            assert(back.contains(e));
            assert(head.to_multiset().count(e) > 0);
            assert(s.drained[0].events.contains(e));
            assert(s.outlives(e, 0));
        } else {
            assert(s.memtable[i - back.len()] == e);
            assert(s.memtable.contains(e));
        }
    }
    assert forall|j: int, e: EventModel|
        0 <= j < t.drained.len() && #[trigger] t.drained[j].events.contains(e) implies t.outlives(
        e,
        j,
    ) by {
        assert(s.drained[j + 1].events.contains(e));
        assert(s.outlives(e, j + 1));
    }
}

// ---------------------------------------------------------------------------
// Flushing
// ---------------------------------------------------------------------------

/// The events of parts.
spec fn parts_events(parts: Seq<PartModel>) -> Multiset<EventModel>
    decreases parts.len(),
{
    if parts.len() == 0 {
        Multiset::empty()
    } else {
        parts_events(parts.drop_last()).add(parts.last().events.to_multiset())
    }
}

proof fn lemma_part_grows(parts: Seq<PartModel>, p: int, e: EventModel)
    requires
        0 <= p < parts.len(),
    ensures
        parts_events(
            parts.update(
                p,
                PartModel { bucket: parts[p].bucket, events: parts[p].events.push(e) },
            ),
        ) == parts_events(parts).insert(e),
    decreases parts.len(),
{
    let grown = PartModel { bucket: parts[p].bucket, events: parts[p].events.push(e) };
    let after = parts.update(p, grown);
    parts[p].events.to_multiset_ensures();
    if p == parts.len() - 1 {
        assert(after.drop_last() =~= parts.drop_last());
        assert(after.last() == grown);
        assert(parts_events(after) =~= parts_events(parts).insert(e));
    } else {
        assert(after.drop_last() =~= parts.drop_last().update(p, grown));
        assert(parts.drop_last()[p] == parts[p]);
        lemma_part_grows(parts.drop_last(), p, e);
        assert(after.last() == parts.last());
        assert(parts_events(after) =~= parts_events(parts).insert(e));
    }
}

proof fn lemma_parts_hold_all(events: Seq<EventModel>, bucket_count: int)
    ensures
        parts_events(partition::partitioned(events, bucket_count)) == events.to_multiset(),
    decreases events.len(),
{
    events.to_multiset_ensures();
    if events.len() == 0 {
        assert(events.to_multiset() =~= Multiset::empty());
    } else {
        let rest = events.drop_last();
        let e = events.last();
        lemma_parts_hold_all(rest, bucket_count);
        rest.to_multiset_ensures();
        assert(events =~= rest.push(e));
        let before = partition::partitioned(rest, bucket_count);
        let b = ids::account_bucket(e.account_id, bucket_count);
        let p = partition::part_place(before, b);
        partition::lemma_part_place(before, b);
        if p < before.len() {
            lemma_part_grows(before, p, e);
        } else {
            let one = PartModel { bucket: b, events: seq![e] };
            let empty = Seq::<EventModel>::empty();
            empty.to_multiset_ensures();
            assert(seq![e] =~= empty.push(e));
            assert(empty.to_multiset() =~= Multiset::empty());
            assert(before.push(one).drop_last() =~= before);
            assert(parts_events(before.push(one)) =~= parts_events(before).insert(e));
        }
    }
}

proof fn lemma_parts_same(a: Seq<PartModel>, b: Seq<PartModel>)
    requires
        a.len() == b.len(),
        forall|i: int|
            0 <= i < a.len() ==> (#[trigger] a[i]).events.to_multiset() == b[i].events.to_multiset(),
    ensures
        parts_events(a) == parts_events(b),
    decreases a.len(),
{
    if a.len() > 0 {
        let ra = a.drop_last();
        let rb = b.drop_last();
        assert forall|i: int| 0 <= i < ra.len() implies (#[trigger] ra[i]).events.to_multiset()
            == rb[i].events.to_multiset() by {
            assert(ra[i] == a[i] && rb[i] == b[i]);
        }
        lemma_parts_same(ra, rb);
        assert(a[a.len() - 1] == a.last() && b[b.len() - 1] == b.last());
    }
}

/// The files of parts hold the parts' events, and the other files stay.
proof fn lemma_part_files(
    files: Map<Seq<char>, Seq<EventModel>>,
    metas: Seq<MetaModel>,
    parts: Seq<PartModel>,
)
    requires
        metas.len() == parts.len(),
        worker::names_distinct(metas),
        forall|i: int|
            0 <= i < metas.len() ==> !files.dom().contains((#[trigger] metas[i]).segment_id),
    ensures
        rows_of(names_of(metas), with_parts(files, metas, parts)).to_multiset() == parts_events(
            parts,
        ),
        forall|id: Seq<char>|
            files.dom().contains(id) ==> #[trigger] with_parts(files, metas, parts).dom().contains(
                id,
            ) && with_parts(files, metas, parts)[id] == files[id],
        forall|i: int|
            0 <= i < metas.len() ==> with_parts(files, metas, parts).dom().contains(
                (#[trigger] metas[i]).segment_id,
            ),
    decreases metas.len(),
{
    let after = with_parts(files, metas, parts);
    let names = names_of(metas);
    if metas.len() == 0 {
        rows_of(names, after).to_multiset_ensures();
        assert(rows_of(names, after).to_multiset() =~= Multiset::empty());
    } else {
        let rest = metas.drop_last();
        let before = with_parts(files, rest, parts.drop_last());
        assert forall|i: int| 0 <= i < rest.len() implies !files.dom().contains(
            (#[trigger] rest[i]).segment_id,
        ) by {
            assert(rest[i] == metas[i]);
        }
        assert(worker::names_distinct(rest)) by {
            assert forall|i: int, j: int| 0 <= i < j < rest.len() implies (
            #[trigger] rest[i]).segment_id != (#[trigger] rest[j]).segment_id by {
                assert(rest[i] == metas[i] && rest[j] == metas[j]);
            }
        }
        lemma_part_files(files, rest, parts.drop_last());
        let id = metas.last().segment_id;
        assert(metas[metas.len() - 1].segment_id == id);
        assert(names.drop_last() =~= names_of(rest));
        assert(names.last() == id);
        assert forall|i: int| 0 <= i < names_of(rest).len() implies before[#[trigger] names_of(
            rest,
        )[i]] == after[names_of(rest)[i]] by {
            assert(names_of(rest)[i] == metas[i].segment_id);
            assert(metas[i].segment_id != metas[metas.len() - 1].segment_id);
        }
        lemma_rows_same(names_of(rest), before, after);
        vstd::seq_lib::lemma_multiset_commutative(
            rows_of(names_of(rest), after),
            parts.last().events,
        );
        assert forall|i: int| 0 <= i < metas.len() implies after.dom().contains(
            (#[trigger] metas[i]).segment_id,
        ) by {
            if i < rest.len() {
                assert(rest[i] == metas[i]);
            }
        }
    }
}

proof fn lemma_flush(s: DatabaseModel, step: Step, t: DatabaseModel)
    requires
        s.in_order(),
        step is Flush,
        leads_to(s, step, t),
    ensures
        t.in_order(),
        t.holdings() == s.holdings(),
{
    let metas = step->metas;
    let parts = step->parts;
    let head = s.drained[0].events;
    let raw = s.manifest.raw_segments;
    let count = s.manifest.bucket_count as int;
    assert forall|i: int| 0 <= i < metas.len() implies !s.files.dom().contains(
        (#[trigger] metas[i]).segment_id,
    ) by {
        assert(is_new_name(s, metas[i].segment_id));
    }
    lemma_part_files(s.files, metas, parts);
    lemma_parts_hold_all(head, count);
    lemma_parts_same(parts, partition::partitioned(head, count));
    assert(names_of(raw + metas) =~= names_of(raw) + names_of(metas));
    lemma_rows_append(names_of(raw), names_of(metas), t.files);
    assert forall|i: int| 0 <= i < names_of(raw).len() implies s.files[#[trigger] names_of(raw)[i]]
        == t.files[names_of(raw)[i]] by {
        assert(names_of(raw)[i] == raw[i].segment_id);
        assert(s.files.dom().contains(raw[i].segment_id));
        assert(t.files.dom().contains(raw[i].segment_id));
    }
    lemma_rows_same(names_of(raw), s.files, t.files);
    vstd::seq_lib::lemma_multiset_commutative(
        rows_of(names_of(raw), t.files),
        rows_of(names_of(metas), t.files),
    );
    vstd::seq_lib::lemma_multiset_commutative(head, waiting(s.drained.drop_first()));
    assert(t.holdings() =~= s.holdings());
    lemma_flush_names(s, step, t);
    lemma_flush_log(s, step, t);
}

proof fn lemma_flush_names(s: DatabaseModel, step: Step, t: DatabaseModel)
    requires
        s.in_order(),
        step is Flush,
        leads_to(s, step, t),
        forall|id: Seq<char>| s.files.dom().contains(id) ==> #[trigger] t.files.dom().contains(id),
        forall|i: int|
            0 <= i < step->metas.len() ==> t.files.dom().contains(
                (#[trigger] step->metas[i]).segment_id,
            ),
    ensures
        t.segments_are_there(),
        t.replaced_are_out(),
{
    let metas = step->metas;
    let raw = s.manifest.raw_segments;
    let all = t.manifest.raw_segments;
    assert forall|i: int, j: int| 0 <= i < j < all.len() implies (#[trigger] all[i]).segment_id != (
    #[trigger] all[j]).segment_id by {
        if j < raw.len() {
            assert(raw[i].segment_id != raw[j].segment_id);
        } else if i < raw.len() {
            assert(s.files.dom().contains(raw[i].segment_id));
            assert(is_new_name(s, metas[j - raw.len()].segment_id));
        } else {
            assert(metas[i - raw.len()].segment_id != metas[j - raw.len()].segment_id);
        }
    }
    assert forall|i: int| 0 <= i < all.len() implies t.files.dom().contains(
        (#[trigger] all[i]).segment_id,
    ) by {
        if i < raw.len() {
            assert(s.files.dom().contains(raw[i].segment_id));
        } else {
            assert(t.files.dom().contains(metas[i - raw.len()].segment_id));
        }
    }
    let records = t.manifest.compacted_replacements;
    assert forall|i: int, k: int|
        0 <= i < records.len() && 0 <= k < records[i].old_segments.len() implies !names_of(
        all,
    ).contains(#[trigger] records[i].old_segments[k]) by {
        let id = s.manifest.compacted_replacements[i].old_segments[k];
        assert(!names_of(raw).contains(id));
        if names_of(all).contains(id) {
            let j = choose|j: int| 0 <= j < names_of(all).len() && names_of(all)[j] == id;
            if j < raw.len() {
                assert(names_of(raw)[j] == id);
            } else {
                assert(is_new_name(s, metas[j - raw.len()].segment_id));
            }
        }
    }
}

/// The files that a flush seals hold nothing that is still to be written.
proof fn lemma_flush_log(s: DatabaseModel, step: Step, t: DatabaseModel)
    requires
        s.in_order(),
        step is Flush,
        leads_to(s, step, t),
        t.holdings() == s.holdings(),
    ensures
        t.log_is_whole(),
{
    let head = s.drained[0];
    let before = s.manifest.last_sealed_wal_id;
    let after = t.manifest.last_sealed_wal_id;
    assert(after == before || (after == head.sealed && head.sealed >= s.held_from));
    assert(after >= before);
    assert forall|e: EventModel| #[trigger] t.memtable.contains(e) implies t.outlives(
        e,
        t.drained.len() as int,
    ) by {
        assert(s.memtable.contains(e));
        assert(s.outlives(e, s.drained.len() as int));
        assert(in_log(s.log, e, after));
        assert forall|i: int|
            0 <= i < t.drained.len() && (#[trigger] t.drained[i]).sealed
                >= t.held_from implies in_log(t.log, e, t.drained[i].sealed) by {
            assert(t.drained[i] == s.drained[i + 1]);
        }
    }
    assert forall|j: int, e: EventModel|
        0 <= j < t.drained.len() && #[trigger] t.drained[j].events.contains(e) implies t.outlives(
        e,
        j,
    ) by {
        assert(s.drained[j + 1].events.contains(e));
        assert(s.outlives(e, j + 1));
        assert(in_log(s.log, e, after));
        assert forall|i: int|
            0 <= i < j && (#[trigger] t.drained[i]).sealed >= t.held_from implies in_log(
            t.log,
            e,
            t.drained[i].sealed,
        ) by {
            assert(t.drained[i] == s.drained[i + 1]);
        }
    }
    assert forall|i: int| 0 <= i < t.drained.len() implies (#[trigger] t.drained[i]).sealed
        < t.active by {
        assert(t.drained[i] == s.drained[i + 1]);
    }
    assert forall|k: int|
        0 <= k < t.log.len() && (#[trigger] t.log[k]).0 > after implies t.holdings().count(
        t.log[k].1,
    ) > 0 by {
        assert(s.log[k].0 > before);
    }
    assert forall|j: int, k: int|
        0 <= j < k < t.log.len() && t.log[j].0 > after && t.log[k].0 > after implies recovery::id_of(
        (#[trigger] t.log[j]).1,
    ) != recovery::id_of((#[trigger] t.log[k]).1) by {
        assert(s.log[j].0 > before && s.log[k].0 > before);
    }
}

// ---------------------------------------------------------------------------
// Trimming the log
// ---------------------------------------------------------------------------

/// The log behind a file has the events behind it, and no others.
proof fn lemma_log_behind(log: Seq<(u64, EventModel)>, through: u64)
    ensures
        forall|k: int|
            0 <= k < log.len() && (#[trigger] log[k]).0 > through ==> log_behind(
                log,
                through,
            ).contains(log[k]),
        forall|i: int|
            0 <= i < log_behind(log, through).len() ==> (#[trigger] log_behind(
                log,
                through,
            )[i]).0 > through && log.contains(log_behind(log, through)[i]),
    decreases log.len(),
{
    let out = log_behind(log, through);
    if log.len() > 0 {
        let rest = log.drop_last();
        let before = log_behind(rest, through);
        lemma_log_behind(rest, through);
        assert forall|k: int| 0 <= k < log.len() && (#[trigger] log[k]).0 > through implies out.contains(
            log[k],
        ) by {
            if k < rest.len() {
                assert(rest[k] == log[k]);
                let i = choose|i: int| 0 <= i < before.len() && before[i] == log[k];
                assert(out[i] == log[k]);
            } else {
                assert(out[out.len() - 1] == log[k]);
            }
        }
        assert forall|i: int| 0 <= i < out.len() implies (#[trigger] out[i]).0 > through
            && log.contains(out[i]) by {
            if i < before.len() {
                assert(before[i] == out[i]);
                let k = choose|k: int| 0 <= k < rest.len() && rest[k] == before[i];
                assert(log[k] == out[i]);
            } else {
                assert(log[log.len() - 1] == out[i]);
            }
        }
    }
}

/// Different ids behind a file stay different.
proof fn lemma_log_ids(log: Seq<(u64, EventModel)>, through: u64)
    requires
        forall|j: int, k: int|
            0 <= j < k < log.len() && log[j].0 > through && log[k].0 > through ==> recovery::id_of(
                (#[trigger] log[j]).1,
            ) != recovery::id_of((#[trigger] log[k]).1),
    ensures
        forall|j: int, k: int|
            0 <= j < k < log_behind(log, through).len() ==> recovery::id_of(
                (#[trigger] log_behind(log, through)[j]).1,
            ) != recovery::id_of((#[trigger] log_behind(log, through)[k]).1),
        logged(log, through) == log_behind(log, through).map_values(|x: (u64, EventModel)| x.1),
    decreases log.len(),
{
    let out = log_behind(log, through);
    if log.len() > 0 {
        let rest = log.drop_last();
        let before = log_behind(rest, through);
        assert forall|j: int, k: int|
            0 <= j < k < rest.len() && rest[j].0 > through && rest[k].0
                > through implies recovery::id_of((#[trigger] rest[j]).1) != recovery::id_of(
            (#[trigger] rest[k]).1,
        ) by {
            assert(rest[j] == log[j] && rest[k] == log[k]);
        }
        lemma_log_ids(rest, through);
        lemma_log_behind(rest, through);
        assert forall|j: int, k: int| 0 <= j < k < out.len() implies recovery::id_of(
            (#[trigger] out[j]).1,
        ) != recovery::id_of((#[trigger] out[k]).1) by {
            assert(out[j] == before[j]);
            if k < before.len() {
                assert(out[k] == before[k]);
            } else {
                assert(out[k] == log[log.len() - 1]);
                assert(rest.contains(before[j]));
                let x = choose|x: int| 0 <= x < rest.len() && rest[x] == before[j];
                assert(log[x] == before[j]);
            }
        }
        assert(logged(log, through) =~= out.map_values(|x: (u64, EventModel)| x.1));
    } else {
        assert(logged(log, through) =~= out.map_values(|x: (u64, EventModel)| x.1));
    }
}

proof fn lemma_trim(s: DatabaseModel, step: Step, t: DatabaseModel)
    requires
        s.in_order(),
        step is TrimLog,
        leads_to(s, step, t),
    ensures
        t.in_order(),
        t.holdings() == s.holdings(),
{
    let sealed = s.manifest.last_sealed_wal_id;
    lemma_log_behind(s.log, sealed);
    lemma_log_ids(s.log, sealed);
    assert(t.rows() == s.rows());
    assert forall|e: EventModel, after: u64|
        in_log(s.log, e, sealed) && in_log(s.log, e, after) implies #[trigger] in_log(
        t.log,
        e,
        after,
    ) by {
        let bound: u64 = if after > sealed {
            after
        } else {
            sealed
        };
        assert(in_log(s.log, e, bound));
        let k = choose|k: int|
            0 <= k < s.log.len() && (#[trigger] s.log[k]).1 == e && s.log[k].0 > bound;
        assert(t.log.contains(s.log[k]));
        let i = choose|i: int| 0 <= i < t.log.len() && t.log[i] == s.log[k];
        assert(t.log[i].1 == e && t.log[i].0 > after);
    }
    assert forall|e: EventModel, ahead: int| s.outlives(e, ahead) implies #[trigger] t.outlives(
        e,
        ahead,
    ) by {
        assert(in_log(t.log, e, sealed));
        assert forall|i: int|
            0 <= i < ahead && (#[trigger] t.drained[i]).sealed >= t.held_from implies in_log(
            t.log,
            e,
            t.drained[i].sealed,
        ) by {
            assert(s.drained[i] == t.drained[i]);
            assert(in_log(s.log, e, s.drained[i].sealed));
        }
    }
    assert forall|k: int|
        0 <= k < t.log.len() && (#[trigger] t.log[k]).0 > sealed implies t.holdings().count(
        t.log[k].1,
    ) > 0 by {
        assert(s.log.contains(t.log[k]));
        let i = choose|i: int| 0 <= i < s.log.len() && s.log[i] == t.log[k];
        assert(s.log[i].0 > sealed);
    }
    assert forall|k: int| 0 <= k < t.log.len() implies (#[trigger] t.log[k]).0 <= t.active by {
        assert(s.log.contains(t.log[k]));
        let i = choose|i: int| 0 <= i < s.log.len() && s.log[i] == t.log[k];
        assert(s.log[i].0 <= s.active);
    }
}

/// What does not touch the log, the memtable or what waits leaves the log whole.
proof fn lemma_log_stays(s: DatabaseModel, t: DatabaseModel)
    requires
        s.log_is_whole(),
        t.log == s.log,
        t.memtable == s.memtable,
        t.drained == s.drained,
        t.active == s.active,
        t.held_from == s.held_from,
        t.manifest.last_sealed_wal_id == s.manifest.last_sealed_wal_id,
        t.holdings() == s.holdings(),
    ensures
        t.log_is_whole(),
{
    assert forall|e: EventModel, ahead: int| s.outlives(e, ahead) implies #[trigger] t.outlives(
        e,
        ahead,
    ) by {}
}

// ---------------------------------------------------------------------------
// Merging
// ---------------------------------------------------------------------------

/// The rows of segments are those of a bucket and those of the others.
proof fn lemma_rows_by_bucket(
    metas: Seq<MetaModel>,
    part: Seq<MetaModel>,
    bucket: u32,
    files: Map<Seq<char>, Seq<EventModel>>,
)
    requires
        worker::names_distinct(metas),
        part.is_prefix_of(metas),
    ensures
        rows_of(names_of(part), files).to_multiset() == rows_of(
            names_of(worker::not_named(part, planner::bucket_ids(metas, bucket))),
            files,
        ).to_multiset().add(rows_of(planner::bucket_ids(part, bucket), files).to_multiset()),
        forall|id: Seq<char>| #[trigger]
            names_of(
                worker::not_named(part, planner::bucket_ids(metas, bucket)),
            ).contains(id) ==> names_of(part).contains(id) && !planner::bucket_ids(
                metas,
                bucket,
            ).contains(id),
        worker::names_distinct(worker::not_named(part, planner::bucket_ids(metas, bucket))),
    decreases part.len(),
{
    let ids = planner::bucket_ids(metas, bucket);
    let kept = worker::not_named(part, ids);
    let names = names_of(part);
    if part.len() == 0 {
        let none = Seq::<EventModel>::empty();
        none.to_multiset_ensures();
        assert(none.to_multiset().add(none.to_multiset()) =~= none.to_multiset());
        assert(rows_of(names, files) =~= none);
    } else {
        let rest = part.drop_last();
        let m = part.last();
        let before = worker::not_named(rest, ids);
        assert(rest.is_prefix_of(metas));
        lemma_rows_by_bucket(metas, rest, bucket, files);
        worker::lemma_bucket_ids(metas, bucket, m.segment_id);
        assert(metas[part.len() - 1] == m);
        assert(names.drop_last() =~= names_of(rest));
        assert(names.last() == m.segment_id);
        vstd::seq_lib::lemma_multiset_commutative(
            rows_of(names_of(rest), files),
            files[m.segment_id],
        );
        if m.bucket == bucket {
            assert(ids.contains(m.segment_id));
            let own = planner::bucket_ids(part, bucket);
            assert(own.drop_last() =~= planner::bucket_ids(rest, bucket));
            vstd::seq_lib::lemma_multiset_commutative(
                rows_of(planner::bucket_ids(rest, bucket), files),
                files[m.segment_id],
            );
        } else {
            assert(!ids.contains(m.segment_id)) by {
                if ids.contains(m.segment_id) {
                    let i = choose|i: int|
                        0 <= i < metas.len() && (#[trigger] metas[i]).segment_id == m.segment_id
                            && metas[i].bucket == bucket;
                    if i < part.len() - 1 {
                        assert(metas[i].segment_id != metas[part.len() - 1].segment_id);
                    } else if i > part.len() - 1 {
                        assert(metas[part.len() - 1].segment_id != metas[i].segment_id);
                    }
                }
            }
            assert(names_of(kept).drop_last() =~= names_of(before));
            assert(names_of(kept).last() == m.segment_id);
            vstd::seq_lib::lemma_multiset_commutative(
                rows_of(names_of(before), files),
                files[m.segment_id],
            );
        }
        assert(rows_of(names, files).to_multiset() =~= rows_of(
            names_of(kept),
            files,
        ).to_multiset().add(rows_of(planner::bucket_ids(part, bucket), files).to_multiset()));
        assert forall|id: Seq<char>| #[trigger] names_of(kept).contains(id) implies names.contains(
            id,
        ) && !ids.contains(id) by {
            let k = choose|k: int| 0 <= k < names_of(kept).len() && names_of(kept)[k] == id;
            if k < before.len() {
                assert(names_of(before)[k] == id);
                assert(names_of(before).contains(id));
                let j = choose|j: int|
                    0 <= j < names_of(rest).len() && names_of(rest)[j] == id;
                assert(names[j] == id);
            } else {
                assert(names[part.len() - 1] == id);
            }
        }
        assert forall|i: int, j: int| 0 <= i < j < kept.len() implies (
        #[trigger] kept[i]).segment_id != (#[trigger] kept[j]).segment_id by {
            if j < before.len() {
                assert(before[i].segment_id != before[j].segment_id);
            } else {
                assert(names_of(before)[i] == kept[i].segment_id);
                assert(names_of(before).contains(kept[i].segment_id));
                let x = choose|x: int|
                    0 <= x < names_of(rest).len() && names_of(rest)[x] == kept[i].segment_id;
                assert(metas[x].segment_id == kept[i].segment_id);
                assert(metas[x].segment_id != metas[part.len() - 1].segment_id);
            }
        }
    }
}

proof fn lemma_compact(s: DatabaseModel, step: Step, t: DatabaseModel)
    requires
        s.in_order(),
        step is Compact,
        leads_to(s, step, t),
    ensures
        t.in_order(),
        t.holdings() == s.holdings(),
{
    let bucket = step->bucket;
    let merged = step->merged;
    let events = step->Compact_events;
    let raw = s.manifest.raw_segments;
    let ids = planner::bucket_ids(raw, bucket);
    let kept = worker::not_named(raw, ids);
    let all = kept.push(merged);
    let input = rows_of(ids, s.files);
    let name = merged.segment_id;
    assert(raw.is_prefix_of(raw)) by {
        assert(raw.subrange(0, raw.len() as int) =~= raw);
    }
    lemma_rows_by_bucket(raw, raw, bucket, s.files);
    assert(all == t.manifest.raw_segments);
    // Nothing is lost in the merge.
    assert forall|e: EventModel| #[trigger] input.to_multiset().count(e) <= s.holdings().count(
        e,
    ) by {}
    lemma_apart(input, s.holdings());
    assert(worker::ids_distinct(input)) by {
        assert forall|i: int, j: int| 0 <= i < j < input.len() implies (#[trigger] input[i]).event_id
            != (#[trigger] input[j]).event_id by {
            assert(recovery::id_of(input[i]) != recovery::id_of(input[j]));
            reveal(recovery::id_of);
        }
    }
    worker::law_merging_keeps_every_id(input);
    assert(events.to_multiset() == input.to_multiset());
    // The rows of the others stay.
    assert forall|i: int| 0 <= i < names_of(kept).len() implies s.files[#[trigger] names_of(
        kept,
    )[i]] == t.files[names_of(kept)[i]] && names_of(kept)[i] != name && s.files.dom().contains(
        names_of(kept)[i],
    ) by {
        let id = names_of(kept)[i];
        assert(names_of(kept).contains(id));
        let j = choose|j: int| 0 <= j < names_of(raw).len() && names_of(raw)[j] == id;
        assert(raw[j].segment_id == id);
    }
    lemma_rows_same(names_of(kept), s.files, t.files);
    assert(names_of(all).drop_last() =~= names_of(kept));
    assert(names_of(all).last() == name);
    vstd::seq_lib::lemma_multiset_commutative(rows_of(names_of(kept), t.files), events);
    assert(t.holdings() =~= s.holdings());
    lemma_log_stays(s, t);
    assert(worker::names_distinct(all)) by {
        assert forall|i: int, j: int| 0 <= i < j < all.len() implies (#[trigger] all[i]).segment_id
            != (#[trigger] all[j]).segment_id by {
            if j < kept.len() {
                assert(kept[i].segment_id != kept[j].segment_id);
            } else {
                assert(names_of(kept)[i] != name);
            }
        }
    }
    assert forall|i: int| 0 <= i < all.len() implies t.files.dom().contains(
        (#[trigger] all[i]).segment_id,
    ) by {
        if i < kept.len() {
            assert(s.files.dom().contains(names_of(kept)[i]));
        }
    }
    let records = t.manifest.compacted_replacements;
    let old_records = s.manifest.compacted_replacements;
    assert forall|i: int, k: int|
        0 <= i < records.len() && 0 <= k < records[i].old_segments.len() implies !names_of(
        all,
    ).contains(#[trigger] records[i].old_segments[k]) by {
        let id = records[i].old_segments[k];
        if names_of(all).contains(id) {
            let j = choose|j: int| 0 <= j < names_of(all).len() && names_of(all)[j] == id;
            if j < kept.len() {
                assert(names_of(kept)[j] == id);
                assert(names_of(kept).contains(id));
                if i < old_records.len() {
                    assert(!names_of(raw).contains(old_records[i].old_segments[k]));
                } else {
                    assert(ids[k] == id);
                    assert(ids.contains(id));
                }
            } else if i < old_records.len() {
                assert(old_records[i].old_segments[k] != name);
            } else {
                assert(ids.contains(ids[k]));
                worker::lemma_bucket_ids(raw, bucket, name);
                let x = choose|x: int|
                    0 <= x < raw.len() && (#[trigger] raw[x]).segment_id == name && raw[x].bucket
                        == bucket;
                assert(s.files.dom().contains(raw[x].segment_id));
            }
        }
    }
}

/// The segments that can go are old segments of replacements.
proof fn lemma_due(
    records: Seq<ReplacementModel>,
    now: int,
    grace: int,
    id: Seq<char>,
)
    requires
        worker::due_ids(records, now, grace).contains(id),
    ensures
        exists|i: int, k: int|
            0 <= i < records.len() && 0 <= k < records[i].old_segments.len()
                && #[trigger] records[i].old_segments[k] == id,
    decreases records.len(),
{
    let rest = records.drop_last();
    let before = worker::due_ids(rest, now, grace);
    let all = worker::due_ids(records, now, grace);
    let p = choose|p: int| 0 <= p < all.len() && all[p] == id;
    if p < before.len() {
        assert(before[p] == id);
        assert(before.contains(id));
        lemma_due(rest, now, grace, id);
        let (i, k) = choose|i: int, k: int|
            0 <= i < rest.len() && 0 <= k < rest[i].old_segments.len()
                && #[trigger] rest[i].old_segments[k] == id;
        assert(records[i].old_segments[k] == id);
    } else {
        let last = records.len() - 1;
        assert(records[last].old_segments[p - before.len()] == id);
    }
}

/// The replacements that stay were there before.
proof fn lemma_not_due(
    records: Seq<ReplacementModel>,
    now: int,
    grace: int,
    j: int,
)
    requires
        0 <= j < worker::not_due(records, now, grace).len(),
    ensures
        exists|i: int|
            0 <= i < records.len() && #[trigger] records[i] == worker::not_due(
                records,
                now,
                grace,
            )[j],
    decreases records.len(),
{
    let rest = records.drop_last();
    let before = worker::not_due(rest, now, grace);
    if j < before.len() {
        lemma_not_due(rest, now, grace, j);
        let i = choose|i: int| 0 <= i < rest.len() && #[trigger] rest[i] == before[j];
        assert(records[i] == before[j]);
    } else {
        assert(records[records.len() - 1] == worker::not_due(records, now, grace)[j]);
    }
}

proof fn lemma_finalize(s: DatabaseModel, step: Step, t: DatabaseModel)
    requires
        s.in_order(),
        step is Finalize,
        leads_to(s, step, t),
    ensures
        t.in_order(),
        t.holdings() == s.holdings(),
{
    let now = step->Finalize_now as int;
    let grace = step->grace as int;
    let raw = s.manifest.raw_segments;
    let old_records = s.manifest.compacted_replacements;
    let due = worker::due_ids(old_records, now, grace);
    assert forall|i: int| 0 <= i < raw.len() implies !due.contains((#[trigger] raw[i]).segment_id) by {
        let id = raw[i].segment_id;
        if due.contains(id) {
            lemma_due(old_records, now, grace, id);
            let (x, k) = choose|x: int, k: int|
                0 <= x < old_records.len() && 0 <= k < old_records[x].old_segments.len()
                    && #[trigger] old_records[x].old_segments[k] == id;
            assert(!names_of(raw).contains(old_records[x].old_segments[k]));
            assert(names_of(raw)[i] == id);
        }
    }
    assert forall|i: int| 0 <= i < names_of(raw).len() implies s.files[#[trigger] names_of(raw)[i]]
        == t.files[names_of(raw)[i]] by {
        assert(names_of(raw)[i] == raw[i].segment_id);
        assert(s.files.dom().contains(raw[i].segment_id));
        assert(!due.contains(raw[i].segment_id));
    }
    lemma_rows_same(names_of(raw), s.files, t.files);
    assert(t.rows() == s.rows());
    lemma_log_stays(s, t);
    assert forall|i: int| 0 <= i < raw.len() implies t.files.dom().contains(
        (#[trigger] raw[i]).segment_id,
    ) by {
        assert(s.files.dom().contains(raw[i].segment_id));
    }
    let records = t.manifest.compacted_replacements;
    assert forall|i: int, k: int|
        0 <= i < records.len() && 0 <= k < records[i].old_segments.len() implies !names_of(
        raw,
    ).contains(#[trigger] records[i].old_segments[k]) by {
        lemma_not_due(old_records, now, grace, i);
        let x = choose|x: int| 0 <= x < old_records.len() && #[trigger] old_records[x] == records[i];
        assert(!names_of(raw).contains(old_records[x].old_segments[k]));
    }
}

// ---------------------------------------------------------------------------
// Starting again
// ---------------------------------------------------------------------------

proof fn lemma_all_recent(metas: Seq<MetaModel>, now: int)
    requires
        forall|i: int| 0 <= i < metas.len() ==> replay::is_recent(#[trigger] metas[i], now),
    ensures
        replay::recent_ids(metas, now) == names_of(metas),
    decreases metas.len(),
{
    if metas.len() > 0 {
        let rest = metas.drop_last();
        assert forall|i: int| 0 <= i < rest.len() implies replay::is_recent(
            #[trigger] rest[i],
            now,
        ) by {
            assert(rest[i] == metas[i]);
        }
        lemma_all_recent(rest, now);
        assert(replay::is_recent(metas[metas.len() - 1], now));
        assert(names_of(metas) =~= names_of(rest).push(metas.last().segment_id));
    } else {
        assert(names_of(metas) =~= Seq::empty());
    }
}

proof fn lemma_committed_append(
    m: KnownModel,
    a: Seq<(EventHash, EventHash)>,
    b: Seq<(EventHash, EventHash)>,
)
    ensures
        dedupe::all_committed(m, a + b) == dedupe::all_committed(
            dedupe::all_committed(m, a),
            b,
        ),
    decreases b.len(),
{
    if b.len() == 0 {
        assert(a + b =~= a);
    } else {
        lemma_committed_append(m, a, b.drop_last());
        assert((a + b).drop_last() =~= a + b.drop_last());
        assert((a + b).last() == b.last());
    }
}

proof fn lemma_known_of_files(
    m: KnownModel,
    ids: Seq<Seq<char>>,
    files: Map<Seq<char>, Seq<EventModel>>,
)
    ensures
        known_of_files(m, ids, files) == dedupe::all_committed(
            m,
            recovery::hashes_of(rows_of(ids, files)),
        ),
    decreases ids.len(),
{
    if ids.len() > 0 {
        let rest = rows_of(ids.drop_last(), files);
        let last = files[ids.last()];
        lemma_known_of_files(m, ids.drop_last(), files);
        lemma_committed_append(
            m,
            recovery::hashes_of(rest),
            recovery::hashes_of(last),
        );
        assert(recovery::hashes_of(rest + last) =~= recovery::hashes_of(rest)
            + recovery::hashes_of(last));
    }
}

proof fn lemma_greatest(ids: Seq<u64>, least: int)
    requires
        least <= u64::MAX,
    ensures
        least <= wal::greatest_id(ids, least) <= u64::MAX,
        forall|i: int| 0 <= i < ids.len() ==> #[trigger] ids[i] <= wal::greatest_id(ids, least),
    decreases ids.len(),
{
    if ids.len() > 0 {
        let rest = ids.drop_last();
        lemma_greatest(rest, least);
        assert forall|i: int| 0 <= i < ids.len() implies #[trigger] ids[i] <= wal::greatest_id(
            ids,
            least,
        ) by {
            if i < rest.len() {
                assert(rest[i] == ids[i]);
            }
        }
    }
}

/// Events without those that are known.
spec fn unknown_of(known: KnownModel, events: Seq<EventModel>) -> Seq<EventModel>
    decreases events.len(),
{
    if events.len() == 0 {
        Seq::empty()
    } else if known.payloads.dom().contains(recovery::id_of(events.last())) {
        unknown_of(known, events.drop_last())
    } else {
        unknown_of(known, events.drop_last()).push(events.last())
    }
}

proof fn lemma_unknown(known: KnownModel, events: Seq<EventModel>)
    requires
        ids_apart(events),
    ensures
        http_server::all_fresh(known, unknown_of(known, events)),
        unknown_of(known, events).len() <= events.len(),
        forall|e: EventModel| #[trigger]
            unknown_of(known, events).contains(e) <==> events.contains(e)
                && !known.payloads.dom().contains(recovery::id_of(e)),
    decreases events.len(),
{
    let out = unknown_of(known, events);
    if events.len() > 0 {
        let rest = events.drop_last();
        let last = events.last();
        let before = unknown_of(known, rest);
        assert(ids_apart(rest)) by {
            assert forall|i: int, j: int| 0 <= i < j < rest.len() implies recovery::id_of(
                #[trigger] rest[i],
            ) != recovery::id_of(#[trigger] rest[j]) by {
                assert(rest[i] == events[i] && rest[j] == events[j]);
            }
        }
        lemma_unknown(known, rest);
        assert(events[events.len() - 1] == last);
        assert forall|e: EventModel| #[trigger] out.contains(e) <==> events.contains(e)
            && !known.payloads.dom().contains(recovery::id_of(e)) by {
            if events.contains(e) {
                let i = choose|i: int| 0 <= i < events.len() && events[i] == e;
                if i < rest.len() {
                    assert(rest[i] == e);
                    assert(rest.contains(e));
                    if !known.payloads.dom().contains(recovery::id_of(e)) {
                        assert(before.contains(e));
                        let k = choose|k: int| 0 <= k < before.len() && before[k] == e;
                        assert(out[k] == e);
                    }
                } else if !known.payloads.dom().contains(recovery::id_of(e)) {
                    assert(out[out.len() - 1] == e);
                }
            }
            if out.contains(e) {
                let k = choose|k: int| 0 <= k < out.len() && out[k] == e;
                if k < before.len() {
                    assert(before[k] == e);
                    assert(before.contains(e));
                    let i = choose|i: int| 0 <= i < rest.len() && rest[i] == e;
                    assert(events[i] == e);
                }
            }
        }
        assert forall|i: int, j: int| 0 <= i < j < out.len() implies recovery::id_of(
            #[trigger] out[i],
        ) != recovery::id_of(#[trigger] out[j]) by {
            assert(out[i] == before[i]);
            if j < before.len() {
                assert(out[j] == before[j]);
            } else {
                assert(before.contains(before[i]));
                let x = choose|x: int| 0 <= x < rest.len() && rest[x] == before[i];
                assert(events[x] == before[i]);
                assert(out[j] == events[events.len() - 1]);
            }
        }
        assert forall|i: int| 0 <= i < out.len() implies !known.payloads.dom().contains(
            recovery::id_of(#[trigger] out[i]),
        ) by {
            assert(out.contains(out[i]));
        }
    }
}

/// A replay takes in what is not known.
proof fn lemma_replay_takes_the_unknown(known: KnownModel, events: Seq<EventModel>)
    requires
        ids_apart(events),
    ensures
        replay::replayed(known, events) == (
            dedupe::all_committed(
                known,
                recovery::hashes_of(unknown_of(known, events)),
            ),
            unknown_of(known, events),
        ),
    decreases events.len(),
{
    let out = unknown_of(known, events);
    if events.len() > 0 {
        let rest = events.drop_last();
        let e = events.last();
        let before = unknown_of(known, rest);
        assert(ids_apart(rest)) by {
            assert forall|i: int, j: int| 0 <= i < j < rest.len() implies recovery::id_of(
                #[trigger] rest[i],
            ) != recovery::id_of(#[trigger] rest[j]) by {
                assert(rest[i] == events[i] && rest[j] == events[j]);
            }
        }
        lemma_replay_takes_the_unknown(known, rest);
        lemma_unknown(known, rest);
        lemma_learned(known, before);
        let so_far = dedupe::all_committed(known, recovery::hashes_of(before));
        let id = recovery::id_of(e);
        assert(events[events.len() - 1] == e);
        assert(so_far.payloads.dom().contains(id) <==> known.payloads.dom().contains(id)) by {
            if so_far.payloads.dom().contains(id) && !known.payloads.dom().contains(id) {
                let i = choose|i: int|
                    0 <= i < before.len() && recovery::id_of(#[trigger] before[i]) == id;
                assert(before.contains(before[i]));
                let x = choose|x: int| 0 <= x < rest.len() && rest[x] == before[i];
                assert(events[x] == before[i]);
            }
        }
        if !known.payloads.dom().contains(id) {
            let hashes = recovery::hashes_of(before.push(e));
            assert(hashes.drop_last() =~= recovery::hashes_of(before));
            assert(hashes.last() == (id, recovery::payload_of(e)));
        }
    } else {
        assert(recovery::hashes_of(out) =~= Seq::empty());
    }
}

proof fn lemma_restart(s: DatabaseModel, step: Step, t: DatabaseModel)
    requires
        s.in_order(),
        step is Restart,
        leads_to(s, step, t),
    ensures
        t.in_order(),
        t.holdings() == s.holdings(),
{
    let now = step->Restart_now as int;
    let existing = step->existing;
    let raw = s.manifest.raw_segments;
    let names = names_of(raw);
    let rows = s.rows();
    let sealed = s.manifest.last_sealed_wal_id;
    let input = logged(s.log, sealed);
    let known = known_of_files(nothing_known(), replay::recent_ids(raw, now), s.files);
    lemma_all_recent(raw, now);
    lemma_known_of_files(nothing_known(), names, s.files);
    rows.to_multiset_ensures();
    lemma_apart(rows, s.holdings());
    assert(http_server::all_fresh(nothing_known(), rows));
    lemma_learned(nothing_known(), rows);
    // What the log gives.
    lemma_log_behind(s.log, sealed);
    lemma_log_ids(s.log, sealed);
    let behind = log_behind(s.log, sealed);
    assert(ids_apart(input)) by {
        assert forall|i: int, j: int| 0 <= i < j < input.len() implies recovery::id_of(
            #[trigger] input[i],
        ) != recovery::id_of(#[trigger] input[j]) by {
            assert(input[i] == behind[i].1 && input[j] == behind[j].1);
        }
    }
    lemma_replay_takes_the_unknown(known, input);
    lemma_unknown(known, input);
    let taken = unknown_of(known, input);
    assert(t.memtable == taken);
    lemma_learned(known, taken);
    lemma_restart_gives_back(s, known, taken);
    assert(t.rows() == rows);
    let none = Seq::<EventModel>::empty();
    none.to_multiset_ensures();
    assert(waiting(t.drained).to_multiset() =~= Multiset::empty()) by {
        assert(waiting(t.drained) =~= none);
        assert(none.to_multiset() =~= Multiset::empty());
    }
    assert(t.unwritten() =~= taken.to_multiset());
    assert(t.holdings() =~= s.holdings());
    taken.to_multiset_ensures();
    assert forall|e: EventModel| t.holdings().count(e) > 0 implies t.known.payloads.dom().contains(
        #[trigger] recovery::id_of(e),
    ) by {
        if rows.to_multiset().count(e) > 0 {
            assert(rows.contains(e));
            let i = choose|i: int| 0 <= i < rows.len() && rows[i] == e;
            assert(recovery::id_of(rows[i]) == recovery::id_of(e));
            assert(known.payloads.dom().contains(recovery::id_of(e)));
        } else {
            assert(taken.to_multiset().count(e) > 0);
            assert(taken.contains(e));
            let i = choose|i: int| 0 <= i < taken.len() && taken[i] == e;
            assert(recovery::id_of(taken[i]) == recovery::id_of(e));
        }
    }
    lemma_greatest(existing, sealed + 1);
    assert forall|e: EventModel| #[trigger] t.memtable.contains(e) implies t.outlives(e, 0) by {
        assert(input.contains(e));
        let i = choose|i: int| 0 <= i < input.len() && input[i] == e;
        assert(s.log.contains(behind[i]));
        let k = choose|k: int| 0 <= k < s.log.len() && s.log[k] == behind[i];
        assert(s.log[k].1 == e && s.log[k].0 > sealed);
    }
    assert forall|k: int| 0 <= k < t.log.len() implies (#[trigger] t.log[k]).0 <= t.active by {
        assert(existing.contains(s.log[k].0));
        let i = choose|i: int| 0 <= i < existing.len() && existing[i] == s.log[k].0;
        assert(existing[i] <= wal::greatest_id(existing, sealed + 1));
    }
}

/// The replay takes in what was not in segments.
proof fn lemma_restart_gives_back(s: DatabaseModel, known: KnownModel, taken: Seq<EventModel>)
    requires
        s.in_order(),
        forall|id: EventHash| #[trigger]
            known.payloads.dom().contains(id) <==> exists|i: int|
                0 <= i < s.rows().len() && recovery::id_of(#[trigger] s.rows()[i]) == id,
        ids_apart(taken),
        forall|e: EventModel| #[trigger]
            taken.contains(e) <==> logged(s.log, s.manifest.last_sealed_wal_id).contains(e)
                && !known.payloads.dom().contains(recovery::id_of(e)),
    ensures
        taken.to_multiset() == s.unwritten(),
{
    let sealed = s.manifest.last_sealed_wal_id;
    let input = logged(s.log, sealed);
    let behind = log_behind(s.log, sealed);
    let rows = s.rows();
    let wait = waiting(s.drained);
    lemma_log_behind(s.log, sealed);
    lemma_log_ids(s.log, sealed);
    rows.to_multiset_ensures();
    taken.to_multiset_ensures();
    wait.to_multiset_ensures();
    s.memtable.to_multiset_ensures();
    lemma_once(taken);
    assert forall|e: EventModel| taken.to_multiset().count(e) == #[trigger] s.unwritten().count(
        e,
    ) by {
        assert(taken.to_multiset().count(e) <= 1);
        assert(s.holdings().count(e) <= 1);
        assert(s.holdings().count(e) == rows.to_multiset().count(e) + s.unwritten().count(e));
        if s.unwritten().count(e) > 0 {
            // It is in the log, and no row has its id.
            assert(in_log(s.log, e, sealed)) by {
                if s.memtable.to_multiset().count(e) > 0 {
                    assert(s.memtable.contains(e));
                } else {
                    assert(wait.contains(e));
                    let j = lemma_waiting_member(s.drained, e);
                    assert(s.drained[j].events.contains(e));
                }
            }
            let k = choose|k: int|
                0 <= k < s.log.len() && (#[trigger] s.log[k]).1 == e && s.log[k].0 > sealed;
            assert(behind.contains(s.log[k]));
            let i = choose|i: int| 0 <= i < behind.len() && behind[i] == s.log[k];
            assert(input[i] == e);
            assert(input.contains(e));
            if known.payloads.dom().contains(recovery::id_of(e)) {
                let r = choose|r: int|
                    0 <= r < rows.len() && recovery::id_of(#[trigger] rows[r]) == recovery::id_of(e);
                assert(rows.contains(rows[r]));
                assert(rows.to_multiset().count(rows[r]) > 0);
                assert(s.holdings().count(rows[r]) > 0 && s.holdings().count(e) > 0);
                assert(rows[r] == e);
            }
            assert(taken.contains(e));
        }
        if taken.to_multiset().count(e) > 0 {
            assert(taken.contains(e));
            assert(input.contains(e));
            let i = choose|i: int| 0 <= i < input.len() && input[i] == e;
            assert(behind[i].1 == e);
            assert(s.log.contains(behind[i]));
            let k = choose|k: int| 0 <= k < s.log.len() && s.log[k] == behind[i];
            assert(s.log[k].0 > sealed);
            assert(s.holdings().count(e) > 0);
            if rows.to_multiset().count(e) > 0 {
                assert(rows.contains(e));
                let r = choose|r: int| 0 <= r < rows.len() && rows[r] == e;
                assert(recovery::id_of(rows[r]) == recovery::id_of(e));
            }
        }
    }
    assert(taken.to_multiset() =~= s.unwritten());
}

/// What waits was drained at some time.
proof fn lemma_waiting_member(drained: Seq<DrainedModel>, e: EventModel) -> (j: int)
    requires
        waiting(drained).contains(e),
    ensures
        0 <= j < drained.len(),
        drained[j].events.contains(e),
    decreases drained.len(),
{
    let all = waiting(drained);
    let first = drained[0].events;
    let rest = waiting(drained.drop_first());
    let i = choose|i: int| 0 <= i < all.len() && all[i] == e;
    if i < first.len() {
        assert(first[i] == e);
        0
    } else {
        assert(rest[i - first.len()] == e);
        assert(rest.contains(e));
        let j = lemma_waiting_member(drained.drop_first(), e);
        assert(drained.drop_first()[j] == drained[j + 1]);
        j + 1
    }
}

// ---------------------------------------------------------------------------
// Laws
// ---------------------------------------------------------------------------

/// No step loses an event or has one counted twice: afterwards there is what was
/// there before and what the step has taken in, the log can give back what is not
/// in segments yet, and every event is known, so that it would be found out if it
/// came again.
pub proof fn law_a_step_keeps_the_books(s: DatabaseModel, step: Step, t: DatabaseModel)
    requires
        s.in_order(),
        leads_to(s, step, t),
    ensures
        t.in_order(),
        t.holdings() == s.holdings().add(taken_in(s, step).to_multiset()),
{
    let none = Seq::<EventModel>::empty();
    none.to_multiset_ensures();
    assert(none.to_multiset() =~= Multiset::empty());
    assert(s.holdings().add(none.to_multiset()) =~= s.holdings());
    match step {
        Step::Ingest { .. } => lemma_ingest(s, step, t),
        Step::Drain => lemma_drain(s, step, t),
        Step::Flush { .. } => lemma_flush(s, step, t),
        Step::FlushFails { .. } => lemma_flush_fails(s, step, t),
        Step::TrimLog => lemma_trim(s, step, t),
        Step::Compact { .. } => lemma_compact(s, step, t),
        Step::Finalize { .. } => lemma_finalize(s, step, t),
        Step::Restart { .. } => lemma_restart(s, step, t),
        Step::Aside { .. } => {
            assert(t.rows() == s.rows());
            lemma_log_stays(s, t);
        },
    }
}

/// A new database holds nothing and is in order.
pub proof fn law_new_database_is_in_order(s: DatabaseModel)
    requires
        s.manifest.raw_segments.len() == 0,
        s.manifest.compacted_replacements.len() == 0,
        s.memtable.len() == 0,
        s.drained.len() == 0,
        s.log.len() == 0,
        s.manifest.last_sealed_wal_id < s.active,
        s.known == nothing_known(),
    ensures
        s.in_order(),
        s.holdings() == Multiset::<EventModel>::empty(),
{
    s.rows().to_multiset_ensures();
    s.memtable.to_multiset_ensures();
    waiting(s.drained).to_multiset_ensures();
    assert(s.holdings() =~= Multiset::empty());
}

/// Steps lead from state to state.
pub open spec fn is_history(states: Seq<DatabaseModel>, steps: Seq<Step>) -> bool {
    &&& states.len() == steps.len() + 1
    &&& forall|i: int|
        0 <= i < steps.len() ==> leads_to(#[trigger] states[i], steps[i], states[i + 1])
}

/// All that has been taken in, in its order.
pub open spec fn all_taken_in(states: Seq<DatabaseModel>, steps: Seq<Step>) -> Seq<EventModel>
    decreases steps.len(),
{
    if steps.len() == 0 {
        Seq::empty()
    } else {
        all_taken_in(states.drop_last(), steps.drop_last()) + taken_in(
            states[steps.len() - 1],
            steps.last(),
        )
    }
}

/// Whatever happens to a new database, in whatever order, it holds what it has
/// taken in, each event once.
pub proof fn law_history_keeps_the_books(states: Seq<DatabaseModel>, steps: Seq<Step>)
    requires
        is_history(states, steps),
        states[0].in_order(),
        states[0].holdings() == Multiset::<EventModel>::empty(),
    ensures
        states.last().in_order(),
        states.last().holdings() == all_taken_in(states, steps).to_multiset(),
        each_once(all_taken_in(states, steps).to_multiset()),
    decreases steps.len(),
{
    let all = all_taken_in(states, steps);
    if steps.len() == 0 {
        all.to_multiset_ensures();
        assert(all.to_multiset() =~= Multiset::empty());
    } else {
        let states0 = states.drop_last();
        let steps0 = steps.drop_last();
        assert forall|i: int| 0 <= i < steps0.len() implies leads_to(
            #[trigger] states0[i],
            steps0[i],
            states0[i + 1],
        ) by {
            assert(leads_to(states[i], steps[i], states[i + 1]));
        }
        law_history_keeps_the_books(states0, steps0);
        let n = steps.len() - 1;
        assert(states0.last() == states[n]);
        assert(leads_to(states[n], steps[n], states[n + 1]));
        law_a_step_keeps_the_books(states[n], steps[n], states[n + 1]);
        vstd::seq_lib::lemma_multiset_commutative(
            all_taken_in(states0, steps0),
            taken_in(states[n], steps[n]),
        );
    }
}

/// A query that adds up gets from a database what it would get from the list of all
/// that was taken in, whatever has happened in between. `read` are the events as
/// they are found, in any order; nothing is on its way from the memtable to
/// segments, where no query finds it. (The quantities must fit: their sum without signs
/// is at most the greatest quantity.)
pub proof fn law_answers_are_those_of_the_history(
    states: Seq<DatabaseModel>,
    steps: Seq<Step>,
    p: PlanModel,
    read: Seq<EventModel>,
)
    requires
        is_history(states, steps),
        states[0].in_order(),
        states[0].holdings() == Multiset::<EventModel>::empty(),
        states.last().drained.len() == 0,
        read.to_multiset() == (states.last().rows() + states.last().memtable).to_multiset(),
        !executor::wants_events(p),
        reconcile::turnover(read) <= i128::MAX,
        read.len() <= u64::MAX,
    ensures
        executor::answer(p, Seq::empty(), read) == executor::answer(
            p,
            Seq::empty(),
            all_taken_in(states, steps),
        ),
{
    law_history_keeps_the_books(states, steps);
    let s = states.last();
    vstd::seq_lib::lemma_multiset_commutative(s.rows(), s.memtable);
    waiting(s.drained).to_multiset_ensures();
    assert(read.to_multiset() =~= s.holdings());
    order::law_order_does_not_matter(p, read, all_taken_in(states, steps));
}

/// Rolling hours up, rewinding them, closing a month, opening it again and saving
/// the manifest leave the raw segments alone.
pub proof fn law_rollups_and_months_stand_aside(
    s: DatabaseModel,
    metas: Seq<MetaModel>,
    from: int,
    to: i64,
    entry: ClosedModel,
    periods: Seq<ClosedModel>,
)
    ensures
        forall|m: ManifestModel|
            m == rollup_worker::rolled_manifest(s.manifest, metas, to) || m
                == rollup_worker::rewound_manifest(s.manifest, from, to as int) || m
                == period::closed_manifest(s.manifest, entry) || m == (ManifestModel {
                closed_periods: periods,
                ..s.manifest
            }) || m == generations::saved_manifest(s.manifest) ==> #[trigger] leads_to(
                s,
                Step::Aside { manifest: m },
                DatabaseModel { manifest: m, ..s },
            ),
{
}

} // verus!
