//! The saved states of the manifest. Each save writes a further file and then
//! points to it, so that a torn one leaves the one before it in place.

use vstd::prelude::*;

use crate::lists;
use crate::lists::trim_text;
use crate::names;
use crate::names::{number_in_name, numbered_name};
use crate::storage::manifest::{Manifest, ManifestModel};
use crate::text;
use crate::text::{decimal_of, join2, parse_int};

verus! {

/// How many saved states are kept.
pub const KEPT_GENERATIONS: u64 = 10;

/// The name of the file of a saved state.
pub open spec fn generation_name(generation: int) -> Seq<char> {
    names::numbered("manifest-"@, generation, ".json"@)
}

/// The name of the file of a saved state.
pub fn generation_file_name(generation: u64) -> (r: String)
    ensures
        r@ == generation_name(generation as int),
{
    numbered_name("manifest-", generation, ".json")
}

/// The saved state that a file holds, by its name.
pub fn generation_of_file(name: &str) -> (r: Option<u64>)
    ensures
        r == names::number_in(name@, "manifest-"@, ".json"@),
{
    number_in_name(name, "manifest-", ".json")
}

/// What the pointer's file says of the saved state `generation`.
pub fn pointer_text(generation: u64) -> (r: String)
    ensures
        r@ == text::decimal(generation as int) + "\n"@,
{
    let digits = decimal_of(generation as u128);
    join2(digits.as_str(), "\n")
}

/// The saved state that the pointer's file gives.
pub open spec fn pointed_to(contents: Seq<char>) -> Option<u64> {
    match text::int_value(lists::trimmed(contents), 0, u64::MAX as int) {
        Ok(v) => Some(v as u64),
        Err(_) => None,
    }
}

/// The saved state that the pointer's file gives.
pub fn read_pointer(contents: &str) -> (r: Option<u64>)
    ensures
        r == pointed_to(contents@),
{
    let t = trim_text(contents);
    proof {
        names::lemma_value_range(t@);
    }
    match parse_int(t.as_str(), 0, u64::MAX as i128) {
        Ok(v) => Some(v as u64),
        Err(_) => None,
    }
}

/// The pointer gives the state that it was written for.
pub proof fn law_pointer_round_trip(generation: u64)
    ensures
        pointed_to(text::decimal(generation as int) + "\n"@) == Some(generation),
{
    reveal_strlit("\n");
    let digits = text::decimal(generation as int);
    let contents = digits + "\n"@;
    text::law_decimal_round_trip(generation as int, 0, u64::MAX as int);
    lemma_decimal_has_no_space(generation as int);
    assert(contents[0] == digits[0]);
    assert(lists::trimmed_front(contents) == contents);
    assert(contents.last() == '\n');
    assert(contents.drop_last() =~= digits);
    reveal_with_fuel(lists::trimmed_back, 2);
    assert(lists::trimmed_back(contents) == digits);
}

proof fn lemma_decimal_has_no_space(n: int)
    requires
        0 <= n,
    ensures
        text::decimal(n).len() > 0,
        !lists::is_space(text::decimal(n)[0]),
        !lists::is_space(text::decimal(n).last()),
    decreases n,
{
    if n >= 10 {
        lemma_decimal_has_no_space(n / 10);
    }
}

/// A state as it is saved: with the next number.
pub open spec fn saved_manifest(m: ManifestModel) -> ManifestModel {
    ManifestModel { current_generation: (m.current_generation + 1) as u64, ..m }
}

impl Manifest {
    /// The state as it is to be saved: with the next number.
    pub fn to_save(&self) -> (r: Manifest)
        requires
            self.current_generation < u64::MAX,
        ensures
            r@ == saved_manifest(self@),
    {
        let mut next = self.clone();
        next.current_generation = self.current_generation + 1;
        assert(next@ =~= saved_manifest(self@));
        next
    }
}

/// The saved states that are too old to keep once `current` has been saved, in
/// their order.
pub open spec fn outdated(existing: Seq<u64>, current: int) -> Seq<u64>
    decreases existing.len(),
{
    if existing.len() == 0 {
        Seq::empty()
    } else if existing.last() + KEPT_GENERATIONS <= current {
        outdated(existing.drop_last(), current).push(existing.last())
    } else {
        outdated(existing.drop_last(), current)
    }
}

/// The saved states that are too old to keep once `current` has been saved.
pub fn generations_to_prune(existing: &Vec<u64>, current: u64) -> (r: Vec<u64>)
    ensures
        r@ == outdated(existing@, current as int),
{
    let mut out: Vec<u64> = Vec::new();
    for i in 0..existing.len()
        invariant
            out@ == outdated(existing@.take(i as int), current as int),
    {
        assert(existing@.take(i + 1).drop_last() =~= existing@.take(i as int));
        if current >= KEPT_GENERATIONS && existing[i] <= current - KEPT_GENERATIONS {
            out.push(existing[i]);
        }
    }
    assert(existing@.take(existing@.len() as int) =~= existing@);
    out
}

/// Pruning keeps the states that there may have to be recourse to: the saved one
/// and the nine before it.
pub proof fn law_recent_generations_stay(existing: Seq<u64>, current: int, generation: u64)
    requires
        current - KEPT_GENERATIONS < generation,
    ensures
        !outdated(existing, current).contains(generation),
    decreases existing.len(),
{
    if existing.len() > 0 {
        law_recent_generations_stay(existing.drop_last(), current, generation);
        let before = outdated(existing.drop_last(), current);
        let all = outdated(existing, current);
        assert forall|i: int| 0 <= i < all.len() implies all[i] != generation by {
            if i < before.len() {
                assert(before.contains(before[i]));
                assert(all[i] == before[i]);
            }
        }
    }
}

// ---------------------------------------------------------------------------
// Loading
// ---------------------------------------------------------------------------

/// From where a manifest is to be loaded.
#[derive(Debug, PartialEq, Eq)]
pub enum LoadPlan {
    /// There is none yet.
    Fresh,
    /// From the single file of an old database, which is then saved anew as the
    /// first state.
    Legacy,
    /// From the first of these saved states that can be read. Where none can, the
    /// database must not be opened.
    Generations(Vec<u64>),
}

/// A saved state counts: the pointer has not been moved back before it.
pub open spec fn is_candidate(generation: u64, pointer: Option<u64>) -> bool {
    pointer matches Some(p) ==> generation <= p
}

/// The states that are to be tried: those that count, the newest first.
pub open spec fn are_candidates(tried: Seq<u64>, existing: Seq<u64>, pointer: Option<u64>) -> bool {
    &&& forall|i: int, j: int| 0 <= i < j < tried.len() ==> #[trigger] tried[i] > #[trigger] tried[j]
    &&& forall|g: u64| #[trigger]
        tried.contains(g) <==> (existing.contains(g) && is_candidate(g, pointer))
}

/// Puts a state into a descending list, where it is not there yet.
fn insert_descending(v: &mut Vec<u64>, g: u64)
    requires
        forall|i: int, j: int|
            0 <= i < j < old(v)@.len() ==> #[trigger] old(v)@[i] > #[trigger] old(v)@[j],
    ensures
        forall|i: int, j: int|
            0 <= i < j < final(v)@.len() ==> #[trigger] final(v)@[i] > #[trigger] final(v)@[j],
        forall|x: u64| #[trigger] final(v)@.contains(x) <==> old(v)@.contains(x) || x == g,
{
    let ghost before = v@;
    let mut p: usize = 0;
    while p < v.len() && v[p] > g
        invariant
            v@ == before,
            p <= v@.len(),
            forall|j: int| 0 <= j < p ==> #[trigger] before[j] > g,
            forall|i: int, j: int| 0 <= i < j < before.len() ==> #[trigger] before[i] > #[trigger] before[j],
        decreases v.len() - p,
    {
        p = p + 1;
    }
    if p < v.len() && v[p] == g {
        assert(before[p as int] == g);
        return ;
    }
    v.insert(p, g);
    proof {
        let after = before.insert(p as int, g);
        assert(v@ =~= after);
        assert forall|x: u64| #[trigger] after.contains(x) <==> before.contains(x) || x == g by {
            if after.contains(x) && x != g {
                let i = choose|i: int| 0 <= i < after.len() && after[i] == x;
                if i < p {
                    assert(before[i] == x);
                } else {
                    assert(before[i - 1] == x);
                }
            }
            if before.contains(x) {
                let i = choose|i: int| 0 <= i < before.len() && before[i] == x;
                if i < p {
                    assert(after[i] == x);
                } else {
                    assert(after[i + 1] == x);
                }
            }
            if x == g {
                assert(after[p as int] == g);
            }
        }
        assert forall|i: int, j: int| 0 <= i < j < after.len() implies #[trigger] after[i]
            > #[trigger] after[j] by {
            let bi = if i < p {
                i
            } else {
                i - 1
            };
            let bj = if j < p {
                j
            } else {
                j - 1
            };
            if i != p && j != p {
                assert(before[bi] > before[bj]);
            } else if i == p {
                assert(after[j] == before[j - 1]);
                assert(before[p as int] < g);
                if j - 1 > p {
                    assert(before[p as int] > before[j - 1]);
                }
            } else {
                assert(after[i] == before[i]);
            }
        }
    }
}

/// The states that are to be tried, the newest first.
pub fn generations_to_try(existing: &Vec<u64>, pointer: Option<u64>) -> (r: Vec<u64>)
    ensures
        are_candidates(r@, existing@, pointer),
{
    let mut out: Vec<u64> = Vec::new();
    for i in 0..existing.len()
        invariant
            are_candidates(out@, existing@.take(i as int), pointer),
    {
        let g: u64 = existing[i];
        let ghost part = existing@.take(i as int);
        let ghost next = existing@.take(i + 1);
        let ghost before = out@;
        let counts = match pointer {
            Some(p) => g <= p,
            None => true,
        };
        if counts {
            insert_descending(&mut out, g);
        }
        proof {
            assert(next =~= part.push(g));
            assert forall|x: u64| #[trigger]
                out@.contains(x) <==> (next.contains(x) && is_candidate(x, pointer)) by {
                assert(before.contains(x) <==> (part.contains(x) && is_candidate(x, pointer)));
                if part.contains(x) {
                    let k = choose|k: int| 0 <= k < part.len() && part[k] == x;
                    assert(next[k] == x);
                }
                if next.contains(x) && x != g {
                    let k = choose|k: int| 0 <= k < next.len() && next[k] == x;
                    assert(part[k] == x);
                }
                assert(next[i as int] == g);
            }
        }
    }
    assert(existing@.take(existing@.len() as int) =~= existing@);
    out
}

/// Says from where to load a manifest: `existing` are the saved states that there
/// are files of, and `pointer` is the one that the pointer gives.
pub fn plan_load(existing: &Vec<u64>, pointer: Option<u64>, legacy_exists: bool) -> (r: LoadPlan)
    ensures
        match r {
            LoadPlan::Fresh => pointer is None && existing@.len() == 0 && !legacy_exists,
            LoadPlan::Legacy => pointer is None && existing@.len() == 0 && legacy_exists,
            LoadPlan::Generations(tried) => (pointer is Some || existing@.len() > 0)
                && are_candidates(tried@, existing@, pointer),
        },
{
    if pointer.is_some() || existing.len() > 0 {
        LoadPlan::Generations(generations_to_try(existing, pointer))
    } else if legacy_exists {
        LoadPlan::Legacy
    } else {
        LoadPlan::Fresh
    }
}

/// Of the states to try, the first that can be read is the newest one that can:
/// no state that counts and can be read is newer.
pub proof fn law_newest_readable_state_is_found(
    tried: Seq<u64>,
    existing: Seq<u64>,
    pointer: Option<u64>,
    readable: Set<u64>,
    i: int,
    other: u64,
)
    requires
        are_candidates(tried, existing, pointer),
        0 <= i < tried.len(),
        forall|j: int| 0 <= j < i ==> !readable.contains(#[trigger] tried[j]),
        readable.contains(tried[i]),
        existing.contains(other),
        is_candidate(other, pointer),
        readable.contains(other),
    ensures
        other <= tried[i],
{
    assert(tried.contains(other));
    let k = choose|k: int| 0 <= k < tried.len() && tried[k] == other;
    if k > i {
        assert(tried[i] > tried[k]);
    }
}

/// Saving gives the next number and keeps everything else.
pub proof fn law_saving(m: ManifestModel)
    requires
        m.current_generation < u64::MAX,
    ensures
        saved_manifest(m).current_generation == m.current_generation + 1,
        saved_manifest(m) == (ManifestModel {
            current_generation: (m.current_generation + 1) as u64,
            ..m
        }),
        saved_manifest(m).raw_segments == m.raw_segments,
        saved_manifest(m).closed_periods == m.closed_periods,
{
}

/// The states that go are exactly those that are ten or more saves old.
pub proof fn law_outdated_states(existing: Seq<u64>, current: int)
    ensures
        outdated(existing, current) == existing.filter(|g: u64| current - g >= 10),
    decreases existing.len(),
{
    reveal(Seq::filter);
    let old_one = |g: u64| current - g >= 10;
    if existing.len() > 0 {
        law_outdated_states(existing.drop_last(), current);
    } else {
        assert(outdated(existing, current) =~= existing.filter(old_one));
    }
}

/// A saved state counts unless the pointer gives an earlier one.
pub proof fn law_candidates(generation: u64, pointer: u64)
    ensures
        is_candidate(generation, Some(pointer)) <==> generation <= pointer,
        is_candidate(generation, None),
{
}

/// A saved state is named by its number, in at least six digits, and no two have one
/// name.
pub proof fn law_names_of_states(a: u64, b: u64)
    ensures
        generation_name(a as int) == "manifest-"@ + text::padded_decimal(a as int) + ".json"@,
        names::number_in(generation_name(a as int), "manifest-"@, ".json"@) == Some(a),
        generation_name(a as int) == generation_name(b as int) ==> a == b,
{
    names::law_name_round_trip("manifest-"@, a, ".json"@);
    names::law_name_round_trip("manifest-"@, b, ".json"@);
}

} // verus!
