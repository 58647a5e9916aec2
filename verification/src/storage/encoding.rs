//! Column encodings: dictionaries, deltas, zigzag numbers, variable-length
//! numbers and runs.

use vstd::prelude::*;

use crate::model::event::EventKind;
use crate::text;
use crate::textmap;
use crate::textmap::TextMap;

verus! {

// ---------------------------------------------------------------------------
// Dictionaries
// ---------------------------------------------------------------------------

/// Gives each text a number, in the order of their first appearance.
#[derive(Debug)]
pub struct DictionaryEncoder {
    dict: TextMap<u32>,
    reverse_dict: Vec<String>,
}

impl View for DictionaryEncoder {
    type V = Seq<Seq<char>>;

    closed spec fn view(&self) -> Seq<Seq<char>> {
        text::text_views(self.reverse_dict@)
    }
}

/// A dictionary after it has met `value`.
pub open spec fn with_text(dict: Seq<Seq<char>>, value: Seq<char>) -> Seq<Seq<char>> {
    if dict.contains(value) {
        dict
    } else {
        dict.push(value)
    }
}

/// No text occurs twice.
pub open spec fn texts_distinct(dict: Seq<Seq<char>>) -> bool {
    forall|i: int, j: int| 0 <= i < j < dict.len() ==> #[trigger] dict[i] != #[trigger] dict[j]
}

impl DictionaryEncoder {
    /// The map leads each text of the list to its place, and no other text.
    pub closed spec fn wf(self) -> bool {
        &&& self@.len() <= u32::MAX + 1
        &&& texts_distinct(self@)
        &&& forall|i: int|
            0 <= i < self@.len() ==> textmap::lookup(self.dict@, #[trigger] self@[i]) == Some(
                i as u32,
            )
        &&& forall|k: Seq<char>|
            #[trigger] textmap::lookup(self.dict@, k) is Some ==> self@.contains(k)
    }

    /// An empty dictionary.
    pub fn new() -> (r: Self)
        ensures
            r.wf(),
            r@ == Seq::<Seq<char>>::empty(),
    {
        let r = DictionaryEncoder { dict: TextMap::new(), reverse_dict: Vec::new() };
        assert(r@ =~= Seq::<Seq<char>>::empty());
        assert forall|k: Seq<char>| #[trigger] textmap::lookup(r.dict@, k) is Some implies false by {
            assert(!textmap::has_key(r.dict@, k));
        }
        r
    }

    /// The number of `value`, which gets the next one where it is new.
    pub fn encode(&mut self, value: &str) -> (r: u32)
        requires
            old(self).wf(),
            old(self)@.contains(value@) || old(self)@.len() <= u32::MAX,
        ensures
            final(self).wf(),
            final(self)@ == with_text(old(self)@, value@),
            texts_distinct(final(self)@),
            r < final(self)@.len(),
            final(self)@[r as int] == value@,
            !old(self)@.contains(value@) ==> r == old(self)@.len(),
    {
        let ghost before = self@;
        let found: Option<u32> = match self.dict.get(value) {
            Some(id) => Some(*id),
            None => None,
        };
        match found {
            Some(id) => {
                proof {
                    assert(textmap::lookup(self.dict@, value@) is Some);
                    let i = choose|i: int| 0 <= i < before.len() && before[i] == value@;
                    assert(textmap::lookup(self.dict@, before[i]) == Some(i as u32));
                }
                id
            },
            None => {
                let id: u32 = self.reverse_dict.len() as u32;
                let owned = value.to_owned();
                let other = value.to_owned();
                let _ = self.dict.insert(owned, id);
                self.reverse_dict.push(other);
                proof {
                    text::lemma_texts_push(old(self).reverse_dict@, other);
                    assert(self@ == before.push(value@));
                    if before.contains(value@) {
                        let i = choose|i: int| 0 <= i < before.len() && before[i] == value@;
                        assert(textmap::lookup(old(self).dict@, before[i]) == Some(i as u32));
                    }
                    assert forall|i: int| 0 <= i < self@.len() implies textmap::lookup(
                        self.dict@,
                        #[trigger] self@[i],
                    ) == Some(i as u32) by {
                        if i < before.len() {
                            assert(self@[i] == before[i]);
                            assert(before.contains(before[i]));
                        }
                    }
                    assert forall|k: Seq<char>|
                        #[trigger] textmap::lookup(self.dict@, k) is Some implies self@.contains(
                        k,
                    ) by {
                        if k == value@ {
                            assert(self@[before.len() as int] == k);
                        } else {
                            assert(before.contains(k));
                            let i = choose|i: int| 0 <= i < before.len() && before[i] == k;
                            assert(self@[i] == k);
                        }
                    }
                    assert forall|i: int, j: int| 0 <= i < j < self@.len() implies #[trigger] self@[i]
                        != #[trigger] self@[j] by {
                        if j < before.len() {
                            assert(before[i] != before[j]);
                        } else {
                            assert(before.contains(before[i]));
                        }
                    }
                }
                id
            },
        }
    }

    /// The texts, each at the place of its number.
    pub fn get_dictionary(&self) -> (r: &[String])
        ensures
            text::text_views(r@) == self@,
    {
        self.reverse_dict.as_slice()
    }
}

impl Default for DictionaryEncoder {
    fn default() -> (r: Self)
        ensures
            r.wf(),
            r@ == Seq::<Seq<char>>::empty(),
    {
        DictionaryEncoder::new()
    }
}

// ---------------------------------------------------------------------------
// Deltas
// ---------------------------------------------------------------------------

/// The signed 64-bit number that is `v` but for a multiple of 2^64.
pub open spec fn wrapped64(v: int) -> int {
    if v > i64::MAX {
        v - 0x1_0000_0000_0000_0000
    } else if v < i64::MIN {
        v + 0x1_0000_0000_0000_0000
    } else {
        v
    }
}

/// Each number less the one before it, the first one as it is.
pub open spec fn deltas_of(values: Seq<i64>) -> Seq<i64> {
    Seq::new(
        values.len(),
        |i: int|
            wrapped64(
                values[i] - if i == 0 {
                    0
                } else {
                    values[i - 1] as int
                },
            ) as i64,
    )
}

/// The running sums.
pub open spec fn sums_of(deltas: Seq<i64>) -> Seq<i64>
    decreases deltas.len(),
{
    if deltas.len() == 0 {
        Seq::empty()
    } else {
        let init = sums_of(deltas.drop_last());
        init.push(wrapped64(last_of(init) + deltas.last()) as i64)
    }
}

pub open spec fn last_of(values: Seq<i64>) -> int {
    if values.len() == 0 {
        0
    } else {
        values.last() as int
    }
}

pub proof fn lemma_sums_len(deltas: Seq<i64>)
    ensures
        sums_of(deltas).len() == deltas.len(),
    decreases deltas.len(),
{
    if deltas.len() > 0 {
        lemma_sums_len(deltas.drop_last());
    }
}

/// The differences between neighbours. A difference that does not fit wraps
/// around, so that every sequence of numbers can be had back.
pub fn encode_deltas(values: &[i64]) -> (r: Vec<i64>)
    ensures
        r@ == deltas_of(values@),
{
    let mut deltas: Vec<i64> = Vec::new();
    let mut last: i64 = 0;
    for i in 0..values.len()
        invariant
            deltas@.len() == i,
            last == if i == 0 {
                0
            } else {
                values@[i - 1] as int
            },
            forall|k: int| 0 <= k < i ==> deltas@[k] == #[trigger] deltas_of(values@)[k],
    {
        deltas.push(values[i].wrapping_sub(last));
        last = values[i];
    }
    assert(deltas@ =~= deltas_of(values@));
    deltas
}

/// The numbers whose differences are given.
pub fn decode_deltas(deltas: &[i64]) -> (r: Vec<i64>)
    ensures
        r@ == sums_of(deltas@),
{
    let mut values: Vec<i64> = Vec::new();
    let mut last: i64 = 0;
    for i in 0..deltas.len()
        invariant
            values@ == sums_of(deltas@.take(i as int)),
            last == last_of(values@),
    {
        assert(deltas@.take(i + 1).drop_last() =~= deltas@.take(i as int));
        let v: i64 = last.wrapping_add(deltas[i]);
        values.push(v);
        last = v;
    }
    assert(deltas@.take(deltas@.len() as int) =~= deltas@);
    values
}

/// Decoding deltas gives the encoded numbers back.
pub proof fn law_deltas_round_trip(values: Seq<i64>)
    ensures
        sums_of(deltas_of(values)) == values,
    decreases values.len(),
{
    if values.len() > 0 {
        let init = values.drop_last();
        law_deltas_round_trip(init);
        assert(deltas_of(values).drop_last() =~= deltas_of(init));
        assert(init.push(values.last()) =~= values);
    } else {
        assert(deltas_of(values) =~= Seq::empty());
        assert(values =~= Seq::empty());
    }
}

// ---------------------------------------------------------------------------
// Zigzag
// ---------------------------------------------------------------------------

/// The place of `n` in the order 0, -1, 1, -2, 2, ...
pub open spec fn zigzag(n: int) -> int {
    if n >= 0 {
        2 * n
    } else {
        -2 * n - 1
    }
}

/// The number at the place `n` of that order.
pub open spec fn unzigzag(n: int) -> int {
    if n % 2 == 0 {
        n / 2
    } else {
        -(n / 2) - 1
    }
}

/// Folds the negative numbers in between the others, so that numbers near zero
/// stay small.
pub fn zigzag_encode(n: i128) -> (r: u128)
    ensures
        r == zigzag(n as int),
{
    if n >= 0 {
        (n as u128) * 2
    } else {
        ((-(n + 1)) as u128) * 2 + 1
    }
}

/// The number that was folded into `n`.
pub fn zigzag_decode(n: u128) -> (r: i128)
    ensures
        r == unzigzag(n as int),
{
    let half: i128 = (n / 2) as i128;
    if n % 2 == 0 {
        half
    } else {
        -half - 1
    }
}

/// Folding and unfolding undo each other.
pub proof fn law_zigzag_round_trip(n: int)
    ensures
        unzigzag(zigzag(n)) == n,
        n >= 0 ==> zigzag(unzigzag(n)) == n,
{
}

// ---------------------------------------------------------------------------
// Variable-length numbers
// ---------------------------------------------------------------------------

/// Seven bits a byte, the lowest first; the high bit says that more follow.
pub open spec fn varint(n: nat) -> Seq<u8>
    decreases n,
{
    if n < 128 {
        seq![n as u8]
    } else {
        seq![(n % 128 + 128) as u8] + varint(n / 128)
    }
}

/// A quantity takes no more bytes than these.
pub const MAX_VARINT_BYTES: usize = 19;

pub open spec fn pow128(n: nat) -> int
    decreases n,
{
    if n == 0 {
        1
    } else {
        128 * pow128((n - 1) as nat)
    }
}

/// The number at the front of `s` and what follows it, where a whole number of
/// at most `limit` bytes stands there.
pub open spec fn split_varint(s: Seq<u8>, limit: nat) -> Option<(nat, Seq<u8>)>
    decreases limit,
{
    if s.len() == 0 || limit == 0 {
        None
    } else if s[0] < 128 {
        Some((s[0] as nat, s.drop_first()))
    } else {
        match split_varint(s.drop_first(), (limit - 1) as nat) {
            Some((high, rest)) => Some(((s[0] - 128) as nat + 128 * high, rest)),
            None => None,
        }
    }
}

proof fn lemma_split_varint(n: nat, rest: Seq<u8>, limit: nat)
    requires
        limit > 0,
        n < pow128(limit),
    ensures
        split_varint(varint(n) + rest, limit) == Some((n, rest)),
    decreases limit,
{
    let s = varint(n) + rest;
    if n < 128 {
        assert(s.drop_first() =~= rest);
    } else {
        assert(pow128(0) == 1);
        lemma_split_varint(n / 128, rest, (limit - 1) as nat);
        assert(s.drop_first() =~= varint(n / 128) + rest);
        assert(s[0] == (n % 128 + 128) as u8);
    }
}

proof fn lemma_pow128()
    ensures
        pow128(MAX_VARINT_BYTES as nat) > u128::MAX,
{
    reveal_with_fuel(pow128, 20);
}

proof fn lemma_split_shorter(s: Seq<u8>, limit: nat)
    ensures
        split_varint(s, limit) matches Some((_, rest)) ==> rest.len() < s.len(),
    decreases limit,
{
    if s.len() > 0 && limit > 0 && s[0] >= 128 {
        lemma_split_shorter(s.drop_first(), (limit - 1) as nat);
    }
}

/// Appends `n` with seven bits a byte.
pub fn push_varint(out: &mut Vec<u8>, n: u128)
    ensures
        final(out)@ == old(out)@ + varint(n as nat),
{
    let mut rest: u128 = n;
    let ghost start = out@;
    while rest >= 128
        invariant
            out@ + varint(rest as nat) == start + varint(n as nat),
        decreases rest,
    {
        let ghost before = out@;
        let ghost r = rest as nat;
        out.push((rest % 128 + 128) as u8);
        rest = rest / 128;
        proof {
            assert(varint(r) == seq![(r % 128 + 128) as u8] + varint(r / 128));
            assert(out@ + varint(rest as nat) =~= before + varint(r));
        }
    }
    let ghost before = out@;
    out.push(rest as u8);
    assert(out@ =~= before + varint(rest as nat));
}

/// The number at `at` and the place behind it, where a whole one of at most
/// `limit` bytes stands there that fits into 128 bits.
fn read_varint(data: &[u8], at: usize, limit: usize) -> (r: Option<(u128, usize)>)
    requires
        at <= data@.len(),
    ensures
        match r {
            Some((n, next)) => at < next <= data@.len() && split_varint(
                data@.subrange(at as int, data@.len() as int),
                limit as nat,
            ) == Some((n as nat, data@.subrange(next as int, data@.len() as int))),
            None => match split_varint(
                data@.subrange(at as int, data@.len() as int),
                limit as nat,
            ) {
                Some((n, _)) => n > u128::MAX,
                None => true,
            },
        },
    decreases limit,
{
    let ghost s = data@.subrange(at as int, data@.len() as int);
    if at >= data.len() || limit == 0 {
        return None;
    }
    let low: u8 = data[at];
    assert(s[0] == low);
    assert(s.drop_first() =~= data@.subrange(at + 1, data@.len() as int));
    if low < 128 {
        return Some((low as u128, at + 1));
    }
    match read_varint(data, at + 1, limit - 1) {
        None => None,
        Some((high, next)) => {
            if high > (u128::MAX - (low - 128) as u128) / 128 {
                assert((low - 128) as nat + 128 * high > u128::MAX);
                None
            } else {
                Some(((low - 128) as u128 + 128 * high, next))
            }
        },
    }
}

/// Quantities, folded, with seven bits a byte, one after the other.
pub open spec fn packed(values: Seq<i128>) -> Seq<u8>
    decreases values.len(),
{
    if values.len() == 0 {
        Seq::empty()
    } else {
        packed(values.drop_last()) + varint(zigzag(values.last() as int) as nat)
    }
}

/// The quantities that packed bytes give, where they are whole.
pub open spec fn unpacked(s: Seq<u8>) -> Option<Seq<i128>>
    decreases s.len(),
    when true
    via unpacked_shrinks
{
    if s.len() == 0 {
        Some(Seq::empty())
    } else {
        match split_varint(s, MAX_VARINT_BYTES as nat) {
            None => None,
            Some((n, rest)) => if n > u128::MAX {
                None
            } else {
                match unpacked(rest) {
                    None => None,
                    Some(values) => Some(seq![unzigzag(n as int) as i128] + values),
                }
            },
        }
    }
}

#[via_fn]
proof fn unpacked_shrinks(s: Seq<u8>) {
    lemma_split_shorter(s, MAX_VARINT_BYTES as nat);
}

/// Packs quantities.
pub fn pack_quantities(values: &[i128]) -> (r: Vec<u8>)
    ensures
        r@ == packed(values@),
{
    let mut out: Vec<u8> = Vec::new();
    for i in 0..values.len()
        invariant
            out@ == packed(values@.take(i as int)),
    {
        assert(values@.take(i + 1).drop_last() =~= values@.take(i as int));
        push_varint(&mut out, zigzag_encode(values[i]));
    }
    assert(values@.take(values@.len() as int) =~= values@);
    out
}

/// Unpacks quantities; `None` where the bytes are not whole.
pub fn unpack_quantities(data: &[u8]) -> (r: Option<Vec<i128>>)
    ensures
        match r {
            Some(v) => unpacked(data@) == Some(v@),
            None => unpacked(data@) is None,
        },
{
    let mut out: Vec<i128> = Vec::new();
    let mut at: usize = 0;
    assert(data@.subrange(0, data@.len() as int) =~= data@);
    while at < data.len()
        invariant
            at <= data@.len(),
            data.len() == data@.len(),
            unpacked(data@) == prepended(
                out@,
                unpacked(data@.subrange(at as int, data@.len() as int)),
            ),
        decreases data@.len() - at,
    {
        let ghost s = data@.subrange(at as int, data@.len() as int);
        match read_varint(data, at, MAX_VARINT_BYTES) {
            None => {
                return None;
            },
            Some((n, next)) => {
                let ghost before = out@;
                out.push(zigzag_decode(n));
                proof {
                    let rest = unpacked(data@.subrange(next as int, data@.len() as int));
                    if let Some(v) = rest {
                        assert(before + (seq![unzigzag(n as int) as i128] + v) =~= out@ + v);
                    }
                }
                at = next;
            },
        }
    }
    proof {
        assert(data@.subrange(at as int, data@.len() as int) =~= Seq::empty());
        assert(out@ + Seq::<i128>::empty() =~= out@);
    }
    Some(out)
}

spec fn prepended(done: Seq<i128>, rest: Option<Seq<i128>>) -> Option<Seq<i128>> {
    match rest {
        Some(v) => Some(done + v),
        None => None,
    }
}

/// Unpacking gives the packed quantities back.
pub proof fn law_packing_round_trip(values: Seq<i128>)
    ensures
        unpacked(packed(values)) == Some(values),
{
    lemma_unpack(values, Seq::empty());
    assert(packed(values) + Seq::<u8>::empty() =~= packed(values));
    assert(values + Seq::<i128>::empty() =~= values);
}

proof fn lemma_unpack(values: Seq<i128>, tail: Seq<u8>)
    ensures
        unpacked(packed(values) + tail) == prepended(values, unpacked(tail)),
    decreases values.len(),
{
    if values.len() == 0 {
        assert(packed(values) + tail =~= tail);
        if let Some(v) = unpacked(tail) {
            assert(values + v =~= v);
        }
    } else {
        let init = values.drop_last();
        let q = values.last();
        let n = zigzag(q as int) as nat;
        let more = varint(n) + tail;
        lemma_unpack(init, more);
        assert(packed(values) + tail =~= packed(init) + more);
        lemma_pow128();
        lemma_split_varint(n, tail, MAX_VARINT_BYTES as nat);
        if let Some(v) = unpacked(tail) {
            assert(init + (seq![q] + v) =~= values + v);
        }
    }
}

// ---------------------------------------------------------------------------
// Runs
// ---------------------------------------------------------------------------

/// The number of an event kind.
pub open spec fn kind_byte(kind: EventKind) -> u8 {
    match kind {
        EventKind::Usage => 0,
        EventKind::Correction => 1,
        EventKind::Retraction => 2,
    }
}

/// The event kind with that number.
pub open spec fn kind_of_byte(b: u8) -> Option<EventKind> {
    if b == 0 {
        Some(EventKind::Usage)
    } else if b == 1 {
        Some(EventKind::Correction)
    } else if b == 2 {
        Some(EventKind::Retraction)
    } else {
        None
    }
}

pub fn byte_of(kind: EventKind) -> (r: u8)
    ensures
        r == kind_byte(kind),
{
    match kind {
        EventKind::Usage => 0,
        EventKind::Correction => 1,
        EventKind::Retraction => 2,
    }
}

pub fn kind_from(b: u8) -> (r: Option<EventKind>)
    ensures
        r == kind_of_byte(b),
{
    match b {
        0 => Some(EventKind::Usage),
        1 => Some(EventKind::Correction),
        2 => Some(EventKind::Retraction),
        _ => None,
    }
}

/// Runs of equal kinds.
pub open spec fn expanded(runs: Seq<(EventKind, u32)>) -> Seq<EventKind>
    decreases runs.len(),
{
    if runs.len() == 0 {
        Seq::empty()
    } else {
        expanded(runs.drop_last()) + repeated(runs.last().0, runs.last().1 as nat)
    }
}

pub open spec fn repeated(kind: EventKind, n: nat) -> Seq<EventKind> {
    Seq::new(n, |i: int| kind)
}

/// Neighbouring runs are of different kinds, and none is empty.
pub open spec fn runs_maximal(runs: Seq<(EventKind, u32)>) -> bool {
    &&& forall|i: int| 0 <= i < runs.len() ==> (#[trigger] runs[i]).1 > 0
    &&& forall|i: int, j: int|
        0 <= i < runs.len() && j == i + 1 && j < runs.len() ==> (#[trigger] runs[i]).0 != (
        #[trigger] runs[j]).0
}

/// Kinds as runs: one more of the kind of the last run makes that run longer, and
/// one of another kind begins a new run.
pub open spec fn runs(kinds: Seq<EventKind>) -> Seq<(EventKind, u32)>
    decreases kinds.len(),
{
    if kinds.len() == 0 {
        Seq::empty()
    } else {
        let before = runs(kinds.drop_last());
        if before.len() > 0 && before.last().0 == kinds.last() {
            before.drop_last().push((kinds.last(), (before.last().1 + 1) as u32))
        } else {
            before.push((kinds.last(), 1))
        }
    }
}

/// The runs of equal kinds.
pub fn rle_encode(kinds: &[EventKind]) -> (r: Vec<(EventKind, u32)>)
    requires
        kinds@.len() <= u32::MAX,
    ensures
        r@ == runs(kinds@),
        expanded(r@) == kinds@,
        runs_maximal(r@),
{
    let mut out: Vec<(EventKind, u32)> = Vec::new();
    let mut current: EventKind = EventKind::Usage;
    let mut length: u32 = 0;
    for i in 0..kinds.len()
        invariant
            kinds@.len() <= u32::MAX,
            length <= i,
            runs(kinds@.take(i as int)) == if length == 0 {
                out@
            } else {
                out@.push((current, length))
            },
            length == 0 <==> i == 0,
            i == 0 ==> out@.len() == 0,
            expanded(out@) + repeated(current, length as nat) == kinds@.take(i as int),
            runs_maximal(out@),
            out@.len() > 0 ==> out@.last().0 != current,
    {
        let k = kinds[i];
        let ghost before = out@;
        let ghost upto = kinds@.take(i + 1);
        let ghost seen = runs(kinds@.take(i as int));
        assert(upto.drop_last() =~= kinds@.take(i as int));
        assert(upto.last() == k);
        let ghost head = expanded(before) + repeated(current, length as nat);
        assert(kinds@.take(i + 1) =~= head.push(k));
        if length > 0 && k == current {
            assert(seen.drop_last() =~= out@);
            length = length + 1;
            assert(expanded(out@) + repeated(current, length as nat) =~= head.push(k));
        } else {
            if length > 0 {
                out.push((current, length));
                proof {
                    assert(out@.drop_last() =~= before);
                    assert(expanded(out@) == head);
                    assert forall|a: int, b: int|
                        0 <= a < out@.len() && b == a + 1 && b < out@.len() implies (
                    #[trigger] out@[a]).0 != (#[trigger] out@[b]).0 by {
                        if b < before.len() {
                            assert(before[a].0 != before[b].0);
                        } else {
                            assert(out@[a] == before.last());
                        }
                    }
                }
            } else {
                assert(expanded(out@) =~= Seq::empty());
                assert(head =~= Seq::empty());
            }
            current = k;
            length = 1;
            assert(expanded(out@) + repeated(current, 1) =~= head.push(k));
        }
    }
    assert(kinds@.take(kinds@.len() as int) =~= kinds@);
    if length > 0 {
        let ghost before = out@;
        out.push((current, length));
        proof {
            assert(out@.drop_last() =~= before);
            assert forall|a: int, b: int|
                0 <= a < out@.len() && b == a + 1 && b < out@.len() implies (
            #[trigger] out@[a]).0 != (#[trigger] out@[b]).0 by {
                if b < before.len() {
                    assert(before[a].0 != before[b].0);
                } else {
                    assert(out@[a] == before.last());
                }
            }
        }
    } else {
        assert(expanded(out@) + repeated(current, 0) =~= expanded(out@));
    }
    out
}

/// How many kinds the runs stand for.
pub open spec fn run_total(runs: Seq<(EventKind, u32)>) -> nat
    decreases runs.len(),
{
    if runs.len() == 0 {
        0
    } else {
        run_total(runs.drop_last()) + runs.last().1 as nat
    }
}

pub proof fn lemma_run_total(runs: Seq<(EventKind, u32)>)
    ensures
        expanded(runs).len() == run_total(runs),
    decreases runs.len(),
{
    if runs.len() > 0 {
        lemma_run_total(runs.drop_last());
    }
}

/// The kinds that runs stand for, where there are `rows` of them.
pub fn rle_decode(runs: &[(EventKind, u32)], rows: usize) -> (r: Option<Vec<EventKind>>)
    ensures
        match r {
            Some(v) => v@ == expanded(runs@) && v@.len() == rows,
            None => expanded(runs@).len() != rows,
        },
{
    let mut total: usize = 0;
    for i in 0..runs.len()
        invariant
            total == run_total(runs@.take(i as int)),
            total <= rows,
    {
        proof {
            assert(runs@.take(i + 1).drop_last() =~= runs@.take(i as int));
            lemma_run_total(runs@);
            lemma_total_take(runs@, i + 1);
        }
        if runs[i].1 as usize > rows - total {
            return None;
        }
        total = total + runs[i].1 as usize;
    }
    proof {
        assert(runs@.take(runs@.len() as int) =~= runs@);
        lemma_run_total(runs@);
    }
    if total != rows {
        return None;
    }
    let mut out: Vec<EventKind> = Vec::new();
    for i in 0..runs.len()
        invariant
            out@ == expanded(runs@.take(i as int)),
    {
        assert(runs@.take(i + 1).drop_last() =~= runs@.take(i as int));
        let ghost before = out@;
        let (kind, length) = runs[i];
        let mut n: u32 = 0;
        while n < length
            invariant
                n <= length,
                out@ == before + repeated(kind, n as nat),
            decreases length - n,
        {
            out.push(kind);
            n = n + 1;
            assert(out@ =~= before + repeated(kind, n as nat));
        }
    }
    Some(out)
}

proof fn lemma_total_take(runs: Seq<(EventKind, u32)>, n: int)
    requires
        0 <= n <= runs.len(),
    ensures
        run_total(runs.take(n)) <= run_total(runs),
    decreases runs.len(),
{
    if n < runs.len() {
        lemma_total_take(runs.drop_last(), n);
        assert(runs.drop_last().take(n) =~= runs.take(n));
    } else {
        assert(runs.take(n) =~= runs);
    }
}

/// The first number stands as it is, and each other one as its difference from the one
/// before it. (The differences must fit.)
pub proof fn law_deltas_are_differences(values: Seq<i64>, i: int)
    requires
        0 <= i < values.len(),
    ensures
        deltas_of(values).len() == values.len(),
        deltas_of(values)[0] == values[0],
        i > 0 && i64::MIN <= values[i] - values[i - 1] <= i64::MAX ==> deltas_of(values)[i]
            == values[i] - values[i - 1],
{
}

/// Folding puts a number next to its negative: what is not negative is doubled, and what
/// is negative becomes the odd number before that of its opposite.
pub proof fn law_folding(n: int)
    ensures
        n >= 0 ==> zigzag(n) == n + n,
        n < 0 ==> zigzag(n) == zigzag(-n) - 1,
{
}

/// A number below 128 is one byte; of a greater one the first byte holds the remainder by
/// 128 with the high bit set, and the others hold the quotient.
pub proof fn law_seven_bits_a_byte(n: nat)
    ensures
        n < 128 ==> varint(n) == seq![n as u8],
        n >= 128 ==> varint(n)[0] == n % 128 + 128 && varint(n).drop_first() == varint(n / 128),
{
    if n >= 128 {
        assert(varint(n).drop_first() =~= varint(n / 128));
    }
}

/// The kinds of events are numbered in the order usage, correction, retraction, from
/// zero, and a number leads back to its kind.
pub proof fn law_numbers_of_kinds(kind: EventKind, b: u8)
    ensures
        kind_byte(EventKind::Usage) == 0,
        kind_byte(EventKind::Correction) == 1,
        kind_byte(EventKind::Retraction) == 2,
        kind_of_byte(b) == Some(kind) <==> b == kind_byte(kind),
{
}

/// A dictionary keeps its texts and their numbers, and gives a new text the next number.
pub proof fn law_dictionaries_grow(dict: Seq<Seq<char>>, value: Seq<char>)
    ensures
        dict.is_prefix_of(with_text(dict, value)),
        with_text(dict, value).contains(value),
        dict.contains(value) ==> with_text(dict, value) == dict,
        !dict.contains(value) ==> with_text(dict, value).len() == dict.len() + 1,
        texts_distinct(dict) ==> texts_distinct(with_text(dict, value)),
{
    let after = with_text(dict, value);
    if !dict.contains(value) {
        assert(after[dict.len() as int] == value);
        assert forall|i: int, j: int| 0 <= i < j < after.len() && texts_distinct(
            dict,
        ) implies #[trigger] after[i] != #[trigger] after[j] by {
            if j < dict.len() {
                assert(dict[i] != dict[j]);
            } else {
                assert(dict.contains(dict[i]));
            }
        }
    }
}

/// Each quantity is packed behind those before it, folded and in seven bits a byte.
pub proof fn law_packing_one_more(values: Seq<i128>, q: i128)
    ensures
        q >= 0 ==> packed(values.push(q)) == packed(values) + varint((q + q) as nat),
        q < 0 ==> packed(values.push(q)) == packed(values) + varint((-q - q - 1) as nat),
        packed(Seq::empty()) == Seq::<u8>::empty(),
{
    assert(values.push(q).drop_last() =~= values);
}

/// A kind that repeats makes the last run longer, and another one begins a run.
pub proof fn law_runs_of_kinds(kinds: Seq<EventKind>, kind: EventKind)
    requires
        kinds.len() < u32::MAX,
    ensures
        kinds.len() > 0 && kinds.last() == kind ==> runs(kinds.push(kind)).len() == runs(kinds).len()
            && runs(kinds.push(kind)).last() == (kind, (runs(kinds).last().1 + 1) as u32),
        kinds.len() == 0 || kinds.last() != kind ==> runs(kinds.push(kind)) == runs(kinds).push(
            (kind, 1u32),
        ),
{
    assert(kinds.push(kind).drop_last() =~= kinds);
    lemma_last_run(kinds);
}

proof fn lemma_last_run(kinds: Seq<EventKind>)
    ensures
        kinds.len() > 0 ==> runs(kinds).len() > 0 && runs(kinds).last().0 == kinds.last(),
        kinds.len() == 0 ==> runs(kinds).len() == 0,
{
}

} // verus!
