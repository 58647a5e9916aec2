//! A map from texts to values, kept in the order of its keys.

use vstd::prelude::*;

use crate::text;
use crate::text::{same_text, str_less};

verus! {

/// The keys of `pairs` ascend, so that none occurs twice.
pub open spec fn keys_ascend<V>(pairs: Seq<(Seq<char>, V)>) -> bool {
    forall|i: int, j: int|
        0 <= i < j < pairs.len() ==> text::text_lt(#[trigger] pairs[i].0, #[trigger] pairs[j].0)
}

pub open spec fn has_key<V>(pairs: Seq<(Seq<char>, V)>, key: Seq<char>) -> bool {
    exists|i: int| 0 <= i < pairs.len() && #[trigger] pairs[i].0 == key
}

/// What `pairs` holds under `key`.
pub open spec fn lookup<V>(pairs: Seq<(Seq<char>, V)>, key: Seq<char>) -> Option<V> {
    if has_key(pairs, key) {
        Some(pairs[choose|i: int| 0 <= i < pairs.len() && #[trigger] pairs[i].0 == key].1)
    } else {
        None
    }
}

pub open spec fn pairs_of<V>(entries: Seq<(String, V)>) -> Seq<(Seq<char>, V)> {
    entries.map_values(|p: (String, V)| (p.0@, p.1))
}

/// A map whose keys are texts. Each key occurs once, and the entries stand in
/// the ascending order of their keys.
#[derive(Debug, PartialEq, Eq)]
pub struct TextMap<V> {
    entries: Vec<(String, V)>,
}

impl<V> View for TextMap<V> {
    type V = Seq<(Seq<char>, V)>;

    closed spec fn view(&self) -> Seq<(Seq<char>, V)> {
        pairs_of(self.entries@)
    }
}

pub proof fn lemma_lookup_at<V>(pairs: Seq<(Seq<char>, V)>, i: int)
    requires
        keys_ascend(pairs),
        0 <= i < pairs.len(),
    ensures
        lookup(pairs, pairs[i].0) == Some(pairs[i].1),
        has_key(pairs, pairs[i].0),
{
    let key = pairs[i].0;
    let j = choose|j: int| 0 <= j < pairs.len() && #[trigger] pairs[j].0 == key;
    assert(pairs[i].0 == key);
    text::lemma_text_lt_irreflexive(key);
    if i < j {
        assert(text::text_lt(pairs[i].0, pairs[j].0));
    } else if j < i {
        assert(text::text_lt(pairs[j].0, pairs[i].0));
    }
}

impl<V> TextMap<V> {
    #[verifier::type_invariant]
    spec fn ordered(self) -> bool {
        keys_ascend(pairs_of(self.entries@))
    }

    /// A map without entries.
    pub fn new() -> (r: Self)
        ensures
            r@ == Seq::<(Seq<char>, V)>::empty(),
    {
        let r = TextMap { entries: Vec::new() };
        assert(r@ =~= Seq::<(Seq<char>, V)>::empty());
        r
    }

    /// How many entries there are.
    pub fn len(&self) -> (n: usize)
        ensures
            n == self@.len(),
            keys_ascend(self@),
    {
        proof {
            use_type_invariant(self);
        }
        self.entries.len()
    }

    pub fn is_empty(&self) -> (r: bool)
        ensures
            r == (self@.len() == 0),
    {
        self.entries.len() == 0
    }

    /// The key at place `i`, in ascending order.
    pub fn key_at(&self, i: usize) -> (r: &String)
        requires
            i < self@.len(),
        ensures
            r@ == self@[i as int].0,
    {
        &self.entries[i].0
    }

    /// The value at place `i`, in the ascending order of the keys.
    pub fn value_at(&self, i: usize) -> (r: &V)
        requires
            i < self@.len(),
        ensures
            *r == self@[i as int].1,
    {
        &self.entries[i].1
    }

    /// The first place whose key is not below `key`.
    fn position(&self, key: &str) -> (p: usize)
        ensures
            p <= self@.len(),
            forall|j: int| 0 <= j < p ==> text::text_lt(#[trigger] self@[j].0, key@),
            forall|j: int| p <= j < self@.len() ==> !text::text_lt(#[trigger] self@[j].0, key@),
    {
        proof {
            use_type_invariant(self);
        }
        let mut lo: usize = 0;
        let mut hi: usize = self.entries.len();
        while lo < hi
            invariant
                lo <= hi <= self@.len(),
                self@ == pairs_of(self.entries@),
                keys_ascend(self@),
                forall|j: int| 0 <= j < lo ==> text::text_lt(#[trigger] self@[j].0, key@),
                forall|j: int| hi <= j < self@.len() ==> !text::text_lt(#[trigger] self@[j].0, key@),
            decreases hi - lo,
        {
            let mid: usize = lo + (hi - lo) / 2;
            let below = str_less(self.entries[mid].0.as_str(), key);
            assert(self@[mid as int].0 == self.entries@[mid as int].0@);
            if below {
                assert forall|j: int| 0 <= j < mid + 1 implies text::text_lt(
                    #[trigger] self@[j].0,
                    key@,
                ) by {
                    if j < mid {
                        text::lemma_text_lt_transitive(self@[j].0, self@[mid as int].0, key@);
                    }
                }
                lo = mid + 1;
            } else {
                assert forall|j: int| mid <= j < self@.len() implies !text::text_lt(
                    #[trigger] self@[j].0,
                    key@,
                ) by {
                    if j > mid && text::text_lt(self@[j].0, key@) {
                        text::lemma_text_lt_transitive(self@[mid as int].0, self@[j].0, key@);
                    }
                }
                hi = mid;
            }
        }
        lo
    }

    /// The value under `key`.
    pub fn get(&self, key: &str) -> (r: Option<&V>)
        ensures
            match r {
                Some(v) => lookup(self@, key@) == Some(*v),
                None => lookup(self@, key@) is None,
            },
    {
        let p = self.position(key);
        proof {
            use_type_invariant(self);
        }
        if p < self.entries.len() && same_text(self.entries[p].0.as_str(), key) {
            proof {
                lemma_lookup_at(self@, p as int);
            }
            Some(&self.entries[p].1)
        } else {
            proof {
                lemma_absent(self@, p as int, key@);
            }
            None
        }
    }

    pub fn contains_key(&self, key: &str) -> (r: bool)
        ensures
            r == has_key(self@, key@),
    {
        match self.get(key) {
            Some(_) => true,
            None => false,
        }
    }

    /// Puts `value` under `key`, and hands back what stood there before.
    pub fn insert(&mut self, key: String, value: V) -> (r: Option<V>)
        ensures
            r == lookup(old(self)@, key@),
            keys_ascend(final(self)@),
            lookup(final(self)@, key@) == Some(value),
            forall|k: Seq<char>| k != key@ ==> #[trigger] lookup(final(self)@, k) == lookup(old(self)@, k),
            final(self)@ == inserted(old(self)@, key@, value),
    {
        let p = self.position(key.as_str());
        let ghost before = self@;
        proof {
            use_type_invariant(&*self);
        }
        let present = p < self.entries.len() && same_text(self.entries[p].0.as_str(), key.as_str());
        let mut entries: Vec<(String, V)> = Vec::new();
        std::mem::swap(&mut entries, &mut self.entries);
        let ghost k = key@;
        if present {
            let (_, old_value) = entries.remove(p);
            entries.insert(p, (key, value));
            proof {
                assert(pairs_of(entries@) =~= before.update(p as int, (k, value)));
                lemma_lookup_at(before, p as int);
                lemma_replaced(before, p as int, k, value);
                lemma_inserted_at(before, p as int, k, value);
            }
            self.entries = entries;
            Some(old_value)
        } else {
            proof {
                lemma_absent(before, p as int, k);
            }
            entries.insert(p, (key, value));
            proof {
                assert(pairs_of(entries@) =~= before.insert(p as int, (k, value)));
                lemma_spliced(before, p as int, k, value);
                lemma_inserted_at(before, p as int, k, value);
            }
            self.entries = entries;
            None
        }
    }
}

impl<V: Clone> Clone for TextMap<V> {
    fn clone(&self) -> (r: Self)
        ensures
            r@.len() == self@.len(),
            forall|i: int|
                0 <= i < self@.len() ==> (#[trigger] r@[i]).0 == self@[i].0 && cloned::<V>(
                    self@[i].1,
                    r@[i].1,
                ),
    {
        proof {
            use_type_invariant(self);
        }
        let mut entries: Vec<(String, V)> = Vec::new();
        for i in 0..self.entries.len()
            invariant
                entries@.len() == i,
                self@ == pairs_of(self.entries@),
                forall|j: int|
                    0 <= j < i ==> (#[trigger] entries@[j]).0@ == self@[j].0 && cloned::<V>(
                        self@[j].1,
                        entries@[j].1,
                    ),
        {
            let key = self.entries[i].0.clone();
            let value = self.entries[i].1.clone();
            entries.push((key, value));
        }
        proof {
            let after = pairs_of(entries@);
            assert forall|i: int, j: int| 0 <= i < j < after.len() implies text::text_lt(
                #[trigger] after[i].0,
                #[trigger] after[j].0,
            ) by {
                assert(after[i].0 == self@[i].0);
                assert(after[j].0 == self@[j].0);
            }
        }
        TextMap { entries }
    }
}

impl<V> Default for TextMap<V> {
    fn default() -> (r: Self)
        ensures
            r@ == Seq::<(Seq<char>, V)>::empty(),
    {
        TextMap::new()
    }
}

/// `pairs` with `value` under `key`: in the place of the entry of that key, or
/// before the first entry with a greater key.
pub open spec fn inserted<V>(pairs: Seq<(Seq<char>, V)>, key: Seq<char>, value: V) -> Seq<
    (Seq<char>, V),
>
    decreases pairs.len(),
{
    if pairs.len() == 0 {
        seq![(key, value)]
    } else if pairs[0].0 == key {
        seq![(key, value)] + pairs.drop_first()
    } else if text::text_lt(key, pairs[0].0) {
        seq![(key, value)] + pairs
    } else {
        seq![pairs[0]] + inserted(pairs.drop_first(), key, value)
    }
}

pub proof fn lemma_inserted_at<V>(pairs: Seq<(Seq<char>, V)>, p: int, key: Seq<char>, value: V)
    requires
        keys_ascend(pairs),
        0 <= p <= pairs.len(),
        forall|j: int| 0 <= j < p ==> text::text_lt(#[trigger] pairs[j].0, key),
        forall|j: int| p <= j < pairs.len() ==> !text::text_lt(#[trigger] pairs[j].0, key),
    ensures
        p < pairs.len() && pairs[p].0 == key ==> inserted(pairs, key, value) == pairs.update(
            p,
            (key, value),
        ),
        !(p < pairs.len() && pairs[p].0 == key) ==> inserted(pairs, key, value) == pairs.insert(
            p,
            (key, value),
        ),
    decreases p,
{
    if pairs.len() == 0 {
        assert(inserted(pairs, key, value) =~= pairs.insert(p, (key, value)));
    } else if p == 0 {
        text::lemma_text_lt_total(pairs[0].0, key);
        if pairs[0].0 == key {
            assert(inserted(pairs, key, value) =~= pairs.update(p, (key, value)));
        } else {
            assert(inserted(pairs, key, value) =~= pairs.insert(p, (key, value)));
        }
    } else {
        text::lemma_text_lt_asymmetric(pairs[0].0, key);
        let rest = pairs.drop_first();
        assert forall|j: int| 0 <= j < p - 1 implies text::text_lt(#[trigger] rest[j].0, key) by {
            assert(rest[j] == pairs[j + 1]);
        }
        assert forall|j: int| p - 1 <= j < rest.len() implies !text::text_lt(
            #[trigger] rest[j].0,
            key,
        ) by {
            assert(rest[j] == pairs[j + 1]);
        }
        lemma_inserted_at(rest, p - 1, key, value);
        if p < pairs.len() && pairs[p].0 == key {
            assert(seq![pairs[0]] + rest.update(p - 1, (key, value)) =~= pairs.update(
                p,
                (key, value),
            ));
        } else {
            assert(seq![pairs[0]] + rest.insert(p - 1, (key, value)) =~= pairs.insert(
                p,
                (key, value),
            ));
        }
    }
}

proof fn lemma_absent<V>(pairs: Seq<(Seq<char>, V)>, p: int, key: Seq<char>)
    requires
        keys_ascend(pairs),
        0 <= p <= pairs.len(),
        forall|j: int| 0 <= j < p ==> text::text_lt(#[trigger] pairs[j].0, key),
        forall|j: int| p <= j < pairs.len() ==> !text::text_lt(#[trigger] pairs[j].0, key),
        p < pairs.len() ==> pairs[p].0 != key,
    ensures
        !has_key(pairs, key),
{
    text::lemma_text_lt_irreflexive(key);
    if has_key(pairs, key) {
        let i = choose|i: int| 0 <= i < pairs.len() && #[trigger] pairs[i].0 == key;
        if i > p {
            text::lemma_text_lt_total(pairs[p].0, key);
            assert(text::text_lt(pairs[p].0, pairs[i].0));
        }
    }
}

spec fn holds<V>(pairs: Seq<(Seq<char>, V)>, p: (Seq<char>, V)) -> bool {
    exists|j: int| 0 <= j < pairs.len() && #[trigger] pairs[j] == p
}

proof fn lemma_same_lookups<V>(a: Seq<(Seq<char>, V)>, b: Seq<(Seq<char>, V)>, k: Seq<char>)
    requires
        keys_ascend(a),
        keys_ascend(b),
        forall|i: int| 0 <= i < a.len() && a[i].0 == k ==> holds(b, #[trigger] a[i]),
        forall|j: int| 0 <= j < b.len() && b[j].0 == k ==> holds(a, #[trigger] b[j]),
    ensures
        lookup(a, k) == lookup(b, k),
{
    if has_key(a, k) {
        let i = choose|i: int| 0 <= i < a.len() && #[trigger] a[i].0 == k;
        let j = choose|j: int| 0 <= j < b.len() && #[trigger] b[j] == a[i];
        lemma_lookup_at(a, i);
        lemma_lookup_at(b, j);
    } else if has_key(b, k) {
        let j = choose|j: int| 0 <= j < b.len() && #[trigger] b[j].0 == k;
        let i = choose|i: int| 0 <= i < a.len() && #[trigger] a[i] == b[j];
        assert(a[i].0 == k);
    }
}

proof fn lemma_replaced<V>(pairs: Seq<(Seq<char>, V)>, p: int, key: Seq<char>, value: V)
    requires
        keys_ascend(pairs),
        0 <= p < pairs.len(),
        pairs[p].0 == key,
    ensures
        keys_ascend(pairs.update(p, (key, value))),
        lookup(pairs.update(p, (key, value)), key) == Some(value),
        forall|k: Seq<char>|
            k != key ==> #[trigger] lookup(pairs.update(p, (key, value)), k) == lookup(pairs, k),
{
    let after = pairs.update(p, (key, value));
    assert(keys_ascend(after)) by {
        assert forall|i: int, j: int| 0 <= i < j < after.len() implies text::text_lt(
            #[trigger] after[i].0,
            #[trigger] after[j].0,
        ) by {
            assert(text::text_lt(pairs[i].0, pairs[j].0));
        }
    }
    lemma_lookup_at(after, p);
    assert forall|k: Seq<char>| k != key implies #[trigger] lookup(after, k) == lookup(
        pairs,
        k,
    ) by {
        assert forall|i: int| 0 <= i < pairs.len() && pairs[i].0 == k implies holds(
            after,
            #[trigger] pairs[i],
        ) by {
            assert(after[i] == pairs[i]);
        }
        assert forall|i: int| 0 <= i < after.len() && after[i].0 == k implies holds(
            pairs,
            #[trigger] after[i],
        ) by {
            assert(after[i] == pairs[i]);
        }
        lemma_same_lookups(pairs, after, k);
    }
}

proof fn lemma_spliced<V>(pairs: Seq<(Seq<char>, V)>, p: int, key: Seq<char>, value: V)
    requires
        keys_ascend(pairs),
        0 <= p <= pairs.len(),
        forall|j: int| 0 <= j < p ==> text::text_lt(#[trigger] pairs[j].0, key),
        forall|j: int| p <= j < pairs.len() ==> !text::text_lt(#[trigger] pairs[j].0, key),
        !has_key(pairs, key),
    ensures
        keys_ascend(pairs.insert(p, (key, value))),
        lookup(pairs.insert(p, (key, value)), key) == Some(value),
        forall|k: Seq<char>|
            k != key ==> #[trigger] lookup(pairs.insert(p, (key, value)), k) == lookup(pairs, k),
{
    let after = pairs.insert(p, (key, value));
    assert forall|i: int| 0 <= i < p implies after[i] == pairs[i] by {}
    assert forall|i: int| p < i < after.len() implies after[i] == pairs[i - 1] by {}
    assert(keys_ascend(after)) by {
        assert forall|i: int, j: int| 0 <= i < j < after.len() implies text::text_lt(
            #[trigger] after[i].0,
            #[trigger] after[j].0,
        ) by {
            if j < p {
                assert(text::text_lt(pairs[i].0, pairs[j].0));
            } else if j == p {
                assert(text::text_lt(pairs[i].0, key));
            } else if i == p {
                assert(pairs[j - 1].0 != key);
                text::lemma_text_lt_total(pairs[j - 1].0, key);
                assert(!text::text_lt(pairs[j - 1].0, key));
            } else if i < p {
                assert(text::text_lt(pairs[i].0, pairs[j - 1].0));
            } else {
                assert(text::text_lt(pairs[i - 1].0, pairs[j - 1].0));
            }
        }
    }
    lemma_lookup_at(after, p);
    assert forall|k: Seq<char>| k != key implies #[trigger] lookup(after, k) == lookup(
        pairs,
        k,
    ) by {
        assert forall|i: int| 0 <= i < pairs.len() && pairs[i].0 == k implies holds(
            after,
            #[trigger] pairs[i],
        ) by {
            if i < p {
                assert(after[i] == pairs[i]);
            } else {
                assert(after[i + 1] == pairs[i]);
            }
        }
        assert forall|i: int| 0 <= i < after.len() && after[i].0 == k implies holds(
            pairs,
            #[trigger] after[i],
        ) by {
            if i < p {
                assert(after[i] == pairs[i]);
            } else {
                assert(after[i] == pairs[i - 1]);
            }
        }
        lemma_same_lookups(pairs, after, k);
    }
}

/// The place where a key stands or would stand.
proof fn lemma_place<V>(pairs: Seq<(Seq<char>, V)>, key: Seq<char>) -> (p: int)
    requires
        keys_ascend(pairs),
    ensures
        0 <= p <= pairs.len(),
        forall|j: int| 0 <= j < p ==> text::text_lt(#[trigger] pairs[j].0, key),
        forall|j: int| p <= j < pairs.len() ==> !text::text_lt(#[trigger] pairs[j].0, key),
    decreases pairs.len(),
{
    if pairs.len() == 0 {
        0
    } else if text::text_lt(pairs.last().0, key) {
        assert forall|j: int| 0 <= j < pairs.len() implies text::text_lt(
            #[trigger] pairs[j].0,
            key,
        ) by {
            if j < pairs.len() - 1 {
                assert(text::text_lt(pairs[j].0, pairs[pairs.len() - 1].0));
                text::lemma_text_lt_transitive(pairs[j].0, pairs.last().0, key);
            }
        }
        pairs.len() as int
    } else {
        let rest = pairs.drop_last();
        assert forall|i: int, j: int| 0 <= i < j < rest.len() implies text::text_lt(
            #[trigger] rest[i].0,
            #[trigger] rest[j].0,
        ) by {
            assert(text::text_lt(pairs[i].0, pairs[j].0));
        }
        let p = lemma_place(rest, key);
        assert forall|j: int| 0 <= j < p implies text::text_lt(#[trigger] pairs[j].0, key) by {
            assert(rest[j] == pairs[j]);
        }
        assert forall|j: int| p <= j < pairs.len() implies !text::text_lt(
            #[trigger] pairs[j].0,
            key,
        ) by {
            if j < rest.len() {
                assert(rest[j] == pairs[j]);
            }
        }
        p
    }
}

/// What is found under a key after a value was put under one.
pub proof fn lemma_inserted<V>(pairs: Seq<(Seq<char>, V)>, key: Seq<char>, value: V)
    requires
        keys_ascend(pairs),
    ensures
        keys_ascend(inserted(pairs, key, value)),
        lookup(inserted(pairs, key, value), key) == Some(value),
        forall|k: Seq<char>|
            k != key ==> #[trigger] lookup(inserted(pairs, key, value), k) == lookup(pairs, k),
{
    let p = lemma_place(pairs, key);
    lemma_inserted_at(pairs, p, key, value);
    if p < pairs.len() && pairs[p].0 == key {
        lemma_replaced(pairs, p, key, value);
    } else {
        lemma_absent(pairs, p, key);
        lemma_spliced(pairs, p, key, value);
    }
}

} // verus!
