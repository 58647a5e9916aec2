//! A set of texts.

use vstd::prelude::*;

use crate::text;
use crate::textmap;
use crate::textmap::TextMap;

verus! {

/// The texts of a list ascend.
pub open spec fn ascends(list: Seq<Seq<char>>) -> bool {
    forall|i: int, j: int|
        0 <= i < j < list.len() ==> text::text_lt(#[trigger] list[i], #[trigger] list[j])
}

/// A list has the members of a set, in ascending order.
pub open spec fn is_listing(list: Seq<Seq<char>>, set: Set<Seq<char>>) -> bool {
    ascends(list) && forall|t: Seq<char>| #[trigger] list.contains(t) <==> set.contains(t)
}

/// The members of a set in ascending order.
pub open spec fn listing(set: Set<Seq<char>>) -> Seq<Seq<char>> {
    choose|list: Seq<Seq<char>>| is_listing(list, set)
}

proof fn lemma_listing_unique(a: Seq<Seq<char>>, b: Seq<Seq<char>>, set: Set<Seq<char>>)
    requires
        is_listing(a, set),
        is_listing(b, set),
    ensures
        a == b,
    decreases a.len(),
{
    if a.len() == 0 {
        if b.len() > 0 {
            assert(b.contains(b[0]));
            assert(a.contains(b[0]));
        }
        assert(a =~= b);
    } else {
        assert(a.contains(a[0]));
        assert(b.contains(a[0]));
        let j = choose|j: int| 0 <= j < b.len() && b[j] == a[0];
        assert(b.contains(b[0]));
        assert(a.contains(b[0]));
        let i = choose|i: int| 0 <= i < a.len() && a[i] == b[0];
        if i > 0 && j > 0 {
            assert(text::text_lt(a[0], a[i]));
            assert(text::text_lt(b[0], b[j]));
            text::lemma_text_lt_asymmetric(a[0], b[0]);
        }
        let first = a[0];
        assert(b[0] == first);
        let ra = a.drop_first();
        let rb = b.drop_first();
        let rest = set.remove(first);
        lemma_listing_rest(a, set);
        lemma_listing_rest(b, set);
        lemma_listing_unique(ra, rb, rest);
        assert(a =~= seq![first] + ra);
        assert(b =~= seq![first] + rb);
    }
}

proof fn lemma_listing_rest(a: Seq<Seq<char>>, set: Set<Seq<char>>)
    requires
        is_listing(a, set),
        a.len() > 0,
    ensures
        is_listing(a.drop_first(), set.remove(a[0])),
{
    let ra = a.drop_first();
    let rest = set.remove(a[0]);
    assert forall|i: int, j: int| 0 <= i < j < ra.len() implies text::text_lt(
        #[trigger] ra[i],
        #[trigger] ra[j],
    ) by {
        assert(text::text_lt(a[i + 1], a[j + 1]));
    }
    assert forall|t: Seq<char>| #[trigger] ra.contains(t) <==> rest.contains(t) by {
        if ra.contains(t) {
            let k = choose|k: int| 0 <= k < ra.len() && ra[k] == t;
            assert(a[k + 1] == t);
            assert(a.contains(t));
            assert(text::text_lt(a[0], a[k + 1]));
            text::lemma_text_lt_irreflexive(t);
        }
        if rest.contains(t) {
            assert(a.contains(t));
            let k = choose|k: int| 0 <= k < a.len() && a[k] == t;
            assert(ra[k - 1] == t);
        }
    }
}

/// A set of texts, which it hands out in ascending order.
#[derive(Debug, PartialEq, Eq)]
pub struct TextSet {
    members: TextMap<()>,
}

impl View for TextSet {
    type V = Set<Seq<char>>;

    closed spec fn view(&self) -> Set<Seq<char>> {
        Set::new(|k: Seq<char>| textmap::has_key(self.members@, k))
    }
}

impl TextSet {
    /// The members in ascending order.
    pub closed spec fn ordered(&self) -> Seq<Seq<char>> {
        self.members@.map_values(|p: (Seq<char>, ())| p.0)
    }

    /// A set without members.
    pub fn new() -> (r: Self)
        ensures
            r@ == Set::<Seq<char>>::empty(),
            r.ordered().len() == 0,
    {
        let r = TextSet { members: TextMap::new() };
        assert(r@ =~= Set::<Seq<char>>::empty());
        r
    }

    /// How many members there are.
    pub fn len(&self) -> (n: usize)
        ensures
            n == self.ordered().len(),
            self.ordered() == listing(self@),
    {
        let n = self.members.len();
        proof {
            let list = self.ordered();
            let pairs = self.members@;
            assert forall|i: int, j: int| 0 <= i < j < list.len() implies text::text_lt(
                #[trigger] list[i],
                #[trigger] list[j],
            ) by {
                assert(text::text_lt(pairs[i].0, pairs[j].0));
            }
            assert forall|t: Seq<char>| #[trigger] list.contains(t) <==> self@.contains(t) by {
                if list.contains(t) {
                    let i = choose|i: int| 0 <= i < list.len() && list[i] == t;
                    assert(pairs[i].0 == t);
                }
                if self@.contains(t) {
                    let i = choose|i: int| 0 <= i < pairs.len() && #[trigger] pairs[i].0 == t;
                    assert(list[i] == t);
                }
            }
            lemma_listing_unique(list, listing(self@), self@);
        }
        n
    }

    pub fn is_empty(&self) -> (r: bool)
        ensures
            r == (self.ordered().len() == 0),
    {
        self.members.is_empty()
    }

    /// The member at place `i`, in ascending order.
    pub fn at(&self, i: usize) -> (r: &String)
        requires
            i < self.ordered().len(),
        ensures
            r@ == self.ordered()[i as int],
            self@.contains(r@),
    {
        proof {
            assert(self.members@[i as int].0 == self.ordered()[i as int]);
        }
        self.members.key_at(i)
    }

    pub fn contains(&self, t: &str) -> (r: bool)
        ensures
            r == self@.contains(t@),
    {
        self.members.contains_key(t)
    }

    /// Adds a member.
    pub fn insert(&mut self, t: String)
        ensures
            final(self)@ == old(self)@.insert(t@),
    {
        let ghost k = t@;
        let ghost before = self.members@;
        self.members.insert(t, ());
        proof {
            let after = self.members@;
            assert forall|x: Seq<char>|
                textmap::has_key(after, x) == (textmap::has_key(before, x) || x == k) by {
                if x != k {
                    assert(textmap::lookup(after, x) == textmap::lookup(before, x));
                } else {
                    assert(textmap::lookup(after, x) == Some(()));
                }
            }
            assert(self@ =~= old(self)@.insert(k));
        }
    }
}

impl Clone for TextSet {
    fn clone(&self) -> (r: Self)
        ensures
            r@ == self@,
            r.ordered() == self.ordered(),
    {
        let members = self.members.clone();
        assert(members@ =~= self.members@);
        TextSet { members }
    }
}

impl Default for TextSet {
    fn default() -> (r: Self)
        ensures
            r@ == Set::<Seq<char>>::empty(),
    {
        TextSet::new()
    }
}

/// A list that ascends and has exactly the members of a set is the listing of the set.
pub proof fn law_listings(list: Seq<Seq<char>>, set: Set<Seq<char>>)
    requires
        forall|i: int, j: int|
            0 <= i < j < list.len() ==> text::text_lt(#[trigger] list[i], #[trigger] list[j]),
        forall|t: Seq<char>| #[trigger] list.contains(t) <==> set.contains(t),
    ensures
        listing(set) == list,
{
    assert(is_listing(list, set));
    lemma_listing_unique(list, listing(set), set);
}

} // verus!
