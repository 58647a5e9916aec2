//! The free-form dimensions of an event.

use vstd::prelude::*;

use crate::text;
use crate::textmap;
use crate::textmap::TextMap;

verus! {

/// Names and values by which events can be told apart beyond the fixed fields.
#[derive(Debug, PartialEq, Eq)]
pub struct SmallDimensions {
    pub inner: TextMap<String>,
}

/// The entries of a map of texts, by their contents.
pub open spec fn text_pairs(pairs: Seq<(Seq<char>, String)>) -> Seq<(Seq<char>, Seq<char>)> {
    pairs.map_values(|p: (Seq<char>, String)| (p.0, p.1@))
}

impl View for SmallDimensions {
    type V = Seq<(Seq<char>, Seq<char>)>;

    open spec fn view(&self) -> Seq<(Seq<char>, Seq<char>)> {
        text_pairs(self.inner@)
    }
}

/// The value of the dimension `name`.
pub open spec fn dimension(dims: Seq<(Seq<char>, Seq<char>)>, name: Seq<char>) -> Option<
    Seq<char>,
> {
    textmap::lookup(dims, name)
}

impl SmallDimensions {
    /// No dimensions.
    pub fn new() -> (r: Self)
        ensures
            r@ == Seq::<(Seq<char>, Seq<char>)>::empty(),
    {
        let r = SmallDimensions { inner: TextMap::new() };
        assert(r@ =~= Seq::<(Seq<char>, Seq<char>)>::empty());
        r
    }

    /// The value of the dimension `name`.
    pub fn get(&self, name: &str) -> (r: Option<&String>)
        ensures
            match r {
                Some(v) => dimension(self@, name@) == Some(v@),
                None => dimension(self@, name@) is None,
            },
    {
        let _ = self.inner.len();
        proof {
            lemma_same_keys(self.inner@, name@);
        }
        self.inner.get(name)
    }
}

pub proof fn lemma_same_keys(pairs: Seq<(Seq<char>, String)>, key: Seq<char>)
    requires
        textmap::keys_ascend(pairs),
    ensures
        textmap::keys_ascend(text_pairs(pairs)),
        textmap::lookup(pairs, key) matches Some(v) ==> textmap::lookup(text_pairs(pairs), key)
            == Some(v@),
        textmap::lookup(pairs, key) is None ==> textmap::lookup(text_pairs(pairs), key) is None,
{
    let views = text_pairs(pairs);
    assert forall|i: int, j: int| 0 <= i < j < views.len() implies text::text_lt(
        #[trigger] views[i].0,
        #[trigger] views[j].0,
    ) by {
        assert(text::text_lt(pairs[i].0, pairs[j].0));
    }
    if textmap::has_key(pairs, key) {
        let i = choose|i: int| 0 <= i < pairs.len() && #[trigger] pairs[i].0 == key;
        textmap::lemma_lookup_at(pairs, i);
        textmap::lemma_lookup_at(views, i);
        assert(views[i].0 == key);
    } else if textmap::has_key(views, key) {
        let i = choose|i: int| 0 <= i < views.len() && #[trigger] views[i].0 == key;
        assert(pairs[i].0 == key);
    }
}

impl Clone for SmallDimensions {
    fn clone(&self) -> (r: Self)
        ensures
            r@ == self@,
    {
        let r = SmallDimensions { inner: self.inner.clone() };
        assert(r@ =~= self@);
        r
    }
}

impl Default for SmallDimensions {
    fn default() -> (r: Self)
        ensures
            r@ == Seq::<(Seq<char>, Seq<char>)>::empty(),
    {
        SmallDimensions::new()
    }
}

/// The canonical text of dimensions: a JSON object with the names in ascending
/// order.
pub uninterp spec fn dimension_text(dims: Seq<(Seq<char>, Seq<char>)>) -> Seq<char>;

/// The dimensions that a text gives, where it is the canonical text of some.
pub uninterp spec fn dimensions_of_text(json: Seq<char>) -> Option<Seq<(Seq<char>, Seq<char>)>>;

/// `serde_json::to_string` of an object whose member `inner` is the map of the
/// dimensions: the text is a function of the names and the values alone.
#[verifier::external_body]
pub(crate) fn canonical_text(d: &SmallDimensions) -> (r: String)
    ensures
        r@ == dimension_text(d@),
{
    let inner: std::collections::BTreeMap<&String, &String> =
        (0..d.inner.len()).map(|i| (d.inner.key_at(i), d.inner.value_at(i))).collect();
    serde_json::to_string(&std::collections::BTreeMap::from([("inner", inner)])).unwrap_or_default()
}

/// `serde_json::from_str` into such an object: what comes back is a function of
/// the text alone, and the canonical text of dimensions gives them back in the
/// order of their names.
#[verifier::external_body]
fn read_canonical(json: &str) -> (r: Option<Vec<(String, String)>>)
    ensures
        match r {
            Some(v) => dimensions_of_text(json@) == Some(string_pairs(v@)),
            None => dimensions_of_text(json@) is None,
        },
        forall|dims: Seq<(Seq<char>, Seq<char>)>|
            textmap::keys_ascend(dims) && json@ == #[trigger] dimension_text(dims)
                ==> r is Some && string_pairs(r->0@) == dims,
{
    let parsed: Result<
        std::collections::BTreeMap<String, std::collections::BTreeMap<String, String>>,
        serde_json::Error,
    > = serde_json::from_str(json);
    parsed.ok()?.remove("inner").map(|m| m.into_iter().collect())
}

pub open spec fn string_pairs(pairs: Seq<(String, String)>) -> Seq<(Seq<char>, Seq<char>)> {
    pairs.map_values(|p: (String, String)| (p.0@, p.1@))
}

/// What a text says of the dimension `name`: nothing where it is no canonical
/// text.
pub open spec fn dimension_in_text(json: Seq<char>, name: Seq<char>) -> Option<Seq<char>> {
    match dimensions_of_text(json) {
        Some(dims) => first_value(dims, name),
        None => None,
    }
}

/// The value of the first pair with that name.
pub open spec fn first_value(dims: Seq<(Seq<char>, Seq<char>)>, name: Seq<char>) -> Option<
    Seq<char>,
>
    decreases dims.len(),
{
    if dims.len() == 0 {
        None
    } else if dims[0].0 == name {
        Some(dims[0].1)
    } else {
        first_value(dims.drop_first(), name)
    }
}

/// In ascending order the first value under a name is the only one.
pub proof fn lemma_first_value(dims: Seq<(Seq<char>, Seq<char>)>, name: Seq<char>)
    requires
        textmap::keys_ascend(dims),
    ensures
        first_value(dims, name) == dimension(dims, name),
    decreases dims.len(),
{
    if dims.len() > 0 {
        let rest = dims.drop_first();
        assert(textmap::keys_ascend(rest)) by {
            assert forall|i: int, j: int| 0 <= i < j < rest.len() implies text::text_lt(
                #[trigger] rest[i].0,
                #[trigger] rest[j].0,
            ) by {
                assert(text::text_lt(dims[i + 1].0, dims[j + 1].0));
            }
        }
        if dims[0].0 == name {
            textmap::lemma_lookup_at(dims, 0);
        } else {
            lemma_first_value(rest, name);
            if textmap::has_key(dims, name) {
                let i = choose|i: int| 0 <= i < dims.len() && #[trigger] dims[i].0 == name;
                assert(rest[i - 1].0 == name);
                textmap::lemma_lookup_at(dims, i);
                textmap::lemma_lookup_at(rest, i - 1);
            } else if textmap::has_key(rest, name) {
                let i = choose|i: int| 0 <= i < rest.len() && #[trigger] rest[i].0 == name;
                assert(dims[i + 1].0 == name);
            }
        }
    }
}

/// What the canonical text `json` says of the dimension `name`.
pub fn dimension_from_text(json: &str, name: &str) -> (r: Option<String>)
    ensures
        text::option_view(r) == dimension_in_text(json@, name@),
{
    match read_canonical(json) {
        None => None,
        Some(pairs) => {
            let ghost all = string_pairs(pairs@);
            let mut i: usize = 0;
            assert(all.skip(0) =~= all);
            while i < pairs.len()
                invariant
                    0 <= i <= pairs.len(),
                    all == string_pairs(pairs@),
                    dimensions_of_text(json@) == Some(all),
                    first_value(all, name@) == first_value(all.skip(i as int), name@),
                decreases pairs.len() - i,
            {
                assert(all[i as int] == (pairs@[i as int].0@, pairs@[i as int].1@));
                assert(all.skip(i as int)[0] == all[i as int]);
                assert(all.skip(i as int).drop_first() =~= all.skip(i + 1));
                if text::same_text(pairs[i].0.as_str(), name) {
                    return Some(pairs[i].1.clone());
                }
                i = i + 1;
            }
            assert(all.skip(i as int) =~= Seq::empty());
            None
        },
    }
}

/// Pairs gathered into a map: a later value under a name takes the place of an
/// earlier one.
pub open spec fn gathered(pairs: Seq<(Seq<char>, Seq<char>)>) -> Seq<(Seq<char>, Seq<char>)>
    decreases pairs.len(),
{
    if pairs.len() == 0 {
        Seq::empty()
    } else {
        textmap::inserted(gathered(pairs.drop_last()), pairs.last().0, pairs.last().1)
    }
}

proof fn lemma_pairs_inserted(pairs: Seq<(Seq<char>, String)>, key: Seq<char>, value: String)
    ensures
        text_pairs(textmap::inserted(pairs, key, value)) == textmap::inserted(
            text_pairs(pairs),
            key,
            value@,
        ),
    decreases pairs.len(),
{
    let views = text_pairs(pairs);
    if pairs.len() == 0 {
        assert(text_pairs(seq![(key, value)]) =~= seq![(key, value@)]);
    } else {
        let rest = pairs.drop_first();
        assert(views.drop_first() =~= text_pairs(rest));
        assert(views[0].0 == pairs[0].0);
        if pairs[0].0 == key {
            assert(text_pairs(seq![(key, value)] + rest) =~= seq![(key, value@)] + text_pairs(rest));
        } else if text::text_lt(key, pairs[0].0) {
            assert(text_pairs(seq![(key, value)] + pairs) =~= seq![(key, value@)] + views);
        } else {
            lemma_pairs_inserted(rest, key, value);
            let tail = textmap::inserted(rest, key, value);
            assert(text_pairs(seq![pairs[0]] + tail) =~= seq![views[0]] + text_pairs(tail));
        }
    }
}

/// Pairs in ascending order are gathered as they stand.
pub proof fn lemma_gathered(pairs: Seq<(Seq<char>, Seq<char>)>)
    requires
        textmap::keys_ascend(pairs),
    ensures
        gathered(pairs) == pairs,
    decreases pairs.len(),
{
    if pairs.len() > 0 {
        let init = pairs.drop_last();
        let last = pairs.last();
        assert forall|i: int, j: int| 0 <= i < j < init.len() implies text::text_lt(
            #[trigger] init[i].0,
            #[trigger] init[j].0,
        ) by {
            assert(text::text_lt(pairs[i].0, pairs[j].0));
        }
        lemma_gathered(init);
        assert forall|j: int| 0 <= j < init.len() implies text::text_lt(
            #[trigger] init[j].0,
            last.0,
        ) by {
            assert(text::text_lt(pairs[j].0, pairs[pairs.len() - 1].0));
        }
        textmap::lemma_inserted_at(init, init.len() as int, last.0, last.1);
        assert(init.insert(init.len() as int, last) =~= pairs);
    } else {
        assert(pairs =~= Seq::empty());
    }
}

impl SmallDimensions {
    /// The dimensions that pairs of a name and a value give.
    pub fn from_pairs(pairs: &Vec<(String, String)>) -> (r: Self)
        ensures
            r@ == gathered(string_pairs(pairs@)),
            textmap::keys_ascend(r@),
    {
        let mut inner: TextMap<String> = TextMap::new();
        let ghost all = string_pairs(pairs@);
        assert(text_pairs(inner@) =~= Seq::empty());
        for i in 0..pairs.len()
            invariant
                all == string_pairs(pairs@),
                text_pairs(inner@) == gathered(all.take(i as int)),
        {
            proof {
                assert(all.take(i + 1).drop_last() =~= all.take(i as int));
                assert(all.take(i + 1).last() == (pairs@[i as int].0@, pairs@[i as int].1@));
            }
            let key = pairs[i].0.clone();
            let value = pairs[i].1.clone();
            let ghost before = inner@;
            let ghost k = key@;
            let ghost v = value;
            let _ = inner.insert(key, value);
            proof {
                lemma_pairs_inserted(before, k, v);
            }
        }
        assert(all.take(all.len() as int) =~= all);
        let _ = inner.len();
        proof {
            lemma_same_keys(inner@, Seq::empty());
        }
        SmallDimensions { inner }
    }

    /// The names and values in the order of the names.
    pub fn to_pairs(&self) -> (r: Vec<(String, String)>)
        ensures
            string_pairs(r@) == self@,
            textmap::keys_ascend(self@),
    {
        let mut out: Vec<(String, String)> = Vec::new();
        let n: usize = self.inner.len();
        for i in 0..n
            invariant
                n == self.inner@.len(),
                out@.len() == i,
                forall|j: int|
                    0 <= j < i ==> string_pairs(out@)[j] == #[trigger] self@[j],
        {
            let ghost before = out@;
            out.push((self.inner.key_at(i).clone(), self.inner.value_at(i).clone()));
            assert forall|j: int| 0 <= j < i + 1 implies string_pairs(out@)[j] == #[trigger] self@[j] by {
                if j < i {
                    assert(string_pairs(before)[j] == self@[j]);
                }
            }
        }
        proof {
            lemma_same_keys(self.inner@, Seq::empty());
            assert(string_pairs(out@) =~= self@);
        }
        out
    }
}

/// Of pairs that are gathered, the last one under a name counts, and each name is there
/// once.
pub proof fn law_gathered_pairs(pairs: Seq<(Seq<char>, Seq<char>)>, pair: (Seq<char>, Seq<char>))
    ensures
        textmap::keys_ascend(gathered(pairs)),
        dimension(gathered(pairs.push(pair)), pair.0) == Some(pair.1),
        forall|name: Seq<char>|
            name != pair.0 ==> #[trigger] dimension(gathered(pairs.push(pair)), name) == dimension(
                gathered(pairs),
                name,
            ),
        gathered(Seq::empty()).len() == 0,
    decreases pairs.len(),
{
    if pairs.len() > 0 {
        law_gathered_pairs(pairs.drop_last(), pairs.last());
        textmap::lemma_inserted(
            gathered(pairs.drop_last()),
            pairs.last().0,
            pairs.last().1,
        );
    }
    assert(pairs.push(pair).drop_last() =~= pairs);
    textmap::lemma_inserted(gathered(pairs), pair.0, pair.1);
}

/// The value that a text gives under a name is that of the first pair with that name, and
/// there is none where no pair has it or where the text is no list of pairs.
pub proof fn law_first_pair_counts(json: Seq<char>, name: Seq<char>, i: int)
    ensures
        dimensions_of_text(json) is None ==> dimension_in_text(json, name) is None,
        dimensions_of_text(json) matches Some(dims) ==> {
            &&& 0 <= i < dims.len() && dims[i].0 == name && (forall|k: int|
                0 <= k < i ==> (#[trigger] dims[k]).0 != name) ==> dimension_in_text(json, name)
                == Some(dims[i].1)
            &&& (forall|k: int| 0 <= k < dims.len() ==> (#[trigger] dims[k]).0 != name)
                ==> dimension_in_text(json, name) is None
        },
{
    if let Some(dims) = dimensions_of_text(json) {
        if forall|k: int| 0 <= k < dims.len() ==> (#[trigger] dims[k]).0 != name {
            lemma_no_value(dims, name);
        }
        if 0 <= i < dims.len() && dims[i].0 == name && (forall|k: int|
            0 <= k < i ==> (#[trigger] dims[k]).0 != name) {
            lemma_value_at(dims, name, i);
        }
    }
}

proof fn lemma_no_value(dims: Seq<(Seq<char>, Seq<char>)>, name: Seq<char>)
    requires
        forall|k: int| 0 <= k < dims.len() ==> (#[trigger] dims[k]).0 != name,
    ensures
        first_value(dims, name) is None,
    decreases dims.len(),
{
    if dims.len() > 0 {
        assert(dims[0].0 != name);
        let rest = dims.drop_first();
        assert forall|k: int| 0 <= k < rest.len() implies (#[trigger] rest[k]).0 != name by {
            assert(rest[k] == dims[k + 1]);
        }
        lemma_no_value(rest, name);
    }
}

proof fn lemma_value_at(dims: Seq<(Seq<char>, Seq<char>)>, name: Seq<char>, i: int)
    requires
        0 <= i < dims.len(),
        dims[i].0 == name,
        forall|k: int| 0 <= k < i ==> (#[trigger] dims[k]).0 != name,
    ensures
        first_value(dims, name) == Some(dims[i].1),
    decreases i,
{
    if i > 0 {
        assert(dims[0].0 != name);
        let rest = dims.drop_first();
        assert forall|k: int| 0 <= k < i - 1 implies (#[trigger] rest[k]).0 != name by {
            assert(rest[k] == dims[k + 1]);
        }
        assert(rest[i - 1] == dims[i]);
        lemma_value_at(rest, name, i - 1);
    }
}

} // verus!
