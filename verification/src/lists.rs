//! Lists in text: items between commas.

use vstd::prelude::*;

use crate::text;
use crate::text::{chars_of, string_of};

verus! {

/// A character that counts as space, as Unicode's property `White_Space` has it.
pub open spec fn is_space(c: char) -> bool {
    let v = c as int;
    ||| 0x9 <= v <= 0xd
    ||| v == 0x20
    ||| v == 0x85
    ||| v == 0xa0
    ||| v == 0x1680
    ||| 0x2000 <= v <= 0x200a
    ||| v == 0x2028
    ||| v == 0x2029
    ||| v == 0x202f
    ||| v == 0x205f
    ||| v == 0x3000
}

/// A text without the space in front.
pub open spec fn trimmed_front(s: Seq<char>) -> Seq<char>
    decreases s.len(),
{
    if s.len() > 0 && is_space(s[0]) {
        trimmed_front(s.drop_first())
    } else {
        s
    }
}

/// A text without the space at the end.
pub open spec fn trimmed_back(s: Seq<char>) -> Seq<char>
    decreases s.len(),
{
    if s.len() > 0 && is_space(s.last()) {
        trimmed_back(s.drop_last())
    } else {
        s
    }
}

/// A text without the space around it.
pub open spec fn trimmed(s: Seq<char>) -> Seq<char> {
    trimmed_back(trimmed_front(s))
}

fn space(c: char) -> (r: bool)
    ensures
        r == is_space(c),
{
    let v: u32 = c as u32;
    (0x9 <= v && v <= 0xd) || v == 0x20 || v == 0x85 || v == 0xa0 || v == 0x1680 || (0x2000 <= v
        && v <= 0x200a) || v == 0x2028 || v == 0x2029 || v == 0x202f || v == 0x205f || v == 0x3000
}

/// The part of a text from `lo` to `hi`, without the space around it.
fn trimmed_part(chars: &Vec<char>, lo: usize, hi: usize) -> (r: String)
    requires
        lo <= hi <= chars@.len(),
    ensures
        r@ == trimmed(chars@.subrange(lo as int, hi as int)),
{
    let mut from: usize = lo;
    let mut to: usize = hi;
    while from < hi && space(chars[from])
        invariant
            lo <= from <= hi <= chars@.len(),
            trimmed_front(chars@.subrange(lo as int, hi as int)) == trimmed_front(
                chars@.subrange(from as int, hi as int),
            ),
        decreases hi - from,
    {
        assert(chars@.subrange(from as int, hi as int).drop_first() =~= chars@.subrange(
            from + 1,
            hi as int,
        ));
        from = from + 1;
    }
    let ghost front = chars@.subrange(from as int, hi as int);
    assert(trimmed_front(front) == front);
    while to > from && space(chars[to - 1])
        invariant
            from <= to <= hi <= chars@.len(),
            trimmed_back(front) == trimmed_back(chars@.subrange(from as int, to as int)),
        decreases to,
    {
        assert(chars@.subrange(from as int, to as int).drop_last() =~= chars@.subrange(
            from as int,
            to - 1,
        ));
        to = to - 1;
    }
    let mut part: Vec<char> = Vec::new();
    for i in from..to
        invariant
            from <= to <= chars@.len(),
            part@ == chars@.subrange(from as int, i as int),
    {
        part.push(chars[i]);
        assert(chars@.subrange(from as int, i + 1) =~= chars@.subrange(from as int, i as int).push(
            chars@[i as int],
        ));
    }
    assert(trimmed_back(part@) == part@);
    string_of(&part)
}

/// A text without the space around it.
pub fn trim_text(s: &str) -> (r: String)
    ensures
        r@ == trimmed(s@),
{
    let chars = chars_of(s);
    assert(chars@.subrange(0, chars@.len() as int) =~= chars@);
    let n: usize = chars.len();
    trimmed_part(&chars, 0, n)
}

/// The place of the first comma, or the length where there is none.
pub open spec fn comma_place(s: Seq<char>) -> int
    decreases s.len(),
{
    if s.len() == 0 || s[0] == ',' {
        0
    } else {
        1 + comma_place(s.drop_first())
    }
}

pub proof fn lemma_comma_place(s: Seq<char>)
    ensures
        0 <= comma_place(s) <= s.len(),
    decreases s.len(),
{
    if s.len() > 0 && s[0] != ',' {
        lemma_comma_place(s.drop_first());
    }
}

/// The items between the commas of a text, without the space around them; an
/// empty one is no item.
pub open spec fn items(s: Seq<char>) -> Seq<Seq<char>>
    decreases s.len(),
{
    let p = comma_place(s);
    let head = trimmed(s.take(p));
    let rest = if 0 <= p < s.len() {
        items(s.skip(p + 1))
    } else {
        Seq::empty()
    };
    if head.len() > 0 {
        seq![head] + rest
    } else {
        rest
    }
}

/// The items between the commas of a text.
pub fn split_list(s: &str) -> (r: Vec<String>)
    ensures
        text::text_views(r@) == items(s@),
{
    let chars = chars_of(s);
    let n: usize = chars.len();
    let mut out: Vec<String> = Vec::new();
    let mut start: usize = 0;
    let mut more = true;
    assert(s@.skip(0) =~= s@);
    assert(text::text_views(out@) =~= Seq::empty());
    assert(Seq::empty() + items(s@) =~= items(s@));
    while more
        invariant
            chars@ == s@,
            n == chars@.len(),
            start <= n,
            more ==> text::text_views(out@) + items(s@.skip(start as int)) == items(s@),
            !more ==> text::text_views(out@) == items(s@),
        decreases n - start, (if more { 1int } else { 0int }),
    {
        let ghost rest = s@.skip(start as int);
        let mut end: usize = start;
        assert(s@.skip(end as int) =~= rest);
        while end < n && chars[end] != ','
            invariant
                chars@ == s@,
                n == chars@.len(),
                start <= end <= n,
                comma_place(rest) == end - start + comma_place(s@.skip(end as int)),
            decreases n - end,
        {
            assert(s@.skip(end as int).drop_first() =~= s@.skip(end + 1));
            end = end + 1;
        }
        let ghost p = comma_place(rest);
        assert(p == end - start);
        let item = trimmed_part(&chars, start, end);
        assert(rest.take(p) =~= s@.subrange(start as int, end as int));
        let ghost before = text::text_views(out@);
        let ghost tail = if end < n {
            items(rest.skip(p + 1))
        } else {
            Seq::empty()
        };
        let blank = is_empty_text(&item);
        if !blank {
            proof {
                text::lemma_texts_push(out@, item);
                assert(before + (seq![item@] + tail) =~= before.push(item@) + tail);
            }
            out.push(item);
        }
        if end < n {
            assert(rest.skip(p + 1) =~= s@.skip(end + 1));
            start = end + 1;
        } else {
            assert(text::text_views(out@) + Seq::<Seq<char>>::empty() =~= text::text_views(out@));
            more = false;
        }
    }
    out
}

/// Whether a text has no characters.
pub fn is_empty_text(s: &String) -> (r: bool)
    ensures
        r == (s@.len() == 0),
{
    proof {
        reveal_strlit("");
        assert(s@.len() == 0 ==> s@ =~= ""@);
    }
    text::same_text(s.as_str(), "")
}

/// A text between spaces is what is left of them: nothing but space is taken away, and
/// none is left at either end.
pub proof fn law_trimming(front: Seq<char>, middle: Seq<char>, back: Seq<char>)
    requires
        forall|i: int| 0 <= i < front.len() ==> is_space(#[trigger] front[i]),
        forall|i: int| 0 <= i < back.len() ==> is_space(#[trigger] back[i]),
        middle.len() > 0 ==> !is_space(middle[0]) && !is_space(middle.last()),
    ensures
        trimmed(front + middle + back) == middle,
{
    lemma_front(front, middle + back);
    assert(front + middle + back =~= front + (middle + back));
    if middle.len() > 0 {
        assert((middle + back)[0] == middle[0]);
        lemma_back(middle, back);
    } else {
        assert(middle + back =~= back);
        lemma_front(back, Seq::empty());
        assert(back + Seq::<char>::empty() =~= back);
    }
}

proof fn lemma_front(front: Seq<char>, rest: Seq<char>)
    requires
        forall|i: int| 0 <= i < front.len() ==> is_space(#[trigger] front[i]),
    ensures
        trimmed_front(front + rest) == trimmed_front(rest),
    decreases front.len(),
{
    if front.len() == 0 {
        assert(front + rest =~= rest);
    } else {
        assert(is_space(front[0]));
        assert((front + rest).drop_first() =~= front.drop_first() + rest);
        lemma_front(front.drop_first(), rest);
    }
}

proof fn lemma_back(rest: Seq<char>, back: Seq<char>)
    requires
        forall|i: int| 0 <= i < back.len() ==> is_space(#[trigger] back[i]),
    ensures
        trimmed_back(rest + back) == trimmed_back(rest),
    decreases back.len(),
{
    if back.len() == 0 {
        assert(rest + back =~= rest);
    } else {
        assert(is_space(back[back.len() - 1]));
        assert((rest + back).drop_last() =~= rest + back.drop_last());
        lemma_back(rest, back.drop_last());
    }
}

/// The items of two lists with a comma between are those of the one and then those of the
/// other. A text without a comma is one item, without the space around it, or none where
/// it is all space.
pub proof fn law_items_of_lists(a: Seq<char>, b: Seq<char>)
    ensures
        items(a + seq![','] + b) == items(a) + items(b),
        !a.contains(',') && trimmed(a).len() > 0 ==> items(a) == seq![trimmed(a)],
        !a.contains(',') && trimmed(a).len() == 0 ==> items(a) == Seq::<Seq<char>>::empty(),
    decreases a.len(),
{
    lemma_comma_place(a);
    let p = comma_place(a);
    let s = a + seq![','] + b;
    lemma_comma_behind(a, b);
    if 0 <= p < a.len() {
        let rest = a.skip(p + 1);
        law_items_of_lists(rest, b);
        assert(s.take(p) =~= a.take(p));
        assert(s.skip(p + 1) =~= rest + seq![','] + b);
        assert(a.contains(a[p]));
        assert(items(s) =~= items(a) + items(b));
    } else {
        assert(s.take(p) =~= a.take(p));
        assert(a.take(p) =~= a);
        assert(s.skip(p + 1) =~= b);
        assert(items(s) =~= items(a) + items(b));
    }
}

proof fn lemma_comma_behind(a: Seq<char>, b: Seq<char>)
    ensures
        comma_place(a + seq![','] + b) == comma_place(a),
        0 <= comma_place(a) <= a.len(),
        comma_place(a) < a.len() ==> a[comma_place(a)] == ',',
    decreases a.len(),
{
    let s = a + seq![','] + b;
    if a.len() > 0 {
        assert(s[0] == a[0]);
        assert(s.drop_first() =~= a.drop_first() + seq![','] + b);
        lemma_comma_behind(a.drop_first(), b);
    }
}

} // verus!
