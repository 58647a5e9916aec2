//! File names that hold a number.

use vstd::prelude::*;

use crate::text;
use crate::text::{chars_of, join3, padded_decimal_of, parse_int, string_of};

verus! {

/// A file name: a number between two fixed parts.
pub open spec fn numbered(front: Seq<char>, n: int, back: Seq<char>) -> Seq<char> {
    front + text::padded_decimal(n) + back
}

/// The file name with the number `n`.
pub fn numbered_name(front: &str, n: u64, back: &str) -> (r: String)
    ensures
        r@ == numbered(front@, n as int, back@),
{
    let digits = padded_decimal_of(n);
    join3(front, digits.as_str(), back)
}

/// The number in a file name, where the name consists of the two parts and a
/// number between.
pub open spec fn number_in(name: Seq<char>, front: Seq<char>, back: Seq<char>) -> Option<u64> {
    let n = name.len();
    if n < front.len() + back.len() || name.take(front.len() as int) != front || name.skip(
        n - back.len(),
    ) != back {
        None
    } else {
        match text::int_value(
            name.subrange(front.len() as int, n - back.len()),
            0,
            u64::MAX as int,
        ) {
            Ok(v) => Some(v as u64),
            Err(_) => None,
        }
    }
}

/// Whether the characters of `part` stand in `chars` from `at` on.
fn stands_at(chars: &Vec<char>, at: usize, part: &Vec<char>) -> (r: bool)
    requires
        at + part@.len() <= chars@.len(),
    ensures
        r == (chars@.subrange(at as int, at + part@.len()) == part@),
{
    let ghost there = chars@.subrange(at as int, at + part@.len());
    let n: usize = part.len();
    let room: usize = chars.len();
    for i in 0..n
        invariant
            n == part@.len(),
            room == chars@.len(),
            at + part@.len() <= chars@.len(),
            there == chars@.subrange(at as int, at + part@.len()),
            forall|j: int| 0 <= j < i ==> #[trigger] there[j] == part@[j],
    {
        assert(there[i as int] == chars@[at + i]);
        if chars[at + i] != part[i] {
            return false;
        }
    }
    assert(there =~= part@);
    true
}

/// The number in a file name.
pub fn number_in_name(name: &str, front: &str, back: &str) -> (r: Option<u64>)
    ensures
        r == number_in(name@, front@, back@),
{
    let chars = chars_of(name);
    let head = chars_of(front);
    let tail = chars_of(back);
    let n: usize = chars.len();
    if n < head.len() || n - head.len() < tail.len() {
        return None;
    }
    let end: usize = n - tail.len();
    let start: usize = head.len();
    assert(chars@.subrange(0, head@.len() as int) =~= name@.take(front@.len() as int));
    assert(chars@.subrange(end as int, end + tail@.len()) =~= name@.skip(n - back@.len()));
    if !stands_at(&chars, 0, &head) || !stands_at(&chars, end, &tail) {
        return None;
    }
    let mut middle: Vec<char> = Vec::new();
    for i in start..end
        invariant
            start <= end <= chars@.len(),
            middle@ == chars@.subrange(start as int, i as int),
    {
        middle.push(chars[i]);
        assert(chars@.subrange(start as int, i + 1) =~= chars@.subrange(start as int, i as int).push(
            chars@[i as int],
        ));
    }
    let digits = string_of(&middle);
    proof {
        lemma_value_range(digits@);
    }
    match parse_int(digits.as_str(), 0, u64::MAX as i128) {
        Ok(v) => Some(v as u64),
        Err(_) => None,
    }
}

/// A number that is read lies in its range.
pub proof fn lemma_value_range(s: Seq<char>)
    ensures
        text::int_value(s, 0, u64::MAX as int) matches Ok(n) ==> 0 <= n <= u64::MAX,
{
    if s.len() > 0 {
        lemma_digits_range(s.drop_first(), 0);
        lemma_digits_range(s, 0);
    }
}

proof fn lemma_digits_range(s: Seq<char>, acc: int)
    requires
        0 <= acc <= u64::MAX,
    ensures
        text::digits_value(s, false, acc, 0, u64::MAX as int) matches Ok(n) ==> 0 <= n <= u64::MAX,
    decreases s.len(),
{
    if s.len() > 0 && text::is_digit(s[0]) {
        let next = acc * 10 + (s[0] as int - 48);
        if next <= u64::MAX {
            lemma_digits_range(s.drop_first(), next);
        }
    }
}

/// The number of a file is found in its name.
pub proof fn law_name_round_trip(front: Seq<char>, n: u64, back: Seq<char>)
    ensures
        number_in(numbered(front, n as int, back), front, back) == Some(n),
{
    let name = numbered(front, n as int, back);
    let digits = text::padded_decimal(n as int);
    assert(name.take(front.len() as int) =~= front);
    assert(name.skip(name.len() - back.len()) =~= back);
    assert(name.subrange(front.len() as int, name.len() - back.len()) =~= digits);
    text::law_padded_round_trip(n as int, u64::MAX as int);
}

/// A number is found in a name exactly where the name is made of the two parts and a
/// number between them.
pub proof fn law_numbers_in_names(name: Seq<char>, front: Seq<char>, back: Seq<char>, n: u64)
    ensures
        number_in(name, front, back) == Some(n) <==> exists|digits: Seq<char>|
            name == #[trigger] (front + digits + back) && text::int_value(
                digits,
                0,
                u64::MAX as int,
            ) == Ok::<int, text::IntFault>(n as int),
{
    let len = name.len();
    if number_in(name, front, back) is Some {
        let digits = name.subrange(front.len() as int, len - back.len());
        lemma_value_range(digits);
        assert(name =~= front + digits + back);
    }
    if exists|digits: Seq<char>|
        name == #[trigger] (front + digits + back) && text::int_value(digits, 0, u64::MAX as int)
            == Ok::<int, text::IntFault>(n as int) {
        let digits = choose|digits: Seq<char>|
            name == #[trigger] (front + digits + back) && text::int_value(
                digits,
                0,
                u64::MAX as int,
            ) == Ok::<int, text::IntFault>(n as int);
        assert(name.take(front.len() as int) =~= front);
        assert(name.skip(len - back.len()) =~= back);
        assert(name.subrange(front.len() as int, len - back.len()) =~= digits);
    }
}

} // verus!
