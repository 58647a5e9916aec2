//! Text: ordering, concatenation, decimal numbers.

use vstd::prelude::*;

verus! {

// ---------------------------------------------------------------------------
// Building strings
// ---------------------------------------------------------------------------

/// `String::push`: the character is appended behind what the string holds.
pub assume_specification[ String::push ](s: &mut String, c: char)
    ensures
        final(s)@ == old(s)@.push(c),
;

/// The characters of a text, one by one.
pub fn chars_of(s: &str) -> (v: Vec<char>)
    ensures
        v@ == s@,
{
    let mut v: Vec<char> = Vec::new();
    for c in it: s.chars()
        invariant
            v@ == s@.take(it.index()),
            it.seq() == s@,
    {
        v.push(c);
    }
    v
}

/// A text out of its characters.
pub fn string_of(chars: &Vec<char>) -> (s: String)
    ensures
        s@ == chars@,
{
    let mut s = String::new();
    for i in 0..chars.len()
        invariant
            s@ == chars@.take(i as int),
    {
        s.push(chars[i]);
    }
    s
}

/// `a` followed by `b`.
pub fn join2(a: &str, b: &str) -> (r: String)
    ensures
        r@ == a@ + b@,
{
    let mut s = a.to_owned();
    s.append(b);
    s
}

/// `a`, `b` and `c`, one after the other.
pub fn join3(a: &str, b: &str, c: &str) -> (r: String)
    ensures
        r@ == a@ + b@ + c@,
{
    let mut s = a.to_owned();
    s.append(b);
    s.append(c);
    s
}

/// Texts by their contents, in their order.
pub open spec fn text_views(texts: Seq<String>) -> Seq<Seq<char>> {
    texts.map_values(|t: String| t@)
}

pub open spec fn option_view(t: Option<String>) -> Option<Seq<char>> {
    match t {
        Some(t) => Some(t@),
        None => None,
    }
}

pub open spec fn option_views(values: Seq<Option<String>>) -> Seq<Option<Seq<char>>> {
    values.map_values(|v: Option<String>| option_view(v))
}

pub proof fn lemma_texts_push(texts: Seq<String>, t: String)
    ensures
        text_views(texts.push(t)) == text_views(texts).push(t@),
{
    assert(text_views(texts.push(t)) =~= text_views(texts).push(t@));
}

/// Copies of texts, in their order.
pub fn clone_texts(texts: &Vec<String>) -> (r: Vec<String>)
    ensures
        text_views(r@) == text_views(texts@),
{
    let mut r: Vec<String> = Vec::new();
    for i in 0..texts.len()
        invariant
            text_views(r@) == text_views(texts@).take(i as int),
    {
        let t = texts[i].clone();
        proof {
            lemma_texts_push(r@, t);
            assert(text_views(texts@)[i as int] == texts@[i as int]@);
        }
        r.push(t);
        assert(text_views(texts@).take(i + 1) =~= text_views(texts@).take(i as int).push(
            texts@[i as int]@,
        ));
    }
    assert(text_views(texts@).take(texts@.len() as int) =~= text_views(texts@));
    r
}

pub fn clone_option(t: &Option<String>) -> (r: Option<String>)
    ensures
        option_view(r) == option_view(*t),
{
    match t {
        Some(t) => Some(t.clone()),
        None => None,
    }
}

/// Whether `t` is among `texts`.
pub fn contains_text(texts: &Vec<String>, t: &str) -> (r: bool)
    ensures
        r == text_views(texts@).contains(t@),
{
    for i in 0..texts.len()
        invariant
            forall|j: int| 0 <= j < i ==> #[trigger] text_views(texts@)[j] != t@,
    {
        assert(text_views(texts@)[i as int] == texts@[i as int]@);
        if same_text(texts[i].as_str(), t) {
            return true;
        }
    }
    false
}

// ---------------------------------------------------------------------------
// Order
// ---------------------------------------------------------------------------

/// `a` comes before `b` in the lexicographic order of their characters.
pub open spec fn text_lt(a: Seq<char>, b: Seq<char>) -> bool
    decreases a.len(),
{
    if b.len() == 0 {
        false
    } else if a.len() == 0 {
        true
    } else if a[0] == b[0] {
        text_lt(a.drop_first(), b.drop_first())
    } else {
        (a[0] as int) < (b[0] as int)
    }
}

pub open spec fn text_le(a: Seq<char>, b: Seq<char>) -> bool {
    a == b || text_lt(a, b)
}

pub proof fn lemma_text_lt_irreflexive(a: Seq<char>)
    ensures
        !text_lt(a, a),
    decreases a.len(),
{
    if a.len() > 0 {
        lemma_text_lt_irreflexive(a.drop_first());
    }
}

pub proof fn lemma_text_lt_transitive(a: Seq<char>, b: Seq<char>, c: Seq<char>)
    requires
        text_lt(a, b),
        text_lt(b, c),
    ensures
        text_lt(a, c),
    decreases a.len(),
{
    if a.len() > 0 && a[0] == b[0] && b[0] == c[0] {
        lemma_text_lt_transitive(a.drop_first(), b.drop_first(), c.drop_first());
    }
}

pub proof fn lemma_text_lt_total(a: Seq<char>, b: Seq<char>)
    ensures
        a == b || text_lt(a, b) || text_lt(b, a),
    decreases a.len(),
{
    if a.len() == 0 && b.len() == 0 {
        assert(a =~= b);
    } else if a.len() > 0 && b.len() > 0 && a[0] == b[0] {
        lemma_text_lt_total(a.drop_first(), b.drop_first());
        if a.drop_first() == b.drop_first() {
            assert(a =~= seq![a[0]] + a.drop_first());
            assert(b =~= seq![b[0]] + b.drop_first());
        }
    }
}

pub proof fn lemma_text_lt_asymmetric(a: Seq<char>, b: Seq<char>)
    requires
        text_lt(a, b),
    ensures
        !text_lt(b, a),
        a != b,
{
    lemma_text_lt_irreflexive(a);
    if text_lt(b, a) {
        lemma_text_lt_transitive(a, b, a);
    }
}

/// `PartialOrd for str` of std: strings are ordered lexicographically by their
/// bytes, which orders them by the code points of their characters.
#[verifier::external_body]
pub(crate) fn str_less(a: &str, b: &str) -> (r: bool)
    ensures
        r == text_lt(a@, b@),
{
    a < b
}

/// Whether two texts hold the same characters.
pub fn same_text(a: &str, b: &str) -> (r: bool)
    ensures
        r == (a@ == b@),
{
    let less = str_less(a, b);
    let more = str_less(b, a);
    proof {
        lemma_text_lt_total(a@, b@);
        lemma_text_lt_irreflexive(a@);
    }
    !less && !more
}

// ---------------------------------------------------------------------------
// Case
// ---------------------------------------------------------------------------

pub open spec fn ascii_upper(c: char) -> char {
    if 97 <= c as int <= 122 {
        (c as int - 32) as char
    } else {
        c
    }
}

pub open spec fn ascii_lower(c: char) -> char {
    if 65 <= c as int <= 90 {
        (c as int + 32) as char
    } else {
        c
    }
}

pub open spec fn all_ascii(s: Seq<char>) -> bool {
    forall|i: int| 0 <= i < s.len() ==> ((#[trigger] s[i]) as int) < 128
}

/// A text in upper case, as Unicode defines it.
pub uninterp spec fn uppercase(s: Seq<char>) -> Seq<char>;

/// A text in lower case, as Unicode defines it.
pub uninterp spec fn lowercase(s: Seq<char>) -> Seq<char>;

/// `str::to_uppercase` of std: a function of the text alone, which on ASCII
/// replaces the letters `a` to `z` and keeps the rest.
#[verifier::external_body]
pub(crate) fn to_upper(s: &str) -> (r: String)
    ensures
        r@ == uppercase(s@),
        all_ascii(s@) ==> r@ == s@.map_values(|c: char| ascii_upper(c)),
{
    s.to_uppercase()
}

/// `str::to_lowercase` of std: a function of the text alone, which on ASCII
/// replaces the letters `A` to `Z` and keeps the rest.
#[verifier::external_body]
pub(crate) fn to_lower(s: &str) -> (r: String)
    ensures
        r@ == lowercase(s@),
        all_ascii(s@) ==> r@ == s@.map_values(|c: char| ascii_lower(c)),
{
    s.to_lowercase()
}

// ---------------------------------------------------------------------------
// Decimal numbers
// ---------------------------------------------------------------------------

/// The character of one decimal digit.
pub open spec fn digit_char(d: int) -> char {
    (48 + d) as char
}

/// The decimal digits of a natural number, without leading zeros.
pub open spec fn decimal(n: int) -> Seq<char>
    decreases n,
{
    if n < 10 {
        seq![digit_char(n)]
    } else {
        decimal(n / 10).push(digit_char(n % 10))
    }
}

/// The decimal digits of an integer, behind a minus sign where it is negative.
pub open spec fn signed_decimal(n: int) -> Seq<char> {
    if n < 0 {
        seq!['-'] + decimal(-n)
    } else {
        decimal(n)
    }
}

fn digit_char_of(d: u128) -> (c: char)
    requires
        d < 10,
    ensures
        c == digit_char(d as int),
{
    if d == 0 {
        '0'
    } else if d == 1 {
        '1'
    } else if d == 2 {
        '2'
    } else if d == 3 {
        '3'
    } else if d == 4 {
        '4'
    } else if d == 5 {
        '5'
    } else if d == 6 {
        '6'
    } else if d == 7 {
        '7'
    } else if d == 8 {
        '8'
    } else {
        '9'
    }
}

/// The decimal digits of `n`.
pub fn decimal_of(n: u128) -> (r: String)
    ensures
        r@ == decimal(n as int),
    decreases n,
{
    if n < 10 {
        let mut s = String::new();
        s.push(digit_char_of(n));
        assert(s@ =~= seq![digit_char(n as int)]);
        s
    } else {
        let mut s = decimal_of(n / 10);
        s.push(digit_char_of(n % 10));
        s
    }
}

/// The magnitude of a negative number.
fn magnitude(n: i128) -> (m: u128)
    requires
        n < 0,
    ensures
        m == -n,
{
    ((-(n + 1)) as u128) + 1
}

/// The decimal digits of `n`, behind a minus sign where it is negative.
pub fn signed_decimal_of(n: i128) -> (r: String)
    ensures
        r@ == signed_decimal(n as int),
{
    if n < 0 {
        let digits = decimal_of(magnitude(n));
        let mut s = String::new();
        s.push('-');
        s.append(digits.as_str());
        assert(s@ =~= seq!['-'] + decimal(-n));
        s
    } else {
        decimal_of(n as u128)
    }
}

/// `width` digits of `n`, with leading zeros: the last ones where `n` has more.
pub open spec fn low_digits(n: int, width: nat) -> Seq<char>
    decreases width,
{
    if width == 0 {
        Seq::empty()
    } else {
        low_digits(n / 10, (width - 1) as nat).push(digit_char(n % 10))
    }
}

/// A natural number in at least six digits, with leading zeros.
pub open spec fn padded_decimal(n: int) -> Seq<char> {
    if n < 1_000_000 {
        low_digits(n, 6)
    } else {
        decimal(n)
    }
}

fn low_digits_of(n: u128, width: u8) -> (r: String)
    ensures
        r@ == low_digits(n as int, width as nat),
    decreases width,
{
    if width == 0 {
        let s = String::new();
        assert(s@ =~= Seq::empty());
        s
    } else {
        let mut s = low_digits_of(n / 10, width - 1);
        s.push(digit_char_of(n % 10));
        s
    }
}

/// `n` in at least six digits, with leading zeros.
pub fn padded_decimal_of(n: u64) -> (r: String)
    ensures
        r@ == padded_decimal(n as int),
{
    if n < 1_000_000 {
        low_digits_of(n as u128, 6)
    } else {
        decimal_of(n as u128)
    }
}

/// The character of one hexadecimal digit, in lower case.
pub open spec fn hex_char(d: int) -> char {
    if d < 10 {
        (48 + d) as char
    } else {
        (87 + d) as char
    }
}

/// `width` hexadecimal digits of `n`, with leading zeros.
pub open spec fn low_hex(n: int, width: nat) -> Seq<char>
    decreases width,
{
    if width == 0 {
        Seq::empty()
    } else {
        low_hex(n / 16, (width - 1) as nat).push(hex_char(n % 16))
    }
}

fn hex_char_of(d: u64) -> (c: char)
    requires
        d < 16,
    ensures
        c == hex_char(d as int),
{
    if d < 10 {
        digit_char_of(d as u128)
    } else if d == 10 {
        'a'
    } else if d == 11 {
        'b'
    } else if d == 12 {
        'c'
    } else if d == 13 {
        'd'
    } else if d == 14 {
        'e'
    } else {
        'f'
    }
}

/// The hexadecimal digits of `n`, without leading zeros.
pub open spec fn hexadecimal(n: int) -> Seq<char>
    decreases n,
{
    if n < 16 {
        seq![hex_char(n)]
    } else {
        hexadecimal(n / 16).push(hex_char(n % 16))
    }
}

/// The hexadecimal digits of `n`, without leading zeros.
pub fn hexadecimal_of(n: u64) -> (r: String)
    ensures
        r@ == hexadecimal(n as int),
    decreases n,
{
    if n < 16 {
        let mut s = String::new();
        s.push(hex_char_of(n));
        assert(s@ =~= seq![hex_char(n as int)]);
        s
    } else {
        let mut s = hexadecimal_of(n / 16);
        s.push(hex_char_of(n % 16));
        s
    }
}

/// The low `width` hexadecimal digits of `n`.
pub fn low_hex_of(n: u64, width: u8) -> (r: String)
    ensures
        r@ == low_hex(n as int, width as nat),
    decreases width,
{
    if width == 0 {
        let s = String::new();
        assert(s@ =~= Seq::empty());
        s
    } else {
        let mut s = low_hex_of(n / 16, width - 1);
        s.push(hex_char_of(n % 16));
        s
    }
}

// ---------------------------------------------------------------------------
// Reading integers
// ---------------------------------------------------------------------------

/// Why a text is no integer of the wanted type.
#[derive(Debug, Clone, Copy, PartialEq, Eq, Structural)]
pub enum IntFault {
    Empty,
    InvalidDigit,
    TooLarge,
    TooSmall,
}

/// What is said of an integer that cannot be read.
pub open spec fn int_fault_text(f: IntFault) -> Seq<char> {
    match f {
        IntFault::Empty => "cannot parse integer from empty string"@,
        IntFault::InvalidDigit => "invalid digit found in string"@,
        IntFault::TooLarge => "number too large to fit in target type"@,
        IntFault::TooSmall => "number too small to fit in target type"@,
    }
}

impl IntFault {
    /// What is said of an integer that cannot be read.
    pub fn message(self) -> (r: String)
        ensures
            r@ == int_fault_text(self),
    {
        match self {
            IntFault::Empty => "cannot parse integer from empty string".to_owned(),
            IntFault::InvalidDigit => "invalid digit found in string".to_owned(),
            IntFault::TooLarge => "number too large to fit in target type".to_owned(),
            IntFault::TooSmall => "number too small to fit in target type".to_owned(),
        }
    }
}

pub open spec fn is_digit(c: char) -> bool {
    48 <= c as int <= 57
}

/// The value of a run of digits read after `acc`, kept within `min..=max` at
/// every step: the first character that is no digit, or the first step that
/// leaves the range, decides.
pub open spec fn digits_value(s: Seq<char>, negative: bool, acc: int, min: int, max: int) -> Result<
    int,
    IntFault,
>
    decreases s.len(),
{
    if s.len() == 0 {
        Ok(acc)
    } else if !is_digit(s[0]) {
        Err(IntFault::InvalidDigit)
    } else {
        let d = s[0] as int - 48;
        let next = if negative {
            acc * 10 - d
        } else {
            acc * 10 + d
        };
        if next > max {
            Err(IntFault::TooLarge)
        } else if next < min {
            Err(IntFault::TooSmall)
        } else {
            digits_value(s.drop_first(), negative, next, min, max)
        }
    }
}

/// The integer in `min..=max` that a text denotes: decimal digits behind an
/// optional `+`, or behind `-` where the range holds negative numbers.
pub open spec fn int_value(s: Seq<char>, min: int, max: int) -> Result<int, IntFault> {
    if s.len() == 0 {
        Err(IntFault::Empty)
    } else if s.len() == 1 && (s[0] == '+' || s[0] == '-') {
        Err(IntFault::InvalidDigit)
    } else if s[0] == '+' {
        digits_value(s.drop_first(), false, 0, min, max)
    } else if s[0] == '-' && min < 0 {
        digits_value(s.drop_first(), true, 0, min, max)
    } else {
        digits_value(s, false, 0, min, max)
    }
}

fn digit_of(c: char) -> (r: Option<i128>)
    ensures
        r matches Some(d) ==> is_digit(c) && d == c as int - 48,
        r is None ==> !is_digit(c),
{
    if c == '0' {
        Some(0)
    } else if c == '1' {
        Some(1)
    } else if c == '2' {
        Some(2)
    } else if c == '3' {
        Some(3)
    } else if c == '4' {
        Some(4)
    } else if c == '5' {
        Some(5)
    } else if c == '6' {
        Some(6)
    } else if c == '7' {
        Some(7)
    } else if c == '8' {
        Some(8)
    } else if c == '9' {
        Some(9)
    } else {
        None
    }
}

/// One more digit behind `acc`, or `None` where the result leaves `min..=max`.
fn shifted(acc: i128, d: i128, negative: bool, min: i128, max: i128) -> (r: Option<i128>)
    requires
        0 <= d < 10,
        min <= acc <= max,
        negative ==> acc <= 0,
        !negative ==> acc >= 0,
    ensures
        ({
            let next = if negative {
                acc * 10 - d
            } else {
                acc * 10 + d
            };
            r == (if min <= next <= max {
                Some(next as i128)
            } else {
                None::<i128>
            })
        }),
{
    let tens: i128 = match acc.checked_mul(10) {
        Some(t) => t,
        None => {
            return None;
        },
    };
    let next = if negative {
        tens.checked_sub(d)
    } else {
        tens.checked_add(d)
    };
    match next {
        Some(n) => if min <= n && n <= max {
            Some(n)
        } else {
            None
        },
        None => None,
    }
}

fn read_digits(chars: &Vec<char>, start: usize, negative: bool, min: i128, max: i128) -> (r: Result<
    i128,
    IntFault,
>)
    requires
        start <= chars.len(),
        min <= 0 <= max,
    ensures
        match r {
            Ok(n) => digits_value(
                chars@.skip(start as int),
                negative,
                0,
                min as int,
                max as int,
            ) == Ok::<int, IntFault>(n as int),
            Err(e) => digits_value(
                chars@.skip(start as int),
                negative,
                0,
                min as int,
                max as int,
            ) == Err::<int, IntFault>(e),
        },
{
    let mut acc: i128 = 0;
    let mut i: usize = start;
    while i < chars.len()
        invariant
            start <= i <= chars.len(),
            min <= acc <= max,
            negative ==> acc <= 0,
            !negative ==> acc >= 0,
            digits_value(chars@.skip(start as int), negative, 0, min as int, max as int)
                == digits_value(chars@.skip(i as int), negative, acc as int, min as int, max as int),
        decreases chars.len() - i,
    {
        assert(chars@.skip(i as int).drop_first() =~= chars@.skip(i + 1));
        match digit_of(chars[i]) {
            None => {
                return Err(IntFault::InvalidDigit);
            },
            Some(d) => {
                match shifted(acc, d, negative, min, max) {
                    Some(next) => {
                        acc = next;
                    },
                    None => {
                        return Err(
                            if negative {
                                IntFault::TooSmall
                            } else {
                                IntFault::TooLarge
                            },
                        );
                    },
                }
            },
        }
        i = i + 1;
    }
    Ok(acc)
}

/// Reads an integer in `min..=max` as `int_value` says.
pub fn parse_int(s: &str, min: i128, max: i128) -> (r: Result<i128, IntFault>)
    requires
        min <= 0 <= max,
    ensures
        match r {
            Ok(n) => int_value(s@, min as int, max as int) == Ok::<int, IntFault>(n as int),
            Err(e) => int_value(s@, min as int, max as int) == Err::<int, IntFault>(e),
        },
{
    let chars = chars_of(s);
    if chars.len() == 0 {
        return Err(IntFault::Empty);
    }
    let first = chars[0];
    assert(chars@.skip(1) =~= s@.drop_first());
    assert(chars@.skip(0) =~= s@);
    if chars.len() == 1 && (first == '+' || first == '-') {
        Err(IntFault::InvalidDigit)
    } else if first == '+' {
        read_digits(&chars, 1, false, min, max)
    } else if first == '-' && min < 0 {
        read_digits(&chars, 1, true, min, max)
    } else {
        read_digits(&chars, 0, false, min, max)
    }
}

proof fn lemma_digits_value_concat(
    a: Seq<char>,
    b: Seq<char>,
    negative: bool,
    acc: int,
    min: int,
    max: int,
)
    ensures
        digits_value(a + b, negative, acc, min, max) == (match digits_value(
            a,
            negative,
            acc,
            min,
            max,
        ) {
            Ok(v) => digits_value(b, negative, v, min, max),
            Err(e) => Err(e),
        }),
    decreases a.len(),
{
    if a.len() == 0 {
        assert(a + b =~= b);
    } else {
        let d = a[0] as int - 48;
        let next = if negative {
            acc * 10 - d
        } else {
            acc * 10 + d
        };
        assert((a + b).drop_first() =~= a.drop_first() + b);
        if is_digit(a[0]) && min <= next <= max {
            lemma_digits_value_concat(a.drop_first(), b, negative, next, min, max);
        }
    }
}

proof fn lemma_digits_of_decimal(n: int, negative: bool, min: int, max: int)
    requires
        0 <= n,
        min <= 0 <= max,
        negative ==> min <= -n,
        !negative ==> n <= max,
    ensures
        digits_value(decimal(n), negative, 0, min, max) == Ok::<int, IntFault>(
            if negative {
                -n
            } else {
                n
            },
        ),
        decimal(n).len() > 0,
        is_digit(decimal(n)[0]),
    decreases n,
{
    let last = seq![digit_char(n % 10)];
    reveal_with_fuel(digits_value, 3);
    if n >= 10 {
        lemma_digits_of_decimal(n / 10, negative, min, max);
        lemma_digits_value_concat(decimal(n / 10), last, negative, 0, min, max);
        assert(decimal(n) =~= decimal(n / 10) + last);
        assert(last.drop_first() =~= Seq::empty());
    } else {
        assert(decimal(n).drop_first() =~= Seq::empty());
    }
}

/// Reading the decimal form of an integer gives the integer back.
pub proof fn law_decimal_round_trip(n: int, min: int, max: int)
    requires
        min <= n <= max,
        min <= 0 <= max,
    ensures
        int_value(signed_decimal(n), min, max) == Ok::<int, IntFault>(n),
{
    if n < 0 {
        lemma_digits_of_decimal(-n, true, min, max);
        assert(signed_decimal(n).drop_first() =~= decimal(-n));
    } else {
        lemma_digits_of_decimal(n, false, min, max);
    }
}

spec fn ten_to(width: nat) -> int
    decreases width,
{
    if width == 0 {
        1
    } else {
        10 * ten_to((width - 1) as nat)
    }
}

proof fn lemma_low_digits_value(n: int, width: nat, max: int)
    requires
        0 <= n <= max,
        n < ten_to(width),
    ensures
        digits_value(low_digits(n, width), false, 0, 0, max) == Ok::<int, IntFault>(n),
        low_digits(n, width).len() == width,
        width > 0 ==> is_digit(low_digits(n, width)[0]),
    decreases width,
{
    if width > 0 {
        let head = low_digits(n / 10, (width - 1) as nat);
        let last = seq![digit_char(n % 10)];
        reveal_with_fuel(digits_value, 3);
        lemma_low_digits_value(n / 10, (width - 1) as nat, max);
        lemma_digits_value_concat(head, last, false, 0, 0, max);
        assert(low_digits(n, width) =~= head + last);
        assert(last.drop_first() =~= Seq::empty());
    }
}

/// Reading a number in its padded form gives the number back.
pub proof fn law_padded_round_trip(n: int, max: int)
    requires
        0 <= n <= max,
    ensures
        int_value(padded_decimal(n), 0, max) == Ok::<int, IntFault>(n),
{
    if n < 1_000_000 {
        reveal_with_fuel(ten_to, 7);
        lemma_low_digits_value(n, 6, max);
    } else {
        lemma_digits_of_decimal(n, false, 0, max);
    }
}

/// The decimal form of a natural number: its digits, of which the last is the
/// remainder by ten, and in front of it the form of the quotient, where that is not
/// zero. A minus sign stands before a negative number.
pub proof fn law_decimal_digits(n: int)
    requires
        n >= 0,
    ensures
        decimal(n).len() > 0,
        decimal(n).last() as int == '0' as int + n % 10,
        n < 10 ==> decimal(n).len() == 1,
        n >= 10 ==> decimal(n).drop_last() == decimal(n / 10),
        signed_decimal(n) == decimal(n),
        n > 0 ==> signed_decimal(-n) == seq!['-'] + decimal(n),
{
    if n >= 10 {
        assert(decimal(n).drop_last() =~= decimal(n / 10));
    }
}

/// Nothing is read as an integer but digits behind at most one sign, and what is read
/// lies in the range.
pub proof fn law_only_digits_are_read(s: Seq<char>, min: int, max: int)
    requires
        min <= 0 <= max,
    ensures
        int_value(s, min, max) matches Ok(n) ==> {
            &&& s.len() > 0
            &&& min <= n <= max
            &&& '0' as int <= s.last() as int <= '9' as int
            &&& forall|i: int|
                1 <= i < s.len() ==> '0' as int <= (#[trigger] s[i]) as int <= '9' as int
            &&& s[0] == '+' || s[0] == '-' || '0' as int <= s[0] as int <= '9' as int
        },
{
    if s.len() > 0 {
        lemma_all_digits(s, false, 0, min, max);
        lemma_all_digits(s.drop_first(), false, 0, min, max);
        lemma_all_digits(s.drop_first(), true, 0, min, max);
        let rest = s.drop_first();
        if int_value(s, min, max) is Ok {
            assert forall|i: int| 1 <= i < s.len() implies '0' as int <= (#[trigger] s[i]) as int
                <= '9' as int by {
                assert(s[i] == rest[i - 1]);
            }
        }
    }
}

proof fn lemma_all_digits(s: Seq<char>, negative: bool, acc: int, min: int, max: int)
    requires
        min <= acc <= max,
    ensures
        digits_value(s, negative, acc, min, max) matches Ok(n) ==> min <= n <= max && forall|i: int|
            0 <= i < s.len() ==> '0' as int <= (#[trigger] s[i]) as int <= '9' as int,
    decreases s.len(),
{
    if s.len() > 0 && is_digit(s[0]) {
        let d = s[0] as int - 48;
        let next = if negative {
            acc * 10 - d
        } else {
            acc * 10 + d
        };
        if min <= next <= max {
            let rest = s.drop_first();
            lemma_all_digits(rest, negative, next, min, max);
            if digits_value(s, negative, acc, min, max) is Ok {
                assert forall|i: int| 0 <= i < s.len() implies '0' as int <= (
                #[trigger] s[i]) as int <= '9' as int by {
                    if i > 0 {
                        assert(s[i] == rest[i - 1]);
                    }
                }
            }
        }
    }
}

/// Of two texts the first characters that differ decide which comes first, and a text
/// comes before what it begins.
pub proof fn law_order_of_texts(
    common: Seq<char>,
    x: char,
    y: char,
    a: Seq<char>,
    b: Seq<char>,
)
    ensures
        (x as int) < (y as int) ==> text_lt(common + (seq![x] + a), common + (seq![y] + b)),
        text_lt(common, common + (seq![x] + a)),
        !text_lt(common + (seq![x] + a), common),
    decreases common.len(),
{
    let one = common + (seq![x] + a);
    let two = common + (seq![y] + b);
    if common.len() > 0 {
        let rest = common.drop_first();
        law_order_of_texts(rest, x, y, a, b);
        assert(one.drop_first() =~= rest + (seq![x] + a));
        assert(two.drop_first() =~= rest + (seq![y] + b));
        assert(one[0] == common[0] && two[0] == common[0]);
    } else {
        assert(one =~= seq![x] + a);
        assert(two =~= seq![y] + b);
        assert(one[0] == x && two[0] == y);
    }
}

/// A number in sixteen-digit form: as many digits as are asked for, of which the last is
/// that of the remainder and the others are those of the quotient.
pub proof fn law_hexadecimal_digits(n: int, width: nat)
    requires
        0 <= n,
        width > 0,
    ensures
        low_hex(n, width).len() == width,
        low_hex(n, width).last() == "0123456789abcdef"@[n % 16],
        low_hex(n, width).drop_last() == low_hex(n / 16, (width - 1) as nat),
        n < 16 ==> hexadecimal(n) == seq!["0123456789abcdef"@[n % 16]],
        n >= 16 ==> hexadecimal(n) == hexadecimal(n / 16).push("0123456789abcdef"@[n % 16]),
    decreases width,
{
    reveal_strlit("0123456789abcdef");
    if width > 1 {
        law_hexadecimal_digits(n / 16, (width - 1) as nat);
    }
    let d = n % 16;
    assert(hex_char(d) == "0123456789abcdef"@[d]);
    assert(low_hex(n, width).drop_last() =~= low_hex(n / 16, (width - 1) as nat));
}

} // verus!
