//! Little-endian integers in byte strings, and the BLAKE3 digest.

use vstd::prelude::*;

verus! {

pub open spec fn pow256(n: nat) -> int
    decreases n,
{
    if n == 0 {
        1
    } else {
        256 * pow256((n - 1) as nat)
    }
}

/// The `n` low bytes of `v`, the lowest first.
pub open spec fn le_bytes(v: int, n: nat) -> Seq<u8>
    decreases n,
{
    if n == 0 {
        Seq::empty()
    } else {
        seq![(v % 256) as u8] + le_bytes(v / 256, (n - 1) as nat)
    }
}

/// The number that bytes denote, the lowest first.
pub open spec fn le_value(s: Seq<u8>) -> int
    decreases s.len(),
{
    if s.len() == 0 {
        0
    } else {
        s[0] as int + 256 * le_value(s.drop_first())
    }
}

pub proof fn lemma_le_bytes_len(v: int, n: nat)
    ensures
        le_bytes(v, n).len() == n,
    decreases n,
{
    if n > 0 {
        lemma_le_bytes_len(v / 256, (n - 1) as nat);
    }
}

pub proof fn lemma_le_value_bound(s: Seq<u8>)
    ensures
        0 <= le_value(s) < pow256(s.len()),
    decreases s.len(),
{
    if s.len() > 0 {
        lemma_le_value_bound(s.drop_first());
    }
}

/// Reading the bytes of a number gives the number back.
pub proof fn lemma_le_round_trip(v: int, n: nat)
    requires
        0 <= v < pow256(n),
    ensures
        le_value(le_bytes(v, n)) == v,
        le_bytes(v, n).len() == n,
    decreases n,
{
    if n > 0 {
        lemma_le_round_trip(v / 256, (n - 1) as nat);
        assert(le_bytes(v, n).drop_first() =~= le_bytes(v / 256, (n - 1) as nat));
    }
}

/// The bytes of the number that `s` denotes are `s`.
pub proof fn lemma_le_value_bytes(s: Seq<u8>)
    ensures
        le_bytes(le_value(s), s.len()) == s,
    decreases s.len(),
{
    if s.len() > 0 {
        let rest = s.drop_first();
        lemma_le_value_bytes(rest);
        let v = le_value(s);
        assert(v % 256 == s[0] as int);
        assert(v / 256 == le_value(rest));
        assert(le_bytes(v, s.len()) =~= seq![s[0]] + rest);
        assert(seq![s[0]] + rest =~= s);
    } else {
        assert(s =~= Seq::empty());
    }
}

pub proof fn lemma_pow256_values()
    ensures
        pow256(1) == 0x100,
        pow256(2) == 0x1_0000,
        pow256(4) == 0x1_0000_0000,
        pow256(8) == 0x1_0000_0000_0000_0000,
        pow256(16) == 0x1_0000_0000_0000_0000_0000_0000_0000_0000,
{
    reveal_with_fuel(pow256, 17);
}

proof fn lemma_pow256_monotonic(a: nat, b: nat)
    requires
        a <= b,
    ensures
        0 < pow256(a) <= pow256(b),
    decreases b,
{
    if a < b {
        lemma_pow256_monotonic(a, (b - 1) as nat);
    } else if a > 0 {
        lemma_pow256_monotonic((a - 1) as nat, (a - 1) as nat);
    }
}

/// Appends the `n` low bytes of `v`, the lowest first.
pub fn push_le(out: &mut Vec<u8>, v: u128, n: usize)
    ensures
        final(out)@ == old(out)@ + le_bytes(v as int, n as nat),
{
    let mut rest: u128 = v;
    let mut i: usize = 0;
    let ghost start = out@;
    while i < n
        invariant
            i <= n,
            out@ + le_bytes(rest as int, (n - i) as nat) == start + le_bytes(v as int, n as nat),
        decreases n - i,
    {
        let ghost before = out@;
        out.push((rest % 256) as u8);
        assert(out@ + le_bytes((rest / 256) as int, (n - i - 1) as nat) =~= before + le_bytes(
            rest as int,
            (n - i) as nat,
        ));
        rest = rest / 256;
        i = i + 1;
    }
    assert(le_bytes(rest as int, 0) =~= Seq::empty());
    assert(out@ + Seq::<u8>::empty() =~= out@);
}

/// The number in the `n` bytes at `at`, the lowest first.
pub fn read_le(data: &[u8], at: usize, n: usize) -> (r: u128)
    requires
        n <= 16,
        at + n <= data@.len(),
    ensures
        r == le_value(data@.subrange(at as int, at + n)),
        r < pow256(n as nat),
    decreases n,
{
    if n == 0 {
        assert(data@.subrange(at as int, at + n) =~= Seq::empty());
        0
    } else {
        assert(data@.len() == data.len());
        let high = read_le(data, at + 1, n - 1);
        let low = data[at];
        proof {
            let s = data@.subrange(at as int, at + n);
            assert(s.drop_first() =~= data@.subrange(at + 1, at + n));
            lemma_le_value_bound(s);
            lemma_pow256_monotonic(n as nat, 16);
            lemma_pow256_values();
        }
        low as u128 + 256 * high
    }
}

/// The number that the sixteen-byte two's complement form of `v` denotes.
pub open spec fn unsigned128(v: int) -> int {
    if v >= 0 {
        v
    } else {
        v + 0x1_0000_0000_0000_0000_0000_0000_0000_0000
    }
}

/// The number that the eight-byte two's complement form of `v` denotes.
pub open spec fn unsigned64(v: int) -> int {
    if v >= 0 {
        v
    } else {
        v + 0x1_0000_0000_0000_0000
    }
}

/// The number that the eight-byte form of `v` denotes.
pub fn unsigned64_of(v: i64) -> (r: u128)
    ensures
        r == unsigned64(v as int),
        r < 0x1_0000_0000_0000_0000,
{
    if v >= 0 {
        v as u128
    } else {
        (v as i128 + 0x1_0000_0000_0000_0000) as u128
    }
}

/// The number that the sixteen-byte form of `v` denotes.
pub fn unsigned128_of(v: i128) -> (r: u128)
    ensures
        r == unsigned128(v as int),
{
    if v >= 0 {
        v as u128
    } else {
        ((v + i128::MAX) + 1) as u128 + 0x8000_0000_0000_0000_0000_0000_0000_0000
    }
}

/// The BLAKE3 digest of `data`.
pub uninterp spec fn blake3_digest(data: Seq<u8>) -> Seq<u8>;

/// `blake3::hash`: the 32 bytes of the digest are a function of the bytes
/// alone. Nothing else is claimed of them.
#[verifier::external_body]
pub(crate) fn blake3_of(data: &[u8]) -> (r: [u8; 32])
    ensures
        r@ == blake3_digest(data@),
{
    *blake3::hash(data).as_bytes()
}

/// The bytes of a number: as many as are asked for, the lowest first.
pub proof fn law_lowest_byte_first(v: int, n: nat)
    requires
        n > 0,
    ensures
        le_bytes(v, n).len() == n,
        le_bytes(v, n)[0] == v % 256,
        le_bytes(v, n).drop_first() == le_bytes(v / 256, (n - 1) as nat),
        0 <= v < pow256(n) ==> le_value(le_bytes(v, n)) == v,
    decreases n,
{
    if n > 1 {
        law_lowest_byte_first(v / 256, (n - 1) as nat);
    }
    assert(le_bytes(v, n).drop_first() =~= le_bytes(v / 256, (n - 1) as nat));
    if 0 <= v < pow256(n) {
        lemma_le_round_trip(v, n);
    }
}

} // verus!
