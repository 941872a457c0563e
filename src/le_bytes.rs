//! Little-endian words inside a nine-byte window.
use vstd::arithmetic::power2::*;
use vstd::prelude::*;

verus! {

/// The number that the `n` bytes of `s` starting at index `lo` spell out,
/// least significant byte first.
pub open spec fn le_value(s: Seq<u8>, lo: int, n: nat) -> nat
    decreases n,
{
    if n == 0 {
        0
    } else {
        s[lo] as nat + 256 * le_value(s, lo + 1, (n - 1) as nat)
    }
}

/// `n` bytes spell out a number below `2^(8n)`.
pub proof fn lemma_le_bound(s: Seq<u8>, lo: int, n: nat)
    ensures
        le_value(s, lo, n) < pow2(8 * n),
    decreases n,
{
    if n == 0 {
        lemma2_to64();
    } else {
        let m = (n - 1) as nat;
        lemma_le_bound(s, lo + 1, m);
        lemma_pow2_adds(8 * m, 8);
        lemma2_to64();
        let rest = le_value(s, lo + 1, m);
        let p = pow2(8 * m);
        assert(s[lo] as nat + 256 * rest < 256 * p) by (nonlinear_arith)
            requires
                s[lo] < 256,
                rest < p,
        ;
        assert(8 * m + 8 == 8 * n);
    }
}

/// A run of `a + b` bytes is its first `a` bytes plus `2^(8a)` times the other `b`.
pub proof fn lemma_le_split(s: Seq<u8>, lo: int, a: nat, b: nat)
    ensures
        le_value(s, lo, a + b) == le_value(s, lo, a) + pow2(8 * a) * le_value(s, lo + a, b),
    decreases a,
{
    if a == 0 {
        lemma2_to64();
        assert(pow2(8 * a) == 1);
    } else {
        let m = (a - 1) as nat;
        lemma_le_split(s, lo + 1, m, b);
        lemma_pow2_adds(8, 8 * m);
        lemma2_to64();
        assert(8 + 8 * m == 8 * a);
        assert((m + b) as nat == (a + b - 1) as nat);
        assert(le_value(s, lo, a + b) == s[lo] as nat + 256 * le_value(s, lo + 1, m + b));
        let x = le_value(s, lo + 1, m);
        let y = le_value(s, lo + a, b);
        let p = pow2(8 * m);
        assert(le_value(s, lo, a) == s[lo] as nat + 256 * x);
        assert(le_value(s, lo + 1, m + b) == x + p * y);
        assert(pow2(8 * a) == 256 * p);
        assert(256 * (x + p * y) == 256 * x + (256 * p) * y) by (nonlinear_arith);
    }
}

/// The number depends on the bytes of its run alone.
pub proof fn lemma_le_frame(s: Seq<u8>, t: Seq<u8>, lo: int, n: nat)
    requires
        forall|i: int| lo <= i < lo + n ==> s[i] == t[i],
    ensures
        le_value(s, lo, n) == le_value(t, lo, n),
    decreases n,
{
    if n > 0 {
        lemma_le_frame(s, t, lo + 1, (n - 1) as nat);
    }
}

/// Reads the eight bytes of `buf` from index `start` as a little-endian word.
fn read_le_word(buf: &[u8; 9], start: usize) -> (r: u64)
    requires
        start <= 1,
    ensures
        r == le_value(buf@, start as int, 8),
{
    let mut acc: u64 = 0;
    let mut i: usize = 8;
    while i > 0
        invariant
            i <= 8,
            start <= 1,
            acc == le_value(buf@, start + i, (8 - i) as nat),
        decreases i,
    {
        i = i - 1;
        proof {
            lemma_le_bound(buf@, start + i + 1, (7 - i) as nat);
            lemma2_to64();
            lemma2_to64_rest();
            if i > 0 {
                lemma_pow2_strictly_increases(8 * (7 - i) as nat, 56);
            }
            assert(acc * 256 + buf[start + i] < 0x1_0000_0000_0000_0000) by (nonlinear_arith)
                requires
                    acc < 0x100_0000_0000_0000,
                    buf[start + i as int] < 256,
            ;
        }
        acc = acc * 256 + buf[start + i] as u64;
    }
    acc
}

/// The little-endian word held in bytes zero to seven of the window.
pub fn u64_from_low_eight(buf: &[u8; 9]) -> (r: u64)
    ensures
        r == le_value(buf@, 0, 8),
{
    read_le_word(buf, 0)
}

/// The little-endian word held in bytes one to eight of the window.
pub fn u64_from_high_eight(buf: &[u8; 9]) -> (r: u64)
    ensures
        r == le_value(buf@, 1, 8),
{
    read_le_word(buf, 1)
}

/// Writes `word` little-endian into the `count` bytes of `buf` from index
/// `start`, leaving every other byte as it was.
pub fn u64_to_slice(word: u64, buf: &mut [u8; 9], start: usize, count: usize)
    requires
        start + count <= 9,
        word < pow2(8 * count as nat),
    ensures
        le_value(final(buf)@, start as int, count as nat) == word,
        forall|j: int|
            0 <= j < 9 && !(start <= j < start + count) ==> final(buf)[j] == old(buf)[j],
{
    let mut rest: u64 = word;
    let mut i: usize = 0;
    proof {
        lemma2_to64();
        assert(pow2(8 * 0) == 1);
        assert(le_value(buf@, start as int, 0) == 0);
    }
    while i < count
        invariant
            i <= count,
            start + count <= 9,
            word < pow2(8 * count as nat),
            word == le_value(buf@, start as int, i as nat) + pow2(8 * i as nat) * rest,
            forall|j: int|
                0 <= j < 9 && !(start <= j < start + i) ==> buf[j] == old(buf)[j],
        decreases count - i,
    {
        let byte = (rest % 256) as u8;
        let ghost before = buf@;
        buf[start + i] = byte;
        proof {
            lemma_le_frame(before, buf@, start as int, i as nat);
            lemma_le_split(buf@, start as int, i as nat, 1);
            lemma_pow2_adds(8 * i as nat, 8);
            lemma2_to64();
            assert(le_value(buf@, start + i + 1, 0) == 0);
            assert(le_value(buf@, start + i, 1) == byte);
            let p = pow2(8 * i as nat);
            assert(p * rest == p * (rest % 256) + (p * 256) * (rest / 256)) by (nonlinear_arith);
        }
        rest = rest / 256;
        i = i + 1;
    }
    proof {
        let p = pow2(8 * count as nat);
        let low = le_value(buf@, start as int, count as nat);
        assert(rest == 0) by (nonlinear_arith)
            requires
                word == low + p * rest,
                word < p,
                low >= 0,
                rest >= 0,
        ;
    }
}

} // verus!
