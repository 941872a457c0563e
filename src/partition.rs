//! The partition of the 64-bit value space into bands.
//!
//! Band `k` (for `k` below eight) holds the values in `[offset(k), offset(k + 1))`
//! and is written in `k + 1` bytes, which carry `7 * (k + 1)` payload bits.
//! Band eight holds every value from `offset(8)` up and is written in nine bytes.
use vstd::arithmetic::power2::*;
use vstd::prelude::*;

verus! {

/// Lower bound of the one-byte band.
pub const OFFSET0: u64 = 0;

/// Lower bound of the two-byte band: `OFFSET0 + 2^7`.
pub const OFFSET1: u64 = OFFSET0 + 0x80;

/// Lower bound of the three-byte band: `OFFSET1 + 2^14`.
pub const OFFSET2: u64 = OFFSET1 + 0x4000;

/// Lower bound of the four-byte band: `OFFSET2 + 2^21`.
pub const OFFSET3: u64 = OFFSET2 + 0x20_0000;

/// Lower bound of the five-byte band: `OFFSET3 + 2^28`.
pub const OFFSET4: u64 = OFFSET3 + 0x1000_0000;

/// Lower bound of the six-byte band: `OFFSET4 + 2^35`.
pub const OFFSET5: u64 = OFFSET4 + 0x8_0000_0000;

/// Lower bound of the seven-byte band: `OFFSET5 + 2^42`.
pub const OFFSET6: u64 = OFFSET5 + 0x400_0000_0000;

/// Lower bound of the eight-byte band: `OFFSET6 + 2^49`.
pub const OFFSET7: u64 = OFFSET6 + 0x2_0000_0000_0000;

/// Lower bound of the nine-byte band: `OFFSET7 + 2^56`.
pub const OFFSET8: u64 = OFFSET7 + 0x100_0000_0000_0000;

/// `offset(k)` is the first value of band `k`: each band of `k` bytes holds
/// `2^(7k)` values, so the bounds are the running sums of those sizes.
pub open spec fn offset(k: nat) -> nat
    decreases k,
{
    if k == 0 {
        0
    } else {
        offset((k - 1) as nat) + pow2(7 * k)
    }
}

/// The number of bytes that `v` is written in, searching the bands from
/// `n` bytes upwards: the first `n` whose band ends above `v`, else nine.
pub open spec fn length_from(v: nat, n: nat) -> nat
    decreases 9 - n,
{
    if n >= 9 {
        9
    } else if v < offset(n) {
        n
    } else {
        length_from(v, n + 1)
    }
}

/// The number of bytes that the encoding of `v` takes.
pub open spec fn encoded_len(v: nat) -> nat {
    length_from(v, 1)
}

/// `v` lies in the band that is written in `n` bytes.
pub open spec fn in_band(v: nat, n: nat) -> bool {
    &&& 1 <= n <= 9
    &&& offset((n - 1) as nat) <= v
    &&& n < 9 ==> v < offset(n)
}

/// The constants hold the table `offset`, and its values fit in 64 bits.
pub proof fn lemma_offset_values()
    ensures
        offset(0) == OFFSET0,
        offset(1) == OFFSET1,
        offset(2) == OFFSET2,
        offset(3) == OFFSET3,
        offset(4) == OFFSET4,
        offset(5) == OFFSET5,
        offset(6) == OFFSET6,
        offset(7) == OFFSET7,
        offset(8) == OFFSET8,
        OFFSET8 == 72_624_976_668_147_840,
{
    lemma2_to64();
    lemma2_to64_rest();
    reveal_with_fuel(offset, 9);
}

/// Band bounds grow with the band index.
pub proof fn lemma_offset_mono(a: nat, b: nat)
    requires
        a <= b,
    ensures
        offset(a) <= offset(b),
    decreases b - a,
{
    if a < b {
        lemma_offset_mono(a, (b - 1) as nat);
    }
}

/// Searching from `m` bytes, when `v` lies at or above the band of `m` bytes,
/// ends on the band that holds `v`.
pub proof fn lemma_length_from_in_band(v: nat, m: nat)
    requires
        1 <= m <= 9,
        offset((m - 1) as nat) <= v,
    ensures
        in_band(v, length_from(v, m)),
    decreases 9 - m,
{
    if m < 9 && v >= offset(m) {
        lemma_length_from_in_band(v, m + 1);
    }
}

/// Searching from any `m` up to the band that holds `v` ends on that band.
pub proof fn lemma_length_from_band(v: nat, m: nat, n: nat)
    requires
        1 <= m <= n,
        in_band(v, n),
    ensures
        length_from(v, m) == n,
    decreases n - m,
{
    if m < n {
        lemma_offset_mono(m, (n - 1) as nat);
        lemma_length_from_band(v, m + 1, n);
    }
}

/// The length that `encoded_len` gives is the one of the band that holds `v`.
pub proof fn lemma_encoded_len_band(v: nat, n: nat)
    requires
        in_band(v, n),
    ensures
        encoded_len(v) == n,
{
    lemma_length_from_band(v, 1, n);
}

/// The first value of band `k`.
pub fn band_offset(k: usize) -> (r: u64)
    requires
        k <= 8,
    ensures
        r == offset(k as nat),
{
    proof {
        lemma_offset_values();
    }
    match k {
        0 => OFFSET0,
        1 => OFFSET1,
        2 => OFFSET2,
        3 => OFFSET3,
        4 => OFFSET4,
        5 => OFFSET5,
        6 => OFFSET6,
        7 => OFFSET7,
        _ => OFFSET8,
    }
}

} // verus!
