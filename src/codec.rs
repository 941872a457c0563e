//! Encoding a value into a nine-byte window, and decoding it back.
use crate::le_bytes::{
    le_value, lemma_le_bound, lemma_le_split, u64_from_high_eight, u64_from_low_eight, u64_to_slice,
};
use crate::partition::{
    band_offset, encoded_len, in_band, lemma_encoded_len_band, lemma_offset_mono,
    lemma_offset_values, offset, OFFSET1, OFFSET2, OFFSET3, OFFSET4, OFFSET5, OFFSET6, OFFSET7,
    OFFSET8,
};
use vstd::arithmetic::div_mod::*;
use vstd::arithmetic::power2::*;
use vstd::bits::*;
use vstd::prelude::*;
use vstd::std_specs::bits::*;

verus! {

/// The number of zero bits below the lowest set bit of `x` (zero for zero).
pub open spec fn zero_run(x: nat) -> nat
    decreases x,
{
    if x == 0 || x % 2 == 1 {
        0
    } else {
        1 + zero_run(x / 2)
    }
}

/// The number of bytes that window `w` spans, as its first byte announces:
/// one more than the zero bits below the lowest set bit, or nine for a zero byte.
pub open spec fn span(w: Seq<u8>) -> nat {
    if w[0] == 0 {
        9
    } else {
        zero_run(w[0] as nat) + 1
    }
}

/// The value that window `w` holds. In the nine-byte form it is the word in
/// bytes one to eight; in the `n`-byte form the `n` marker bits are dropped
/// from the word in the first `n` bytes and the band's offset is added back.
pub open spec fn window_value(w: Seq<u8>) -> nat {
    let n = span(w);
    if n == 9 {
        le_value(w, 1, 8)
    } else {
        offset((n - 1) as nat) + le_value(w, 0, n) / pow2(n)
    }
}

/// The word that the `n`-byte form of `v` spells in its `n` bytes: the value
/// less its band's offset, above a one bit and `n - 1` zero bits.
pub open spec fn marked_word(v: nat, n: nat) -> nat {
    (v - offset((n - 1) as nat)) as nat * pow2(n) + pow2((n - 1) as nat)
}

/// Window `w` begins with the encoding of `v`.
pub open spec fn encodes(w: Seq<u8>, v: nat) -> bool {
    let n = encoded_len(v);
    if n == 9 {
        w[0] == 0 && le_value(w, 1, 8) == v
    } else {
        le_value(w, 0, n) == marked_word(v, n)
    }
}

/// A number whose low `z + 1` bits are a one above `z` zeros has `z` as its zero run.
proof fn lemma_zero_run(x: nat, z: nat)
    requires
        x % pow2(z + 1) == pow2(z),
    ensures
        x != 0,
        zero_run(x) == z,
    decreases z,
{
    lemma_pow2_pos(z);
    lemma_pow2_unfold(z + 1);
    if z == 0 {
        lemma2_to64();
    } else {
        let h = pow2((z - 1) as nat);
        lemma_pow2_unfold(z);
        lemma_pow2_pos((z - 1) as nat);
        let q = x / (4 * h);
        lemma_fundamental_div_mod(x as int, (4 * h) as int);
        assert(x == 2 * (2 * q * h + h)) by (nonlinear_arith)
            requires
                x == (4 * h) * q + 2 * h,
        ;
        let y = (2 * q * h + h) as nat;
        lemma_fundamental_div_mod_converse(x as int, 2, y as int, 0);
        assert(y == q * (2 * h) + h) by (nonlinear_arith)
            requires
                y == 2 * q * h + h,
        ;
        lemma_fundamental_div_mod_converse(y as int, (2 * h) as int, q as int, h as int);
        lemma_zero_run(y, (z - 1) as nat);
    }
}

/// The first byte of a run holds its number modulo 256.
proof fn lemma_le_first_byte(w: Seq<u8>, n: nat)
    requires
        1 <= n,
    ensures
        le_value(w, 0, n) % 256 == w[0],
{
    let rest = le_value(w, 1, (n - 1) as nat);
    lemma_fundamental_div_mod_converse(le_value(w, 0, n) as int, 256, rest as int, w[0] as int);
}

/// An `n`-byte run that spells a marked word is read back as an `n`-byte form
/// of that word's payload.
pub(crate) proof fn lemma_marked_window(w: Seq<u8>, n: nat, b: nat)
    requires
        1 <= n <= 8,
        le_value(w, 0, n) == b * pow2(n) + pow2((n - 1) as nat),
    ensures
        span(w) == n,
        window_value(w) == offset((n - 1) as nat) + b,
{
    let word = le_value(w, 0, n);
    let m = (n - 1) as nat;
    lemma_pow2_unfold(n);
    lemma_pow2_pos(m);
    lemma_fundamental_div_mod_converse(word as int, pow2(n) as int, b as int, pow2(m) as int);
    lemma_pow2_adds(n, (8 - n) as nat);
    lemma2_to64();
    lemma_le_first_byte(w, n);
    lemma_mod_mod(word as int, pow2(n) as int, pow2((8 - n) as nat) as int);
    assert(w[0] as nat % pow2(n) == pow2(m));
    lemma_zero_run(w[0] as nat, m);
}

/// Drops the bytes above the first `n` of a window's low word, and its `n`
/// marker bits, with one shift each way.
proof fn lemma_strip_marker(x: u64, n: u64)
    requires
        1 <= n <= 8,
    ensures
        (x << (8 * (8 - n)) as u64) >> (8 * (8 - n) + n) as u64 == (x as nat % pow2(8 * n as nat))
            / pow2(n as nat),
{
    lemma2_to64();
    lemma2_to64_rest();
    let left = (8 * (8 - n)) as u64;
    let right = (8 * (8 - n) + n) as u64;
    let r = (x << left) >> right;
    if n == 1 {
        assert(r == (x % 0x100) / 0x2) by (bit_vector)
            requires
                r == (x << left) >> right,
                left == 56,
                right == 57,
        ;
    } else if n == 2 {
        assert(r == (x % 0x1_0000) / 0x4) by (bit_vector)
            requires
                r == (x << left) >> right,
                left == 48,
                right == 50,
        ;
    } else if n == 3 {
        assert(r == (x % 0x100_0000) / 0x8) by (bit_vector)
            requires
                r == (x << left) >> right,
                left == 40,
                right == 43,
        ;
    } else if n == 4 {
        assert(r == (x % 0x1_0000_0000) / 0x10) by (bit_vector)
            requires
                r == (x << left) >> right,
                left == 32,
                right == 36,
        ;
    } else if n == 5 {
        assert(r == (x % 0x100_0000_0000) / 0x20) by (bit_vector)
            requires
                r == (x << left) >> right,
                left == 24,
                right == 29,
        ;
    } else if n == 6 {
        assert(r == (x % 0x1_0000_0000_0000) / 0x40) by (bit_vector)
            requires
                r == (x << left) >> right,
                left == 16,
                right == 22,
        ;
    } else if n == 7 {
        assert(r == (x % 0x100_0000_0000_0000) / 0x80) by (bit_vector)
            requires
                r == (x << left) >> right,
                left == 8,
                right == 15,
        ;
    } else {
        assert(r == x / 0x100) by (bit_vector)
            requires
                r == (x << left) >> right,
                left == 0,
                right == 8,
        ;
        assert(x as nat % pow2(64) == x);
    }
}

/// The value of the `num_bytes`-byte form whose bytes begin the little-endian word `low`.
fn inner_decode(low: u64, num_bytes: u64) -> (r: u64)
    requires
        1 <= num_bytes <= 8,
    ensures
        r == offset((num_bytes - 1) as nat) + (low as nat % pow2(8 * num_bytes as nat)) / pow2(
            num_bytes as nat,
        ),
{
    let left_shift: u64 = 8 * (8 - num_bytes);
    let right_shift: u64 = left_shift + num_bytes;
    let payload = (low << left_shift) >> right_shift;
    let ghost n = num_bytes as nat;
    proof {
        lemma_strip_marker(low, num_bytes);
        let part = low as nat % pow2(8 * n);
        lemma_pow2_pos(8 * n);
        lemma_pow2_pos(n);
        lemma_pow2_adds(n, 7 * n);
        assert(n + 7 * n == 8 * n);
        lemma_mod_bound(low as int, pow2(8 * n) as int);
        lemma_multiply_divide_lt(part as int, pow2(n) as int, pow2(7 * n) as int);
        lemma_offset_mono(n, 8);
        lemma_offset_values();
    }
    payload + band_offset((num_bytes - 1) as usize)
}

/// Decodes the window `buf`, returning the value it holds and the number of
/// bytes that its encoding spans. Every window decodes; a zero first byte
/// announces the nine-byte form, whatever value follows it.
pub fn decode(buf: &[u8; 9]) -> (r: (u64, usize))
    ensures
        r.0 == window_value(buf@),
        r.1 == span(buf@),
{
    let low64 = u64_from_low_eight(buf);
    let trailing_zeros = low64.trailing_zeros() as u64;
    proof {
        axiom_u64_trailing_zeros(low64);
        lemma_le_first_byte(buf@, 8);
        assert(low64 % 256 == low64 & 0xff) by (bit_vector);
    }
    if trailing_zeros < 8 {
        let num_bytes = trailing_zeros + 1;
        let ghost n = num_bytes as nat;
        proof {
            let z = trailing_zeros;
            assert((low64 & 0xff) % (1u64 << (z + 1)) == (1u64 << z)) by (bit_vector)
                requires
                    z < 8,
                    (low64 >> z) & 1 == 1,
                    low64 << ((64 - z) as u64) == 0,
            ;
            lemma2_to64();
            lemma_u64_shl_is_mul(1, z);
            lemma_u64_shl_is_mul(1, (z + 1) as u64);
            lemma_zero_run(buf[0] as nat, z as nat);
            lemma_le_split(buf@, 0, n, (8 - n) as nat);
            assert(n + (8 - n) as nat == 8);
            let low_part = le_value(buf@, 0, n);
            let high_part = le_value(buf@, n as int, (8 - n) as nat);
            let d = pow2(8 * n);
            assert(low64 == high_part * d + low_part) by (nonlinear_arith)
                requires
                    low64 == low_part + d * high_part,
            ;
            lemma_le_bound(buf@, 0, n);
            lemma_fundamental_div_mod_converse(
                low64 as int,
                d as int,
                high_part as int,
                low_part as int,
            );
        }
        (inner_decode(low64, num_bytes), num_bytes as usize)
    } else {
        proof {
            let z = trailing_zeros;
            assert(low64 & 0xff == 0) by (bit_vector)
                requires
                    8 <= z <= 64,
                    low64 << ((64 - z) as u64) == 0,
            ;
        }
        (u64_from_high_eight(buf), 9)
    }
}

/// Writes the `num_bytes`-byte form of `value` into the first `num_bytes`
/// bytes of `buf`: the value less its band's offset, shifted above a one bit
/// and `num_bytes - 1` zero bits, little-endian.
fn inner_encode(value: u64, num_bytes: usize, buf: &mut [u8; 9]) -> (r: usize)
    requires
        1 <= num_bytes <= 8,
        in_band(value as nat, num_bytes as nat),
    ensures
        r == num_bytes,
        le_value(final(buf)@, 0, num_bytes as nat) == marked_word(value as nat, num_bytes as nat),
        forall|j: int| num_bytes <= j < 9 ==> final(buf)[j] == old(buf)[j],
{
    let ghost n = num_bytes as nat;
    let ghost m = (n - 1) as nat;
    let mut word = value - band_offset(num_bytes - 1);
    let ghost b = word as nat;
    proof {
        lemma2_to64();
        lemma2_to64_rest();
        lemma_pow2_adds(1, 7 * n);
        lemma_pow2_strictly_increases(7 * n + 1, 64);
        lemma_u64_shl_is_mul(word, 1);
    }
    word = word << 1u64;
    word = word + 1;
    proof {
        let p = pow2(7 * n + 1);
        let q = pow2(m);
        lemma_pow2_pos(m);
        lemma_pow2_adds(7 * n + 1, m);
        assert(7 * n + 1 + m == 8 * n);
        if n < 8 {
            lemma_pow2_strictly_increases(8 * n, 64);
        }
        assert(word * q < p * q) by (nonlinear_arith)
            requires
                word < p,
                q > 0,
        ;
        lemma_u64_shl_is_mul(word, m as u64);
    }
    word = word << ((num_bytes - 1) as u64);
    proof {
        lemma_pow2_unfold(n);
        assert(word == b * pow2(n) + pow2(m)) by (nonlinear_arith)
            requires
                word == (2 * b + 1) * pow2(m),
                pow2(n) == 2 * pow2(m),
        ;
    }
    u64_to_slice(word, buf, 0, num_bytes);
    num_bytes
}

/// Encodes `value` into the window `buf`, in the fewest bytes that its band
/// allows, and returns how many bytes it wrote. The bytes past those are left
/// as they were.
pub fn encode(value: u64, buf: &mut [u8; 9]) -> (r: usize)
    ensures
        r == encoded_len(value as nat),
        encodes(final(buf)@, value as nat),
        forall|j: int| r <= j < 9 ==> final(buf)[j] == old(buf)[j],
{
    proof {
        lemma_offset_values();
    }
    let num_bytes: usize = if value < OFFSET1 {
        1
    } else if value < OFFSET2 {
        2
    } else if value < OFFSET3 {
        3
    } else if value < OFFSET4 {
        4
    } else if value < OFFSET5 {
        5
    } else if value < OFFSET6 {
        6
    } else if value < OFFSET7 {
        7
    } else if value < OFFSET8 {
        8
    } else {
        9
    };
    proof {
        lemma_encoded_len_band(value as nat, num_bytes as nat);
    }
    if num_bytes < 9 {
        inner_encode(value, num_bytes, buf)
    } else {
        buf[0] = 0;
        proof {
            lemma2_to64_rest();
        }
        u64_to_slice(value, buf, 1, 8);
        9
    }
}

} // verus!
