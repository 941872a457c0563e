//! Properties that relate the encoder, the decoder and the band partition.
use crate::codec::{encodes, lemma_marked_window, span, window_value};
use crate::le_bytes::{le_value, lemma_le_frame};
use crate::partition::{
    encoded_len, in_band, lemma_encoded_len_band, lemma_length_from_in_band, lemma_offset_mono,
    lemma_offset_values, offset,
};
use vstd::arithmetic::power2::*;
use vstd::prelude::*;

verus! {

/// Decoding a window that begins with the encoding of `v` gives `v` back, and
/// reports as many bytes as the encoding took.
pub proof fn lemma_round_trip(w: Seq<u8>, v: u64)
    requires
        w.len() == 9,
        encodes(w, v as nat),
    ensures
        window_value(w) == v,
        span(w) == encoded_len(v as nat),
{
    let n = encoded_len(v as nat);
    lemma_length_from_in_band(v as nat, 1);
    if n < 9 {
        lemma_marked_window(w, n, (v - offset((n - 1) as nat)) as nat);
    }
}

/// Every value lies in the band of its encoded length and in no other, and
/// every shorter length only reaches values below it: the encoded length is
/// the shortest one that can hold the value.
pub proof fn lemma_minimal_length(v: u64)
    ensures
        in_band(v as nat, encoded_len(v as nat)),
        forall|m: nat| #[trigger] in_band(v as nat, m) ==> m == encoded_len(v as nat),
        forall|m: nat| 1 <= m < encoded_len(v as nat) ==> #[trigger] offset(m) <= v,
{
    let n = encoded_len(v as nat);
    lemma_length_from_in_band(v as nat, 1);
    assert forall|m: nat| #[trigger] in_band(v as nat, m) implies m == n by {
        lemma_encoded_len_band(v as nat, m);
    }
    assert forall|m: nat| 1 <= m < n implies #[trigger] offset(m) <= v by {
        lemma_offset_mono(m, (n - 1) as nat);
    }
}

/// The encoded length never shrinks as the value grows.
pub proof fn lemma_length_monotonic(v1: u64, v2: u64)
    requires
        v1 <= v2,
    ensures
        encoded_len(v1 as nat) <= encoded_len(v2 as nat),
{
    let n1 = encoded_len(v1 as nat);
    let n2 = encoded_len(v2 as nat);
    lemma_length_from_in_band(v1 as nat, 1);
    lemma_length_from_in_band(v2 as nat, 1);
    if n2 < n1 {
        lemma_offset_mono(n2, (n1 - 1) as nat);
    }
}

/// The last value of each band below the nine-byte one takes as many bytes as
/// the band's index plus one, the first value of the next band one more, and
/// the largest value takes nine.
pub proof fn lemma_band_boundaries(k: nat)
    requires
        1 <= k <= 8,
    ensures
        encoded_len((offset(k) - 1) as nat) == k,
        encoded_len(offset(k)) == k + 1,
        encoded_len(u64::MAX as nat) == 9,
{
    lemma_pow2_pos(7 * k);
    lemma_offset_values();
    lemma_encoded_len_band((offset(k) - 1) as nat, k);
    if k < 8 {
        lemma_pow2_pos(7 * (k + 1));
    }
    lemma_encoded_len_band(offset(k), k + 1);
    lemma_encoded_len_band(u64::MAX as nat, 9);
}

/// A window whose first byte is zero is read in the nine-byte form: its value
/// is the word in bytes one to eight, also where a shorter form could hold it.
pub proof fn lemma_long_form(w: Seq<u8>)
    requires
        w.len() == 9,
        w[0] == 0,
    ensures
        span(w) == 9,
        window_value(w) == le_value(w, 1, 8),
{
}

/// A window that spans fewer than nine bytes decodes the same whatever the
/// bytes past its span hold.
pub proof fn lemma_tail_independence(w: Seq<u8>, t: Seq<u8>)
    requires
        w.len() == 9,
        t.len() == 9,
        span(w) < 9,
        forall|i: int| 0 <= i < span(w) ==> w[i] == t[i],
    ensures
        span(t) == span(w),
        window_value(t) == window_value(w),
{
    assert(w[0] == t[0]);
    lemma_le_frame(w, t, 0, span(w));
}

} // verus!
