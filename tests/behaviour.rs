use levarint::{decode, encode, OFFSET1, OFFSET2, OFFSET3, OFFSET4, OFFSET5, OFFSET6, OFFSET7, OFFSET8};

const OFFSETS: [u64; 9] = [0, OFFSET1, OFFSET2, OFFSET3, OFFSET4, OFFSET5, OFFSET6, OFFSET7, OFFSET8];

fn sample_values() -> Vec<u64> {
    let mut values = vec![0, 1, 2, 63, 64, 126, u64::MAX, u64::MAX - 1, 1 << 63];
    for &o in OFFSETS.iter().skip(1) {
        values.extend_from_slice(&[o - 2, o - 1, o, o + 1, o + 2, o + (o >> 1)]);
    }
    let mut x: u64 = 0x9E37_79B9_7F4A_7C15;
    for _ in 0..2000 {
        x ^= x << 13;
        x ^= x >> 7;
        x ^= x << 17;
        values.push(x >> (x % 64));
    }
    values
}

#[test]
fn round_trip_on_samples() {
    for v in sample_values() {
        let mut buf = [0xA5u8; 9];
        let n = encode(v, &mut buf);
        assert_eq!(decode(&buf), (v, n), "value {}", v);
    }
}

#[test]
fn length_matches_band_and_grows_with_value() {
    let mut values = sample_values();
    values.sort();
    let mut last = 0usize;
    for v in values {
        let mut buf = [0u8; 9];
        let n = encode(v, &mut buf);
        assert!((1..=9).contains(&n));
        assert!(OFFSETS[n - 1] <= v);
        if n < 9 {
            assert!(v < OFFSETS[n]);
        }
        assert!(n >= last);
        last = n;
    }
}

#[test]
fn band_boundaries() {
    let mut buf = [0u8; 9];
    for k in 1..=8usize {
        assert_eq!(encode(OFFSETS[k] - 1, &mut buf), k);
        assert_eq!(encode(OFFSETS[k], &mut buf), k + 1);
    }
    assert_eq!(encode(u64::MAX, &mut buf), 9);
}

#[test]
fn offset_table_values() {
    assert_eq!(OFFSET1, 128);
    assert_eq!(OFFSET4, 270_549_120);
    assert_eq!(OFFSET5, 34_630_287_488);
    assert_eq!(OFFSET8, 72_624_976_668_147_840);
}

#[test]
fn long_form_decodes_any_value() {
    for v in [0u64, 1, 127, 128, OFFSET7, OFFSET8 - 1, OFFSET8, u64::MAX] {
        let mut buf = [0u8; 9];
        buf[1..].copy_from_slice(&v.to_le_bytes());
        assert_eq!(decode(&buf), (v, 9));
    }
}

#[test]
fn tail_bytes_do_not_change_decoding() {
    for v in [0u64, 127, 128, 16_511, OFFSET3, OFFSET5 + 12345, OFFSET8 - 1] {
        let mut buf = [0u8; 9];
        let n = encode(v, &mut buf);
        assert!(n < 9);
        for fill in [0x00u8, 0x5A, 0xFF] {
            let mut other = buf;
            for b in other.iter_mut().skip(n) {
                *b = fill;
            }
            assert_eq!(decode(&other), (v, n));
        }
    }
}

#[test]
fn encode_leaves_bytes_past_length() {
    let mut buf = [0xEEu8; 9];
    assert_eq!(encode(128, &mut buf), 2);
    assert_eq!(buf, [0x02, 0x00, 0xEE, 0xEE, 0xEE, 0xEE, 0xEE, 0xEE, 0xEE]);
    let mut buf = [0xEEu8; 9];
    assert_eq!(encode(OFFSET7, &mut buf), 8);
    assert_eq!(buf, [0x80, 0, 0, 0, 0, 0, 0, 0, 0xEE]);
}

#[test]
fn encode_zero() {
    let mut buf = [0u8; 9];
    assert_eq!(encode(0, &mut buf), 1);
    assert_eq!(buf, [0x01, 0, 0, 0, 0, 0, 0, 0, 0]);
    assert_eq!(decode(&buf), (0, 1));
}

#[test]
fn encode_127_and_128() {
    let mut buf = [0u8; 9];
    assert_eq!(encode(127, &mut buf), 1);
    assert_eq!(buf[0], 0xFF);
    let mut buf = [0u8; 9];
    assert_eq!(encode(128, &mut buf), 2);
    assert_eq!(&buf[..2], &[0x02, 0x00]);
}

#[test]
fn encode_first_nine_byte_value() {
    let mut buf = [0u8; 9];
    assert_eq!(encode(72_624_976_668_147_840, &mut buf), 9);
    assert_eq!(buf, [0x00, 0x80, 0x40, 0x20, 0x10, 0x08, 0x04, 0x02, 0x01]);
}

#[test]
fn decode_long_form_zero() {
    assert_eq!(decode(&[0x00, 0, 0, 0, 0, 0, 0, 0, 0]), (0, 9));
}

#[test]
fn decode_long_form_max() {
    assert_eq!(
        decode(&[0x00, 0xFF, 0xFF, 0xFF, 0xFF, 0xFF, 0xFF, 0xFF, 0xFF]),
        (u64::MAX, 9)
    );
}

#[test]
fn decode_each_length() {
    assert_eq!(decode(&[0x04, 0x01, 0x00, 0, 0, 0, 0, 0, 0]), (OFFSET2 + 32, 3));
    assert_eq!(decode(&[0x08, 0x00, 0x00, 0x01, 0, 0, 0, 0, 0]), (OFFSET3 + (1 << 20), 4));
    assert_eq!(decode(&[0x10, 0x00, 0x00, 0x00, 0x00, 0, 0, 0, 0]), (OFFSET4, 5));
    assert_eq!(decode(&[0x30, 0x00, 0x00, 0x00, 0x00, 0, 0, 0, 0]), (OFFSET4 + 1, 5));
    assert_eq!(decode(&[0x20, 0x00, 0x00, 0x00, 0x00, 0x80, 0, 0, 0]), (OFFSET5 + (1 << 41), 6));
}
