use bitfield_pack::bits::{pop_bits, push_bits, read_specifier, write_specifier};

fn bit(b: &[u8], i: usize) -> u8 {
    (b[i / 8] >> (i % 8)) & 1
}

fn sample() -> Vec<u8> {
    vec![0xA5, 0x3C, 0xFF, 0x00, 0x96, 0x5A, 0x12, 0xEF, 0x81, 0x7E, 0x44, 0xC3, 0x09, 0xB7, 0x6D, 0x21, 0xF0, 0x0F, 0x33]
}

#[test]
fn read_within_one_byte() {
    let b = vec![0b1011_0110u8];
    assert_eq!(read_specifier(&b, 1, 3), 0b011);
    assert_eq!(read_specifier(&b, 4, 4), 0b1011);
    assert_eq!(read_specifier(&b, 0, 8), 0b1011_0110);
}

#[test]
fn read_straddling_bytes() {
    let b = vec![0xF0u8, 0x0F];
    // bits 4..12 are the high nibble of byte 0 and the low nibble of byte 1
    assert_eq!(read_specifier(&b, 4, 8), 0xFF);
    assert_eq!(read_specifier(&b, 2, 4), 0b1100);
    let c = vec![0x12u8, 0x34, 0x56, 0x78];
    assert_eq!(read_specifier(&c, 4, 24), 0x856341);
}

#[test]
fn read_whole_bytes_is_little_endian() {
    let b = vec![0x01u8, 0x02, 0x03, 0x04];
    assert_eq!(read_specifier(&b, 8, 16), 0x0302);
    assert_eq!(read_specifier(&b, 0, 32), 0x0403_0201);
}

#[test]
fn read_zero_width() {
    let b = vec![0xFFu8];
    assert_eq!(read_specifier(&b, 3, 0), 0);
}

#[test]
fn round_trip_all_offsets_and_widths() {
    for w in 0..=64usize {
        for o in 0..=(8 * 19 - w).min(40) {
            let mut b = sample();
            let v: u128 = 0x0123_4567_89AB_CDEF_F0E1_D2C3_B4A5_9687 & ((1u128 << w) - 1);
            write_specifier(&mut b, o, w, v);
            assert_eq!(read_specifier(&b, o, w), v, "offset {} width {}", o, w);
        }
    }
}

#[test]
fn round_trip_full_carrier() {
    let mut b = vec![0u8; 18];
    let v = u128::MAX - 12345;
    write_specifier(&mut b, 3, 128, v);
    assert_eq!(read_specifier(&b, 3, 128), v);
    write_specifier(&mut b, 16, 128, v);
    assert_eq!(read_specifier(&b, 16, 128), v);
}

#[test]
fn wide_value_is_truncated() {
    let mut b = vec![0u8; 3];
    write_specifier(&mut b, 5, 6, 0xFFF);
    assert_eq!(read_specifier(&b, 5, 6), 0x3F);
    assert_eq!(b, vec![0xE0, 0x07, 0x00]);
}

#[test]
fn write_keeps_other_bits() {
    for w in 1..=40usize {
        for o in 0..=(8 * 19 - w).min(37) {
            let before = sample();
            let mut after = before.clone();
            write_specifier(&mut after, o, w, 0);
            for i in 0..8 * before.len() {
                if i < o || i >= o + w {
                    assert_eq!(bit(&after, i), bit(&before, i), "bit {} offset {} width {}", i, o, w);
                } else {
                    assert_eq!(bit(&after, i), 0);
                }
            }
        }
    }
}

#[test]
fn write_keeps_other_bytes() {
    let before = sample();
    let mut after = before.clone();
    write_specifier(&mut after, 13, 20, 0xABCDE);
    // the field spans bytes 1 ..= 4
    let sum = |b: &Vec<u8>| -> u32 {
        b.iter().enumerate().filter(|(j, _)| *j < 1 || *j > 4).map(|(_, x)| *x as u32).sum()
    };
    assert_eq!(sum(&after), sum(&before));
    assert_eq!(after[0], before[0]);
    assert_eq!(&after[5..], &before[5..]);
}

#[test]
fn whole_bytes_match_bit_by_bit_reading() {
    let b = sample();
    for lo in 0..10usize {
        for n in 1..=8usize {
            let fast = read_specifier(&b, 8 * lo, 8 * n);
            let mut slow: u128 = 0;
            for i in (0..8 * n).rev() {
                slow = (slow << 1) | read_specifier(&b, 8 * lo + i, 1);
            }
            assert_eq!(fast, slow);
            let mut bytes = [0u8; 16];
            bytes[..n].copy_from_slice(&b[lo..lo + n]);
            assert_eq!(fast, u128::from_le_bytes(bytes));
        }
    }
}

#[test]
fn whole_bytes_write_matches_bitwise_write() {
    let v: u128 = 0x1122_3344_5566_7788;
    let mut fast = sample();
    write_specifier(&mut fast, 16, 64, v);
    let mut slow = sample();
    for i in 0..64 {
        write_specifier(&mut slow, 16 + i, 1, (v >> i) & 1);
    }
    assert_eq!(fast, slow);
    assert_eq!(&fast[2..10], &v.to_le_bytes()[..8]);
}

#[test]
fn push_and_pop_bits() {
    let mut buf: u128 = 0b101;
    push_bits(&mut buf, 3, 0b011);
    assert_eq!(buf, 0b101_011);
    let low = pop_bits(&mut buf, 4);
    assert_eq!(low, 0b1011);
    assert_eq!(buf, 0b10);
}
