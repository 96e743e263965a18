use btf2json::bytes::{encode_entry, read_entry_signed, read_entry_unsigned, Endian};
use btf2json::error::ScanError;

#[test]
fn unsigned_entries_in_both_byte_orders() {
    let data = [0x12u8, 0x34, 0x56, 0x78, 0x9a, 0xbc, 0xde, 0xf0];
    assert_eq!(read_entry_unsigned(&data, 0, Endian::Little, 2), Ok(0x3412));
    assert_eq!(read_entry_unsigned(&data, 0, Endian::Big, 2), Ok(0x1234));
    assert_eq!(read_entry_unsigned(&data, 2, Endian::Little, 4), Ok(0xbc9a7856));
    assert_eq!(read_entry_unsigned(&data, 2, Endian::Big, 4), Ok(0x56789abc));
    assert_eq!(read_entry_unsigned(&data, 0, Endian::Little, 8), Ok(0xf0debc9a78563412));
    assert_eq!(read_entry_unsigned(&data, 0, Endian::Big, 8), Ok(0x123456789abcdef0));
}

#[test]
fn entry_past_the_end_is_refused() {
    let data = [1u8, 2, 3];
    assert_eq!(read_entry_unsigned(&data, 2, Endian::Little, 2), Err(ScanError::InvalidBounds));
    assert_eq!(read_entry_unsigned(&data, usize::MAX, Endian::Little, 2), Err(ScanError::InvalidBounds));
    assert_eq!(read_entry_signed(&data, 0, Endian::Big, 4), Err(ScanError::InvalidBounds));
}

#[test]
fn odd_entry_width_is_refused() {
    let data = [1u8, 2, 3, 4];
    assert_eq!(read_entry_unsigned(&data, 0, Endian::Little, 3), Err(ScanError::UnsupportedEntrySize));
    assert_eq!(read_entry_signed(&data, 0, Endian::Little, 1), Err(ScanError::UnsupportedEntrySize));
}

#[test]
fn signed_entries_are_sign_extended() {
    assert_eq!(read_entry_signed(&[0xff, 0xff], 0, Endian::Little, 2), Ok(-1));
    assert_eq!(read_entry_signed(&[0x80, 0, 0, 0], 0, Endian::Big, 4), Ok(-2147483648));
    assert_eq!(read_entry_signed(&[0x7f, 0xff, 0xff, 0xff], 0, Endian::Big, 4), Ok(0x7fffffff));
    assert_eq!(read_entry_signed(&[0, 0, 0, 0, 0, 0, 0, 0x80], 0, Endian::Little, 8), Ok(i64::MIN));
    assert_eq!(read_entry_signed(&[0xfe, 0xff, 0xff, 0xff], 0, Endian::Little, 4), Ok(-2));
}

#[test]
fn signed_reading_agrees_with_unsigned_modulo_width() {
    let data = [0x00u8, 0x80, 0x34, 0x12];
    for (off, width) in [(0usize, 2usize), (2, 2), (0, 4)] {
        for endian in [Endian::Little, Endian::Big] {
            let u = read_entry_unsigned(&data, off, endian, width).unwrap() as i128;
            let s = read_entry_signed(&data, off, endian, width).unwrap() as i128;
            let m = 1i128 << (8 * width);
            assert!(s == u || s == u - m);
            assert!(-(m / 2) <= s && s < m / 2);
        }
    }
}

#[test]
fn encoded_entries_read_back() {
    assert_eq!(encode_entry(0x1234, 2, Endian::Little), vec![0x34, 0x12]);
    assert_eq!(encode_entry(0x1234, 4, Endian::Big), vec![0, 0, 0x12, 0x34]);
    for (v, w) in [(0u64, 2usize), (0xbeef, 2), (0xdeadbeef, 4), (u64::MAX, 8), (769, 8)] {
        for endian in [Endian::Little, Endian::Big] {
            let bytes = encode_entry(v, w, endian);
            assert_eq!(bytes.len(), w);
            assert_eq!(read_entry_unsigned(&bytes, 0, endian, w), Ok(v));
        }
    }
}

#[test]
fn big_endian_is_little_endian_reversed() {
    let data = [1u8, 2, 3, 4, 5, 6, 7, 8];
    let mut rev = data;
    rev.reverse();
    for w in [2usize, 4, 8] {
        let mut r = data[..w].to_vec();
        r.reverse();
        assert_eq!(
            read_entry_unsigned(&data, 0, Endian::Big, w),
            read_entry_unsigned(&r, 0, Endian::Little, w)
        );
    }
    assert_eq!(
        read_entry_unsigned(&data, 0, Endian::Big, 8),
        read_entry_unsigned(&rev, 0, Endian::Little, 8)
    );
}
