use simple_parse::nonzero::NonZero;
use simple_parse::{SpCtx, SpRead, SpReader, SpWrite};
use std::fmt::Debug;

/// returns whether every byte in the slice is the same
/// Used to check if endianess changes should change the resulting value
fn all_same_bytes(buf: &[u8]) -> bool {
    if buf.len() == 1 {
        return true;
    }

    for i in 1..buf.len() {
        if buf[i] != buf[0] {
            return false;
        }
    }

    return true;
}

/// `orig_bytes` are the bytes of `orig` as this machine holds it in memory.
fn test_primitive<T>(orig: T, orig_bytes: &[u8])
where
    T: SpRead + SpWrite + PartialEq + Debug,
{
    let size = orig_bytes.len();

    // Try to parse buffer with 1 byte less than what this type needs
    assert!(T::from_reader(&mut SpReader::new(&orig_bytes[..size - 1])).is_err());

    // Make sure we can parse bytes properly
    assert_eq!(T::from_reader(&mut SpReader::new(orig_bytes)).unwrap(), orig);
    let mut dst = Vec::with_capacity(size);
    // Make sure we write the expected number of bytes
    assert_eq!(orig.to_writer(&mut dst).unwrap(), size);
    // Make sure the written bytes match the bytes we started from
    assert_eq!(&dst, orig_bytes);

    // Test reading data that isnt in native endianness
    let mut ctx = SpCtx::default();
    let native_is_little_endian = 1u16.to_ne_bytes()[0] == 1;
    ctx.is_little_endian = !native_is_little_endian;

    let v = T::inner_from_reader(&mut SpReader::new(orig_bytes), &mut ctx).unwrap();

    if !all_same_bytes(orig_bytes) {
        assert_ne!(v, orig);
    }
    assert_eq!(ctx.cursor, size);

    dst.clear();
    ctx.cursor = 0;
    v.inner_to_writer(&mut ctx, &mut dst).unwrap();
    assert_eq!(ctx.cursor, size);
    assert_eq!(&dst, orig_bytes);
}

#[test]
fn primitives_unsigned() {
    test_primitive(0u8, &0u8.to_ne_bytes());
    test_primitive(u8::MAX / 2, &(u8::MAX / 2).to_ne_bytes());
    test_primitive(u8::MAX, &u8::MAX.to_ne_bytes());
    test_primitive(0u16, &0u16.to_ne_bytes());
    test_primitive(u16::MAX / 2, &(u16::MAX / 2).to_ne_bytes());
    test_primitive(u16::MAX, &u16::MAX.to_ne_bytes());
    test_primitive(0u32, &0u32.to_ne_bytes());
    test_primitive(u32::MAX / 2, &(u32::MAX / 2).to_ne_bytes());
    test_primitive(u32::MAX, &u32::MAX.to_ne_bytes());
    test_primitive(0u64, &0u64.to_ne_bytes());
    test_primitive(u64::MAX / 2, &(u64::MAX / 2).to_ne_bytes());
    test_primitive(u64::MAX, &u64::MAX.to_ne_bytes());
    test_primitive(0u128, &0u128.to_ne_bytes());
    test_primitive(u128::MAX / 2, &(u128::MAX / 2).to_ne_bytes());
    test_primitive(u128::MAX, &u128::MAX.to_ne_bytes());
    test_primitive(0usize, &0usize.to_ne_bytes());
    test_primitive(usize::MAX / 2, &(usize::MAX / 2).to_ne_bytes());
    test_primitive(usize::MAX, &usize::MAX.to_ne_bytes());
}

#[test]
fn primitives_signed() {
    test_primitive(0i8, &0i8.to_ne_bytes());
    test_primitive(i8::MAX / 2, &(i8::MAX / 2).to_ne_bytes());
    test_primitive(i8::MAX, &i8::MAX.to_ne_bytes());
    test_primitive(0i16, &0i16.to_ne_bytes());
    test_primitive(i16::MAX / 2, &(i16::MAX / 2).to_ne_bytes());
    test_primitive(i16::MAX, &i16::MAX.to_ne_bytes());
    test_primitive(0i32, &0i32.to_ne_bytes());
    test_primitive(i32::MAX / 2, &(i32::MAX / 2).to_ne_bytes());
    test_primitive(i32::MAX, &i32::MAX.to_ne_bytes());
    test_primitive(0i64, &0i64.to_ne_bytes());
    test_primitive(i64::MAX / 2, &(i64::MAX / 2).to_ne_bytes());
    test_primitive(i64::MAX, &i64::MAX.to_ne_bytes());
    test_primitive(0i128, &0i128.to_ne_bytes());
    test_primitive(i128::MAX / 2, &(i128::MAX / 2).to_ne_bytes());
    test_primitive(i128::MAX, &i128::MAX.to_ne_bytes());
    test_primitive(0isize, &0isize.to_ne_bytes());
    test_primitive(isize::MAX / 2, &(isize::MAX / 2).to_ne_bytes());
    test_primitive(isize::MAX, &isize::MAX.to_ne_bytes());
}

#[test]
fn primitives_special() {
    // Floating point values travel as the bits of their IEEE 754 representation.
    test_primitive(0.0f32.to_bits(), &0.0f32.to_ne_bytes());
    test_primitive(0.0f64.to_bits(), &0.0f64.to_ne_bytes());

    test_primitive(true, &[1u8]);
    test_primitive(false, &[0u8]);

    // Make sure you cant construct a NonZero from 0
    let zero: &[u8] = &[0, 0, 0, 0, 0, 0, 0, 0, 0, 0, 0, 0, 0, 0, 0, 0];
    let non_zero: &[u8] = &[1, 0, 0, 0, 0, 0, 0, 0, 0, 0, 0, 0, 0, 0, 0, 0];

    assert!(<NonZero<u8>>::from_reader(&mut SpReader::new(zero)).is_err());
    assert!(<NonZero<u8>>::from_reader(&mut SpReader::new(non_zero)).is_ok());
    assert!(<NonZero<u16>>::from_reader(&mut SpReader::new(zero)).is_err());
    assert!(<NonZero<u16>>::from_reader(&mut SpReader::new(non_zero)).is_ok());
    assert!(<NonZero<u32>>::from_reader(&mut SpReader::new(zero)).is_err());
    assert!(<NonZero<u32>>::from_reader(&mut SpReader::new(non_zero)).is_ok());
    assert!(<NonZero<u64>>::from_reader(&mut SpReader::new(zero)).is_err());
    assert!(<NonZero<u64>>::from_reader(&mut SpReader::new(non_zero)).is_ok());
    assert!(<NonZero<u128>>::from_reader(&mut SpReader::new(zero)).is_err());
    assert!(<NonZero<u128>>::from_reader(&mut SpReader::new(non_zero)).is_ok());
    assert!(<NonZero<usize>>::from_reader(&mut SpReader::new(zero)).is_err());
    assert!(<NonZero<usize>>::from_reader(&mut SpReader::new(non_zero)).is_ok());
    assert!(<NonZero<i8>>::from_reader(&mut SpReader::new(zero)).is_err());
    assert!(<NonZero<i8>>::from_reader(&mut SpReader::new(non_zero)).is_ok());
    assert!(<NonZero<i16>>::from_reader(&mut SpReader::new(non_zero)).is_ok());
    assert!(<NonZero<i16>>::from_reader(&mut SpReader::new(zero)).is_err());
    assert!(<NonZero<i32>>::from_reader(&mut SpReader::new(zero)).is_err());
    assert!(<NonZero<i32>>::from_reader(&mut SpReader::new(non_zero)).is_ok());
    assert!(<NonZero<i64>>::from_reader(&mut SpReader::new(zero)).is_err());
    assert!(<NonZero<i64>>::from_reader(&mut SpReader::new(non_zero)).is_ok());
    assert!(<NonZero<i128>>::from_reader(&mut SpReader::new(zero)).is_err());
    assert!(<NonZero<i128>>::from_reader(&mut SpReader::new(non_zero)).is_ok());
    assert!(<NonZero<isize>>::from_reader(&mut SpReader::new(zero)).is_err());
    assert!(<NonZero<isize>>::from_reader(&mut SpReader::new(non_zero)).is_ok());
}
