//! Concrete cases of the properties the library proves: values read back as written, byte
//! orders, external lengths, the failure cases, and the in-place readers.
use simple_parse::borrowed::{read_byte_slice, read_c_bytes, read_str};
use simple_parse::collections::SpCString;
use simple_parse::nonzero::NonZero;
use simple_parse::wire::{decode_uint, encode_uint};
use simple_parse::{SpCtx, SpError, SpRead, SpReader, SpWrite, MAX_ALLOC_SIZE};
use std::collections::VecDeque;

fn ctx_with(le: bool, len: Option<usize>) -> SpCtx {
    let mut ctx = SpCtx::default();
    ctx.is_little_endian = le;
    ctx.len = len;
    ctx
}

fn write_with<T: SpWrite + ?Sized>(v: &T, le: bool, len: Option<usize>) -> (Vec<u8>, SpCtx) {
    let mut ctx = ctx_with(le, len);
    let mut dst = Vec::new();
    let n = v.inner_to_writer(&mut ctx, &mut dst).unwrap();
    assert_eq!(n, dst.len());
    assert_eq!(ctx.cursor, dst.len());
    (dst, ctx)
}

fn read_with<T: SpRead>(bytes: &[u8], le: bool, len: Option<usize>) -> (Result<T, SpError>, SpCtx, usize) {
    let mut ctx = ctx_with(le, len);
    let mut src = SpReader::new(bytes);
    let r = T::inner_from_reader(&mut src, &mut ctx);
    (r, ctx, src.position())
}

#[test]
fn write_then_read_integers_both_orders() {
    for le in [true, false] {
        let (b, _) = write_with(&0x1234u16, le, None);
        let (v, ctx, pos) = read_with::<u16>(&b, le, None);
        assert_eq!(v.unwrap(), 0x1234);
        assert_eq!((ctx.cursor, pos), (2, 2));

        let (b, _) = write_with(&-5i64, le, None);
        assert_eq!(read_with::<i64>(&b, le, None).0.unwrap(), -5);

        let (b, _) = write_with(&u128::MAX, le, None);
        assert_eq!(read_with::<u128>(&b, le, None).0.unwrap(), u128::MAX);

        let (b, _) = write_with(&i8::MIN, le, None);
        assert_eq!(b, vec![0x80]);
        assert_eq!(read_with::<i8>(&b, le, None).0.unwrap(), i8::MIN);

        let (b, _) = write_with(&isize::MIN, le, None);
        assert_eq!(b.len(), std::mem::size_of::<isize>());
        assert_eq!(read_with::<isize>(&b, le, None).0.unwrap(), isize::MIN);
    }
}

#[test]
fn big_endian_bytes_are_little_endian_reversed() {
    let (le, _) = write_with(&0x0102_0304u32, true, None);
    let (be, _) = write_with(&0x0102_0304u32, false, None);
    assert_eq!(le, vec![4, 3, 2, 1]);
    assert_eq!(be, vec![1, 2, 3, 4]);
    let (le, _) = write_with(&-2i16, true, None);
    let (be, _) = write_with(&-2i16, false, None);
    assert_eq!(le, vec![0xfe, 0xff]);
    assert_eq!(be, vec![0xff, 0xfe]);
}

#[test]
fn fixed_read_then_write_gives_the_bytes_back() {
    let bytes = [0x9a, 0x00, 0x7f, 0xff];
    let (v, _, _) = read_with::<u32>(&bytes, false, None);
    let v = v.unwrap();
    assert_eq!(v, 0x9a00_7fff);
    assert_eq!(write_with(&v, false, None).0, bytes.to_vec());
}

#[test]
fn a_read_ignores_what_follows() {
    let (a, _, pa) = read_with::<u16>(&[1, 2], true, None);
    let (b, _, pb) = read_with::<u16>(&[1, 2, 99, 98], true, None);
    assert_eq!(a.unwrap(), 0x0201);
    assert_eq!(b.unwrap(), 0x0201);
    assert_eq!(pa, pb);
}

#[test]
fn short_input_is_not_enough_space_and_takes_nothing() {
    let (r, ctx, pos) = read_with::<u32>(&[1, 2, 3], true, None);
    assert!(matches!(r, Err(SpError::NotEnoughSpace)));
    assert_eq!((ctx.cursor, pos), (0, 0));
    let (r, _, _) = read_with::<u8>(&[], true, None);
    assert!(matches!(r, Err(SpError::NotEnoughSpace)));
}

#[test]
fn bool_bytes() {
    assert!(!read_with::<bool>(&[0], true, None).0.unwrap());
    assert!(read_with::<bool>(&[1], true, None).0.unwrap());
    assert!(read_with::<bool>(&[0xaa], true, None).0.unwrap());
    assert_eq!(write_with(&true, true, None).0, vec![1]);
    assert_eq!(write_with(&false, false, None).0, vec![0]);
}

#[test]
fn nonzero_refuses_zero() {
    let (r, ctx, pos) = read_with::<NonZero<u16>>(&[0, 0], true, None);
    assert!(matches!(r, Err(SpError::InvalidBytes)));
    assert_eq!((ctx.cursor, pos), (2, 2));
    let (r, _, _) = read_with::<NonZero<u16>>(&[7, 0], true, None);
    assert_eq!(*r.unwrap().get(), 7);
    assert!(NonZero::new(0u8).is_none());
    let n = NonZero::new(300u32).unwrap();
    let (b, _) = write_with(&n, true, None);
    assert_eq!(b, vec![0x2c, 1, 0, 0]);
}

#[test]
fn vec_carries_its_count_first() {
    let v: Vec<u8> = vec![1, 2, 3];
    let (b, _) = write_with(&v, true, None);
    assert_eq!(b, vec![3, 0, 0, 0, 1, 2, 3]);
    let (b, _) = write_with(&v, false, None);
    assert_eq!(b, vec![0, 0, 0, 3, 1, 2, 3]);
    let (r, ctx, pos) = read_with::<Vec<u8>>(&[3, 0, 0, 0, 1, 2, 3, 4], true, None);
    assert_eq!(r.unwrap(), v);
    assert_eq!((ctx.cursor, pos), (7, 7));
}

#[test]
fn vec_with_external_len_has_no_count() {
    let v: Vec<u16> = vec![0x0102, 0x0304];
    let (b, ctx) = write_with(&v, true, Some(2));
    assert_eq!(b, vec![2, 1, 4, 3]);
    assert_eq!(ctx.len, None);
    let (r, ctx, pos) = read_with::<Vec<u16>>(&b, true, Some(2));
    assert_eq!(r.unwrap(), v);
    assert_eq!(ctx.len, None);
    assert_eq!((ctx.cursor, pos), (4, 4));
}

#[test]
fn vec_of_vecs_reads_back() {
    let v: Vec<Vec<i32>> = vec![vec![], vec![-1, 2], vec![i32::MAX]];
    for le in [true, false] {
        let (b, _) = write_with(&v, le, None);
        assert_eq!(b.len(), 4 + 4 + (4 + 8) + (4 + 4));
        let (r, ctx, _) = read_with::<Vec<Vec<i32>>>(&b, le, None);
        assert_eq!(r.unwrap(), v);
        assert_eq!(ctx.cursor, b.len());
    }
}

#[test]
fn vec_with_missing_items_fails() {
    let (r, _, _) = read_with::<Vec<u32>>(&[2, 0, 0, 0, 1, 0, 0, 0, 9], true, None);
    assert!(matches!(r, Err(SpError::NotEnoughSpace)));
    let (r, _, _) = read_with::<Vec<u8>>(&[0xff, 0xff, 0xff, 0xff], true, None);
    assert!(matches!(r, Err(SpError::NotEnoughSpace)));
    assert_eq!(MAX_ALLOC_SIZE, 4 * 1024 * 1024);
}

#[test]
fn option_tags() {
    assert_eq!(write_with(&None::<u8>, true, None).0, vec![0]);
    assert_eq!(write_with(&Some(5u8), true, None).0, vec![1, 5]);
    assert_eq!(read_with::<Option<u8>>(&[0, 5], true, None).0.unwrap(), None);
    assert_eq!(read_with::<Option<u8>>(&[7, 5], true, None).0.unwrap(), Some(5));
    let (b, _) = write_with(&Some(0x0102u16), false, None);
    assert_eq!(b, vec![1, 1, 2]);
    assert_eq!(read_with::<Option<u16>>(&b, false, None).0.unwrap(), Some(0x0102));
    assert!(matches!(read_with::<Option<u16>>(&[1, 2], true, None).0, Err(SpError::NotEnoughSpace)));
}

#[test]
fn strings_are_checked_utf8() {
    let s = String::from("héllo");
    let (b, _) = write_with(&s, true, None);
    assert_eq!(&b[..4], &[6, 0, 0, 0]);
    assert_eq!(read_with::<String>(&b, true, None).0.unwrap(), s);
    let (b, _) = write_with("ab", true, Some(2));
    assert_eq!(b, vec![b'a', b'b']);
    let (r, ctx, pos) = read_with::<String>(&[2, 0, 0, 0, 0xff, 0x61], true, None);
    assert!(matches!(r, Err(SpError::InvalidBytes)));
    assert_eq!((ctx.cursor, pos), (6, 6));
}

#[test]
fn vecdeque_reads_back() {
    let mut d: VecDeque<u32> = VecDeque::new();
    d.push_back(7);
    d.push_front(9);
    let (b, _) = write_with(&d, true, None);
    assert_eq!(b, vec![2, 0, 0, 0, 9, 0, 0, 0, 7, 0, 0, 0]);
    assert_eq!(read_with::<VecDeque<u32>>(&b, true, None).0.unwrap(), d);
}

#[test]
fn cstring_reads_up_to_nul() {
    let (r, ctx, pos) = read_with::<SpCString>(&[b'a', b'b', 0, b'x'], true, None);
    assert_eq!(r.unwrap().as_bytes(), b"ab");
    assert_eq!((ctx.cursor, pos), (3, 3));
    let (r, ctx, pos) = read_with::<SpCString>(&[b'a', b'b'], true, None);
    assert!(matches!(r, Err(SpError::NotEnoughSpace)));
    assert_eq!((ctx.cursor, pos), (0, 2));
}

#[test]
fn cstring_writes_as_counted_bytes_with_nul() {
    let c = SpCString::new(b"ab".to_vec()).unwrap();
    assert_eq!(c.to_bytes_with_nul(), vec![b'a', b'b', 0]);
    let (b, _) = write_with(&c, true, None);
    assert_eq!(b, vec![b'a', b'b', 0]);
    assert_eq!(write_with(&c, false, None).0, vec![b'a', b'b', 0]);
    assert!(SpCString::new(vec![1, 0, 2]).is_none());
    let (r, ctx, pos) = read_with::<SpCString>(&b, true, None);
    assert_eq!(r.unwrap().as_bytes(), b"ab");
    assert_eq!((ctx.cursor, pos), (3, 3));
    let empty = SpCString::new(Vec::new()).unwrap();
    let (b, _) = write_with(&empty, true, None);
    assert_eq!(b, vec![0]);
    assert_eq!(read_with::<SpCString>(&b, true, None).0.unwrap().as_bytes(), &[] as &[u8]);
}

#[test]
fn borrowed_byte_slices() {
    let data = [3, 0, 0, 0, 7, 8, 9, 10];
    let mut src = SpReader::new(&data);
    let mut ctx = SpCtx::default();
    assert_eq!(read_byte_slice(&mut src, &mut ctx).unwrap(), &[7, 8, 9]);
    assert_eq!((ctx.cursor, src.position()), (7, 7));

    let mut src = SpReader::new(&data);
    let mut ctx = ctx_with(true, Some(2));
    assert_eq!(read_byte_slice(&mut src, &mut ctx).unwrap(), &[3, 0]);
    assert_eq!(ctx.len, None);

    let mut src = SpReader::new(&data);
    let mut ctx = ctx_with(true, Some(9));
    assert!(matches!(read_byte_slice(&mut src, &mut ctx), Err(SpError::NotEnoughSpace)));
    assert_eq!(src.position(), 0);
}

#[test]
fn borrowed_strings() {
    let data = [2, 0, 0, 0, b'o', b'k'];
    let mut src = SpReader::new(&data);
    let mut ctx = SpCtx::default();
    assert_eq!(read_str(&mut src, &mut ctx).unwrap(), "ok");

    let bad = [1, 0, 0, 0, 0xc3];
    let mut src = SpReader::new(&bad);
    let mut ctx = SpCtx::default();
    assert!(matches!(read_str(&mut src, &mut ctx), Err(SpError::InvalidBytes)));
    assert_eq!(ctx.cursor, 5);

    let c = [b'h', b'i', 0, 5];
    let mut src = SpReader::new(&c);
    let mut ctx = SpCtx::default();
    assert_eq!(read_c_bytes(&mut src, &mut ctx).unwrap(), b"hi");
    assert_eq!((ctx.cursor, src.position()), (3, 3));
    let mut src = SpReader::new(&c[..2]);
    assert!(matches!(read_c_bytes(&mut src, &mut ctx), Err(SpError::NotEnoughSpace)));
}

#[test]
fn reader_steps() {
    let data = [1, 2, 3, 4, 5];
    let mut src = SpReader::new(&data);
    assert_eq!(src.remaining(), 5);
    assert_eq!(src.peek(1), 2);
    assert_eq!(src.take_uint(2, false).unwrap(), 0x0102);
    assert_eq!(src.take_slice(2).unwrap(), &[3, 4]);
    assert!(matches!(src.take_uint(2, true), Err(SpError::NotEnoughSpace)));
    assert_eq!(src.position(), 4);
    assert_eq!(src.remaining(), 1);
}

#[test]
fn wire_encoding() {
    let mut out = Vec::new();
    encode_uint(0x0a0b0c, 3, true, &mut out);
    encode_uint(0x0a0b0c, 3, false, &mut out);
    assert_eq!(out, vec![0x0c, 0x0b, 0x0a, 0x0a, 0x0b, 0x0c]);
    assert_eq!(decode_uint(&out, 0, 3, true), 0x0a0b0c);
    assert_eq!(decode_uint(&out, 3, 3, false), 0x0a0b0c);
    assert_eq!(decode_uint(&out, 1, 2, true), 0x0a0b);
}

#[test]
fn error_messages() {
    assert_eq!(SpError::NotEnoughSpace.message(), "Not enough bytes in the buffer to parse wanted type");
    assert_eq!(SpError::UnknownEnumVariant.message(), "Encountered invalid enum variant ID");
    assert_eq!(
        SpError::CountFieldOverflow.message(),
        "The `len` field's type is too small for the number of items !"
    );
    assert_eq!(SpError::InvalidBytes.message(), "Failed to parse the bytes into the wanted type");
    assert_eq!(SpError::BadAlignment.message(), "Input bytes are misaligned");
    let e = SpError::ReadFailed(std::io::Error::new(std::io::ErrorKind::Other, "gone"));
    assert_eq!(e.message(), "Failed to read more bytes : gone");
    assert_eq!(e.read_failure().unwrap().to_string(), "gone");
    assert!(SpError::InvalidBytes.read_failure().is_none());
}

#[test]
fn default_context() {
    let ctx = SpCtx::default();
    assert_eq!(ctx.cursor, 0);
    assert!(ctx.is_reading);
    assert!(ctx.is_little_endian);
    assert_eq!(ctx.len, None);
}

#[test]
fn cstring_ignores_external_len() {
    let c = SpCString::new(b"abc".to_vec()).unwrap();
    let (b, ctx) = write_with(&c, true, Some(4));
    assert_eq!(b, vec![b'a', b'b', b'c', 0]);
    assert_eq!(ctx.len, Some(4));
    let mut more = b.clone();
    more.extend_from_slice(&[9, 9]);
    let (r, ctx, pos) = read_with::<SpCString>(&more, true, Some(4));
    assert_eq!(r.unwrap().as_bytes(), b"abc");
    assert_eq!((ctx.cursor, pos), (4, 4));
    assert_eq!(ctx.len, Some(4));
}
