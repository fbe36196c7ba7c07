use simple_parse::{SpCtx, SpError, SpRead, SpReader};
use std::fmt::Debug;

const NUM_ITEMS: usize = 3;

fn is_not_enough_space<T: Debug>(r: Result<T, SpError>) -> bool {
    matches!(r, Err(SpError::NotEnoughSpace))
}

/// Reads one `T` from `bytes` with `ctx`, returning the value and where the reader stopped.
fn read_one<T: SpRead>(bytes: &[u8], ctx: &mut SpCtx) -> (Result<T, SpError>, usize) {
    let mut src = SpReader::new(bytes);
    let r = T::inner_from_reader(&mut src, ctx);
    (r, src.position())
}

fn check_primitive<T, F>(size: usize, new: F, ref_test: bool)
where
    T: SpRead + PartialEq + Debug,
    F: Fn(usize) -> T,
{
    let mut ctx = SpCtx::default();
    let empty: [u8; 0] = [];
    let mut tmp = vec![0u8; size * NUM_ITEMS];

    // Empty slice
    assert!(is_not_enough_space(read_one::<T>(&empty, &mut ctx).0));

    // One byte short
    assert!(is_not_enough_space(read_one::<T>(&tmp[..size - 1], &mut ctx).0));

    // One byte extra
    let (v, pos) = read_one::<T>(&tmp[..size + 1], &mut ctx);
    assert_eq!(v.unwrap(), new(0));
    assert_eq!(pos, size);

    // Little endian
    ctx.is_little_endian = true;
    tmp[0] = 1;
    assert_eq!(read_one::<T>(&tmp, &mut ctx).0.unwrap(), new(1));

    // Big endian
    tmp[0] = 0;
    tmp[size - 1] = 1;
    ctx.is_little_endian = false;
    assert_eq!(read_one::<T>(&tmp, &mut ctx).0.unwrap(), new(1));

    // NUM_ITEMS items one after the other
    ctx.is_little_endian = true;
    let mut src = SpReader::new(&tmp);
    let mut i = 0;
    while let Ok(_) = T::inner_from_reader(&mut src, &mut ctx) {
        i += 1;
    }
    assert_eq!(i, NUM_ITEMS);
    assert_eq!(src.position(), size * NUM_ITEMS);

    if ref_test {
        check_items::<T, F>(size, new);
    }
}

fn check_items<T, F>(size: usize, new: F)
where
    T: SpRead + PartialEq + Debug,
    F: Fn(usize) -> T,
{
    let mut ctx = SpCtx::default();
    let mut tmp = vec![0u8; size * NUM_ITEMS];
    tmp[0] = 2;

    // Single values, one after the other
    let mut src = SpReader::new(&tmp);
    assert_eq!(T::inner_from_reader(&mut src, &mut ctx).unwrap(), new(2));
    assert_eq!(T::inner_from_reader(&mut src, &mut ctx).unwrap(), new(0));

    // Items with an external count
    ctx.len = Some(0);
    let (v, pos) = read_one::<Vec<T>>(&tmp, &mut ctx);
    assert_eq!(v.unwrap().len(), 0);
    assert_eq!(pos, 0);

    ctx.len = Some(NUM_ITEMS);
    let (v, pos) = read_one::<Vec<T>>(&tmp, &mut ctx);
    assert_eq!(v.unwrap().len(), NUM_ITEMS);
    assert_eq!(pos, size * NUM_ITEMS);

    ctx.len = Some(NUM_ITEMS - 1);
    let (v, pos) = read_one::<Vec<T>>(&tmp, &mut ctx);
    assert_eq!(v.unwrap().len(), NUM_ITEMS - 1);
    assert_eq!(pos, size * (NUM_ITEMS - 1));

    ctx.len = Some(NUM_ITEMS + 1);
    assert!(is_not_enough_space(read_one::<Vec<T>>(&tmp, &mut ctx).0));
}

/// A `f32` is carried as the `u32` of its bits.
#[derive(Debug, PartialEq)]
struct F32Bits(f32);

fn new_float32(val: usize) -> F32Bits {
    F32Bits(if val == 1 {
        0.000000000000000000000000000000000000000000001
    } else if val == 2 {
        0.000000000000000000000000000000000000000000003
    } else {
        0.0
    })
}

fn new_float64(val: usize) -> f64 {
    if val == 1 {
        0.000000000000000000000000000000000000000000000000000000000000000000000000000000000000000000000000000000000000000000000000000000000000000000000000000000000000000000000000000000000000000000000000000000000000000000000000000000000000000000000000000000000000000000000000000000000000000000000000000000000000000000000000000000000005
    } else if val == 2 {
        0.00000000000000000000000000000000000000000000000000000000000000000000000000000000000000000000000000000000000000000000000000000000000000000000000000000000000000000000000000000000000000000000000000000000000000000000000000000000000000000000000000000000000000000000000000000000000000000000000000000000000000000000000000000000001
    } else {
        0.0
    }
}

fn new_bool(val: usize) -> bool {
    val > 0
}

#[test]
fn primitive_types() {
    check_primitive::<u8, _>(1, |v| v as u8, true);
    check_primitive::<u16, _>(2, |v| v as u16, true);
    check_primitive::<u32, _>(4, |v| v as u32, true);
    check_primitive::<u64, _>(8, |v| v as u64, true);
    check_primitive::<u128, _>(16, |v| v as u128, true);
    check_primitive::<usize, _>(std::mem::size_of::<usize>(), |v| v, true);
    check_primitive::<i8, _>(1, |v| v as i8, true);
    check_primitive::<i16, _>(2, |v| v as i16, true);
    check_primitive::<i32, _>(4, |v| v as i32, true);
    check_primitive::<i64, _>(8, |v| v as i64, true);
    check_primitive::<i128, _>(16, |v| v as i128, true);
    check_primitive::<isize, _>(std::mem::size_of::<isize>(), |v| v as isize, true);

    // Floating point values travel as the bits of their IEEE 754 representation.
    check_primitive::<u32, _>(4, |v| new_float32(v).0.to_bits(), true);
    check_primitive::<u64, _>(8, |v| new_float64(v).to_bits(), true);
    assert_eq!(new_float32(1), F32Bits(f32::from_bits(1)));
    assert_eq!(new_float32(2), F32Bits(f32::from_bits(2)));
    assert_eq!(new_float64(1), f64::from_bits(1));
    assert_eq!(new_float64(2), f64::from_bits(2));

    check_primitive::<bool, _>(1, new_bool, false);
}
