//! Numbers and booleans: fixed-size values in either byte order.
use vstd::prelude::*;
use crate::reader::{lemma_reader_pos, SpReader};
use crate::wire::{
    byte_base, encode_uint, lemma_byte_base_monotone, lemma_byte_base_widths, lemma_uint_value_bound,
    lemma_uint_value_of_bytes, lemma_uint_bytes_of_value, uint_bytes, uint_value,
};
use crate::{needs_more, ReadOutcome, SpCtx, SpError, SpRead, SpRoundTrip, SpWrite, WriteOutcome};

verus! {

/// Reading a `width`-byte number: it fails with `NotEnoughSpace`, taking nothing, when fewer
/// bytes are there; otherwise it takes and counts `width` bytes. The context's `len` is
/// left as it was.
pub open spec fn spec_read_fixed(width: nat, le: bool, len: Option<usize>, input: Seq<u8>) -> ReadOutcome<nat> {
    if input.len() < width {
        ReadOutcome { result: Err(SpError::NotEnoughSpace), used: 0, counted: 0, len_after: len }
    } else {
        ReadOutcome {
            result: Ok(uint_value(input.take(width as int), le)),
            used: width,
            counted: width,
            len_after: len,
        }
    }
}

/// Writing a `width`-byte number: always succeeds with its encoding; `len` is left as it was.
pub open spec fn spec_write_fixed(x: nat, width: nat, le: bool, len: Option<usize>) -> WriteOutcome {
    WriteOutcome { result: Ok(()), bytes: uint_bytes(x, width, le), len_after: len }
}

/// The number of bytes a `usize` or an `isize` takes on this platform.
pub open spec fn spec_usize_width() -> nat {
    (usize::BITS / 8) as nat
}

proof fn lemma_fixed_bounds(width: nat, le: bool, len: Option<usize>, input: Seq<u8>)
    ensures
        spec_read_fixed(width, le, len, input).counted <= spec_read_fixed(width, le, len, input).used
            <= input.len(),
{
}

proof fn lemma_fixed_prefix(width: nat, le: bool, len: Option<usize>, input: Seq<u8>, more: Seq<u8>)
    requires
        !needs_more(spec_read_fixed(width, le, len, input)),
    ensures
        spec_read_fixed(width, le, len, input + more) == spec_read_fixed(width, le, len, input),
{
    assert((input + more).take(width as int) =~= input.take(width as int));
}

/// The encoding of a number that fits reads back as that number, whatever follows it.
proof fn lemma_fixed_write_read(x: nat, width: nat, le: bool, len: Option<usize>, more: Seq<u8>)
    requires
        x < byte_base(width),
    ensures
        spec_read_fixed(width, le, len, uint_bytes(x, width, le) + more) == (ReadOutcome {
            result: Ok::<nat, SpError>(x),
            used: width,
            counted: width,
            len_after: len,
        }),
{
    lemma_uint_value_of_bytes(x, width, le);
    assert((uint_bytes(x, width, le) + more).take(width as int) =~= uint_bytes(x, width, le));
}

/// Read then write: the number read from enough bytes is written back as exactly the
/// bytes it was read from, in the same byte order.
pub proof fn law_fixed_read_then_write(width: nat, le: bool, len: Option<usize>, input: Seq<u8>)
    requires
        input.len() >= width,
    ensures
        spec_read_fixed(width, le, len, input).result matches Ok(x) && spec_write_fixed(
            x,
            width,
            le,
            len,
        ).bytes == input.take(width as int),
{
    lemma_uint_bytes_of_value(input.take(width as int), le);
}

/// Takes the next `width` bytes of `src` as a number and counts them into the cursor.
fn read_fixed(src: &mut SpReader, ctx: &mut SpCtx, width: usize) -> (res: Result<u128, SpError>)
    requires
        width <= 16,
        old(ctx).cursor + old(src).rest().len() <= usize::MAX,
    ensures
        crate::read_effect(
            spec_read_fixed(width as nat, old(ctx).is_little_endian, old(ctx).len, old(src).rest()),
            *old(src),
            *final(src),
            *old(ctx),
            *final(ctx),
        ),
        match res {
            Ok(x) => spec_read_fixed(width as nat, old(ctx).is_little_endian, old(ctx).len, old(src).rest()).result
                == Ok::<nat, SpError>(x as nat),
            Err(e) => spec_read_fixed(width as nat, old(ctx).is_little_endian, old(ctx).len, old(src).rest()).result
                == Err::<nat, SpError>(e),
        },
{
    broadcast use lemma_reader_pos;

    proof {
        lemma_uint_value_bound(src.rest().take(width as int), ctx.is_little_endian);
        lemma_byte_base_monotone(width as nat, 16);
        lemma_byte_base_widths();
    }
    let x = src.take_uint(width, ctx.is_little_endian)?;
    ctx.cursor = ctx.cursor + width;
    Ok(x)
}

/// Appends the `width`-byte encoding of `x` to `dst` and counts it into the cursor.
fn write_fixed(x: u128, width: usize, ctx: &mut SpCtx, dst: &mut Vec<u8>) -> (n: usize)
    requires
        width <= 16,
        old(ctx).cursor + width <= usize::MAX,
    ensures
        crate::write_effect(
            spec_write_fixed(x as nat, width as nat, old(ctx).is_little_endian, old(ctx).len),
            old(dst)@,
            final(dst)@,
            *old(ctx),
            *final(ctx),
        ),
        n == width,
{
    encode_uint(x, width, ctx.is_little_endian, dst);
    ctx.cursor = ctx.cursor + width;
    width
}

/// The width of `usize` on this platform, in bytes.
fn usize_width() -> (r: usize)
    ensures
        r == spec_usize_width(),
        r == 4 || r == 8,
        byte_base(r as nat) == usize::MAX + 1,
{
    broadcast use vstd::layout::layout_of_primitives;

    proof {
        lemma_byte_base_widths();
    }
    core::mem::size_of::<usize>()
}

/// `u8`: 1 byte in the context's byte order.
impl SpRead for u8 {
    open spec fn spec_read(le: bool, len: Option<usize>, input: Seq<u8>) -> ReadOutcome<u8> {
        spec_read_fixed(1, le, len, input).map(|x: nat| x as u8)
    }

    proof fn lemma_read_bounds(le: bool, len: Option<usize>, input: Seq<u8>) {
        lemma_fixed_bounds(1, le, len, input);
    }

    proof fn lemma_read_prefix(le: bool, len: Option<usize>, input: Seq<u8>, more: Seq<u8>) {
        lemma_fixed_prefix(1, le, len, input, more);
    }

    fn inner_from_reader(src: &mut SpReader, ctx: &mut SpCtx) -> (res: Result<u8, SpError>) {
        let x = read_fixed(src, ctx, 1)?;
        proof {
            lemma_byte_base_widths();
            lemma_uint_value_bound(old(src).rest().take(1 as int), old(ctx).is_little_endian);
        }
        Ok(x as u8)
    }
}

impl SpWrite for u8 {
    open spec fn spec_write(v: u8, le: bool, len: Option<usize>) -> WriteOutcome {
        spec_write_fixed(v as nat, 1, le, len)
    }

    fn inner_to_writer(&self, ctx: &mut SpCtx, dst: &mut Vec<u8>) -> (res: Result<usize, SpError>) {
        Ok(write_fixed(*self as u128, 1, ctx, dst))
    }
}

impl SpRoundTrip for u8 {
    open spec fn spec_invertible(v: u8, le: bool, len: Option<usize>) -> bool {
        true
    }

    proof fn lemma_write_read(v: u8, le: bool, len: Option<usize>, more: Seq<u8>) {
        lemma_byte_base_widths();
        lemma_fixed_write_read(v as nat, 1, le, len, more);
    }
}

/// `u16`: 2 bytes in the context's byte order.
impl SpRead for u16 {
    open spec fn spec_read(le: bool, len: Option<usize>, input: Seq<u8>) -> ReadOutcome<u16> {
        spec_read_fixed(2, le, len, input).map(|x: nat| x as u16)
    }

    proof fn lemma_read_bounds(le: bool, len: Option<usize>, input: Seq<u8>) {
        lemma_fixed_bounds(2, le, len, input);
    }

    proof fn lemma_read_prefix(le: bool, len: Option<usize>, input: Seq<u8>, more: Seq<u8>) {
        lemma_fixed_prefix(2, le, len, input, more);
    }

    fn inner_from_reader(src: &mut SpReader, ctx: &mut SpCtx) -> (res: Result<u16, SpError>) {
        let x = read_fixed(src, ctx, 2)?;
        proof {
            lemma_byte_base_widths();
            lemma_uint_value_bound(old(src).rest().take(2 as int), old(ctx).is_little_endian);
        }
        Ok(x as u16)
    }
}

impl SpWrite for u16 {
    open spec fn spec_write(v: u16, le: bool, len: Option<usize>) -> WriteOutcome {
        spec_write_fixed(v as nat, 2, le, len)
    }

    fn inner_to_writer(&self, ctx: &mut SpCtx, dst: &mut Vec<u8>) -> (res: Result<usize, SpError>) {
        Ok(write_fixed(*self as u128, 2, ctx, dst))
    }
}

impl SpRoundTrip for u16 {
    open spec fn spec_invertible(v: u16, le: bool, len: Option<usize>) -> bool {
        true
    }

    proof fn lemma_write_read(v: u16, le: bool, len: Option<usize>, more: Seq<u8>) {
        lemma_byte_base_widths();
        lemma_fixed_write_read(v as nat, 2, le, len, more);
    }
}

/// `u32`: 4 bytes in the context's byte order.
impl SpRead for u32 {
    open spec fn spec_read(le: bool, len: Option<usize>, input: Seq<u8>) -> ReadOutcome<u32> {
        spec_read_fixed(4, le, len, input).map(|x: nat| x as u32)
    }

    proof fn lemma_read_bounds(le: bool, len: Option<usize>, input: Seq<u8>) {
        lemma_fixed_bounds(4, le, len, input);
    }

    proof fn lemma_read_prefix(le: bool, len: Option<usize>, input: Seq<u8>, more: Seq<u8>) {
        lemma_fixed_prefix(4, le, len, input, more);
    }

    fn inner_from_reader(src: &mut SpReader, ctx: &mut SpCtx) -> (res: Result<u32, SpError>) {
        let x = read_fixed(src, ctx, 4)?;
        proof {
            lemma_byte_base_widths();
            lemma_uint_value_bound(old(src).rest().take(4 as int), old(ctx).is_little_endian);
        }
        Ok(x as u32)
    }
}

impl SpWrite for u32 {
    open spec fn spec_write(v: u32, le: bool, len: Option<usize>) -> WriteOutcome {
        spec_write_fixed(v as nat, 4, le, len)
    }

    fn inner_to_writer(&self, ctx: &mut SpCtx, dst: &mut Vec<u8>) -> (res: Result<usize, SpError>) {
        Ok(write_fixed(*self as u128, 4, ctx, dst))
    }
}

impl SpRoundTrip for u32 {
    open spec fn spec_invertible(v: u32, le: bool, len: Option<usize>) -> bool {
        true
    }

    proof fn lemma_write_read(v: u32, le: bool, len: Option<usize>, more: Seq<u8>) {
        lemma_byte_base_widths();
        lemma_fixed_write_read(v as nat, 4, le, len, more);
    }
}

/// `u64`: 8 bytes in the context's byte order.
impl SpRead for u64 {
    open spec fn spec_read(le: bool, len: Option<usize>, input: Seq<u8>) -> ReadOutcome<u64> {
        spec_read_fixed(8, le, len, input).map(|x: nat| x as u64)
    }

    proof fn lemma_read_bounds(le: bool, len: Option<usize>, input: Seq<u8>) {
        lemma_fixed_bounds(8, le, len, input);
    }

    proof fn lemma_read_prefix(le: bool, len: Option<usize>, input: Seq<u8>, more: Seq<u8>) {
        lemma_fixed_prefix(8, le, len, input, more);
    }

    fn inner_from_reader(src: &mut SpReader, ctx: &mut SpCtx) -> (res: Result<u64, SpError>) {
        let x = read_fixed(src, ctx, 8)?;
        proof {
            lemma_byte_base_widths();
            lemma_uint_value_bound(old(src).rest().take(8 as int), old(ctx).is_little_endian);
        }
        Ok(x as u64)
    }
}

impl SpWrite for u64 {
    open spec fn spec_write(v: u64, le: bool, len: Option<usize>) -> WriteOutcome {
        spec_write_fixed(v as nat, 8, le, len)
    }

    fn inner_to_writer(&self, ctx: &mut SpCtx, dst: &mut Vec<u8>) -> (res: Result<usize, SpError>) {
        Ok(write_fixed(*self as u128, 8, ctx, dst))
    }
}

impl SpRoundTrip for u64 {
    open spec fn spec_invertible(v: u64, le: bool, len: Option<usize>) -> bool {
        true
    }

    proof fn lemma_write_read(v: u64, le: bool, len: Option<usize>, more: Seq<u8>) {
        lemma_byte_base_widths();
        lemma_fixed_write_read(v as nat, 8, le, len, more);
    }
}

/// `u128`: 16 bytes in the context's byte order.
impl SpRead for u128 {
    open spec fn spec_read(le: bool, len: Option<usize>, input: Seq<u8>) -> ReadOutcome<u128> {
        spec_read_fixed(16, le, len, input).map(|x: nat| x as u128)
    }

    proof fn lemma_read_bounds(le: bool, len: Option<usize>, input: Seq<u8>) {
        lemma_fixed_bounds(16, le, len, input);
    }

    proof fn lemma_read_prefix(le: bool, len: Option<usize>, input: Seq<u8>, more: Seq<u8>) {
        lemma_fixed_prefix(16, le, len, input, more);
    }

    fn inner_from_reader(src: &mut SpReader, ctx: &mut SpCtx) -> (res: Result<u128, SpError>) {
        let x = read_fixed(src, ctx, 16)?;
        proof {
            lemma_byte_base_widths();
            lemma_uint_value_bound(old(src).rest().take(16 as int), old(ctx).is_little_endian);
        }
        Ok(x)
    }
}

impl SpWrite for u128 {
    open spec fn spec_write(v: u128, le: bool, len: Option<usize>) -> WriteOutcome {
        spec_write_fixed(v as nat, 16, le, len)
    }

    fn inner_to_writer(&self, ctx: &mut SpCtx, dst: &mut Vec<u8>) -> (res: Result<usize, SpError>) {
        Ok(write_fixed(*self, 16, ctx, dst))
    }
}

impl SpRoundTrip for u128 {
    open spec fn spec_invertible(v: u128, le: bool, len: Option<usize>) -> bool {
        true
    }

    proof fn lemma_write_read(v: u128, le: bool, len: Option<usize>, more: Seq<u8>) {
        lemma_byte_base_widths();
        lemma_fixed_write_read(v as nat, 16, le, len, more);
    }
}

/// `usize`: its platform width in the context's byte order.
impl SpRead for usize {
    open spec fn spec_read(le: bool, len: Option<usize>, input: Seq<u8>) -> ReadOutcome<usize> {
        spec_read_fixed(spec_usize_width(), le, len, input).map(|x: nat| x as usize)
    }

    proof fn lemma_read_bounds(le: bool, len: Option<usize>, input: Seq<u8>) {
        lemma_fixed_bounds(spec_usize_width(), le, len, input);
    }

    proof fn lemma_read_prefix(le: bool, len: Option<usize>, input: Seq<u8>, more: Seq<u8>) {
        lemma_fixed_prefix(spec_usize_width(), le, len, input, more);
    }

    fn inner_from_reader(src: &mut SpReader, ctx: &mut SpCtx) -> (res: Result<usize, SpError>) {
        let w = usize_width();
        let x = read_fixed(src, ctx, w)?;
        proof {
            lemma_byte_base_widths();
            lemma_uint_value_bound(old(src).rest().take(w as int), old(ctx).is_little_endian);
        }
        Ok(x as usize)
    }
}

impl SpWrite for usize {
    open spec fn spec_write(v: usize, le: bool, len: Option<usize>) -> WriteOutcome {
        spec_write_fixed(v as nat, spec_usize_width(), le, len)
    }

    fn inner_to_writer(&self, ctx: &mut SpCtx, dst: &mut Vec<u8>) -> (res: Result<usize, SpError>) {
        let w = usize_width();
        Ok(write_fixed(*self as u128, w, ctx, dst))
    }
}

impl SpRoundTrip for usize {
    open spec fn spec_invertible(v: usize, le: bool, len: Option<usize>) -> bool {
        true
    }

    proof fn lemma_write_read(v: usize, le: bool, len: Option<usize>, more: Seq<u8>) {
        lemma_byte_base_widths();
        assert(usize::BITS == 32 || usize::BITS == 64);
        assert(usize::BITS == 32 ==> usize::MAX == 0xffff_ffff);
        assert(usize::BITS == 64 ==> usize::MAX == 0xffff_ffff_ffff_ffff);
        lemma_fixed_write_read(v as nat, spec_usize_width(), le, len, more);
    }
}

/// `i8`: 1 byte in the context's byte order.
impl SpRead for i8 {
    open spec fn spec_read(le: bool, len: Option<usize>, input: Seq<u8>) -> ReadOutcome<i8> {
        spec_read_fixed(1, le, len, input).map(|x: nat| (x as u8) as i8)
    }

    proof fn lemma_read_bounds(le: bool, len: Option<usize>, input: Seq<u8>) {
        lemma_fixed_bounds(1, le, len, input);
    }

    proof fn lemma_read_prefix(le: bool, len: Option<usize>, input: Seq<u8>, more: Seq<u8>) {
        lemma_fixed_prefix(1, le, len, input, more);
    }

    fn inner_from_reader(src: &mut SpReader, ctx: &mut SpCtx) -> (res: Result<i8, SpError>) {
        let x = read_fixed(src, ctx, 1)?;
        proof {
            lemma_byte_base_widths();
            lemma_uint_value_bound(old(src).rest().take(1 as int), old(ctx).is_little_endian);
        }
        Ok((x as u8) as i8)
    }
}

impl SpWrite for i8 {
    open spec fn spec_write(v: i8, le: bool, len: Option<usize>) -> WriteOutcome {
        spec_write_fixed((v as u8) as nat, 1, le, len)
    }

    fn inner_to_writer(&self, ctx: &mut SpCtx, dst: &mut Vec<u8>) -> (res: Result<usize, SpError>) {
        Ok(write_fixed((*self as u8) as u128, 1, ctx, dst))
    }
}

impl SpRoundTrip for i8 {
    open spec fn spec_invertible(v: i8, le: bool, len: Option<usize>) -> bool {
        true
    }

    proof fn lemma_write_read(v: i8, le: bool, len: Option<usize>, more: Seq<u8>) {
        lemma_byte_base_widths();
        assert((v as u8) as i8 == v) by (bit_vector);
        lemma_fixed_write_read((v as u8) as nat, 1, le, len, more);
    }
}

/// `i16`: 2 bytes in the context's byte order.
impl SpRead for i16 {
    open spec fn spec_read(le: bool, len: Option<usize>, input: Seq<u8>) -> ReadOutcome<i16> {
        spec_read_fixed(2, le, len, input).map(|x: nat| (x as u16) as i16)
    }

    proof fn lemma_read_bounds(le: bool, len: Option<usize>, input: Seq<u8>) {
        lemma_fixed_bounds(2, le, len, input);
    }

    proof fn lemma_read_prefix(le: bool, len: Option<usize>, input: Seq<u8>, more: Seq<u8>) {
        lemma_fixed_prefix(2, le, len, input, more);
    }

    fn inner_from_reader(src: &mut SpReader, ctx: &mut SpCtx) -> (res: Result<i16, SpError>) {
        let x = read_fixed(src, ctx, 2)?;
        proof {
            lemma_byte_base_widths();
            lemma_uint_value_bound(old(src).rest().take(2 as int), old(ctx).is_little_endian);
        }
        Ok((x as u16) as i16)
    }
}

impl SpWrite for i16 {
    open spec fn spec_write(v: i16, le: bool, len: Option<usize>) -> WriteOutcome {
        spec_write_fixed((v as u16) as nat, 2, le, len)
    }

    fn inner_to_writer(&self, ctx: &mut SpCtx, dst: &mut Vec<u8>) -> (res: Result<usize, SpError>) {
        Ok(write_fixed((*self as u16) as u128, 2, ctx, dst))
    }
}

impl SpRoundTrip for i16 {
    open spec fn spec_invertible(v: i16, le: bool, len: Option<usize>) -> bool {
        true
    }

    proof fn lemma_write_read(v: i16, le: bool, len: Option<usize>, more: Seq<u8>) {
        lemma_byte_base_widths();
        assert((v as u16) as i16 == v) by (bit_vector);
        lemma_fixed_write_read((v as u16) as nat, 2, le, len, more);
    }
}

/// `i32`: 4 bytes in the context's byte order.
impl SpRead for i32 {
    open spec fn spec_read(le: bool, len: Option<usize>, input: Seq<u8>) -> ReadOutcome<i32> {
        spec_read_fixed(4, le, len, input).map(|x: nat| (x as u32) as i32)
    }

    proof fn lemma_read_bounds(le: bool, len: Option<usize>, input: Seq<u8>) {
        lemma_fixed_bounds(4, le, len, input);
    }

    proof fn lemma_read_prefix(le: bool, len: Option<usize>, input: Seq<u8>, more: Seq<u8>) {
        lemma_fixed_prefix(4, le, len, input, more);
    }

    fn inner_from_reader(src: &mut SpReader, ctx: &mut SpCtx) -> (res: Result<i32, SpError>) {
        let x = read_fixed(src, ctx, 4)?;
        proof {
            lemma_byte_base_widths();
            lemma_uint_value_bound(old(src).rest().take(4 as int), old(ctx).is_little_endian);
        }
        Ok((x as u32) as i32)
    }
}

impl SpWrite for i32 {
    open spec fn spec_write(v: i32, le: bool, len: Option<usize>) -> WriteOutcome {
        spec_write_fixed((v as u32) as nat, 4, le, len)
    }

    fn inner_to_writer(&self, ctx: &mut SpCtx, dst: &mut Vec<u8>) -> (res: Result<usize, SpError>) {
        Ok(write_fixed((*self as u32) as u128, 4, ctx, dst))
    }
}

impl SpRoundTrip for i32 {
    open spec fn spec_invertible(v: i32, le: bool, len: Option<usize>) -> bool {
        true
    }

    proof fn lemma_write_read(v: i32, le: bool, len: Option<usize>, more: Seq<u8>) {
        lemma_byte_base_widths();
        assert((v as u32) as i32 == v) by (bit_vector);
        lemma_fixed_write_read((v as u32) as nat, 4, le, len, more);
    }
}

/// `i64`: 8 bytes in the context's byte order.
impl SpRead for i64 {
    open spec fn spec_read(le: bool, len: Option<usize>, input: Seq<u8>) -> ReadOutcome<i64> {
        spec_read_fixed(8, le, len, input).map(|x: nat| (x as u64) as i64)
    }

    proof fn lemma_read_bounds(le: bool, len: Option<usize>, input: Seq<u8>) {
        lemma_fixed_bounds(8, le, len, input);
    }

    proof fn lemma_read_prefix(le: bool, len: Option<usize>, input: Seq<u8>, more: Seq<u8>) {
        lemma_fixed_prefix(8, le, len, input, more);
    }

    fn inner_from_reader(src: &mut SpReader, ctx: &mut SpCtx) -> (res: Result<i64, SpError>) {
        let x = read_fixed(src, ctx, 8)?;
        proof {
            lemma_byte_base_widths();
            lemma_uint_value_bound(old(src).rest().take(8 as int), old(ctx).is_little_endian);
        }
        Ok((x as u64) as i64)
    }
}

impl SpWrite for i64 {
    open spec fn spec_write(v: i64, le: bool, len: Option<usize>) -> WriteOutcome {
        spec_write_fixed((v as u64) as nat, 8, le, len)
    }

    fn inner_to_writer(&self, ctx: &mut SpCtx, dst: &mut Vec<u8>) -> (res: Result<usize, SpError>) {
        Ok(write_fixed((*self as u64) as u128, 8, ctx, dst))
    }
}

impl SpRoundTrip for i64 {
    open spec fn spec_invertible(v: i64, le: bool, len: Option<usize>) -> bool {
        true
    }

    proof fn lemma_write_read(v: i64, le: bool, len: Option<usize>, more: Seq<u8>) {
        lemma_byte_base_widths();
        assert((v as u64) as i64 == v) by (bit_vector);
        lemma_fixed_write_read((v as u64) as nat, 8, le, len, more);
    }
}

/// `i128`: 16 bytes in the context's byte order.
impl SpRead for i128 {
    open spec fn spec_read(le: bool, len: Option<usize>, input: Seq<u8>) -> ReadOutcome<i128> {
        spec_read_fixed(16, le, len, input).map(|x: nat| (x as u128) as i128)
    }

    proof fn lemma_read_bounds(le: bool, len: Option<usize>, input: Seq<u8>) {
        lemma_fixed_bounds(16, le, len, input);
    }

    proof fn lemma_read_prefix(le: bool, len: Option<usize>, input: Seq<u8>, more: Seq<u8>) {
        lemma_fixed_prefix(16, le, len, input, more);
    }

    fn inner_from_reader(src: &mut SpReader, ctx: &mut SpCtx) -> (res: Result<i128, SpError>) {
        let x = read_fixed(src, ctx, 16)?;
        proof {
            lemma_byte_base_widths();
            lemma_uint_value_bound(old(src).rest().take(16 as int), old(ctx).is_little_endian);
        }
        Ok(x as i128)
    }
}

impl SpWrite for i128 {
    open spec fn spec_write(v: i128, le: bool, len: Option<usize>) -> WriteOutcome {
        spec_write_fixed((v as u128) as nat, 16, le, len)
    }

    fn inner_to_writer(&self, ctx: &mut SpCtx, dst: &mut Vec<u8>) -> (res: Result<usize, SpError>) {
        Ok(write_fixed(*self as u128, 16, ctx, dst))
    }
}

impl SpRoundTrip for i128 {
    open spec fn spec_invertible(v: i128, le: bool, len: Option<usize>) -> bool {
        true
    }

    proof fn lemma_write_read(v: i128, le: bool, len: Option<usize>, more: Seq<u8>) {
        lemma_byte_base_widths();
        assert((v as u128) as i128 == v) by (bit_vector);
        lemma_fixed_write_read((v as u128) as nat, 16, le, len, more);
    }
}

/// `isize`: its platform width in the context's byte order.
impl SpRead for isize {
    open spec fn spec_read(le: bool, len: Option<usize>, input: Seq<u8>) -> ReadOutcome<isize> {
        spec_read_fixed(spec_usize_width(), le, len, input).map(|x: nat| (x as usize) as isize)
    }

    proof fn lemma_read_bounds(le: bool, len: Option<usize>, input: Seq<u8>) {
        lemma_fixed_bounds(spec_usize_width(), le, len, input);
    }

    proof fn lemma_read_prefix(le: bool, len: Option<usize>, input: Seq<u8>, more: Seq<u8>) {
        lemma_fixed_prefix(spec_usize_width(), le, len, input, more);
    }

    fn inner_from_reader(src: &mut SpReader, ctx: &mut SpCtx) -> (res: Result<isize, SpError>) {
        let w = usize_width();
        let x = read_fixed(src, ctx, w)?;
        proof {
            lemma_byte_base_widths();
            lemma_uint_value_bound(old(src).rest().take(w as int), old(ctx).is_little_endian);
        }
        Ok((x as usize) as isize)
    }
}

impl SpWrite for isize {
    open spec fn spec_write(v: isize, le: bool, len: Option<usize>) -> WriteOutcome {
        spec_write_fixed((v as usize) as nat, spec_usize_width(), le, len)
    }

    fn inner_to_writer(&self, ctx: &mut SpCtx, dst: &mut Vec<u8>) -> (res: Result<usize, SpError>) {
        let w = usize_width();
        Ok(write_fixed((*self as usize) as u128, w, ctx, dst))
    }
}

impl SpRoundTrip for isize {
    open spec fn spec_invertible(v: isize, le: bool, len: Option<usize>) -> bool {
        true
    }

    proof fn lemma_write_read(v: isize, le: bool, len: Option<usize>, more: Seq<u8>) {
        lemma_byte_base_widths();
        assert(usize::BITS == 32 || usize::BITS == 64);
        assert(usize::BITS == 32 ==> usize::MAX == 0xffff_ffff);
        assert(usize::BITS == 64 ==> usize::MAX == 0xffff_ffff_ffff_ffff);
        assert((v as usize) as isize == v) by (bit_vector);
        lemma_fixed_write_read((v as usize) as nat, spec_usize_width(), le, len, more);
    }
}

/// `bool`: one byte, `0` for false and anything else for true; written as `0` or `1`.
impl SpRead for bool {
    open spec fn spec_read(le: bool, len: Option<usize>, input: Seq<u8>) -> ReadOutcome<bool> {
        spec_read_fixed(1, le, len, input).map(|x: nat| x != 0)
    }

    proof fn lemma_read_bounds(le: bool, len: Option<usize>, input: Seq<u8>) {
        lemma_fixed_bounds(1, le, len, input);
    }

    proof fn lemma_read_prefix(le: bool, len: Option<usize>, input: Seq<u8>, more: Seq<u8>) {
        lemma_fixed_prefix(1, le, len, input, more);
    }

    fn inner_from_reader(src: &mut SpReader, ctx: &mut SpCtx) -> (res: Result<bool, SpError>) {
        let x = read_fixed(src, ctx, 1)?;
        Ok(x != 0)
    }
}

impl SpWrite for bool {
    open spec fn spec_write(v: bool, le: bool, len: Option<usize>) -> WriteOutcome {
        spec_write_fixed(if v { 1 } else { 0 }, 1, le, len)
    }

    fn inner_to_writer(&self, ctx: &mut SpCtx, dst: &mut Vec<u8>) -> (res: Result<usize, SpError>) {
        let byte: u128 = if *self { 1 } else { 0 };
        Ok(write_fixed(byte, 1, ctx, dst))
    }
}

impl SpRoundTrip for bool {
    open spec fn spec_invertible(v: bool, le: bool, len: Option<usize>) -> bool {
        true
    }

    proof fn lemma_write_read(v: bool, le: bool, len: Option<usize>, more: Seq<u8>) {
        lemma_byte_base_widths();
        lemma_fixed_write_read(if v { 1 } else { 0 }, 1, le, len, more);
    }
}

} // verus!
