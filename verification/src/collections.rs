//! Dynamically sized values: sequences of items with their number in front of them (or
//! in the context's `len`), optional values, UTF-8 strings and NUL-terminated strings.
use vstd::prelude::*;
use std::collections::VecDeque;
use vstd::utf8::{decode_utf8, encode_utf8, valid_utf8};
use crate::reader::{lemma_reader_pos, SpReader};
use crate::{
    needs_more, read_effect, read_result_is, write_effect, write_result_is, ReadOutcome, SpCtx, SpError,
    SpRead, SpRoundTrip, SpWrite, WriteOutcome, MAX_ALLOC_SIZE,
};

verus! {

broadcast use lemma_reader_pos;

/* Reading items one after the other */

/// Reading `n` items one after the other from the front of `input`; each item is read with
/// the `len` that the one before it left in the context (the first with `len`).
pub open spec fn spec_read_items<T: SpRead>(
    le: bool,
    n: nat,
    len: Option<usize>,
    input: Seq<u8>,
) -> ReadOutcome<Seq<<T as DeepView>::V>>
    decreases n,
{
    if n == 0 {
        ReadOutcome { result: Ok(seq![]), used: 0, counted: 0, len_after: len }
    } else {
        let prev = spec_read_items::<T>(le, (n - 1) as nat, len, input);
        match prev.result {
            Err(e) => prev,
            Ok(vs) => {
                let item = T::spec_read(le, prev.len_after, input.skip(prev.used as int));
                ReadOutcome {
                    result: match item.result {
                        Ok(v) => Ok(vs.push(v)),
                        Err(e) => Err(e),
                    },
                    used: prev.used + item.used,
                    counted: prev.counted + item.counted,
                    len_after: item.len_after,
                }
            },
        }
    }
}

/// Reading items takes no more bytes than there are and counts no more than it takes.
pub proof fn lemma_read_items_bounds<T: SpRead>(
    le: bool,
    n: nat,
    len: Option<usize>,
    input: Seq<u8>,
)
    ensures
        spec_read_items::<T>(le, n, len, input).counted <= spec_read_items::<T>(
            le,
            n,
            len,
            input,
        ).used <= input.len(),
    decreases n,
{
    if n > 0 {
        lemma_read_items_bounds::<T>(le, (n - 1) as nat, len, input);
        let prev = spec_read_items::<T>(le, (n - 1) as nat, len, input);
        if prev.result is Ok {
            T::lemma_read_bounds(le, prev.len_after, input.skip(prev.used as int));
        }
    }
}

/// Reading items that does not ask for more bytes looks at no byte after the ones it takes.
pub proof fn lemma_read_items_prefix<T: SpRead>(
    le: bool,
    n: nat,
    len: Option<usize>,
    input: Seq<u8>,
    more: Seq<u8>,
)
    requires
        !needs_more(spec_read_items::<T>(le, n, len, input)),
    ensures
        spec_read_items::<T>(le, n, len, input + more) == spec_read_items::<T>(le, n, len, input),
    decreases n,
{
    if n > 0 {
        let prev = spec_read_items::<T>(le, (n - 1) as nat, len, input);
        lemma_read_items_prefix::<T>(le, (n - 1) as nat, len, input, more);
        if prev.result is Ok {
            lemma_read_items_bounds::<T>(le, (n - 1) as nat, len, input);
            assert((input + more).skip(prev.used as int) =~= input.skip(prev.used as int) + more);
            T::lemma_read_prefix(le, prev.len_after, input.skip(prev.used as int), more);
        }
    }
}

/// Once reading items has failed, reading more of them fails the same way.
pub proof fn lemma_read_items_failed<T: SpRead>(
    le: bool,
    k: nat,
    n: nat,
    len: Option<usize>,
    input: Seq<u8>,
)
    requires
        k <= n,
        spec_read_items::<T>(le, k, len, input).result is Err,
    ensures
        spec_read_items::<T>(le, n, len, input) == spec_read_items::<T>(le, k, len, input),
    decreases n,
{
    if k < n {
        lemma_read_items_failed::<T>(le, k, (n - 1) as nat, len, input);
    }
}

/// Reads `count` items one after the other.
fn read_items<T: SpRead>(src: &mut SpReader, ctx: &mut SpCtx, count: usize) -> (res: Result<
    Vec<T>,
    SpError,
>)
    requires
        old(ctx).cursor + old(src).rest().len() <= usize::MAX,
    ensures
        read_effect(
            spec_read_items::<T>(
                old(ctx).is_little_endian,
                count as nat,
                old(ctx).len,
                old(src).rest(),
            ),
            *old(src),
            *final(src),
            *old(ctx),
            *final(ctx),
        ),
        read_result_is(
            res,
            spec_read_items::<T>(
                old(ctx).is_little_endian,
                count as nat,
                old(ctx).len,
                old(src).rest(),
            ).result,
        ),
{
    let ghost src0 = *src;
    let ghost ctx0 = *ctx;
    let ghost le = ctx.is_little_endian;
    let ghost input = src.rest();
    // Set aside room for no more than `MAX_ALLOC_SIZE` bytes of items at once: a count
    // read from untrusted input does not decide how much memory is taken up front.
    let item_size = core::mem::size_of::<T>();
    let max_items: usize = if item_size == 0 || MAX_ALLOC_SIZE / item_size == 0 {
        1
    } else {
        MAX_ALLOC_SIZE / item_size
    };
    let mut items: Vec<T> = Vec::with_capacity(if count < max_items { count } else { max_items });
    let mut i: usize = 0;
    assert(items.deep_view() =~= Seq::<<T as DeepView>::V>::empty());
    while i < count
        invariant
            i <= count,
            src0 == *old(src),
            ctx0 == *old(ctx),
            le == ctx0.is_little_endian,
            input == src0.rest(),
            ctx0.cursor + input.len() <= usize::MAX,
            read_effect(spec_read_items::<T>(le, i as nat, ctx0.len, input), src0, *src, ctx0, *ctx),
            spec_read_items::<T>(le, i as nat, ctx0.len, input).result == Ok::<
                Seq<<T as DeepView>::V>,
                SpError,
            >(items.deep_view()),
        decreases count - i,
    {
        let ghost prev = spec_read_items::<T>(le, i as nat, ctx0.len, input);
        proof {
            lemma_read_items_bounds::<T>(le, i as nat, ctx0.len, input);
            assert(src.rest() =~= input.skip(prev.used as int));
        }
        let ghost item_out = T::spec_read(le, prev.len_after, input.skip(prev.used as int));
        let item = T::inner_from_reader(src, ctx);
        let ghost next = spec_read_items::<T>(le, (i + 1) as nat, ctx0.len, input);
        assert(next.used == prev.used + item_out.used);
        assert(next.counted == prev.counted + item_out.counted);
        assert(next.len_after == item_out.len_after);
        match item {
            Ok(v) => {
                let ghost before = items.deep_view();
                items.push(v);
                assert(items.deep_view() =~= before.push(v.deep_view()));
            },
            Err(e) => {
                assert(next.result == Err::<Seq<<T as DeepView>::V>, SpError>(e));
                proof {
                    lemma_read_items_failed::<T>(le, (i + 1) as nat, count as nat, ctx0.len, input);
                }
                return Err(e);
            },
        }
        i = i + 1;
    }
    Ok(items)
}

/* Sequences: a count, then the items */

/// Reading a sequence of items: with an external length `Some(n)`, `n` items; otherwise a
/// `DefaultCountType` count in the context's byte order, then that many items. The external
/// length is used up (the items are read with none).
pub open spec fn spec_read_seq<T: SpRead>(le: bool, len: Option<usize>, input: Seq<u8>) -> ReadOutcome<
    Seq<<T as DeepView>::V>,
> {
    match len {
        Some(n) => spec_read_items::<T>(le, n as nat, None, input),
        None => {
            let c = <u32 as SpRead>::spec_read(le, None, input);
            match c.result {
                Err(e) => ReadOutcome { result: Err(e), used: c.used, counted: c.counted, len_after: None },
                Ok(n) => {
                    let items = spec_read_items::<T>(le, n as nat, None, input.skip(c.used as int));
                    ReadOutcome {
                        result: items.result,
                        used: c.used + items.used,
                        counted: c.counted + items.counted,
                        len_after: items.len_after,
                    }
                },
            }
        },
    }
}

/// Reading a sequence takes no more bytes than there are and counts no more than it takes.
pub proof fn lemma_read_seq_bounds<T: SpRead>(le: bool, len: Option<usize>, input: Seq<u8>)
    ensures
        spec_read_seq::<T>(le, len, input).counted <= spec_read_seq::<T>(le, len, input).used
            <= input.len(),
{
    match len {
        Some(n) => lemma_read_items_bounds::<T>(le, n as nat, None, input),
        None => {
            <u32 as SpRead>::lemma_read_bounds(le, None, input);
            let c = <u32 as SpRead>::spec_read(le, None, input);
            if let Ok(n) = c.result {
                lemma_read_items_bounds::<T>(le, n as nat, None, input.skip(c.used as int));
            }
        },
    }
}

/// Reading a sequence that does not ask for more bytes looks at no byte after the ones it takes.
pub proof fn lemma_read_seq_prefix<T: SpRead>(
    le: bool,
    len: Option<usize>,
    input: Seq<u8>,
    more: Seq<u8>,
)
    requires
        !needs_more(spec_read_seq::<T>(le, len, input)),
    ensures
        spec_read_seq::<T>(le, len, input + more) == spec_read_seq::<T>(le, len, input),
{
    match len {
        Some(n) => lemma_read_items_prefix::<T>(le, n as nat, None, input, more),
        None => {
            <u32 as SpRead>::lemma_read_prefix(le, None, input, more);
            <u32 as SpRead>::lemma_read_bounds(le, None, input);
            let c = <u32 as SpRead>::spec_read(le, None, input);
            assert((input + more).skip(c.used as int) =~= input.skip(c.used as int) + more);
            if let Ok(n) = c.result {
                lemma_read_items_prefix::<T>(le, n as nat, None, input.skip(c.used as int), more);
            }
        },
    }
}

/// Reads a sequence of items: the number of them is the context's `len` when there is one
/// (which is used up), otherwise a `DefaultCountType` read first.
fn read_seq<T: SpRead>(src: &mut SpReader, ctx: &mut SpCtx) -> (res: Result<Vec<T>, SpError>)
    requires
        old(ctx).cursor + old(src).rest().len() <= usize::MAX,
    ensures
        read_effect(
            spec_read_seq::<T>(old(ctx).is_little_endian, old(ctx).len, old(src).rest()),
            *old(src),
            *final(src),
            *old(ctx),
            *final(ctx),
        ),
        read_result_is(
            res,
            spec_read_seq::<T>(old(ctx).is_little_endian, old(ctx).len, old(src).rest()).result,
        ),
{
    let ghost input = src.rest();
    let external = ctx.len;
    ctx.len = None;
    let count: usize = match external {
        Some(n) => n,
        None => {
            let c = <u32 as SpRead>::inner_from_reader(src, ctx)?;
            proof {
                <u32 as SpRead>::lemma_read_bounds(ctx.is_little_endian, None, input);
                assert(src.rest() =~= input.skip(
                    <u32 as SpRead>::spec_read(ctx.is_little_endian, None, input).used as int,
                ));
            }
            c as usize
        },
    };
    read_items::<T>(src, ctx, count)
}

/// `Vec<T>`: its items, after their number unless the context holds an external length.
/// The items are read, and checked, one at a time: when an item is refused (a zero read
/// as a `NonZero`, say), reading stops right after that item, having taken and counted its
/// bytes and those of the items before it and no more, whatever follows.
impl<T: SpRead> SpRead for Vec<T> {
    open spec fn spec_read(le: bool, len: Option<usize>, input: Seq<u8>) -> ReadOutcome<
        Seq<<T as DeepView>::V>,
    > {
        spec_read_seq::<T>(le, len, input)
    }

    proof fn lemma_read_bounds(le: bool, len: Option<usize>, input: Seq<u8>) {
        lemma_read_seq_bounds::<T>(le, len, input);
    }

    proof fn lemma_read_prefix(le: bool, len: Option<usize>, input: Seq<u8>, more: Seq<u8>) {
        lemma_read_seq_prefix::<T>(le, len, input, more);
    }

    fn inner_from_reader(src: &mut SpReader, ctx: &mut SpCtx) -> (res: Result<Vec<T>, SpError>) {
        read_seq::<T>(src, ctx)
    }
}

/* Writing items one after the other */

/// Writing the items of `vs` one after the other; each is written with the `len` that the
/// one before it left (the first with `len`); a failure stops the writing.
pub open spec fn spec_write_items<T: SpWrite>(
    vs: Seq<<T as DeepView>::V>,
    le: bool,
    len: Option<usize>,
) -> WriteOutcome
    decreases vs.len(),
{
    if vs.len() == 0 {
        WriteOutcome { result: Ok(()), bytes: seq![], len_after: len }
    } else {
        let prev = spec_write_items::<T>(vs.drop_last(), le, len);
        match prev.result {
            Err(e) => prev,
            Ok(_) => {
                let item = T::spec_write(vs.last(), le, prev.len_after);
                WriteOutcome {
                    result: item.result,
                    bytes: prev.bytes + item.bytes,
                    len_after: item.len_after,
                }
            },
        }
    }
}

/// Writing fewer items emits no more bytes.
pub proof fn lemma_write_items_grow<T: SpWrite>(
    vs: Seq<<T as DeepView>::V>,
    j: nat,
    le: bool,
    len: Option<usize>,
)
    requires
        j <= vs.len(),
    ensures
        spec_write_items::<T>(vs.take(j as int), le, len).bytes.len() <= spec_write_items::<T>(
            vs,
            le,
            len,
        ).bytes.len(),
    decreases vs.len(),
{
    if j < vs.len() {
        assert(vs.drop_last().take(j as int) =~= vs.take(j as int));
        lemma_write_items_grow::<T>(vs.drop_last(), j, le, len);
    } else {
        assert(vs.take(j as int) =~= vs);
    }
}

/// Once writing items has failed, writing more of them fails the same way.
pub proof fn lemma_write_items_failed<T: SpWrite>(
    vs: Seq<<T as DeepView>::V>,
    k: nat,
    le: bool,
    len: Option<usize>,
)
    requires
        k <= vs.len(),
        spec_write_items::<T>(vs.take(k as int), le, len).result is Err,
    ensures
        spec_write_items::<T>(vs, le, len) == spec_write_items::<T>(vs.take(k as int), le, len),
    decreases vs.len(),
{
    if k < vs.len() {
        assert(vs.drop_last().take(k as int) =~= vs.take(k as int));
        lemma_write_items_failed::<T>(vs.drop_last(), k, le, len);
    } else {
        assert(vs.take(k as int) =~= vs);
    }
}

/// Writes the items of `items` one after the other.
fn write_items<T: SpWrite>(items: &[T], ctx: &mut SpCtx, dst: &mut Vec<u8>) -> (res: Result<
    usize,
    SpError,
>)
    requires
        old(ctx).cursor + spec_write_items::<T>(
            items.deep_view(),
            old(ctx).is_little_endian,
            old(ctx).len,
        ).bytes.len() <= usize::MAX,
    ensures
        write_effect(
            spec_write_items::<T>(items.deep_view(), old(ctx).is_little_endian, old(ctx).len),
            old(dst)@,
            final(dst)@,
            *old(ctx),
            *final(ctx),
        ),
        write_result_is(
            res,
            spec_write_items::<T>(items.deep_view(), old(ctx).is_little_endian, old(ctx).len),
        ),
{
    let ghost ctx0 = *ctx;
    let ghost dst0 = dst@;
    let ghost le = ctx.is_little_endian;
    let ghost all = items.deep_view();
    let mut total: usize = 0;
    let mut i: usize = 0;
    assert(all.take(0) =~= Seq::<<T as DeepView>::V>::empty());
    while i < items.len()
        invariant
            i <= items.len(),
            ctx0 == *old(ctx),
            dst0 == old(dst)@,
            le == ctx0.is_little_endian,
            all == items.deep_view(),
            ctx0.cursor + spec_write_items::<T>(all, le, ctx0.len).bytes.len() <= usize::MAX,
            spec_write_items::<T>(all.take(i as int), le, ctx0.len).result is Ok,
            write_effect(spec_write_items::<T>(all.take(i as int), le, ctx0.len), dst0, dst@, ctx0, *ctx),
            total == spec_write_items::<T>(all.take(i as int), le, ctx0.len).bytes.len(),
        decreases items.len() - i,
    {
        proof {
            assert(all.take(i + 1).drop_last() =~= all.take(i as int));
            assert(all.take(i + 1).last() == items[i as int].deep_view());
            lemma_write_items_grow::<T>(all, (i + 1) as nat, le, ctx0.len);
        }
        let ghost dst_before = dst@;
        let ghost prev = spec_write_items::<T>(all.take(i as int), le, ctx0.len);
        let ghost next = spec_write_items::<T>(all.take(i + 1), le, ctx0.len);
        let n = items[i].inner_to_writer(ctx, dst);
        assert(dst@ =~= dst0 + next.bytes);
        match n {
            Ok(n) => {
                total = total + n;
            },
            Err(e) => {
                proof {
                    lemma_write_items_failed::<T>(all, (i + 1) as nat, le, ctx0.len);
                }
                return Err(e);
            },
        }
        i = i + 1;
    }
    assert(all.take(items.len() as int) =~= all);
    Ok(total)
}

/// Writing a sequence of items: unless there is an external length, their number first, as
/// a `DefaultCountType` in the context's byte order (failing with `CountFieldOverflow`,
/// before anything is written, when it does not fit); then the items, with no external length.
pub open spec fn spec_write_seq<T: SpWrite>(
    vs: Seq<<T as DeepView>::V>,
    le: bool,
    len: Option<usize>,
) -> WriteOutcome {
    match len {
        Some(_) => spec_write_items::<T>(vs, le, None),
        None => if vs.len() > u32::MAX {
            WriteOutcome { result: Err(SpError::CountFieldOverflow), bytes: seq![], len_after: None }
        } else {
            let c = <u32 as SpWrite>::spec_write(vs.len() as u32, le, None);
            let items = spec_write_items::<T>(vs, le, c.len_after);
            WriteOutcome {
                result: items.result,
                bytes: c.bytes + items.bytes,
                len_after: items.len_after,
            }
        },
    }
}

/// Writes a sequence of items, after their number unless the context holds an external length.
fn write_seq<T: SpWrite>(items: &[T], ctx: &mut SpCtx, dst: &mut Vec<u8>) -> (res: Result<
    usize,
    SpError,
>)
    requires
        old(ctx).cursor + spec_write_seq::<T>(
            items.deep_view(),
            old(ctx).is_little_endian,
            old(ctx).len,
        ).bytes.len() <= usize::MAX,
    ensures
        write_effect(
            spec_write_seq::<T>(items.deep_view(), old(ctx).is_little_endian, old(ctx).len),
            old(dst)@,
            final(dst)@,
            *old(ctx),
            *final(ctx),
        ),
        write_result_is(
            res,
            spec_write_seq::<T>(items.deep_view(), old(ctx).is_little_endian, old(ctx).len),
        ),
{
    let mut total: usize = 0;
    if ctx.len.is_none() {
        if items.len() > u32::MAX as usize {
            return Err(SpError::CountFieldOverflow);
        }
        let count = items.len() as u32;
        let written = count.inner_to_writer(ctx, dst);
        total = match written {
            Ok(n) => n,
            Err(e) => {
                return Err(e);
            },
        };
    }
    let ghost dst_mid = dst@;
    ctx.len = None;
    let rest = write_items(items, ctx, dst);
    assert(dst@ =~= old(dst)@ + spec_write_seq::<T>(
        items.deep_view(),
        old(ctx).is_little_endian,
        old(ctx).len,
    ).bytes);
    Ok(total + rest?)
}

/// `[T]`: its items, after their number unless the context holds an external length.
impl<T: SpWrite> SpWrite for [T] {
    open spec fn spec_write(v: Seq<<T as DeepView>::V>, le: bool, len: Option<usize>) -> WriteOutcome {
        spec_write_seq::<T>(v, le, len)
    }

    fn inner_to_writer(&self, ctx: &mut SpCtx, dst: &mut Vec<u8>) -> (res: Result<usize, SpError>) {
        write_seq(self, ctx, dst)
    }
}

/// `Vec<T>`: written as the slice of its items.
impl<T: SpWrite> SpWrite for Vec<T> {
    open spec fn spec_write(v: Seq<<T as DeepView>::V>, le: bool, len: Option<usize>) -> WriteOutcome {
        spec_write_seq::<T>(v, le, len)
    }

    fn inner_to_writer(&self, ctx: &mut SpCtx, dst: &mut Vec<u8>) -> (res: Result<usize, SpError>) {
        let items = self.as_slice();
        assert(items.deep_view() =~= self.deep_view());
        write_seq(items, ctx, dst)
    }
}

/* Writing then reading sequences */

/// Whether each item of `vs` reads back as itself, given the `len` that writing the items
/// before it leaves.
pub open spec fn spec_items_invertible<T: SpRoundTrip>(
    vs: Seq<<T as DeepView>::V>,
    le: bool,
    len: Option<usize>,
) -> bool
    decreases vs.len(),
{
    vs.len() == 0 || (spec_items_invertible::<T>(vs.drop_last(), le, len) && T::spec_invertible(
        vs.last(),
        le,
        spec_write_items::<T>(vs.drop_last(), le, len).len_after,
    ))
}

/// Items written one after the other read back, one after the other, as themselves.
pub proof fn lemma_items_write_read<T: SpRoundTrip>(
    vs: Seq<<T as DeepView>::V>,
    le: bool,
    len: Option<usize>,
    more: Seq<u8>,
)
    requires
        spec_items_invertible::<T>(vs, le, len),
        spec_write_items::<T>(vs, le, len).result is Ok,
    ensures
        spec_read_items::<T>(le, vs.len(), len, spec_write_items::<T>(vs, le, len).bytes + more)
            == (ReadOutcome {
            result: Ok::<Seq<<T as DeepView>::V>, SpError>(vs),
            used: spec_write_items::<T>(vs, le, len).bytes.len(),
            counted: spec_write_items::<T>(vs, le, len).bytes.len(),
            len_after: spec_write_items::<T>(vs, le, len).len_after,
        }),
    decreases vs.len(),
{
    let w = spec_write_items::<T>(vs, le, len);
    if vs.len() == 0 {
        assert(vs =~= Seq::<<T as DeepView>::V>::empty());
    } else {
        let front = vs.drop_last();
        let prev = spec_write_items::<T>(front, le, len);
        let last = T::spec_write(vs.last(), le, prev.len_after);
        assert(w.bytes + more =~= prev.bytes + (last.bytes + more));
        lemma_items_write_read::<T>(front, le, len, last.bytes + more);
        assert((w.bytes + more).skip(prev.bytes.len() as int) =~= last.bytes + more);
        T::lemma_write_read(vs.last(), le, prev.len_after, more);
        assert(front.push(vs.last()) =~= vs);
    }
}

/// `Vec<T>` reads back as itself when an external length, if any, is its number of items
/// and each item reads back as itself.
impl<T: SpRoundTrip> SpRoundTrip for Vec<T> {
    open spec fn spec_invertible(v: Seq<<T as DeepView>::V>, le: bool, len: Option<usize>) -> bool {
        &&& (len matches Some(n) ==> n == v.len())
        &&& spec_items_invertible::<T>(v, le, None)
    }

    proof fn lemma_write_read(v: Seq<<T as DeepView>::V>, le: bool, len: Option<usize>, more: Seq<u8>) {
        match len {
            Some(n) => {
                lemma_items_write_read::<T>(v, le, None, more);
            },
            None => {
                let c = <u32 as SpWrite>::spec_write(v.len() as u32, le, None);
                let items = spec_write_items::<T>(v, le, None);
                assert(c.bytes + items.bytes + more =~= c.bytes + (items.bytes + more));
                <u32 as SpRoundTrip>::lemma_write_read(v.len() as u32, le, None, items.bytes + more);
                assert((c.bytes + items.bytes + more).skip(c.bytes.len() as int) =~= items.bytes + more);
                lemma_items_write_read::<T>(v, le, None, more);
            },
        }
    }
}

/* Optional values: a byte saying whether the value follows */

/// Reading an `Option<T>`: a `u8`, `0` for `None`; anything else is followed by the `T`.
pub open spec fn spec_read_option<T: SpRead>(le: bool, len: Option<usize>, input: Seq<u8>) -> ReadOutcome<
    Option<<T as DeepView>::V>,
> {
    let tag = <u8 as SpRead>::spec_read(le, len, input);
    match tag.result {
        Err(e) => ReadOutcome { result: Err(e), used: tag.used, counted: tag.counted, len_after: tag.len_after },
        Ok(t) => if t == 0 {
            ReadOutcome { result: Ok(None), used: tag.used, counted: tag.counted, len_after: tag.len_after }
        } else {
            let inner = T::spec_read(le, tag.len_after, input.skip(tag.used as int));
            ReadOutcome {
                result: match inner.result {
                    Ok(v) => Ok(Some(v)),
                    Err(e) => Err(e),
                },
                used: tag.used + inner.used,
                counted: tag.counted + inner.counted,
                len_after: inner.len_after,
            }
        },
    }
}

/// Writing an `Option<T>`: the `u8` `1` followed by the value, or the `u8` `0`.
pub open spec fn spec_write_option<T: SpWrite>(v: Option<<T as DeepView>::V>, le: bool, len: Option<usize>) -> WriteOutcome {
    match v {
        Some(x) => {
            let tag = <u8 as SpWrite>::spec_write(1, le, len);
            let inner = T::spec_write(x, le, tag.len_after);
            WriteOutcome { result: inner.result, bytes: tag.bytes + inner.bytes, len_after: inner.len_after }
        },
        None => <u8 as SpWrite>::spec_write(0, le, len),
    }
}

/// `Option<T>`: a byte that is `0` for `None`, then the value for `Some`.
impl<T: SpRead> SpRead for Option<T> {
    open spec fn spec_read(le: bool, len: Option<usize>, input: Seq<u8>) -> ReadOutcome<
        Option<<T as DeepView>::V>,
    > {
        spec_read_option::<T>(le, len, input)
    }

    proof fn lemma_read_bounds(le: bool, len: Option<usize>, input: Seq<u8>) {
        <u8 as SpRead>::lemma_read_bounds(le, len, input);
        let tag = <u8 as SpRead>::spec_read(le, len, input);
        T::lemma_read_bounds(le, tag.len_after, input.skip(tag.used as int));
    }

    proof fn lemma_read_prefix(le: bool, len: Option<usize>, input: Seq<u8>, more: Seq<u8>) {
        <u8 as SpRead>::lemma_read_prefix(le, len, input, more);
        <u8 as SpRead>::lemma_read_bounds(le, len, input);
        let tag = <u8 as SpRead>::spec_read(le, len, input);
        assert((input + more).skip(tag.used as int) =~= input.skip(tag.used as int) + more);
        if tag.result matches Ok(t) && t != 0 {
            T::lemma_read_prefix(le, tag.len_after, input.skip(tag.used as int), more);
        }
    }

    fn inner_from_reader(src: &mut SpReader, ctx: &mut SpCtx) -> (res: Result<Option<T>, SpError>) {
        let ghost input = src.rest();
        let tag = <u8 as SpRead>::inner_from_reader(src, ctx)?;
        if tag == 0 {
            Ok(None)
        } else {
            proof {
                <u8 as SpRead>::lemma_read_bounds(old(ctx).is_little_endian, old(ctx).len, input);
                assert(src.rest() =~= input.skip(
                    <u8 as SpRead>::spec_read(old(ctx).is_little_endian, old(ctx).len, input).used as int,
                ));
            }
            let v = T::inner_from_reader(src, ctx)?;
            Ok(Some(v))
        }
    }
}

impl<T: SpWrite> SpWrite for Option<T> {
    open spec fn spec_write(v: Option<<T as DeepView>::V>, le: bool, len: Option<usize>) -> WriteOutcome {
        spec_write_option::<T>(v, le, len)
    }

    fn inner_to_writer(&self, ctx: &mut SpCtx, dst: &mut Vec<u8>) -> (res: Result<usize, SpError>) {
        match self {
            Some(v) => {
                let tag: u8 = 1;
                let a = tag.inner_to_writer(ctx, dst)?;
                let ghost mid = dst@;
                let b = v.inner_to_writer(ctx, dst);
                assert(dst@ =~= old(dst)@ + spec_write_option::<T>(
                    self.deep_view(),
                    old(ctx).is_little_endian,
                    old(ctx).len,
                ).bytes);
                Ok(a + b?)
            },
            None => {
                let tag: u8 = 0;
                tag.inner_to_writer(ctx, dst)
            },
        }
    }
}

/// `Option<T>` reads back as itself when the value inside, if any, does.
impl<T: SpRoundTrip> SpRoundTrip for Option<T> {
    open spec fn spec_invertible(v: Option<<T as DeepView>::V>, le: bool, len: Option<usize>) -> bool {
        v matches Some(x) ==> T::spec_invertible(x, le, len)
    }

    proof fn lemma_write_read(v: Option<<T as DeepView>::V>, le: bool, len: Option<usize>, more: Seq<u8>) {
        match v {
            Some(x) => {
                let tag = <u8 as SpWrite>::spec_write(1, le, len);
                let inner = T::spec_write(x, le, tag.len_after);
                assert(tag.bytes + inner.bytes + more =~= tag.bytes + (inner.bytes + more));
                <u8 as SpRoundTrip>::lemma_write_read(1, le, len, inner.bytes + more);
                assert((tag.bytes + inner.bytes + more).skip(tag.bytes.len() as int) =~= inner.bytes + more);
                T::lemma_write_read(x, le, tag.len_after, more);
            },
            None => {
                <u8 as SpRoundTrip>::lemma_write_read(0, le, len, more);
            },
        }
    }
}

/* UTF-8 strings: their bytes as a sequence of `u8` */

/// `String::from_utf8`, keeping only whether it succeeded: the contract claims that it
/// succeeds exactly on the byte sequences that are valid UTF-8 in the sense of vstd's
/// `valid_utf8`, and that the string it makes holds the characters those bytes decode to.
#[verifier::external_body]
fn string_from_utf8(bytes: Vec<u8>) -> (r: Option<String>)
    ensures
        r is Some <==> valid_utf8(bytes@),
        r matches Some(s) ==> s@ == decode_utf8(bytes@),
{
    String::from_utf8(bytes).ok()
}

/// Reading a string: a sequence of bytes (see `spec_read_seq`) that has to be valid UTF-8,
/// else `InvalidBytes`; the characters are what the bytes decode to.
pub open spec fn spec_read_string(le: bool, len: Option<usize>, input: Seq<u8>) -> ReadOutcome<Seq<char>> {
    let b = spec_read_seq::<u8>(le, len, input);
    ReadOutcome {
        result: match b.result {
            Ok(bytes) => if valid_utf8(bytes) {
                Ok(decode_utf8(bytes))
            } else {
                Err(SpError::InvalidBytes)
            },
            Err(e) => Err(e),
        },
        used: b.used,
        counted: b.counted,
        len_after: b.len_after,
    }
}

/// Writing a string: its UTF-8 bytes as a sequence of `u8` (see `spec_write_seq`).
pub open spec fn spec_write_string(s: Seq<char>, le: bool, len: Option<usize>) -> WriteOutcome {
    spec_write_seq::<u8>(encode_utf8(s), le, len)
}

/// A `u8` is its own deep view, so a sequence of bytes is too.
proof fn lemma_bytes_deep_view(b: Seq<u8>)
    ensures
        Seq::new(b.len(), |i: int| b[i].deep_view()) =~= b,
{
}

/// Any sequence of bytes reads back as itself.
proof fn lemma_bytes_invertible(b: Seq<u8>, le: bool, len: Option<usize>)
    ensures
        spec_items_invertible::<u8>(b, le, len),
    decreases b.len(),
{
    if b.len() > 0 {
        lemma_bytes_invertible(b.drop_last(), le, len);
    }
}

/// `String`: its UTF-8 bytes, after their number unless the context holds an external
/// length (which then counts bytes).
impl SpRead for String {
    open spec fn spec_read(le: bool, len: Option<usize>, input: Seq<u8>) -> ReadOutcome<Seq<char>> {
        spec_read_string(le, len, input)
    }

    proof fn lemma_read_bounds(le: bool, len: Option<usize>, input: Seq<u8>) {
        lemma_read_seq_bounds::<u8>(le, len, input);
    }

    proof fn lemma_read_prefix(le: bool, len: Option<usize>, input: Seq<u8>, more: Seq<u8>) {
        lemma_read_seq_prefix::<u8>(le, len, input, more);
    }

    fn inner_from_reader(src: &mut SpReader, ctx: &mut SpCtx) -> (res: Result<String, SpError>) {
        let bytes = read_seq::<u8>(src, ctx)?;
        proof {
            lemma_bytes_deep_view(bytes@);
        }
        assert(bytes.deep_view() == bytes@);
        match string_from_utf8(bytes) {
            Some(s) => Ok(s),
            None => Err(SpError::InvalidBytes),
        }
    }
}

impl SpWrite for String {
    open spec fn spec_write(v: Seq<char>, le: bool, len: Option<usize>) -> WriteOutcome {
        spec_write_string(v, le, len)
    }

    fn inner_to_writer(&self, ctx: &mut SpCtx, dst: &mut Vec<u8>) -> (res: Result<usize, SpError>) {
        self.as_str().inner_to_writer(ctx, dst)
    }
}

/// `str`: its UTF-8 bytes, after their number unless the context holds an external length.
impl SpWrite for str {
    open spec fn spec_write(v: Seq<char>, le: bool, len: Option<usize>) -> WriteOutcome {
        spec_write_string(v, le, len)
    }

    fn inner_to_writer(&self, ctx: &mut SpCtx, dst: &mut Vec<u8>) -> (res: Result<usize, SpError>) {
        let bytes = self.as_bytes();
        proof {
            lemma_bytes_deep_view(bytes@);
        }
        assert(bytes@ == encode_utf8(self@));
        assert(bytes.deep_view() == bytes@);
        assert(self.deep_view() == self@);
        assert(spec_write_seq::<u8>(bytes.deep_view(), ctx.is_little_endian, ctx.len) == <str as SpWrite>::spec_write(self.deep_view(), ctx.is_little_endian, ctx.len));
        write_seq::<u8>(bytes, ctx, dst)
    }
}

/// A string reads back as itself when an external length, if any, is its number of bytes.
impl SpRoundTrip for String {
    open spec fn spec_invertible(v: Seq<char>, le: bool, len: Option<usize>) -> bool {
        len matches Some(n) ==> n == encode_utf8(v).len()
    }

    proof fn lemma_write_read(v: Seq<char>, le: bool, len: Option<usize>, more: Seq<u8>) {
        broadcast use vstd::utf8::encode_utf8_valid_utf8, vstd::utf8::encode_utf8_decode_utf8;

        lemma_bytes_invertible(encode_utf8(v), le, None);
        <Vec<u8> as SpRoundTrip>::lemma_write_read(encode_utf8(v), le, len, more);
    }
}

/* Double-ended queues: written and read like `Vec` */

/// `VecDeque<T>`: its items front to back, after their number unless the context holds
/// an external length.
impl<T: SpRead> SpRead for VecDeque<T> {
    open spec fn spec_read(le: bool, len: Option<usize>, input: Seq<u8>) -> ReadOutcome<
        Seq<<T as DeepView>::V>,
    > {
        spec_read_seq::<T>(le, len, input)
    }

    proof fn lemma_read_bounds(le: bool, len: Option<usize>, input: Seq<u8>) {
        lemma_read_seq_bounds::<T>(le, len, input);
    }

    proof fn lemma_read_prefix(le: bool, len: Option<usize>, input: Seq<u8>, more: Seq<u8>) {
        lemma_read_seq_prefix::<T>(le, len, input, more);
    }

    fn inner_from_reader(src: &mut SpReader, ctx: &mut SpCtx) -> (res: Result<VecDeque<T>, SpError>) {
        let mut items = read_seq::<T>(src, ctx)?;
        let ghost all = items@;
        let mut queue: VecDeque<T> = VecDeque::new();
        while items.len() > 0
            invariant
                items@ + queue@ == all,
            decreases items.len(),
        {
            let ghost before = queue@;
            let last = items.pop().unwrap();
            queue.push_front(last);
            assert(items@ + queue@ =~= all);
        }
        assert(queue@ =~= all);
        assert(queue.deep_view() =~= Seq::new(all.len(), |i: int| all[i].deep_view()));
        Ok(queue)
    }
}

impl<T: SpWrite> SpWrite for VecDeque<T> {
    open spec fn spec_write(v: Seq<<T as DeepView>::V>, le: bool, len: Option<usize>) -> WriteOutcome {
        spec_write_seq::<T>(v, le, len)
    }

    fn inner_to_writer(&self, ctx: &mut SpCtx, dst: &mut Vec<u8>) -> (res: Result<usize, SpError>) {
        let ghost all = self.deep_view();
        let ghost ctx0 = *ctx;
        let ghost dst0 = dst@;
        let ghost le = ctx.is_little_endian;
        let mut total: usize = 0;
        if ctx.len.is_none() {
            if self.len() > u32::MAX as usize {
                return Err(SpError::CountFieldOverflow);
            }
            let count = self.len() as u32;
            let written = count.inner_to_writer(ctx, dst);
            total = match written {
                Ok(n) => n,
                Err(e) => {
                    return Err(e);
                },
            };
        }
        ctx.len = None;
        let ghost ctx1 = *ctx;
        let ghost dst1 = dst@;
        let ghost whole = spec_write_items::<T>(all, le, None);
        assert(dst1 + whole.bytes =~= dst0 + spec_write_seq::<T>(all, le, ctx0.len).bytes);
        let mut i: usize = 0;
        assert(all.take(0) =~= Seq::<<T as DeepView>::V>::empty());
        while i < self.len()
            invariant
                i <= self.len(),
                all == self.deep_view(),
                le == ctx1.is_little_endian,
                ctx1.len is None,
                ctx1.cursor + whole.bytes.len() <= usize::MAX,
                whole == spec_write_items::<T>(all, le, None),
                spec_write_items::<T>(all.take(i as int), le, None).result is Ok,
                write_effect(spec_write_items::<T>(all.take(i as int), le, None), dst1, dst@, ctx1, *ctx),
                dst0 == old(dst)@,
                ctx0 == *old(ctx),
                dst1.len() >= dst0.len(),
                (dst1.len() - dst0.len()) + whole.bytes.len() <= usize::MAX,
                dst1 + whole.bytes == dst0 + spec_write_seq::<T>(all, le, ctx0.len).bytes,
                ctx1.cursor == ctx0.cursor + (dst1.len() - dst0.len()),
                ctx1.is_little_endian == ctx0.is_little_endian,
                ctx1.is_reading == ctx0.is_reading,
                spec_write_seq::<T>(all, le, ctx0.len).result == whole.result,
                spec_write_seq::<T>(all, le, ctx0.len).len_after == whole.len_after,
                total == dst@.len() - dst0.len(),
            decreases self.len() - i,
        {
            proof {
                assert(all.take(i + 1).drop_last() =~= all.take(i as int));
                assert(all.take(i + 1).last() == self@[i as int].deep_view());
                lemma_write_items_grow::<T>(all, (i + 1) as nat, le, None);
            }
            let ghost dst_before = dst@;
            let ghost next = spec_write_items::<T>(all.take(i + 1), le, None);
            let n = self[i].inner_to_writer(ctx, dst);
            assert(dst@ =~= dst1 + next.bytes);
            match n {
                Ok(n) => {
                    total = total + n;
                },
                Err(e) => {
                    proof {
                        lemma_write_items_failed::<T>(all, (i + 1) as nat, le, None);
                    }
                    return Err(e);
                },
            }
            i = i + 1;
        }
        assert(all.take(self.len() as int) =~= all);
        Ok(total)
    }
}

/// `VecDeque<T>` reads back as itself exactly when the `Vec` of its items does.
impl<T: SpRoundTrip> SpRoundTrip for VecDeque<T> {
    open spec fn spec_invertible(v: Seq<<T as DeepView>::V>, le: bool, len: Option<usize>) -> bool {
        <Vec<T> as SpRoundTrip>::spec_invertible(v, le, len)
    }

    proof fn lemma_write_read(v: Seq<<T as DeepView>::V>, le: bool, len: Option<usize>, more: Seq<u8>) {
        <Vec<T> as SpRoundTrip>::lemma_write_read(v, le, len, more);
    }
}

/* NUL-terminated strings */

/// Where the first `0` byte of `s` is, if it has one.
pub open spec fn nul_index(s: Seq<u8>) -> Option<nat>
    decreases s.len(),
{
    if s.len() == 0 {
        None
    } else if s[0] == 0 {
        Some(0)
    } else {
        match nul_index(s.drop_first()) {
            Some(k) => Some(k + 1),
            None => None,
        }
    }
}

/// `nul_index` finds the first zero, or says there is none.
pub proof fn lemma_nul_index(s: Seq<u8>)
    ensures
        nul_index(s) matches Some(k) ==> k < s.len() && s[k as int] == 0 && forall|j: int|
            0 <= j < k ==> s[j] != 0,
        nul_index(s) is None ==> forall|j: int| 0 <= j < s.len() ==> s[j] != 0,
    decreases s.len(),
{
    if s.len() > 0 && s[0] != 0 {
        lemma_nul_index(s.drop_first());
        assert forall|j: int| 0 < j < s.len() implies s[j] == s.drop_first()[j - 1] by {}
    }
}

/// A string without `0` bytes, as carried by a C string (whose terminating `0` is not part of it).
pub struct SpCString {
    bytes: Vec<u8>,
}

impl SpCString {
    #[verifier::type_invariant]
    spec fn no_interior_nul(self) -> bool {
        forall|i: int| 0 <= i < self.bytes@.len() ==> self.bytes@[i] != 0
    }

    /// The bytes of the string, without the terminating `0`.
    pub closed spec fn bytes_view(&self) -> Seq<u8> {
        self.bytes@
    }

    /// The string made of `bytes`, or `None` when one of them is `0`.
    pub fn new(bytes: Vec<u8>) -> (r: Option<SpCString>)
        ensures
            r is Some <==> forall|i: int| 0 <= i < bytes@.len() ==> bytes@[i] != 0,
            r matches Some(c) ==> c.bytes_view() == bytes@,
    {
        let mut i: usize = 0;
        while i < bytes.len()
            invariant
                i <= bytes.len(),
                forall|j: int| 0 <= j < i ==> bytes@[j] != 0,
            decreases bytes.len() - i,
        {
            if bytes[i] == 0 {
                return None;
            }
            i = i + 1;
        }
        Some(SpCString { bytes })
    }

    /// The bytes of the string, without the terminating `0`.
    pub fn as_bytes(&self) -> (r: &[u8])
        ensures
            r@ == self.bytes_view(),
            forall|i: int| 0 <= i < r@.len() ==> r@[i] != 0,
    {
        proof {
            use_type_invariant(self);
        }
        self.bytes.as_slice()
    }

    /// The bytes of the string followed by the terminating `0`.
    pub fn to_bytes_with_nul(&self) -> (r: Vec<u8>)
        ensures
            r@ == self.bytes_view().push(0),
    {
        let mut r: Vec<u8> = Vec::new();
        let mut i: usize = 0;
        while i < self.bytes.len()
            invariant
                i <= self.bytes@.len(),
                r@ =~= self.bytes@.take(i as int),
            decreases self.bytes@.len() - i,
        {
            r.push(self.bytes[i]);
            i = i + 1;
        }
        r.push(0);
        assert(self.bytes@.take(self.bytes@.len() as int) =~= self.bytes@);
        r
    }
}

impl DeepView for SpCString {
    type V = Seq<u8>;

    open spec fn deep_view(&self) -> Seq<u8> {
        self.bytes_view()
    }
}

/// Reading a C string: the bytes up to the first `0`, which is taken and counted too; with no
/// `0` in the input, all of it is taken, nothing is counted and the read fails with
/// `NotEnoughSpace`. The context's `len` is left as it was.
pub open spec fn spec_read_cstring(input: Seq<u8>, len: Option<usize>) -> ReadOutcome<Seq<u8>> {
    match nul_index(input) {
        Some(k) => ReadOutcome { result: Ok(input.take(k as int)), used: k + 1, counted: k + 1, len_after: len },
        None => ReadOutcome { result: Err(SpError::NotEnoughSpace), used: input.len(), counted: 0, len_after: len },
    }
}

/// `SpCString`: read as the bytes before a `0`; written as the bytes followed by a `0`.
impl SpRead for SpCString {
    open spec fn spec_read(le: bool, len: Option<usize>, input: Seq<u8>) -> ReadOutcome<Seq<u8>> {
        spec_read_cstring(input, len)
    }

    proof fn lemma_read_bounds(le: bool, len: Option<usize>, input: Seq<u8>) {
        lemma_nul_index(input);
    }

    proof fn lemma_read_prefix(le: bool, len: Option<usize>, input: Seq<u8>, more: Seq<u8>) {
        lemma_nul_index(input);
        lemma_nul_index(input + more);
        let k = nul_index(input).unwrap();
        if nul_index(input + more) != Some(k) {
            match nul_index(input + more) {
                Some(k2) => {
                    if k2 < k {
                        assert((input + more)[k2 as int] == input[k2 as int]);
                    } else {
                        assert((input + more)[k as int] == input[k as int]);
                    }
                },
                None => {
                    assert((input + more)[k as int] == input[k as int]);
                },
            }
        }
        assert((input + more).take(k as int) =~= input.take(k as int));
    }

    fn inner_from_reader(src: &mut SpReader, ctx: &mut SpCtx) -> (res: Result<SpCString, SpError>) {
        let ghost input = src.rest();
        let ghost pos0 = src.pos();
        let mut bytes: Vec<u8> = Vec::new();
        proof {
            lemma_nul_index(input);
        }
        loop
            invariant
                src.data() == old(src).data(),
                pos0 == old(src).pos(),
                input == old(src).rest(),
                src.pos() == pos0 + bytes@.len(),
                bytes@ == input.take(bytes@.len() as int),
                bytes@.len() <= input.len(),
                forall|j: int| 0 <= j < bytes@.len() ==> input[j] != 0,
                nul_index(input) matches Some(k) ==> k < input.len() && input[k as int] == 0 && (
                forall|j: int| 0 <= j < k ==> input[j] != 0),
                nul_index(input) is None ==> forall|j: int| 0 <= j < input.len() ==> input[j] != 0,
                *ctx == *old(ctx),
                old(ctx).cursor + input.len() <= usize::MAX,
            decreases input.len() - bytes@.len(),
        {
            assert(src.rest() =~= input.skip(bytes@.len() as int));
            let ghost before = src.rest();
            let next = src.take_uint(1, true);
            match next {
                Ok(b) => {
                    proof {
                        let x = input[bytes@.len() as int];
                        assert(before.take(1) =~= seq![x]);
                        assert(seq![x].drop_first() =~= Seq::<u8>::empty());
                        assert(crate::wire::le_value(Seq::<u8>::empty()) == 0);
                        assert(crate::wire::le_value(seq![x]) == x);
                    }
                    if b == 0 {
                        ctx.cursor = ctx.cursor + bytes.len() + 1;
                        return Ok(SpCString { bytes });
                    }
                    bytes.push(b as u8);
                    assert(bytes@ =~= input.take(bytes@.len() as int));
                },
                Err(e) => {
                    assert(bytes@.len() == input.len());
                    return Err(e);
                },
            }
        }
    }
}

impl SpWrite for SpCString {
    open spec fn spec_write(v: Seq<u8>, le: bool, len: Option<usize>) -> WriteOutcome {
        WriteOutcome { result: Ok(()), bytes: v.push(0), len_after: len }
    }

    fn inner_to_writer(&self, ctx: &mut SpCtx, dst: &mut Vec<u8>) -> (res: Result<usize, SpError>) {
        let bytes = self.as_bytes();
        let n = bytes.len();
        let mut i: usize = 0;
        while i < n
            invariant
                i <= n == bytes@.len(),
                bytes@ == self.deep_view(),
                dst@ == old(dst)@ + bytes@.take(i as int),
            decreases n - i,
        {
            dst.push(bytes[i]);
            assert(bytes@.take(i + 1) =~= bytes@.take(i as int).push(bytes@[i as int]));
            i = i + 1;
        }
        dst.push(0);
        assert(bytes@.take(n as int) =~= bytes@);
        assert(dst@ =~= old(dst)@ + self.deep_view().push(0));
        ctx.cursor = ctx.cursor + n + 1;
        Ok(n + 1)
    }
}

/// A C string reads back as itself when it holds no `0` byte (as every `SpCString` does).
impl SpRoundTrip for SpCString {
    open spec fn spec_invertible(v: Seq<u8>, le: bool, len: Option<usize>) -> bool {
        forall|i: int| 0 <= i < v.len() ==> v[i] != 0
    }

    proof fn lemma_write_read(v: Seq<u8>, le: bool, len: Option<usize>, more: Seq<u8>) {
        let input = v.push(0) + more;
        lemma_nul_index(input);
        assert(input[v.len() as int] == 0);
        if nul_index(input) != Some(v.len()) {
            if let Some(k) = nul_index(input) {
                if k < v.len() {
                    assert(input[k as int] == v[k as int]);
                }
            }
        }
        assert(input.take(v.len() as int) =~= v);
    }
}

/* Laws on how strings and byte sequences are carried */

/// Writing bytes one by one emits exactly those bytes.
proof fn lemma_write_byte_items(b: Seq<u8>, le: bool)
    ensures
        spec_write_items::<u8>(b, le, None) == (WriteOutcome {
            result: Ok::<(), SpError>(()),
            bytes: b,
            len_after: None,
        }),
    decreases b.len(),
{
    if b.len() > 0 {
        lemma_write_byte_items(b.drop_last(), le);
        crate::wire::lemma_le_bytes_of_le_value(seq![b.last()]);
        assert(seq![b.last()].drop_first() =~= Seq::<u8>::empty());
        assert(crate::wire::le_value(seq![b.last()].drop_first()) == 0);
        assert(crate::wire::le_value(seq![b.last()]) == b.last() as nat);
        assert(seq![b.last()].reverse() =~= seq![b.last()]);
        assert(b.drop_last() + seq![b.last()] =~= b);
    } else {
        assert(b =~= Seq::<u8>::empty());
    }
}

/// A byte sequence (`Vec<u8>` or `VecDeque<u8>`) with an external length `n` is exactly the
/// next `n` bytes: reading takes and counts those `n` bytes, with no count in front, and
/// uses the external length up; writing emits the bytes alone, with no count, and uses the
/// external length up too.
pub proof fn law_bytes_external_len(le: bool, n: usize, input: Seq<u8>, v: Seq<u8>)
    requires
        n <= input.len(),
    ensures
        <Vec<u8> as SpRead>::spec_read(le, Some(n), input) == (ReadOutcome {
            result: Ok::<Seq<u8>, SpError>(input.take(n as int)),
            used: n as nat,
            counted: n as nat,
            len_after: None,
        }),
        <VecDeque<u8> as SpRead>::spec_read(le, Some(n), input) == <Vec<u8> as SpRead>::spec_read(
            le,
            Some(n),
            input,
        ),
        <Vec<u8> as SpWrite>::spec_write(v, le, Some(n)) == (WriteOutcome {
            result: Ok::<(), SpError>(()),
            bytes: v,
            len_after: None,
        }),
        <VecDeque<u8> as SpWrite>::spec_write(v, le, Some(n)) == <Vec<u8> as SpWrite>::spec_write(
            v,
            le,
            Some(n),
        ),
{
    crate::borrowed::lemma_read_byte_items(le, n as nat, input);
    lemma_write_byte_items(v, le);
}

/// Without an external length, a byte sequence is its number of bytes as a `u32` in the
/// context's byte order, then the bytes.
pub proof fn law_bytes_counted(le: bool, v: Seq<u8>)
    requires
        v.len() <= u32::MAX,
    ensures
        <Vec<u8> as SpWrite>::spec_write(v, le, None) == (WriteOutcome {
            result: Ok::<(), SpError>(()),
            bytes: crate::wire::uint_bytes(v.len(), 4, le) + v,
            len_after: None,
        }),
        <VecDeque<u8> as SpWrite>::spec_write(v, le, None) == <Vec<u8> as SpWrite>::spec_write(v, le, None),
{
    lemma_write_byte_items(v, le);
}

/// A `VecDeque<T>` is read exactly as the `Vec<T>` of its items, whatever the context's
/// external length.
pub proof fn law_vecdeque_read_as_vec<T: SpRead>(le: bool, len: Option<usize>, input: Seq<u8>)
    ensures
        <VecDeque<T> as SpRead>::spec_read(le, len, input) == <Vec<T> as SpRead>::spec_read(le, len, input),
{
}

/// A `VecDeque<T>` is written exactly as the `Vec<T>` of its items, whatever the context's
/// external length.
pub proof fn law_vecdeque_write_as_vec<T: SpWrite>(v: Seq<<T as DeepView>::V>, le: bool, len: Option<usize>)
    ensures
        <VecDeque<T> as SpWrite>::spec_write(v, le, len) == <Vec<T> as SpWrite>::spec_write(v, le, len),
{
}

/// A `String` (and a `str`) with an external length `n` is exactly the next `n` bytes, which
/// have to be UTF-8: reading takes and counts those `n` bytes, with no count in front, and
/// gives the characters they encode, or `InvalidBytes`; writing emits the string's UTF-8
/// bytes alone. The external length is used up either way.
pub proof fn law_string_external_len(le: bool, n: usize, input: Seq<u8>, v: Seq<char>)
    requires
        n <= input.len(),
    ensures
        <String as SpRead>::spec_read(le, Some(n), input) == (ReadOutcome {
            result: if valid_utf8(input.take(n as int)) {
                Ok::<Seq<char>, SpError>(decode_utf8(input.take(n as int)))
            } else {
                Err(SpError::InvalidBytes)
            },
            used: n as nat,
            counted: n as nat,
            len_after: None,
        }),
        <String as SpWrite>::spec_write(v, le, Some(n)) == (WriteOutcome {
            result: Ok::<(), SpError>(()),
            bytes: encode_utf8(v),
            len_after: None,
        }),
        <str as SpWrite>::spec_write(v, le, Some(n)) == <String as SpWrite>::spec_write(v, le, Some(n)),
{
    crate::borrowed::lemma_read_byte_items(le, n as nat, input);
    lemma_write_byte_items(encode_utf8(v), le);
}

/// Without an external length, a string is its number of UTF-8 bytes as a `u32` in the
/// context's byte order, then those bytes.
pub proof fn law_string_counted(le: bool, v: Seq<char>)
    requires
        encode_utf8(v).len() <= u32::MAX,
    ensures
        <String as SpWrite>::spec_write(v, le, None) == (WriteOutcome {
            result: Ok::<(), SpError>(()),
            bytes: crate::wire::uint_bytes(encode_utf8(v).len(), 4, le) + encode_utf8(v),
            len_after: None,
        }),
        <str as SpWrite>::spec_write(v, le, None) == <String as SpWrite>::spec_write(v, le, None),
{
    lemma_write_byte_items(encode_utf8(v), le);
}

} // verus!
