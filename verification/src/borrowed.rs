//! Reading byte strings, UTF-8 strings and NUL-terminated strings in place: the values
//! returned borrow the reader's bytes instead of copying them.
use vstd::prelude::*;
use vstd::utf8::{decode_utf8, valid_utf8};
use crate::collections::{lemma_nul_index, nul_index, spec_read_cstring, spec_read_items, spec_read_seq, spec_read_string};
use crate::reader::{lemma_reader_pos, SpReader};
use crate::{read_effect, ReadOutcome, SpCtx, SpError, SpRead};

verus! {

broadcast use lemma_reader_pos;

/// Taking `n` bytes in place: all of them, or, when fewer are there, `NotEnoughSpace`
/// with nothing taken.
pub open spec fn spec_take(n: nat, input: Seq<u8>) -> ReadOutcome<Seq<u8>> {
    if input.len() < n {
        ReadOutcome { result: Err(SpError::NotEnoughSpace), used: 0, counted: 0, len_after: None }
    } else {
        ReadOutcome { result: Ok(input.take(n as int)), used: n, counted: n, len_after: None }
    }
}

/// Reading a byte string in place: the number of bytes is the external length when there is
/// one (it is used up), else a `DefaultCountType` read first; then that many bytes.
pub open spec fn spec_read_byte_slice(le: bool, len: Option<usize>, input: Seq<u8>) -> ReadOutcome<Seq<u8>> {
    match len {
        Some(n) => spec_take(n as nat, input),
        None => {
            let c = <u32 as SpRead>::spec_read(le, None, input);
            match c.result {
                Err(e) => ReadOutcome { result: Err(e), used: c.used, counted: c.counted, len_after: None },
                Ok(n) => {
                    let t = spec_take(n as nat, input.skip(c.used as int));
                    ReadOutcome {
                        result: t.result,
                        used: c.used + t.used,
                        counted: c.counted + t.counted,
                        len_after: None,
                    }
                },
            }
        },
    }
}

/// Reading `n` bytes one by one gives the first `n` bytes, when there are that many.
pub(crate) proof fn lemma_read_byte_items(le: bool, n: nat, input: Seq<u8>)
    requires
        n <= input.len(),
    ensures
        spec_read_items::<u8>(le, n, None, input) == (ReadOutcome {
            result: Ok::<Seq<u8>, SpError>(input.take(n as int)),
            used: n,
            counted: n,
            len_after: None,
        }),
    decreases n,
{
    if n > 0 {
        lemma_read_byte_items(le, (n - 1) as nat, input);
        let x = input[n - 1];
        let rest = input.skip(n - 1);
        assert(rest.take(1) =~= seq![x]);
        assert(seq![x].drop_first() =~= Seq::<u8>::empty());
        assert(seq![x].reverse() =~= seq![x]);
        assert(crate::wire::le_value(seq![x].drop_first()) == 0);
        assert(crate::wire::le_value(seq![x]) == x as nat);
        assert(crate::wire::uint_value(rest.take(1), le) == x as nat);
        let item = <u8 as SpRead>::spec_read(le, None, rest);
        assert(item.result == Ok::<u8, SpError>(x));
        assert(item.used == 1 && item.counted == 1 && item.len_after == None::<usize>);
        assert(input.take(n - 1).push(x) =~= input.take(n as int));
        let prev = spec_read_items::<u8>(le, (n - 1) as nat, None, input);
        assert(prev.used == n - 1);
        assert(spec_read_items::<u8>(le, n, None, input).result == Ok::<Seq<u8>, SpError>(
            input.take(n - 1).push(x),
        ));
    } else {
        assert(input.take(0) =~= Seq::<u8>::empty());
    }
}

/// Reading a byte string in place gives, when it succeeds, what reading it into a `Vec<u8>`
/// gives, taking and counting the same bytes.
pub proof fn law_byte_slice_agrees(le: bool, len: Option<usize>, input: Seq<u8>)
    requires
        spec_read_byte_slice(le, len, input).result is Ok,
    ensures
        spec_read_byte_slice(le, len, input) == spec_read_seq::<u8>(le, len, input),
{
    match len {
        Some(n) => {
            lemma_read_byte_items(le, n as nat, input);
        },
        None => {
            <u32 as SpRead>::lemma_read_bounds(le, None, input);
            let c = <u32 as SpRead>::spec_read(le, None, input);
            if let Ok(n) = c.result {
                lemma_read_byte_items(le, n as nat, input.skip(c.used as int));
            }
        },
    }
}

/// Reads a byte string in place (see `spec_read_byte_slice`).
pub fn read_byte_slice<'a>(src: &mut SpReader<'a>, ctx: &mut SpCtx) -> (res: Result<&'a [u8], SpError>)
    requires
        old(ctx).cursor + old(src).rest().len() <= usize::MAX,
    ensures
        read_effect(
            spec_read_byte_slice(old(ctx).is_little_endian, old(ctx).len, old(src).rest()),
            *old(src),
            *final(src),
            *old(ctx),
            *final(ctx),
        ),
        match res {
            Ok(b) => spec_read_byte_slice(old(ctx).is_little_endian, old(ctx).len, old(src).rest()).result
                == Ok::<Seq<u8>, SpError>(b@),
            Err(e) => spec_read_byte_slice(old(ctx).is_little_endian, old(ctx).len, old(src).rest()).result
                == Err::<Seq<u8>, SpError>(e),
        },
{
    let ghost input = src.rest();
    let external = ctx.len;
    ctx.len = None;
    let count: usize = match external {
        Some(n) => n,
        None => {
            let c = <u32 as SpRead>::inner_from_reader(src, ctx)?;
            proof {
                <u32 as SpRead>::lemma_read_bounds(ctx.is_little_endian, None, input);
                assert(src.rest() =~= input.skip(
                    <u32 as SpRead>::spec_read(ctx.is_little_endian, None, input).used as int,
                ));
            }
            c as usize
        },
    };
    let bytes = src.take_slice(count)?;
    ctx.cursor = ctx.cursor + count;
    Ok(bytes)
}

/// `std::str::from_utf8`, keeping only whether it succeeded: the contract claims that it
/// succeeds exactly on the byte sequences that are valid UTF-8 in the sense of vstd's
/// `valid_utf8`, and that the string it gives holds the characters those bytes decode to.
#[verifier::external_body]
fn str_from_utf8(bytes: &[u8]) -> (r: Option<&str>)
    ensures
        r is Some <==> valid_utf8(bytes@),
        r matches Some(s) ==> s@ == decode_utf8(bytes@),
{
    std::str::from_utf8(bytes).ok()
}

/// Reading a UTF-8 string in place: a byte string in place that has to be valid UTF-8,
/// else `InvalidBytes`.
pub open spec fn spec_read_str(le: bool, len: Option<usize>, input: Seq<u8>) -> ReadOutcome<Seq<char>> {
    let b = spec_read_byte_slice(le, len, input);
    ReadOutcome {
        result: match b.result {
            Ok(bytes) => if valid_utf8(bytes) {
                Ok(decode_utf8(bytes))
            } else {
                Err(SpError::InvalidBytes)
            },
            Err(e) => Err(e),
        },
        used: b.used,
        counted: b.counted,
        len_after: b.len_after,
    }
}

/// Reading a string in place gives, when the bytes are there, what reading it into a
/// `String` gives.
pub proof fn law_str_agrees(le: bool, len: Option<usize>, input: Seq<u8>)
    requires
        spec_read_byte_slice(le, len, input).result is Ok,
    ensures
        spec_read_str(le, len, input) == spec_read_string(le, len, input),
{
    law_byte_slice_agrees(le, len, input);
}

/// Reads a UTF-8 string in place (see `spec_read_str`).
pub fn read_str<'a>(src: &mut SpReader<'a>, ctx: &mut SpCtx) -> (res: Result<&'a str, SpError>)
    requires
        old(ctx).cursor + old(src).rest().len() <= usize::MAX,
    ensures
        read_effect(
            spec_read_str(old(ctx).is_little_endian, old(ctx).len, old(src).rest()),
            *old(src),
            *final(src),
            *old(ctx),
            *final(ctx),
        ),
        match res {
            Ok(s) => spec_read_str(old(ctx).is_little_endian, old(ctx).len, old(src).rest()).result
                == Ok::<Seq<char>, SpError>(s@),
            Err(e) => spec_read_str(old(ctx).is_little_endian, old(ctx).len, old(src).rest()).result
                == Err::<Seq<char>, SpError>(e),
        },
{
    let bytes = read_byte_slice(src, ctx)?;
    match str_from_utf8(bytes) {
        Some(s) => Ok(s),
        None => Err(SpError::InvalidBytes),
    }
}

/// Reads the bytes of a NUL-terminated string in place, without the terminating `0`
/// (see `spec_read_cstring`).
pub fn read_c_bytes<'a>(src: &mut SpReader<'a>, ctx: &mut SpCtx) -> (res: Result<&'a [u8], SpError>)
    requires
        old(ctx).cursor + old(src).rest().len() <= usize::MAX,
    ensures
        read_effect(
            spec_read_cstring(old(src).rest(), old(ctx).len),
            *old(src),
            *final(src),
            *old(ctx),
            *final(ctx),
        ),
        match res {
            Ok(b) => spec_read_cstring(old(src).rest(), old(ctx).len).result == Ok::<Seq<u8>, SpError>(b@),
            Err(e) => spec_read_cstring(old(src).rest(), old(ctx).len).result == Err::<Seq<u8>, SpError>(e),
        },
{
    let ghost input = src.rest();
    proof {
        lemma_nul_index(input);
    }
    let n = src.remaining();
    let mut k: usize = 0;
    while k < n && src.peek(k) != 0
        invariant
            k <= n == input.len(),
            input == src.rest(),
            forall|j: int| 0 <= j < k ==> input[j] != 0,
        decreases n - k,
    {
        k = k + 1;
    }
    if k == n {
        proof {
            if let Some(z) = nul_index(input) {
                assert(input[z as int] == 0);
            }
        }
        let _ = src.take_slice(n);
        return Err(SpError::NotEnoughSpace);
    }
    proof {
        if nul_index(input) != Some(k as nat) {
            if let Some(z) = nul_index(input) {
                if z < k {
                    assert(input[z as int] == 0);
                }
            }
        }
    }
    let bytes = src.take_slice(k)?;
    let _ = src.take_slice(1);
    ctx.cursor = ctx.cursor + k + 1;
    Ok(bytes)
}

} // verus!
