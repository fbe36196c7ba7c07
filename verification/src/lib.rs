//! `simple_parse`: a declarative binary parser. Values are read from bytes and written
//! back to bytes; numbers in either byte order, dynamically sized values with a length
//! in front of them (or one kept elsewhere).
use vstd::prelude::*;

pub mod wire;
pub mod error;
pub mod reader;
pub mod primitive;
pub mod collections;
pub mod nonzero;
pub mod count;
pub mod borrowed;
pub mod derive_rules;
pub mod custom_attr;
pub mod derive_plan;

pub use error::SpError;
pub use reader::SpReader;

verus! {

/// Byte order used when a context is created with `SpCtx::default`.
pub const DEFAULT_IS_LITTLE_ENDIAN: bool = true;

/// The type that dynamically sized values carry their number of items in.
pub type DefaultCountType = u32;

/// This is a safeguard against reading malicious/malformed dynamically sized types:
/// no more than this many bytes are set aside at once for the items of a collection.
pub const MAX_ALLOC_SIZE: usize = 4194304;

/// A context passed around `SpRead` and `SpWrite` functions.
pub struct SpCtx {
    /// How many bytes have been read/written so far
    pub cursor: usize,
    /// This value should only be checked inside custom validators (which get called for both Read & Write)
    pub is_reading: bool,
    /// If the input/output bytes should be treated as little endian
    pub is_little_endian: bool,
    /// If a dynamically sized value uses an external `len` field, and what its contents are
    pub len: Option<usize>,
}

impl Default for SpCtx {
    fn default() -> (r: Self)
        ensures
            r.cursor == 0,
            r.is_reading,
            r.is_little_endian == DEFAULT_IS_LITTLE_ENDIAN,
            r.len is None,
    {
        SpCtx { cursor: 0, is_reading: true, is_little_endian: DEFAULT_IS_LITTLE_ENDIAN, len: None }
    }
}

/// What reading a value amounts to: the value (as its deep view) or the error, how many
/// bytes were taken from the front of the input, how many of them were counted into the
/// context's cursor, and what the context's `len` is afterwards.
pub struct ReadOutcome<V> {
    pub result: Result<V, SpError>,
    pub used: nat,
    pub counted: nat,
    pub len_after: Option<usize>,
}

impl<V> ReadOutcome<V> {
    /// The same outcome with the value passed through `f`.
    pub open spec fn map<W>(self, f: spec_fn(V) -> W) -> ReadOutcome<W> {
        ReadOutcome {
            result: match self.result {
                Ok(v) => Ok(f(v)),
                Err(e) => Err(e),
            },
            used: self.used,
            counted: self.counted,
            len_after: self.len_after,
        }
    }
}

/// What writing a value amounts to: success or the error, every byte that was emitted
/// (on failure, those emitted before it), and the context's `len` afterwards.
pub struct WriteOutcome {
    pub result: Result<(), SpError>,
    pub bytes: Seq<u8>,
    pub len_after: Option<usize>,
}

/// Whether a read failed for want of bytes (`NotEnoughSpace`).
pub open spec fn needs_more<V>(out: ReadOutcome<V>) -> bool {
    out.result matches Err(SpError::NotEnoughSpace)
}

/// A read that went as `out` says: the reader moved past the bytes used, the cursor
/// grew by the bytes counted, `len` became `len_after` and nothing else changed.
pub open spec fn read_effect<'a, V>(
    out: ReadOutcome<V>,
    src0: SpReader<'a>,
    src1: SpReader<'a>,
    ctx0: SpCtx,
    ctx1: SpCtx,
) -> bool {
    &&& src1.data() == src0.data()
    &&& src1.pos() == src0.pos() + out.used
    &&& ctx1.cursor == ctx0.cursor + out.counted
    &&& ctx1.len == out.len_after
    &&& ctx1.is_little_endian == ctx0.is_little_endian
    &&& ctx1.is_reading == ctx0.is_reading
}

/// The value returned by a read is the one (or the error) its outcome names.
pub open spec fn read_result_is<T: DeepView>(
    res: Result<T, SpError>,
    expected: Result<<T as DeepView>::V, SpError>,
) -> bool {
    match res {
        Ok(v) => expected == Ok::<<T as DeepView>::V, SpError>(v.deep_view()),
        Err(e) => expected == Err::<<T as DeepView>::V, SpError>(e),
    }
}

/// A write that went as `out` says: the bytes were appended, the cursor grew by their
/// number, `len` became `len_after` and nothing else changed.
pub open spec fn write_effect(
    out: WriteOutcome,
    dst0: Seq<u8>,
    dst1: Seq<u8>,
    ctx0: SpCtx,
    ctx1: SpCtx,
) -> bool {
    &&& dst1 == dst0 + out.bytes
    &&& ctx1.cursor == ctx0.cursor + out.bytes.len()
    &&& ctx1.len == out.len_after
    &&& ctx1.is_little_endian == ctx0.is_little_endian
    &&& ctx1.is_reading == ctx0.is_reading
}

/// The value returned by a write: the number of bytes written, or the outcome's error.
pub open spec fn write_result_is(res: Result<usize, SpError>, out: WriteOutcome) -> bool {
    match res {
        Ok(n) => out.result is Ok && n == out.bytes.len(),
        Err(e) => out.result == Err::<(), SpError>(e),
    }
}

/// Parses untrusted bytes into a `Self`.
pub trait SpRead: Sized + DeepView {
    /// What reading a `Self` from the front of `input` amounts to, with byte order `le`
    /// and an external length `len` in the context.
    spec fn spec_read(le: bool, len: Option<usize>, input: Seq<u8>) -> ReadOutcome<
        <Self as DeepView>::V,
    >;

    /// A read takes no more bytes than there are and counts no more than it takes.
    proof fn lemma_read_bounds(le: bool, len: Option<usize>, input: Seq<u8>)
        ensures
            Self::spec_read(le, len, input).counted <= Self::spec_read(le, len, input).used
                <= input.len(),
    ;

    /// A read that does not ask for more bytes looks at no byte after the ones it takes: a
    /// success, or a failure other than `NotEnoughSpace`, stays the same (value, bytes taken
    /// and counted) whatever follows. So a reader of a stream may hand the bytes over as they
    /// come, until the read stops asking for more.
    proof fn lemma_read_prefix(le: bool, len: Option<usize>, input: Seq<u8>, more: Seq<u8>)
        requires
            !needs_more(Self::spec_read(le, len, input)),
        ensures
            Self::spec_read(le, len, input + more) == Self::spec_read(le, len, input),
    ;

    /// Reads a `Self` from `src` with the settings of `ctx`.
    fn inner_from_reader(src: &mut SpReader, ctx: &mut SpCtx) -> (res: Result<Self, SpError>)
        requires
            old(ctx).cursor + old(src).rest().len() <= usize::MAX,
        ensures
            read_effect(
                Self::spec_read(old(ctx).is_little_endian, old(ctx).len, old(src).rest()),
                *old(src),
                *final(src),
                *old(ctx),
                *final(ctx),
            ),
            read_result_is(
                res,
                Self::spec_read(old(ctx).is_little_endian, old(ctx).len, old(src).rest()).result,
            ),
    ;

    /// Reads a `Self` from `src` with a fresh context (little endian, no external length).
    fn from_reader(src: &mut SpReader) -> (res: Result<Self, SpError>)
        ensures
            final(src).data() == old(src).data(),
            final(src).pos() == old(src).pos() + Self::spec_read(
                DEFAULT_IS_LITTLE_ENDIAN,
                None,
                old(src).rest(),
            ).used,
            read_result_is(
                res,
                Self::spec_read(DEFAULT_IS_LITTLE_ENDIAN, None, old(src).rest()).result,
            ),
    {
        broadcast use reader::lemma_reader_pos;

        let mut ctx = SpCtx::default();
        Self::inner_from_reader(src, &mut ctx)
    }
}

/// Writes the binary representation of `Self`.
pub trait SpWrite: DeepView {
    /// What writing `v` amounts to with byte order `le` and an external length `len`
    /// in the context.
    spec fn spec_write(v: <Self as DeepView>::V, le: bool, len: Option<usize>) -> WriteOutcome;

    /// Appends the bytes of `self` to `dst` with the settings of `ctx`.
    fn inner_to_writer(&self, ctx: &mut SpCtx, dst: &mut Vec<u8>) -> (res: Result<usize, SpError>)
        requires
            old(ctx).cursor + Self::spec_write(
                self.deep_view(),
                old(ctx).is_little_endian,
                old(ctx).len,
            ).bytes.len() <= usize::MAX,
        ensures
            write_effect(
                Self::spec_write(self.deep_view(), old(ctx).is_little_endian, old(ctx).len),
                old(dst)@,
                final(dst)@,
                *old(ctx),
                *final(ctx),
            ),
            write_result_is(
                res,
                Self::spec_write(self.deep_view(), old(ctx).is_little_endian, old(ctx).len),
            ),
    ;

    /// Appends the bytes of `self` to `dst` with a fresh context (little endian, no external length).
    fn to_writer(&self, dst: &mut Vec<u8>) -> (res: Result<usize, SpError>)
        requires
            Self::spec_write(self.deep_view(), DEFAULT_IS_LITTLE_ENDIAN, None).bytes.len()
                <= usize::MAX,
        ensures
            final(dst)@ == old(dst)@ + Self::spec_write(
                self.deep_view(),
                DEFAULT_IS_LITTLE_ENDIAN,
                None,
            ).bytes,
            write_result_is(res, Self::spec_write(self.deep_view(), DEFAULT_IS_LITTLE_ENDIAN, None)),
    {
        let mut ctx = SpCtx::default();
        self.inner_to_writer(&mut ctx, dst)
    }
}

/// Types whose written bytes read back as the same value.
pub trait SpRoundTrip: SpRead + SpWrite {
    /// Whether `v`, written with byte order `le` and external length `len`, is read back as
    /// itself (for instance, an external length has to agree with the number of items).
    spec fn spec_invertible(v: <Self as DeepView>::V, le: bool, len: Option<usize>) -> bool;

    /// Write then read: the bytes a successful write of an invertible value emits, followed
    /// by anything, read back as the same value, taking and counting exactly those bytes and
    /// leaving `len` as the write left it.
    proof fn lemma_write_read(
        v: <Self as DeepView>::V,
        le: bool,
        len: Option<usize>,
        more: Seq<u8>,
    )
        requires
            Self::spec_invertible(v, le, len),
            Self::spec_write(v, le, len).result is Ok,
        ensures
            Self::spec_read(le, len, Self::spec_write(v, le, len).bytes + more) == (ReadOutcome {
                result: Ok::<<Self as DeepView>::V, SpError>(v),
                used: Self::spec_write(v, le, len).bytes.len(),
                counted: Self::spec_write(v, le, len).bytes.len(),
                len_after: Self::spec_write(v, le, len).len_after,
            }),
    ;
}

} // verus!
