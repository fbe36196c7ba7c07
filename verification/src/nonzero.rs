//! Numbers that are never zero: read like the number, refused with `InvalidBytes` when it is `0`.
use vstd::prelude::*;
use crate::reader::SpReader;
use crate::{ReadOutcome, SpCtx, SpError, SpRead, SpRoundTrip, SpWrite, WriteOutcome};

verus! {

/// Integer types whose zero can be told apart.
pub trait SpZero: Sized + DeepView {
    /// Whether `v` is the zero of the type.
    spec fn spec_is_zero(v: <Self as DeepView>::V) -> bool;

    /// Whether `self` is zero.
    fn is_zero(&self) -> (r: bool)
        ensures
            r == Self::spec_is_zero(self.deep_view()),
    ;
}

/// A number that is not zero (the counterpart of `std::num::NonZero*`).
pub struct NonZero<T: SpZero> {
    value: T,
}

impl<T: SpZero> NonZero<T> {
    #[verifier::type_invariant]
    spec fn not_zero(self) -> bool {
        !T::spec_is_zero(self.value.deep_view())
    }

    /// The number held.
    pub closed spec fn value_view(&self) -> <T as DeepView>::V {
        self.value.deep_view()
    }

    /// `Some` of `value` when it is not zero, `None` when it is.
    pub fn new(value: T) -> (r: Option<NonZero<T>>)
        ensures
            r is Some <==> !T::spec_is_zero(value.deep_view()),
            r matches Some(n) ==> n.value_view() == value.deep_view(),
    {
        if value.is_zero() {
            None
        } else {
            Some(NonZero { value })
        }
    }

    /// The number held.
    pub fn get(&self) -> (r: &T)
        ensures
            r.deep_view() == self.value_view(),
            !T::spec_is_zero(r.deep_view()),
    {
        proof {
            use_type_invariant(self);
        }
        &self.value
    }
}

impl<T: SpZero> DeepView for NonZero<T> {
    type V = <T as DeepView>::V;

    closed spec fn deep_view(&self) -> <T as DeepView>::V {
        self.value_view()
    }
}

/// `NonZero<T>`: read as a `T`, failing with `InvalidBytes` (the bytes taken and counted) when it is zero.
impl<T: SpZero + SpRead> SpRead for NonZero<T> {
    open spec fn spec_read(le: bool, len: Option<usize>, input: Seq<u8>) -> ReadOutcome<<T as DeepView>::V> {
        let o = T::spec_read(le, len, input);
        ReadOutcome {
            result: match o.result {
                Ok(v) => if T::spec_is_zero(v) {
                    Err(SpError::InvalidBytes)
                } else {
                    Ok(v)
                },
                Err(e) => Err(e),
            },
            used: o.used,
            counted: o.counted,
            len_after: o.len_after,
        }
    }

    proof fn lemma_read_bounds(le: bool, len: Option<usize>, input: Seq<u8>) {
        T::lemma_read_bounds(le, len, input);
    }

    proof fn lemma_read_prefix(le: bool, len: Option<usize>, input: Seq<u8>, more: Seq<u8>) {
        T::lemma_read_prefix(le, len, input, more);
    }

    fn inner_from_reader(src: &mut SpReader, ctx: &mut SpCtx) -> (res: Result<NonZero<T>, SpError>) {
        let v = T::inner_from_reader(src, ctx)?;
        match NonZero::new(v) {
            Some(n) => Ok(n),
            None => Err(SpError::InvalidBytes),
        }
    }
}

/// `NonZero<T>`: written as the `T` it holds.
impl<T: SpZero + SpWrite> SpWrite for NonZero<T> {
    open spec fn spec_write(v: <T as DeepView>::V, le: bool, len: Option<usize>) -> WriteOutcome {
        T::spec_write(v, le, len)
    }

    fn inner_to_writer(&self, ctx: &mut SpCtx, dst: &mut Vec<u8>) -> (res: Result<usize, SpError>) {
        self.get().inner_to_writer(ctx, dst)
    }
}

/// A non-zero number reads back as itself when the number does.
impl<T: SpZero + SpRoundTrip> SpRoundTrip for NonZero<T> {
    open spec fn spec_invertible(v: <T as DeepView>::V, le: bool, len: Option<usize>) -> bool {
        T::spec_invertible(v, le, len) && !T::spec_is_zero(v)
    }

    proof fn lemma_write_read(v: <T as DeepView>::V, le: bool, len: Option<usize>, more: Seq<u8>) {
        T::lemma_write_read(v, le, len, more);
    }
}

impl SpZero for u8 {
    open spec fn spec_is_zero(v: u8) -> bool {
        v == 0
    }

    fn is_zero(&self) -> (r: bool) {
        *self == 0
    }
}

impl SpZero for u16 {
    open spec fn spec_is_zero(v: u16) -> bool {
        v == 0
    }

    fn is_zero(&self) -> (r: bool) {
        *self == 0
    }
}

impl SpZero for u32 {
    open spec fn spec_is_zero(v: u32) -> bool {
        v == 0
    }

    fn is_zero(&self) -> (r: bool) {
        *self == 0
    }
}

impl SpZero for u64 {
    open spec fn spec_is_zero(v: u64) -> bool {
        v == 0
    }

    fn is_zero(&self) -> (r: bool) {
        *self == 0
    }
}

impl SpZero for u128 {
    open spec fn spec_is_zero(v: u128) -> bool {
        v == 0
    }

    fn is_zero(&self) -> (r: bool) {
        *self == 0
    }
}

impl SpZero for usize {
    open spec fn spec_is_zero(v: usize) -> bool {
        v == 0
    }

    fn is_zero(&self) -> (r: bool) {
        *self == 0
    }
}

impl SpZero for i8 {
    open spec fn spec_is_zero(v: i8) -> bool {
        v == 0
    }

    fn is_zero(&self) -> (r: bool) {
        *self == 0
    }
}

impl SpZero for i16 {
    open spec fn spec_is_zero(v: i16) -> bool {
        v == 0
    }

    fn is_zero(&self) -> (r: bool) {
        *self == 0
    }
}

impl SpZero for i32 {
    open spec fn spec_is_zero(v: i32) -> bool {
        v == 0
    }

    fn is_zero(&self) -> (r: bool) {
        *self == 0
    }
}

impl SpZero for i64 {
    open spec fn spec_is_zero(v: i64) -> bool {
        v == 0
    }

    fn is_zero(&self) -> (r: bool) {
        *self == 0
    }
}

impl SpZero for i128 {
    open spec fn spec_is_zero(v: i128) -> bool {
        v == 0
    }

    fn is_zero(&self) -> (r: bool) {
        *self == 0
    }
}

impl SpZero for isize {
    open spec fn spec_is_zero(v: isize) -> bool {
        v == 0
    }

    fn is_zero(&self) -> (r: bool) {
        *self == 0
    }
}

/// For every integer type, the zero that `NonZero` refuses is the number zero and no other
/// value: a number reads as a `NonZero` exactly when it is not `0`.
pub proof fn law_zero_is_zero()
    ensures
        forall|v: u8| #[trigger] <u8 as SpZero>::spec_is_zero(v) <==> v == 0,
        forall|v: u16| #[trigger] <u16 as SpZero>::spec_is_zero(v) <==> v == 0,
        forall|v: u32| #[trigger] <u32 as SpZero>::spec_is_zero(v) <==> v == 0,
        forall|v: u64| #[trigger] <u64 as SpZero>::spec_is_zero(v) <==> v == 0,
        forall|v: u128| #[trigger] <u128 as SpZero>::spec_is_zero(v) <==> v == 0,
        forall|v: usize| #[trigger] <usize as SpZero>::spec_is_zero(v) <==> v == 0,
        forall|v: i8| #[trigger] <i8 as SpZero>::spec_is_zero(v) <==> v == 0,
        forall|v: i16| #[trigger] <i16 as SpZero>::spec_is_zero(v) <==> v == 0,
        forall|v: i32| #[trigger] <i32 as SpZero>::spec_is_zero(v) <==> v == 0,
        forall|v: i64| #[trigger] <i64 as SpZero>::spec_is_zero(v) <==> v == 0,
        forall|v: i128| #[trigger] <i128 as SpZero>::spec_is_zero(v) <==> v == 0,
        forall|v: isize| #[trigger] <isize as SpZero>::spec_is_zero(v) <==> v == 0,
{
}

/// A `NonZero<T>` reads as the `T` does, failing with `InvalidBytes` exactly when that `T` is
/// zero, having taken and counted its bytes.
pub proof fn law_nonzero_reads_as_number<T: SpZero + SpRead>(le: bool, len: Option<usize>, input: Seq<u8>)
    ensures
        ({
            let n = <NonZero<T> as SpRead>::spec_read(le, len, input);
            let t = T::spec_read(le, len, input);
            &&& n.used == t.used
            &&& n.counted == t.counted
            &&& n.len_after == t.len_after
            &&& match t.result {
                Ok(v) => if T::spec_is_zero(v) {
                    n.result == Err::<<T as DeepView>::V, SpError>(SpError::InvalidBytes)
                } else {
                    n.result == Ok::<<T as DeepView>::V, SpError>(v)
                },
                Err(e) => n.result == Err::<<T as DeepView>::V, SpError>(e),
            }
        }),
{
}

} // verus!
