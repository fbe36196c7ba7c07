//! Fields that hold the number of items of another field (`#[sp(len = ..)]`): a derived
//! writer stores the other field's length in them, failing with `CountFieldOverflow` when the
//! field's type cannot hold it; a derived reader hands what it read on as that field's length.
use vstd::prelude::*;
use crate::SpError;

verus! {

/// Integer types a count field can have.
pub trait SpCountField: Sized {
    /// The number `v` stands for.
    spec fn count_value(v: Self) -> int;

    /// The largest number the type holds.
    spec fn max_count() -> int;

    /// `len` as a value of the type: `CountFieldOverflow` when the type cannot hold it.
    fn from_len(len: usize) -> (r: Result<Self, SpError>)
        ensures
            len <= Self::max_count() ==> (r matches Ok(v) && Self::count_value(v) == len),
            len > Self::max_count() ==> (r matches Err(SpError::CountFieldOverflow)),
    ;

    /// The count as a length (converted with `as usize`, which keeps every count a `usize`
    /// holds).
    fn to_len(&self) -> (r: usize)
        ensures
            0 <= Self::count_value(*self) <= usize::MAX ==> r == Self::count_value(*self),
    ;
}

impl SpCountField for u8 {
    open spec fn count_value(v: u8) -> int {
        v as int
    }

    open spec fn max_count() -> int {
        u8::MAX as int
    }

    fn from_len(len: usize) -> (r: Result<u8, SpError>) {
        if (len as u128) <= (u8::MAX as u128) {
            Ok(len as u8)
        } else {
            Err(SpError::CountFieldOverflow)
        }
    }

    fn to_len(&self) -> (r: usize)
        ensures
            r == *self as usize,
    {
        *self as usize
    }
}

impl SpCountField for u16 {
    open spec fn count_value(v: u16) -> int {
        v as int
    }

    open spec fn max_count() -> int {
        u16::MAX as int
    }

    fn from_len(len: usize) -> (r: Result<u16, SpError>) {
        if (len as u128) <= (u16::MAX as u128) {
            Ok(len as u16)
        } else {
            Err(SpError::CountFieldOverflow)
        }
    }

    fn to_len(&self) -> (r: usize)
        ensures
            r == *self as usize,
    {
        *self as usize
    }
}

impl SpCountField for u32 {
    open spec fn count_value(v: u32) -> int {
        v as int
    }

    open spec fn max_count() -> int {
        u32::MAX as int
    }

    fn from_len(len: usize) -> (r: Result<u32, SpError>) {
        if (len as u128) <= (u32::MAX as u128) {
            Ok(len as u32)
        } else {
            Err(SpError::CountFieldOverflow)
        }
    }

    fn to_len(&self) -> (r: usize)
        ensures
            r == *self as usize,
    {
        *self as usize
    }
}

impl SpCountField for u64 {
    open spec fn count_value(v: u64) -> int {
        v as int
    }

    open spec fn max_count() -> int {
        u64::MAX as int
    }

    fn from_len(len: usize) -> (r: Result<u64, SpError>) {
        if (len as u128) <= (u64::MAX as u128) {
            Ok(len as u64)
        } else {
            Err(SpError::CountFieldOverflow)
        }
    }

    fn to_len(&self) -> (r: usize)
        ensures
            r == *self as usize,
    {
        *self as usize
    }
}

impl SpCountField for u128 {
    open spec fn count_value(v: u128) -> int {
        v as int
    }

    open spec fn max_count() -> int {
        u128::MAX as int
    }

    fn from_len(len: usize) -> (r: Result<u128, SpError>) {
        if (len as u128) <= (u128::MAX as u128) {
            Ok(len as u128)
        } else {
            Err(SpError::CountFieldOverflow)
        }
    }

    fn to_len(&self) -> (r: usize)
        ensures
            r == *self as usize,
    {
        *self as usize
    }
}

impl SpCountField for usize {
    open spec fn count_value(v: usize) -> int {
        v as int
    }

    open spec fn max_count() -> int {
        usize::MAX as int
    }

    fn from_len(len: usize) -> (r: Result<usize, SpError>) {
        if (len as u128) <= (usize::MAX as u128) {
            Ok(len as usize)
        } else {
            Err(SpError::CountFieldOverflow)
        }
    }

    fn to_len(&self) -> (r: usize)
        ensures
            r == *self as usize,
    {
        *self as usize
    }
}

impl SpCountField for i8 {
    open spec fn count_value(v: i8) -> int {
        v as int
    }

    open spec fn max_count() -> int {
        i8::MAX as int
    }

    fn from_len(len: usize) -> (r: Result<i8, SpError>) {
        if (len as u128) <= (i8::MAX as u128) {
            Ok(len as i8)
        } else {
            Err(SpError::CountFieldOverflow)
        }
    }

    fn to_len(&self) -> (r: usize)
        ensures
            r == *self as usize,
    {
        *self as usize
    }
}

impl SpCountField for i16 {
    open spec fn count_value(v: i16) -> int {
        v as int
    }

    open spec fn max_count() -> int {
        i16::MAX as int
    }

    fn from_len(len: usize) -> (r: Result<i16, SpError>) {
        if (len as u128) <= (i16::MAX as u128) {
            Ok(len as i16)
        } else {
            Err(SpError::CountFieldOverflow)
        }
    }

    fn to_len(&self) -> (r: usize)
        ensures
            r == *self as usize,
    {
        *self as usize
    }
}

impl SpCountField for i32 {
    open spec fn count_value(v: i32) -> int {
        v as int
    }

    open spec fn max_count() -> int {
        i32::MAX as int
    }

    fn from_len(len: usize) -> (r: Result<i32, SpError>) {
        if (len as u128) <= (i32::MAX as u128) {
            Ok(len as i32)
        } else {
            Err(SpError::CountFieldOverflow)
        }
    }

    fn to_len(&self) -> (r: usize)
        ensures
            r == *self as usize,
    {
        *self as usize
    }
}

impl SpCountField for i64 {
    open spec fn count_value(v: i64) -> int {
        v as int
    }

    open spec fn max_count() -> int {
        i64::MAX as int
    }

    fn from_len(len: usize) -> (r: Result<i64, SpError>) {
        if (len as u128) <= (i64::MAX as u128) {
            Ok(len as i64)
        } else {
            Err(SpError::CountFieldOverflow)
        }
    }

    fn to_len(&self) -> (r: usize)
        ensures
            r == *self as usize,
    {
        *self as usize
    }
}

impl SpCountField for i128 {
    open spec fn count_value(v: i128) -> int {
        v as int
    }

    open spec fn max_count() -> int {
        i128::MAX as int
    }

    fn from_len(len: usize) -> (r: Result<i128, SpError>) {
        if (len as u128) <= (i128::MAX as u128) {
            Ok(len as i128)
        } else {
            Err(SpError::CountFieldOverflow)
        }
    }

    fn to_len(&self) -> (r: usize)
        ensures
            r == *self as usize,
    {
        *self as usize
    }
}

impl SpCountField for isize {
    open spec fn count_value(v: isize) -> int {
        v as int
    }

    open spec fn max_count() -> int {
        isize::MAX as int
    }

    fn from_len(len: usize) -> (r: Result<isize, SpError>) {
        if (len as u128) <= (isize::MAX as u128) {
            Ok(len as isize)
        } else {
            Err(SpError::CountFieldOverflow)
        }
    }

    fn to_len(&self) -> (r: usize)
        ensures
            r == *self as usize,
    {
        *self as usize
    }
}

/// For every integer type, a count field holds exactly the numbers of that type: its largest
/// count is the type's `MAX`, and a value stands for itself. So a length is stored (and
/// `CountFieldOverflow` avoided) exactly when it fits the field's type.
pub proof fn law_count_range()
    ensures
        <u8 as SpCountField>::max_count() == u8::MAX,
        forall|v: u8| #[trigger] <u8 as SpCountField>::count_value(v) == v as int,
        <u16 as SpCountField>::max_count() == u16::MAX,
        forall|v: u16| #[trigger] <u16 as SpCountField>::count_value(v) == v as int,
        <u32 as SpCountField>::max_count() == u32::MAX,
        forall|v: u32| #[trigger] <u32 as SpCountField>::count_value(v) == v as int,
        <u64 as SpCountField>::max_count() == u64::MAX,
        forall|v: u64| #[trigger] <u64 as SpCountField>::count_value(v) == v as int,
        <u128 as SpCountField>::max_count() == u128::MAX,
        forall|v: u128| #[trigger] <u128 as SpCountField>::count_value(v) == v as int,
        <usize as SpCountField>::max_count() == usize::MAX,
        forall|v: usize| #[trigger] <usize as SpCountField>::count_value(v) == v as int,
        <i8 as SpCountField>::max_count() == i8::MAX,
        forall|v: i8| #[trigger] <i8 as SpCountField>::count_value(v) == v as int,
        <i16 as SpCountField>::max_count() == i16::MAX,
        forall|v: i16| #[trigger] <i16 as SpCountField>::count_value(v) == v as int,
        <i32 as SpCountField>::max_count() == i32::MAX,
        forall|v: i32| #[trigger] <i32 as SpCountField>::count_value(v) == v as int,
        <i64 as SpCountField>::max_count() == i64::MAX,
        forall|v: i64| #[trigger] <i64 as SpCountField>::count_value(v) == v as int,
        <i128 as SpCountField>::max_count() == i128::MAX,
        forall|v: i128| #[trigger] <i128 as SpCountField>::count_value(v) == v as int,
        <isize as SpCountField>::max_count() == isize::MAX,
        forall|v: isize| #[trigger] <isize as SpCountField>::count_value(v) == v as int,
{
}

} // verus!
