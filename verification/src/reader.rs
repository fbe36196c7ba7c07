//! A source of bytes that values are read from, front to back.
use vstd::prelude::*;
use crate::wire::{decode_uint, uint_value};
use crate::SpError;

verus! {

/// The bytes a value is parsed from and how far parsing has come.
pub struct SpReader<'a> {
    bytes: &'a [u8],
    pos: usize,
}

impl<'a> SpReader<'a> {
    #[verifier::type_invariant]
    spec fn within_bounds(self) -> bool {
        self.pos <= self.bytes@.len()
    }

    /// All the bytes the reader was made over.
    pub closed spec fn data(self) -> Seq<u8> {
        self.bytes@
    }

    /// How many bytes have been taken so far.
    pub closed spec fn pos(self) -> nat {
        if self.pos <= self.bytes@.len() {
            self.pos as nat
        } else {
            self.bytes@.len()
        }
    }

    /// The bytes not taken yet.
    pub open spec fn rest(self) -> Seq<u8> {
        self.data().skip(self.pos() as int)
    }

    /// A reader at the start of `bytes`.
    pub fn new(bytes: &'a [u8]) -> (r: Self)
        ensures
            r.data() == bytes@,
            r.pos() == 0,
    {
        SpReader { bytes, pos: 0 }
    }

    /// How many bytes have been taken so far.
    pub fn position(&self) -> (r: usize)
        ensures
            r == self.pos(),
    {
        proof {
            use_type_invariant(self);
        }
        self.pos
    }

    /// How many bytes are left.
    pub fn remaining(&self) -> (r: usize)
        ensures
            r == self.rest().len(),
    {
        proof {
            use_type_invariant(self);
        }
        self.bytes.len() - self.pos
    }

    /// Takes the next `width` bytes as an unsigned number in the given byte order;
    /// fails with `NotEnoughSpace`, taking nothing, when fewer bytes are left.
    pub fn take_uint(&mut self, width: usize, le: bool) -> (r: Result<u128, SpError>)
        requires
            width <= 16,
        ensures
            final(self).data() == old(self).data(),
            old(self).rest().len() < width ==> (r matches Err(SpError::NotEnoughSpace))
                && final(self).pos() == old(self).pos(),
            old(self).rest().len() >= width ==> r == Ok::<u128, SpError>(
                uint_value(old(self).rest().take(width as int), le) as u128,
            ) && final(self).pos() == old(self).pos() + width,
    {
        proof {
            use_type_invariant(&*self);
        }
        if self.bytes.len() - self.pos < width {
            return Err(SpError::NotEnoughSpace);
        }
        let v = decode_uint(self.bytes, self.pos, width, le);
        proof {
            assert(self.bytes@.subrange(self.pos as int, self.pos + width) =~= old(self).rest().take(
                width as int,
            ));
        }
        self.pos = self.pos + width;
        Ok(v)
    }
}

impl<'a> SpReader<'a> {
    /// The `i`-th byte not taken yet, without taking it.
    pub fn peek(&self, i: usize) -> (r: u8)
        requires
            i < self.rest().len(),
        ensures
            r == self.rest()[i as int],
    {
        proof {
            use_type_invariant(self);
        }
        let len = self.bytes.len();
        assert(self.rest().len() == len - self.pos);
        self.bytes[self.pos + i]
    }

    /// Takes the next `n` bytes, without copying them; fails with `NotEnoughSpace`, taking
    /// nothing, when fewer bytes are left.
    pub fn take_slice(&mut self, n: usize) -> (r: Result<&'a [u8], SpError>)
        ensures
            final(self).data() == old(self).data(),
            old(self).rest().len() < n ==> (r matches Err(SpError::NotEnoughSpace))
                && final(self).pos() == old(self).pos(),
            old(self).rest().len() >= n ==> (r matches Ok(b) && b@ == old(self).rest().take(
                n as int,
            )) && final(self).pos() == old(self).pos() + n,
    {
        proof {
            use_type_invariant(&*self);
        }
        if self.bytes.len() - self.pos < n {
            return Err(SpError::NotEnoughSpace);
        }
        let bytes: &'a [u8] = self.bytes;
        let start = self.pos;
        let taken = &bytes[start..start + n];
        assert(taken@ =~= old(self).rest().take(n as int));
        self.pos = start + n;
        Ok(taken)
    }
}

/// However far a reader has come, it is within its bytes.
pub broadcast proof fn lemma_reader_pos<'a>(r: SpReader<'a>)
    ensures
        #[trigger] r.pos() <= r.data().len(),
        r.data().len() <= usize::MAX,
{
    broadcast use vstd::slice::axiom_spec_len;

    assert(r.bytes.len() == r.bytes@.len());
}

} // verus!
