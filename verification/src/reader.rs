//! A sequential cursor over the bits of a packet. The bit-level transport is
//! the `bitstream_io` crate; everything above the two trusted calls is verified
//! against the stream model of `bits`.

use vstd::prelude::*;

verus! {

use std::io::Cursor;
use bitstream_io::{BitRead, BitReader, LittleEndian};
use crate::bits::{bytes_bits, field, uint_of, lemma_field_bound};
use vstd::arithmetic::power2::pow2;

/// An in-memory little-endian bit reader, opaque to the verifier.
#[verifier::external_body]
pub struct BitCursor {
    inner: BitReader<Cursor<Vec<u8>>, LittleEndian>,
}

/// The bits the cursor has not yet delivered, in delivery order.
pub uninterp spec fn stream(c: BitCursor) -> Seq<bool>;

/// Relies on `BitReader::endian` over an in-memory cursor: a fresh reader
/// delivers every bit of the buffer, each byte least significant bit first.
#[verifier::external_body]
fn cursor_new(data: &[u8]) -> (c: BitCursor)
    ensures
        stream(c) == bytes_bits(data@),
{
    BitCursor { inner: BitReader::endian(Cursor::new(data.to_vec()), LittleEndian) }
}

/// Relies on `BitRead::read_var` with `LittleEndian`: it returns the next `n`
/// bits assembled least significant first, and fails exactly when fewer than
/// `n` bits remain.
#[verifier::external_body]
fn cursor_read(c: &mut BitCursor, n: u32) -> (r: Option<u32>)
    requires
        n <= 32,
    ensures
        match r {
            Some(v) => stream(*old(c)).len() >= n && v == field(stream(*old(c)), n as int)
                && stream(*final(c)) == stream(*old(c)).skip(n as int),
            None => stream(*old(c)).len() < n,
        },
{
    match c.inner.read_var::<u32>(n) {
        Ok(v) => Some(v),
        Err(_) => None,
    }
}

/// A bit reader that knows how many bits it has left.
pub struct Reader {
    cur: BitCursor,
    remaining: usize,
}

impl Reader {
    /// The bits not yet read.
    pub closed spec fn bits(self) -> Seq<bool> {
        stream(self.cur)
    }

    /// The reader's count of unread bits agrees with the stream.
    pub closed spec fn wf(self) -> bool {
        self.remaining == self.bits().len()
    }

    pub fn new(data: &[u8]) -> (r: Reader)
        requires
            data@.len() * 8 <= usize::MAX,
        ensures
            r.wf(),
            r.bits() == bytes_bits(data@),
    {
        let cur = cursor_new(data);
        let remaining = data.len() * 8;
        Reader { cur, remaining }
    }

    /// How many bits are left to read.
    pub fn bits_left(&self) -> (n: usize)
        requires
            self.wf(),
        ensures
            n == self.bits().len(),
    {
        self.remaining
    }

    /// Read an `n`-bit unsigned field; `None` means the data ran out.
    pub fn read_u32(&mut self, n: u32) -> (r: Option<u32>)
        requires
            old(self).wf(),
            n <= 32,
        ensures
            match r {
                Some(v) => final(self).wf() && old(self).bits().len() >= n && v == field(
                    old(self).bits(),
                    n as int,
                ) && v < pow2(n as nat) && final(self).bits() == old(self).bits().skip(n as int),
                None => old(self).bits().len() < n,
            },
    {
        match cursor_read(&mut self.cur, n) {
            Some(v) => {
                proof {
                    lemma_field_bound(old(self).bits(), n as int);
                }
                self.remaining = self.remaining - (n as usize);
                Some(v)
            },
            None => None,
        }
    }

    /// Read a field of at most 8 bits.
    pub fn read_u8(&mut self, n: u32) -> (r: Option<u8>)
        requires
            old(self).wf(),
            n <= 8,
        ensures
            match r {
                Some(v) => final(self).wf() && old(self).bits().len() >= n && v == field(
                    old(self).bits(),
                    n as int,
                ) && v < pow2(n as nat) && final(self).bits() == old(self).bits().skip(n as int),
                None => old(self).bits().len() < n,
            },
    {
        proof {
            vstd::arithmetic::power2::lemma2_to64();
            if n < 8 {
                vstd::arithmetic::power2::lemma_pow2_strictly_increases(n as nat, 8);
            }
        }
        match self.read_u32(n) {
            Some(v) => Some(v as u8),
            None => None,
        }
    }

    /// Read a field of at most 16 bits.
    pub fn read_u16(&mut self, n: u32) -> (r: Option<u16>)
        requires
            old(self).wf(),
            n <= 16,
        ensures
            match r {
                Some(v) => final(self).wf() && old(self).bits().len() >= n && v == field(
                    old(self).bits(),
                    n as int,
                ) && v < pow2(n as nat) && final(self).bits() == old(self).bits().skip(n as int),
                None => old(self).bits().len() < n,
            },
    {
        proof {
            vstd::arithmetic::power2::lemma2_to64();
            if n < 16 {
                vstd::arithmetic::power2::lemma_pow2_strictly_increases(n as nat, 16);
            }
        }
        match self.read_u32(n) {
            Some(v) => Some(v as u16),
            None => None,
        }
    }

    /// Read one bit as a flag.
    pub fn read_bool(&mut self) -> (r: Option<bool>)
        requires
            old(self).wf(),
        ensures
            match r {
                Some(v) => final(self).wf() && old(self).bits().len() >= 1 && v == old(
                    self,
                ).bits()[0] && final(self).bits() == old(self).bits().skip(1),
                None => old(self).bits().len() < 1,
            },
    {
        match self.read_u32(1) {
            Some(v) => {
                proof {
                    let s = old(self).bits();
                    assert(uint_of(s.take(1)) == bit_one(s) + 2 * uint_of(s.take(1).skip(1)));
                    assert(s.take(1).skip(1) =~= Seq::<bool>::empty());
                }
                Some(v == 1)
            },
            None => None,
        }
    }
}

/// The value of a stream's first bit, as `uint_of` sees it.
spec fn bit_one(s: Seq<bool>) -> nat {
    crate::bits::bit_val(s.take(1)[0])
}

} // verus!
