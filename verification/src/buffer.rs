//! An ordered, growable sequence of bits with bit-level append and consuming
//! read.  Nothing is ever byte-aligned here; alignment happens only when a
//! finished bit sequence is padded into bytes.

use vstd::prelude::*;
use vstd::arithmetic::power2::pow2;
use crate::bits::{bits_to_nat, lemma_bits_to_nat_bound, lemma_pow2_128, nat_to_bits};
use crate::error::DecompressError;

verus! {

/// A bit sequence: appends grow the end, reads consume from the front.
pub struct BitBuffer {
    bits: Vec<bool>,
    pos: usize,
}

impl BitBuffer {
    /// The read position never passes the end.
    pub closed spec fn wf(&self) -> bool {
        self.pos <= self.bits@.len()
    }

    /// Every bit ever appended, in order.
    pub closed spec fn written(&self) -> Seq<bool> {
        self.bits@
    }

    /// The bits not yet consumed, in order.
    pub closed spec fn remaining(&self) -> Seq<bool> {
        self.bits@.skip(self.pos as int)
    }

    /// An empty buffer.
    pub fn new() -> (b: BitBuffer)
        ensures
            b.wf(),
            b.written() == Seq::<bool>::empty(),
            b.remaining() == Seq::<bool>::empty(),
    {
        let b = BitBuffer { bits: Vec::new(), pos: 0 };
        proof {
            assert(b.remaining() =~= Seq::<bool>::empty());
        }
        b
    }

    /// A buffer holding the given bits, none consumed yet.
    pub fn from_bits(bits: Vec<bool>) -> (b: BitBuffer)
        ensures
            b.wf(),
            b.written() == bits@,
            b.remaining() == bits@,
    {
        let b = BitBuffer { bits, pos: 0 };
        proof {
            assert(b.remaining() =~= b.bits@);
        }
        b
    }

    /// The bits of the buffer, whole, consumed or not.
    pub fn into_bits(self) -> (r: Vec<bool>)
        ensures
            r@ == self.written(),
    {
        self.bits
    }

    /// How many bits are left to read.
    pub fn remaining_len(&self) -> (n: usize)
        requires
            self.wf(),
        ensures
            n == self.remaining().len(),
    {
        self.bits.len() - self.pos
    }

    /// Appends one bit at the end.
    pub fn append(&mut self, bit: bool)
        requires
            old(self).wf(),
        ensures
            final(self).wf(),
            final(self).written() == old(self).written().push(bit),
            final(self).remaining() == old(self).remaining().push(bit),
    {
        self.bits.push(bit);
        proof {
            assert(self.remaining() =~= old(self).remaining().push(bit));
        }
    }

    /// Appends the `width` low-order bits of `value`, most significant bit
    /// first.
    pub fn append_bits(&mut self, value: u128, width: usize)
        requires
            old(self).wf(),
            width <= 128,
        ensures
            final(self).wf(),
            final(self).written() == old(self).written() + nat_to_bits(value as nat, width as nat),
            final(self).remaining() == old(self).remaining() + nat_to_bits(value as nat, width as nat),
        decreases width,
    {
        if width == 0 {
            proof {
                assert(self.written() =~= old(self).written() + nat_to_bits(
                    value as nat,
                    0,
                ));
                assert(self.remaining() =~= old(self).remaining() + nat_to_bits(
                    value as nat,
                    0,
                ));
            }
        } else {
            self.append_bits(value / 2, width - 1);
            self.append(value % 2 == 1);
            proof {
                assert((value / 2) as nat == value as nat / 2);
                assert((value % 2 == 1) == (value as nat % 2 == 1));
                assert(self.written() =~= old(self).written() + nat_to_bits(
                    value as nat,
                    width as nat,
                ));
                assert(self.remaining() =~= old(self).remaining() + nat_to_bits(
                    value as nat,
                    width as nat,
                ));
            }
        }
    }

    /// Consumes and returns the next `width` bits as an unsigned integer,
    /// most significant bit first.  Fails, consuming nothing, when fewer
    /// bits remain.
    pub fn read_bits(&mut self, width: usize) -> (r: Result<u128, DecompressError>)
        requires
            old(self).wf(),
            width <= 128,
        ensures
            final(self).wf(),
            final(self).written() == old(self).written(),
            old(self).remaining().len() >= width ==> {
                &&& r matches Ok(v)
                &&& v as nat == bits_to_nat(old(self).remaining().take(width as int))
                &&& final(self).remaining() == old(self).remaining().skip(width as int)
            },
            old(self).remaining().len() < width ==> r == Err::<u128, DecompressError>(
                DecompressError::InsufficientBits,
            ) && *final(self) == *old(self),
    {
        if self.bits.len() - self.pos < width {
            return Err(DecompressError::InsufficientBits);
        }
        let ghost rem = self.remaining();
        let mut acc: u128 = 0;
        let mut i: usize = 0;
        while i < width
            invariant
                self == old(self),
                self.wf(),
                rem == self.remaining(),
                i <= width <= 128,
                width <= rem.len(),
                acc as nat == bits_to_nat(rem.take(i as int)),
            decreases width - i,
        {
            proof {
                lemma_bits_to_nat_bound(rem.take(i as int));
                assert(rem.take(i as int).len() == i);
                lemma_pow2_128();
                if (i as nat) + 1 < 128 {
                    vstd::arithmetic::power2::lemma_pow2_strictly_increases((i + 1) as nat, 128);
                }
                vstd::arithmetic::power2::lemma_pow2_unfold((i + 1) as nat);
                assert(rem.take(i + 1).drop_last() =~= rem.take(i as int));
                assert(rem.take(i + 1).last() == rem[i as int]);
                assert(self.bits@.len() == self.bits.len());
                assert(rem.len() == self.bits@.len() - self.pos);
                assert(self.pos + i < self.bits@.len());
                assert(rem[i as int] == self.bits@[self.pos + i]);
            }
            let bit = self.bits[self.pos + i];
            acc = 2 * acc + (if bit {
                1
            } else {
                0
            });
            i = i + 1;
        }
        self.pos = self.pos + width;
        proof {
            assert(self.remaining() =~= old(self).remaining().skip(width as int));
        }
        Ok(acc)
    }
}

} // verus!
