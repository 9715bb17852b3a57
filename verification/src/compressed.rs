//! The compressed form of a value: either a finalized, byte-aligned sequence
//! safe to persist or transmit, or an unaligned bit sequence used while
//! composing nested encodings.

use vstd::prelude::*;
use crate::bits::{
    bits_to_nat, bytes_to_bits, lemma_bits_to_nat_bound, lemma_bits_to_nat_to_bits,
    lemma_bytes_to_bits_len, lemma_bytes_to_bits_push, pad_len, padded,
};
use crate::buffer::BitBuffer;

verus! {

/// A compressed value.
pub enum Compressed {
    /// A finalized, byte-aligned sequence.
    Bytes(Vec<u8>),
    /// An unaligned bit sequence, an intermediate form used during
    /// composition.
    Binaries(Vec<bool>),
}

impl Compressed {
    /// The bit sequence this value stands for; a byte holds eight bits, most
    /// significant first.
    pub open spec fn bits(&self) -> Seq<bool> {
        match self {
            Compressed::Bytes(bytes) => bytes_to_bits(bytes@),
            Compressed::Binaries(bits) => bits@,
        }
    }

    /// An empty unaligned bit sequence.
    pub fn empty() -> (r: Compressed)
        ensures
            r is Binaries,
            r.bits() == Seq::<bool>::empty(),
    {
        Compressed::Binaries(Vec::new())
    }

    /// Concatenates two unaligned bit sequences: `self`'s bits come first,
    /// `other`'s follow.
    pub fn combine(self, other: Compressed) -> (r: Compressed)
        requires
            self is Binaries,
            other is Binaries,
        ensures
            r is Binaries,
            r.bits() == self.bits() + other.bits(),
    {
        match (self, other) {
            (Compressed::Binaries(mut bits), Compressed::Binaries(mut more)) => {
                bits.append(&mut more);
                Compressed::Binaries(bits)
            },
            (a, _) => {
                proof {
                    assert(false);
                }
                a
            },
        }
    }

    /// Finalizes: pads the bit sequence with zero bits up to the next byte
    /// boundary and returns the bytes.
    pub fn to_bytes(&self) -> (r: Vec<u8>)
        ensures
            bytes_to_bits(r@) == padded(self.bits()),
    {
        match self {
            Compressed::Bytes(bytes) => {
                let mut out: Vec<u8> = Vec::new();
                let mut i: usize = 0;
                while i < bytes.len()
                    invariant
                        i <= bytes.len(),
                        out@ == bytes@.take(i as int),
                    decreases bytes.len() - i,
                {
                    out.push(bytes[i]);
                    proof {
                        assert(out@ =~= bytes@.take(i + 1));
                    }
                    i = i + 1;
                }
                proof {
                    assert(out@ =~= bytes@);
                    lemma_bytes_to_bits_len(bytes@);
                    assert(padded(self.bits()) =~= self.bits());
                }
                out
            },
            Compressed::Binaries(bits) => {
                let mut all: Vec<bool> = Vec::new();
                let mut i: usize = 0;
                while i < bits.len()
                    invariant
                        i <= bits.len(),
                        all@ == bits@.take(i as int),
                    decreases bits.len() - i,
                {
                    all.push(bits[i]);
                    proof {
                        assert(all@ =~= bits@.take(i + 1));
                    }
                    i = i + 1;
                }
                proof {
                    assert(all@ =~= bits@);
                }
                while all.len() % 8 != 0
                    invariant
                        bits@.len() <= all@.len() <= bits@.len() + pad_len(bits@.len()),
                        all@ == padded(bits@).take(all@.len() as int),
                    decreases padded(bits@).len() - all@.len(),
                {
                    all.push(false);
                    proof {
                        assert(all@ =~= padded(bits@).take(all@.len() as int));
                    }
                }
                proof {
                    assert(all@ =~= padded(bits@));
                }
                pack_bytes(&all)
            },
        }
    }

    /// Un-finalizes: the bits of this value, ready for consuming reads.
    pub fn to_binaries(&self) -> (b: BitBuffer)
        ensures
            b.wf(),
            b.remaining() == self.bits(),
    {
        match self {
            Compressed::Bytes(bytes) => {
                let mut buf = BitBuffer::new();
                let mut i: usize = 0;
                while i < bytes.len()
                    invariant
                        buf.wf(),
                        i <= bytes.len(),
                        buf.remaining() == bytes_to_bits(bytes@.take(i as int)),
                    decreases bytes.len() - i,
                {
                    buf.append_bits(bytes[i] as u128, 8);
                    proof {
                        lemma_bytes_to_bits_push(bytes@.take(i as int), bytes@[i as int]);
                        assert(bytes@.take(i as int).push(bytes@[i as int]) =~= bytes@.take(
                            i + 1,
                        ));
                    }
                    i = i + 1;
                }
                proof {
                    assert(bytes@.take(bytes@.len() as int) =~= bytes@);
                }
                buf
            },
            Compressed::Binaries(bits) => {
                let mut buf = BitBuffer::new();
                let mut i: usize = 0;
                while i < bits.len()
                    invariant
                        buf.wf(),
                        i <= bits.len(),
                        buf.remaining() == bits@.take(i as int),
                    decreases bits.len() - i,
                {
                    buf.append(bits[i]);
                    proof {
                        assert(bits@.take(i as int).push(bits@[i as int]) =~= bits@.take(i + 1));
                    }
                    i = i + 1;
                }
                proof {
                    assert(bits@.take(bits@.len() as int) =~= bits@);
                }
                buf
            },
        }
    }
}

/// Packs a byte-aligned bit sequence into bytes, eight bits each, most
/// significant first.
fn pack_bytes(bits: &Vec<bool>) -> (r: Vec<u8>)
    requires
        bits@.len() % 8 == 0,
    ensures
        bytes_to_bits(r@) == bits@,
{
    let mut out: Vec<u8> = Vec::new();
    let mut i: usize = 0;
    while i < bits.len()
        invariant
            bits@.len() % 8 == 0,
            i % 8 == 0,
            i <= bits@.len(),
            bytes_to_bits(out@) == bits@.take(i as int),
        decreases bits.len() - i,
    {
        proof {
            assert(bits@.len() == bits.len());
            assert(i + 8 <= bits@.len());
        }
        let mut acc: u8 = 0;
        let mut j: usize = 0;
        while j < 8
            invariant
                i + 8 <= bits@.len(),
                j <= 8,
                acc as nat == bits_to_nat(bits@.subrange(i as int, i + j)),
            decreases 8 - j,
        {
            proof {
                assert(bits@.len() == bits.len());
                lemma_bits_to_nat_bound(bits@.subrange(i as int, i + j));
                assert(bits@.subrange(i as int, i + j).len() == j);
                vstd::arithmetic::power2::lemma2_to64();
                assert(bits@.subrange(i as int, i + j + 1).drop_last() =~= bits@.subrange(
                    i as int,
                    i + j,
                ));
            }
            let bit = bits[i + j];
            acc = 2 * acc + (if bit {
                1
            } else {
                0
            });
            j = j + 1;
        }
        let ghost prev = out@;
        out.push(acc);
        proof {
            lemma_bytes_to_bits_push(prev, acc);
            lemma_bits_to_nat_bound(bits@.subrange(i as int, i + 8));
            vstd::arithmetic::power2::lemma2_to64();
            lemma_bits_to_nat_to_bits(bits@.subrange(i as int, i + 8));
            assert(bits@.take(i as int) + bits@.subrange(i as int, i + 8) =~= bits@.take(i + 8));
        }
        i = i + 8;
    }
    proof {
        assert(bits@.take(i as int) =~= bits@);
    }
    out
}

} // verus!
