//! Mathematical model of bit sequences: the value of a most-significant-first
//! bit string, the bit string of a value, and the minimal width needed for a
//! bound.

use vstd::prelude::*;
use vstd::arithmetic::power2::pow2;

verus! {

/// The unsigned value of a bit sequence, most significant bit first.
pub open spec fn bits_to_nat(s: Seq<bool>) -> nat
    decreases s.len(),
{
    if s.len() == 0 {
        0
    } else {
        2 * bits_to_nat(s.drop_last()) + (if s.last() {
            1nat
        } else {
            0nat
        })
    }
}

/// The `w` low-order bits of `v`, most significant bit first.
pub open spec fn nat_to_bits(v: nat, w: nat) -> Seq<bool>
    decreases w,
{
    if w == 0 {
        Seq::empty()
    } else {
        nat_to_bits(v / 2, (w - 1) as nat).push(v % 2 == 1)
    }
}

/// The minimal number of bits that can hold every value up to `m`
/// inclusive: 1 for `m <= 1`, otherwise the bit length of `m`.
pub open spec fn width_of(m: nat) -> nat
    decreases m,
{
    if m <= 1 {
        1
    } else {
        1 + width_of(m / 2)
    }
}

/// The minimal bit width for the inclusive bound `m`.
pub fn bit_width(m: u128) -> (w: usize)
    ensures
        w == width_of(m as nat),
        1 <= w <= 128,
    decreases m,
{
    proof {
        lemma_width_at_most_128(m as nat);
    }
    if m <= 1 {
        1
    } else {
        1 + bit_width(m / 2)
    }
}

/// Every value up to `u128::MAX` fits in 128 bits.
pub proof fn lemma_width_at_most_128(m: nat)
    requires
        m <= u128::MAX,
    ensures
        1 <= width_of(m) <= 128,
{
    lemma_pow2_128();
    lemma_width_le(m, 128);
}

/// `width_of(m) <= k` whenever `m < pow2(k)` (and `k >= 1`).
pub proof fn lemma_width_le(m: nat, k: nat)
    requires
        1 <= k,
        m < pow2(k),
    ensures
        width_of(m) <= k,
    decreases k,
{
    if m <= 1 {
    } else {
        assert(pow2(1) == 2) by {
            vstd::arithmetic::power2::lemma2_to64();
        }
        if k >= 2 {
            vstd::arithmetic::power2::lemma_pow2_unfold(k);
            lemma_width_le(m / 2, (k - 1) as nat);
        }
    }
}

/// `pow2(128) - 1` is `u128::MAX`.
pub proof fn lemma_pow2_128()
    ensures
        pow2(128) == 0x1_0000_0000_0000_0000_0000_0000_0000_0000,
{
    vstd::arithmetic::power2::lemma2_to64();
    vstd::arithmetic::power2::lemma_pow2_adds(64, 64);
}

/// The width really holds the bound: `m < pow2(width_of(m))`.
pub proof fn lemma_width_holds_bound(m: nat)
    ensures
        m < pow2(width_of(m)),
    decreases m,
{
    if m <= 1 {
        assert(pow2(1) == 2) by {
            vstd::arithmetic::power2::lemma2_to64();
        }
    } else {
        lemma_width_holds_bound(m / 2);
        vstd::arithmetic::power2::lemma_pow2_unfold(width_of(m));
    }
}

/// The width is minimal: one bit fewer could not hold the bound.
pub proof fn lemma_width_is_minimal(m: nat)
    ensures
        width_of(m) > 1 ==> pow2((width_of(m) - 1) as nat) <= m,
    decreases m,
{
    if m <= 1 {
    } else {
        lemma_width_is_minimal(m / 2);
        if width_of(m / 2) == 1 {
            assert(pow2(1) == 2) by {
                vstd::arithmetic::power2::lemma2_to64();
            }
        } else {
            vstd::arithmetic::power2::lemma_pow2_unfold((width_of(m) - 1) as nat);
        }
    }
}

/// A `w`-bit string has `w` bits.
pub proof fn lemma_nat_to_bits_len(v: nat, w: nat)
    ensures
        nat_to_bits(v, w).len() == w,
    decreases w,
{
    if w > 0 {
        lemma_nat_to_bits_len(v / 2, (w - 1) as nat);
    }
}

/// The value of a bit string fits in its length.
pub proof fn lemma_bits_to_nat_bound(s: Seq<bool>)
    ensures
        bits_to_nat(s) < pow2(s.len()),
    decreases s.len(),
{
    if s.len() == 0 {
        vstd::arithmetic::power2::lemma_pow2_pos(0);
    } else {
        lemma_bits_to_nat_bound(s.drop_last());
        vstd::arithmetic::power2::lemma_pow2_unfold(s.len());
    }
}

/// Reading back the `w`-bit string of `v` yields `v` modulo `pow2(w)`.
pub proof fn lemma_nat_to_bits_to_nat(v: nat, w: nat)
    ensures
        bits_to_nat(nat_to_bits(v, w)) == v % pow2(w),
    decreases w,
{
    if w == 0 {
        assert(v % pow2(0) == 0) by {
            vstd::arithmetic::power2::lemma2_to64();
            assert(v % 1 == 0) by (nonlinear_arith);
        }
    } else {
        lemma_nat_to_bits_to_nat(v / 2, (w - 1) as nat);
        lemma_nat_to_bits_len(v / 2, (w - 1) as nat);
        let p = pow2((w - 1) as nat);
        vstd::arithmetic::power2::lemma_pow2_unfold(w);
        vstd::arithmetic::power2::lemma_pow2_pos((w - 1) as nat);
        let s = nat_to_bits(v, w);
        assert(s.drop_last() =~= nat_to_bits(v / 2, (w - 1) as nat));
        assert(bits_to_nat(s) == 2 * ((v / 2) % p) + v % 2);
        let q = (v / 2) as int / p as int;
        let r = 2 * ((v / 2) % p) + v % 2;
        assert(v / 2 == p * q + (v / 2) % p) by {
            vstd::arithmetic::div_mod::lemma_fundamental_div_mod((v / 2) as int, p as int);
        }
        assert(v == 2 * (v / 2) + v % 2) by {
            vstd::arithmetic::div_mod::lemma_fundamental_div_mod(v as int, 2);
        }
        assert(v == (2 * p as int) * q + r) by (nonlinear_arith)
            requires
                v / 2 == p * q + (v / 2) % p,
                v == 2 * (v / 2) + v % 2,
                r == 2 * ((v / 2) % p) + v % 2,
        ;
        assert(v % (2 * p) == r) by {
            vstd::arithmetic::div_mod::lemma_fundamental_div_mod_converse(
                v as int,
                2 * p as int,
                q,
                r as int,
            );
        }
    }
}

/// Writing back the value of a bit string yields the same string.
pub proof fn lemma_bits_to_nat_to_bits(s: Seq<bool>)
    ensures
        nat_to_bits(bits_to_nat(s), s.len()) == s,
    decreases s.len(),
{
    if s.len() == 0 {
        assert(nat_to_bits(0, 0) =~= s);
    } else {
        lemma_bits_to_nat_to_bits(s.drop_last());
        let n = bits_to_nat(s);
        let b: nat = if s.last() {
            1
        } else {
            0
        };
        assert(n == 2 * bits_to_nat(s.drop_last()) + b);
        assert(n / 2 == bits_to_nat(s.drop_last()) && n % 2 == b) by {
            vstd::arithmetic::div_mod::lemma_fundamental_div_mod_converse(
                n as int,
                2,
                bits_to_nat(s.drop_last()) as int,
                b as int,
            );
        }
        assert(nat_to_bits(n, s.len()) =~= s);
    }
}

/// The bits of a byte sequence: eight bits per byte, most significant first.
pub open spec fn bytes_to_bits(bs: Seq<u8>) -> Seq<bool>
    decreases bs,
{
    if bs.len() == 0 {
        Seq::empty()
    } else {
        nat_to_bits(bs[0] as nat, 8) + bytes_to_bits(bs.drop_first())
    }
}

/// Appending one byte appends its eight bits.
pub proof fn lemma_bytes_to_bits_push(bs: Seq<u8>, b: u8)
    ensures
        bytes_to_bits(bs.push(b)) == bytes_to_bits(bs) + nat_to_bits(b as nat, 8),
    decreases bs,
{
    if bs.len() == 0 {
        assert(bs.push(b).drop_first() =~= Seq::<u8>::empty());
        assert(bs.push(b)[0] == b);
        assert(bytes_to_bits(bs.push(b)) == nat_to_bits(b as nat, 8) + bytes_to_bits(
            bs.push(b).drop_first(),
        ));
        assert(bytes_to_bits(bs.push(b)) =~= bytes_to_bits(bs) + nat_to_bits(b as nat, 8));
    } else {
        lemma_bytes_to_bits_push(bs.drop_first(), b);
        assert(bs.push(b).drop_first() =~= bs.drop_first().push(b));
        assert(bs.push(b)[0] == bs[0]);
        assert(bytes_to_bits(bs.push(b)) == nat_to_bits(bs[0] as nat, 8) + (bytes_to_bits(
            bs.drop_first(),
        ) + nat_to_bits(b as nat, 8)));
        assert(nat_to_bits(bs[0] as nat, 8) + (bytes_to_bits(bs.drop_first()) + nat_to_bits(
            b as nat,
            8,
        )) =~= bytes_to_bits(bs) + nat_to_bits(b as nat, 8));
    }
}

/// A byte sequence carries eight bits per byte.
pub proof fn lemma_bytes_to_bits_len(bs: Seq<u8>)
    ensures
        bytes_to_bits(bs).len() == 8 * bs.len(),
    decreases bs,
{
    if bs.len() > 0 {
        lemma_bytes_to_bits_len(bs.drop_first());
        lemma_nat_to_bits_len(bs[0] as nat, 8);
    }
}

/// How many zero bits finalization adds to reach the next byte boundary.
pub open spec fn pad_len(n: nat) -> nat {
    if n % 8 == 0 {
        0
    } else {
        (8 - n % 8) as nat
    }
}

/// A bit sequence padded with zero bits up to the next byte boundary.
pub open spec fn padded(bits: Seq<bool>) -> Seq<bool> {
    bits + Seq::new(pad_len(bits.len()), |i: int| false)
}

} // verus!
