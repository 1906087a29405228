//! Truncated binary encoding.
//!
//! A value from the alphabet `[0, n)`, `n >= 1`, is coded with either `k` or
//! `k + 1` bits, `k = floor(log2(n))`. The descriptor holds `k` and the
//! threshold `u = 2^(k+1) - n`: the `u` values below the threshold use the
//! short `k`-bit code; every other value `v` is shifted to `x = v + u`, which
//! needs exactly `k + 1` bits, and is coded as `x >> 1` in `k` bits followed
//! by the low bit of `x`.

use vstd::prelude::*;
use vstd::arithmetic::power2::{
    pow2, lemma2_to64, lemma_pow2_pos, lemma_pow2_strictly_increases, lemma_pow2_unfold,
};
use vstd::arithmetic::div_mod::{
    lemma_div_basics, lemma_div_is_ordered, lemma_fundamental_div_mod, lemma_small_mod,
};
use crate::bits::{bits_of, bits_val, lemma_bits_of_val, lemma_bits_val_bound, lemma_shl1_pow2};
use crate::stream::{BitReader, BitWriter, StreamError};

verus! {

/// Descriptor of a truncated binary code: the short code length `k` and the
/// count `u` of values that use the short code.
#[derive(Clone, Copy)]
pub struct TbeStruct {
    k: u8,
    u: u32,
}

impl TbeStruct {
    /// The short code length.
    pub closed spec fn spec_k(self) -> nat {
        self.k as nat
    }

    /// How many values use the short code.
    pub closed spec fn spec_u(self) -> nat {
        self.u as nat
    }

    /// A descriptor is well formed when `1 <= u <= 2^k` and `k` fits a 32-bit
    /// alphabet. Exactly the descriptors built for some bound `n >= 1` are
    /// well formed.
    pub open spec fn wf(self) -> bool {
        1 <= self.spec_u() <= pow2(self.spec_k()) && self.spec_k() <= 31
    }

    /// The alphabet bound `n = 2^(k+1) - u` this descriptor was built for.
    pub open spec fn bound(self) -> int {
        pow2(self.spec_k() + 1) - self.spec_u()
    }

    pub fn get_k(&self) -> (k: u8)
        ensures
            k as nat == self.spec_k(),
    {
        self.k
    }

    pub fn get_u(&self) -> (u: u32)
        ensures
            u as nat == self.spec_u(),
    {
        self.u
    }
}

/// The code word for `v` under descriptor `d`, as a bit sequence.
pub open spec fn tbe_bits(d: TbeStruct, v: nat) -> Seq<bool> {
    if v < d.spec_u() {
        bits_of(v, d.spec_k())
    } else {
        bits_of((v + d.spec_u()) / 2, d.spec_k()) + bits_of(v + d.spec_u(), 1)
    }
}

/// How many bits a decoder consumes at the front of `s`: `k` when the first
/// `k` bits stay below the threshold, `k + 1` otherwise.
pub open spec fn tbe_code_len(d: TbeStruct, s: Seq<bool>) -> int {
    if bits_val(s.take(d.spec_k() as int)) < d.spec_u() {
        d.spec_k() as int
    } else {
        d.spec_k() as int + 1
    }
}

/// The value a decoder returns for the code at the front of `s`.
pub open spec fn tbe_decode_val(d: TbeStruct, s: Seq<bool>) -> int {
    let v0 = bits_val(s.take(d.spec_k() as int));
    if v0 < d.spec_u() {
        v0 as int
    } else {
        2 * v0 + (if s[d.spec_k() as int] {
            1int
        } else {
            0int
        }) - d.spec_u()
    }
}

/// Largest `k` with `2^k <= n`.
pub fn floor_log2(n: u32) -> (k: u8)
    requires
        n >= 1,
    ensures
        k <= 31,
        pow2(k as nat) <= (n as nat) && (n as nat) < pow2((k as nat) + 1),
{
    let mut k: u8 = 0;
    let mut p: u32 = 1;
    proof {
        lemma2_to64();
    }
    while n / 2 >= p
        invariant
            n >= 1,
            k <= 31,
            p as nat == pow2(k as nat),
            p as nat <= n as nat,
        decreases n as int - p as int,
    {
        proof {
            lemma_fundamental_div_mod(n as int, 2);
            lemma_div_is_ordered(n as int, 0xffff_ffff, 2);
            lemma2_to64();
            if k as nat >= 31 {
                lemma_pow2_strictly_increases(31, (k as nat) + 1);
                assert(false);
            }
            lemma_pow2_unfold((k as nat) + 1);
        }
        p = p * 2;
        k = k + 1;
    }
    proof {
        lemma_fundamental_div_mod(n as int, 2);
        lemma_pow2_unfold((k as nat) + 1);
    }
    k
}

/// `2^e` for `e <= 31`.
pub fn exp2(e: u8) -> (r: u32)
    requires
        e <= 31,
    ensures
        r as nat == pow2(e as nat),
{
    proof {
        lemma_shl1_pow2(e as u64);
        assert((1u32 << e) as u64 == 1u64 << (e as u64)) by (bit_vector)
            requires
                e < 32,
        ;
    }
    1u32 << e
}

/// A value that can serve as the bound of a truncated-binary alphabet.
pub trait Tbe: Sized {
    /// The alphabet size this value denotes.
    spec fn alphabet_size(self) -> int;

    /// Build the descriptor for the alphabet `[0, self)`. The bound must be
    /// at least 1: an empty alphabet has no codes.
    fn tbe(self) -> (d: TbeStruct)
        requires
            1 <= self.alphabet_size(),
        ensures
            d.wf(),
            d.bound() == self.alphabet_size(),
    ;
}

impl Tbe for u32 {
    open spec fn alphabet_size(self) -> int {
        self as int
    }

    fn tbe(self) -> (d: TbeStruct) {
        let k = floor_log2(self);
        let p = exp2(k);
        proof {
            lemma_pow2_unfold((k as nat) + 1);
        }
        let u = p - (self - p);
        TbeStruct { k, u }
    }
}

impl Tbe for u8 {
    open spec fn alphabet_size(self) -> int {
        self as int
    }

    fn tbe(self) -> (d: TbeStruct) {
        (self as u32).tbe()
    }
}

impl Tbe for u16 {
    open spec fn alphabet_size(self) -> int {
        self as int
    }

    fn tbe(self) -> (d: TbeStruct) {
        (self as u32).tbe()
    }
}

impl BitWriter {
    /// Truncated binary encoding: emit `value` from the alphabet
    /// `[0, d.bound())`, using `k` bits when `value` is below the threshold
    /// and `k + 1` bits otherwise.
    pub fn write_tbe(&mut self, d: TbeStruct, value: u32)
        requires
            old(self).wf(),
            d.wf(),
            (value as int) < d.bound(),
        ensures
            final(self).wf(),
            final(self).written() == old(self).written() + tbe_bits(d, value as nat),
    {
        proof {
            lemma2_to64();
            if d.spec_k() < 31 {
                lemma_pow2_strictly_increases(d.spec_k() + 1, 32);
            }
        }
        if value < d.u {
            self.write32(value, d.k);
        } else {
            let x = value + d.u;
            self.write32(x >> 1, d.k);
            self.write32(x, 1);
            proof {
                assert(x >> 1 == x / 2) by (bit_vector);
                assert(tbe_bits(d, value as nat) =~= bits_of((x >> 1) as nat, d.spec_k())
                    + bits_of(x as nat, 1));
                assert(self.written() =~= old(self).written() + tbe_bits(d, value as nat));
            }
        }
    }
}

impl BitReader {
    /// Truncated binary decoding: read `k` bits; if they stay below the
    /// threshold they are the value, else one more bit completes the shifted
    /// value `x`, and `x - u` is returned.
    pub fn read_tbe(&mut self, d: TbeStruct) -> (r: Result<u32, StreamError>)
        requires
            old(self).wf(),
            d.wf(),
        ensures
            final(self).wf(),
            final(self).source_bytes() == old(self).source_bytes(),
            tbe_code_len(d, old(self).remaining()) <= old(self).remaining().len() ==> (r matches
                Ok(v) && v as int == tbe_decode_val(d, old(self).remaining())
                && final(self).remaining() == old(self).remaining().skip(
                tbe_code_len(d, old(self).remaining()),
            )),
            tbe_code_len(d, old(self).remaining()) > old(self).remaining().len() ==> (r matches
                Err(e) && e == StreamError::EndOfStream),
    {
        let ghost orem = old(self).remaining();
        let ghost k = d.spec_k();
        match self.read32(d.k) {
            Ok(v0) => {
                proof {
                    lemma_bits_val_bound(orem.take(k as int));
                }
                if v0 < d.u {
                    Ok(v0)
                } else {
                    match self.read32(1) {
                        Ok(b) => {
                            proof {
                                let mid = orem.skip(k as int);
                                assert(1 <= mid.len());
                                assert(b as nat == bits_val(mid.take(1)));
                                assert(mid.take(1) =~= seq![orem[k as int]]);
                                assert(seq![orem[k as int]].skip(1) =~= Seq::<bool>::empty());
                                assert(bits_val(Seq::<bool>::empty()) == 0);
                                assert(seq![orem[k as int]][0] == orem[k as int]);
                                assert(bits_val(seq![orem[k as int]]) == (if orem[k as int] {
                                    1nat
                                } else {
                                    0nat
                                }));
                                assert(b as nat == (if orem[k as int] {
                                    1nat
                                } else {
                                    0nat
                                }));
                                lemma2_to64();
                                if k < 31 {
                                    lemma_pow2_strictly_increases(k, 31);
                                }
                                assert(((v0 << 1u32) | b) == v0 * 2 + b) by (bit_vector)
                                    requires
                                        v0 < 0x8000_0000u32,
                                        b < 2,
                                ;
                                assert(mid.skip(1) =~= orem.skip(k as int + 1));
                            }
                            let x = (v0 << 1u32) | b;
                            Ok(x - d.u)
                        },
                        Err(e) => Err(e),
                    }
                }
            },
            Err(e) => Err(e),
        }
    }
}

/// Round trip: for a well-formed descriptor and any `value` in its alphabet,
/// decoding a stream that starts with the code of `value` yields `value`
/// back and consumes exactly the code, whatever bits follow it.
pub proof fn lemma_tbe_round_trip(d: TbeStruct, v: u32, rest: Seq<bool>)
    requires
        d.wf(),
        (v as int) < d.bound(),
    ensures
        tbe_code_len(d, tbe_bits(d, v as nat) + rest) == tbe_bits(d, v as nat).len(),
        tbe_decode_val(d, tbe_bits(d, v as nat) + rest) == v as int,
        (tbe_bits(d, v as nat) + rest).skip(tbe_bits(d, v as nat).len() as int) == rest,
{
    let k = d.spec_k();
    let u = d.spec_u();
    let s = tbe_bits(d, v as nat) + rest;
    lemma_pow2_pos(k);
    lemma_pow2_unfold(k + 1);
    if (v as nat) < u {
        assert(s.take(k as int) =~= bits_of(v as nat, k));
        lemma_bits_of_val(v as nat, k);
        lemma_small_mod(v as nat, pow2(k));
        assert(bits_val(s.take(k as int)) == v as nat);
        assert(s.skip(k as int) =~= rest);
    } else {
        let x = v as nat + u;
        assert(x < pow2(k + 1));
        lemma_fundamental_div_mod(x as int, 2);
        assert(x / 2 < pow2(k));
        assert(x / 2 >= u);
        assert(s.take(k as int) =~= bits_of(x / 2, k));
        lemma_bits_of_val(x / 2, k);
        lemma_small_mod(x / 2, pow2(k));
        assert(bits_val(s.take(k as int)) == x / 2);
        assert(s[k as int] == bits_of(x, 1)[0]);
        assert(pow2(0) == 1) by {
            lemma2_to64();
        }
        lemma_div_basics(x as int);
        assert(x / pow2(0) % 2 == x % 2);
        assert(s[k as int] == (x % 2 == 1));
        assert(2 * (x / 2) + (if s[k as int] {
            1int
        } else {
            0int
        }) == x);
        assert(s.skip(k as int + 1) =~= rest);
    }
}

/// Bit-length law: the code of `value` is `k` bits long below the threshold
/// and `k + 1` bits long at or above it, and a decoder consumes exactly the
/// code's length — never anything else.
pub proof fn lemma_tbe_code_len(d: TbeStruct, v: u32, rest: Seq<bool>)
    requires
        d.wf(),
        (v as int) < d.bound(),
    ensures
        tbe_bits(d, v as nat).len() == if (v as nat) < d.spec_u() {
            d.spec_k() as int
        } else {
            d.spec_k() as int + 1
        },
        tbe_code_len(d, tbe_bits(d, v as nat) + rest) == tbe_bits(d, v as nat).len(),
{
    lemma_tbe_round_trip(d, v, rest);
}

} // verus!
