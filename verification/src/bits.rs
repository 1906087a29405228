//! Mathematical model of bit streams.
//!
//! A bit stream is a `Seq<bool>`, least significant bit first: the bit written
//! earliest sits at index 0 and carries weight `2^0` in the value the stream
//! denotes. These spec functions and lemmas tie the machine-level bit
//! operations used by the writer and reader to that model.

use vstd::prelude::*;
use vstd::arithmetic::power2::{
    pow2, lemma2_to64, lemma_pow2_adds, lemma_pow2_pos, lemma_pow2_strictly_increases,
    lemma_pow2_unfold,
};
use vstd::arithmetic::div_mod::{
    lemma_basic_div, lemma_div_denominator, lemma_mod_breakdown, lemma_small_mod,
};
use vstd::bits::{
    lemma_u64_low_bits_mask_is_mod, lemma_u64_pow2_no_overflow, lemma_u64_shl_is_mul,
    lemma_u64_shr_is_div, low_bits_mask,
};

verus! {

/// True when bit `i` (counting from the least significant bit) of `v` is set.
pub open spec fn bit_at(v: nat, i: nat) -> bool {
    v / pow2(i) % 2 == 1
}

/// The low `n` bits of `v`, least significant first.
pub open spec fn bits_of(v: nat, n: nat) -> Seq<bool> {
    Seq::new(n, |i: int| bit_at(v, i as nat))
}

/// The eight bits of one byte, least significant first.
pub open spec fn byte_bits(b: u8) -> Seq<bool> {
    bits_of(b as nat, 8)
}

/// The bits of a byte sequence: each byte contributes its eight bits in turn.
pub open spec fn bytes_bits(s: Seq<u8>) -> Seq<bool>
    decreases s.len(),
{
    if s.len() == 0 {
        Seq::empty()
    } else {
        byte_bits(s[0]) + bytes_bits(s.skip(1))
    }
}

/// The value a bit sequence denotes: bit `i` carries weight `2^i`.
pub open spec fn bits_val(s: Seq<bool>) -> nat
    decreases s.len(),
{
    if s.len() == 0 {
        0
    } else {
        (if s[0] {
            1nat
        } else {
            0nat
        }) + 2 * bits_val(s.skip(1))
    }
}

/// `n` zero bits.
pub open spec fn zeros(n: nat) -> Seq<bool> {
    Seq::new(n, |i: int| false)
}

/// Bit `i` of a machine word is what `bit_at` says of its value.
pub proof fn lemma_bit_at_u64(x: u64, i: u64)
    requires
        i < 64,
    ensures
        bit_at(x as nat, i as nat) == ((x >> i) & 1 == 1),
{
    lemma_u64_shr_is_div(x, i);
    assert((x >> i) & 1 == (x >> i) % 2) by (bit_vector);
}

/// `1 << e` is `pow2(e)`, which fits in a `u64` for `e < 64`.
pub proof fn lemma_shl1_pow2(e: u64)
    requires
        e < 64,
    ensures
        (1u64 << e) as nat == pow2(e as nat),
        pow2(e as nat) <= u64::MAX,
{
    lemma_u64_pow2_no_overflow(e as nat);
    assert(1u64 * pow2(e as nat) == pow2(e as nat));
    lemma_u64_shl_is_mul(1u64, e);
}

/// Masking with the low `n`-bit mask is reduction modulo `pow2(n)`.
pub proof fn lemma_mask_mod(x: u64, n: u64)
    requires
        n < 64,
    ensures
        (x & (((1u64 << n) - 1) as u64)) as nat == (x as nat) % pow2(n as nat),
{
    lemma_shl1_pow2(n);
    lemma_u64_pow2_no_overflow(n as nat);
    lemma_u64_low_bits_mask_is_mod(x, n as nat);
    assert(low_bits_mask(n as nat) == (pow2(n as nat) - 1) as nat);
    assert(((1u64 << n) - 1) as u64 == low_bits_mask(n as nat) as u64);
    lemma_pow2_pos(n as nat);
    assert((x % (pow2(n as nat) as u64)) as nat == (x as nat) % pow2(n as nat));
}

/// A bit sequence denotes a value below `pow2` of its length.
pub proof fn lemma_bits_val_bound(s: Seq<bool>)
    ensures
        bits_val(s) < pow2(s.len()),
    decreases s.len(),
{
    if s.len() == 0 {
        lemma2_to64();
    } else {
        lemma_bits_val_bound(s.skip(1));
        lemma_pow2_unfold(s.len());
    }
}

/// The low `n` bits of `v` denote `v % pow2(n)`.
pub proof fn lemma_bits_of_val(v: nat, n: nat)
    ensures
        bits_val(bits_of(v, n)) == v % pow2(n),
    decreases n,
{
    lemma2_to64();
    if n == 0 {
        lemma_small_mod(0, 1);
        assert(v % pow2(0) == v % 1);
        assert(v % 1 == 0) by {
            lemma_mod_breakdown(v as int, 1, 1);
        }
    } else {
        assert forall|i: int| 0 <= i < n - 1 implies bits_of(v, n).skip(1)[i] == bits_of(
            v / 2,
            (n - 1) as nat,
        )[i] by {
            lemma_pow2_adds(1, i as nat);
            lemma_pow2_pos(i as nat);
            lemma_div_denominator(v as int, 2, pow2(i as nat) as int);
            assert(v / pow2((i + 1) as nat) == (v / 2) / pow2(i as nat));
        }
        assert(bits_of(v, n).skip(1) =~= bits_of(v / 2, (n - 1) as nat));
        lemma_bits_of_val(v / 2, (n - 1) as nat);
        lemma_pow2_pos((n - 1) as nat);
        lemma_mod_breakdown(v as int, 2, pow2((n - 1) as nat) as int);
        lemma_pow2_unfold(n);
        assert(bits_of(v, n)[0] == bit_at(v, 0));
        assert(bit_at(v, 0) == (v % 2 == 1));
    }
}

/// Concatenation: the tail is shifted up by the length of the head.
pub proof fn lemma_bits_val_concat(a: Seq<bool>, b: Seq<bool>)
    ensures
        bits_val(a + b) == bits_val(a) + pow2(a.len()) * bits_val(b),
    decreases a.len(),
{
    if a.len() == 0 {
        assert(a + b =~= b);
        lemma2_to64();
    } else {
        assert((a + b).skip(1) =~= a.skip(1) + b);
        assert((a + b)[0] == a[0]);
        lemma_bits_val_concat(a.skip(1), b);
        lemma_pow2_unfold(a.len());
        let t = bits_val(a.skip(1));
        let p = pow2((a.len() - 1) as nat);
        let w = bits_val(b);
        assert(2 * (t + p * w) == 2 * t + (2 * p) * w) by (nonlinear_arith);
    }
}

/// A value below `pow2(m)` has only zeros above its low `m` bits.
pub proof fn lemma_bits_of_high_zero(v: nat, m: nat, n: nat)
    requires
        v < pow2(m),
        m <= n,
    ensures
        bits_of(v, n) == bits_of(v, m) + zeros((n - m) as nat),
{
    assert forall|i: int| 0 <= i < n implies bits_of(v, n)[i] == (bits_of(v, m) + zeros(
        (n - m) as nat,
    ))[i] by {
        if i >= m {
            if m < i {
                lemma_pow2_strictly_increases(m, i as nat);
            }
            lemma_pow2_pos(i as nat);
            lemma_basic_div(v as int, pow2(i as nat) as int);
            assert(bit_at(v, i as nat) == false);
        }
    }
    assert(bits_of(v, n) =~= bits_of(v, m) + zeros((n - m) as nat));
}

/// A byte sequence contributes eight bits per byte.
pub proof fn lemma_bytes_bits_len(s: Seq<u8>)
    ensures
        bytes_bits(s).len() == 8 * s.len(),
    decreases s.len(),
{
    if s.len() > 0 {
        lemma_bytes_bits_len(s.skip(1));
    }
}

/// Appending a byte appends its eight bits.
pub proof fn lemma_bytes_bits_push(s: Seq<u8>, b: u8)
    ensures
        bytes_bits(s.push(b)) == bytes_bits(s) + byte_bits(b),
    decreases s.len(),
{
    if s.len() == 0 {
        assert(s.push(b).skip(1) =~= Seq::<u8>::empty());
        assert(bytes_bits(s.push(b).skip(1)) =~= Seq::<bool>::empty());
        assert(s.push(b)[0] == b);
        assert(bytes_bits(s.push(b)) == byte_bits(b) + bytes_bits(s.push(b).skip(1)));
        assert(bytes_bits(s) =~= Seq::<bool>::empty());
        assert(bytes_bits(s.push(b)) =~= bytes_bits(s) + byte_bits(b));
    } else {
        assert(s.push(b).skip(1) =~= s.skip(1).push(b));
        lemma_bytes_bits_push(s.skip(1), b);
        assert(bytes_bits(s.push(b)) =~= bytes_bits(s) + byte_bits(b));
    }
}

/// Splitting a byte sequence at position `i` splits its bits there.
pub proof fn lemma_bytes_bits_skip(s: Seq<u8>, i: int)
    requires
        0 <= i < s.len(),
    ensures
        bytes_bits(s.skip(i)) == byte_bits(s[i]) + bytes_bits(s.skip(i + 1)),
{
    assert(s.skip(i)[0] == s[i]);
    assert(s.skip(i).skip(1) =~= s.skip(i + 1));
}

/// Placing `n` bits of `v` above the `p` pending bits of `buf` concatenates
/// the two bit sequences.
pub proof fn lemma_combine_bits(buf: u64, v: u64, p: u64, n: u64)
    requires
        p < 8,
        n <= 8,
        buf < (1u64 << p),
        v < (1u64 << n),
    ensures
        bits_of((buf | (v << p)) as nat, (p + n) as nat) == bits_of(buf as nat, p as nat)
            + bits_of(v as nat, n as nat),
        (buf | (v << p)) < (1u64 << (p + n)),
{
    let w = buf | (v << p);
    assert(w < (1u64 << (p + n))) by (bit_vector)
        requires
            w == buf | (v << p),
            p < 8,
            n <= 8,
            buf < (1u64 << p),
            v < (1u64 << n),
    ;
    assert forall|i: int| 0 <= i < p + n implies bits_of(w as nat, (p + n) as nat)[i] == (bits_of(
        buf as nat,
        p as nat,
    ) + bits_of(v as nat, n as nat))[i] by {
        let j = i as u64;
        lemma_bit_at_u64(w, j);
        if i < p {
            lemma_bit_at_u64(buf, j);
            assert((w >> j) & 1 == (buf >> j) & 1) by (bit_vector)
                requires
                    w == buf | (v << p),
                    j < p,
                    p < 8,
            ;
        } else {
            lemma_bit_at_u64(v, (j - p) as u64);
            assert((w >> j) & 1 == (v >> (j - p) as u64) & 1) by (bit_vector)
                requires
                    w == buf | (v << p),
                    p <= j < p + n,
                    p < 8,
                    n <= 8,
                    buf < (1u64 << p),
            ;
        }
    }
    assert(bits_of(w as nat, (p + n) as nat) =~= bits_of(buf as nat, p as nat) + bits_of(
        v as nat,
        n as nat,
    ));
}

/// The low eight bits of a word form one byte; the rest shift down by eight.
pub proof fn lemma_split_bits(w: u64, n: u64)
    requires
        8 <= n < 64,
    ensures
        bits_of(w as nat, n as nat) == bits_of((w & 0xff) as nat, 8) + bits_of(
            (w >> 8) as nat,
            (n - 8) as nat,
        ),
{
    assert forall|i: int| 0 <= i < n implies bits_of(w as nat, n as nat)[i] == (bits_of(
        (w & 0xff) as nat,
        8,
    ) + bits_of((w >> 8) as nat, (n - 8) as nat))[i] by {
        let j = i as u64;
        lemma_bit_at_u64(w, j);
        if i < 8 {
            lemma_bit_at_u64(w & 0xff, j);
            assert((w >> j) & 1 == ((w & 0xff) >> j) & 1) by (bit_vector)
                requires
                    j < 8,
            ;
        } else {
            lemma_bit_at_u64(w >> 8, (j - 8) as u64);
            assert((w >> j) & 1 == ((w >> 8) >> (j - 8) as u64) & 1) by (bit_vector)
                requires
                    8 <= j < 64,
            ;
        }
    }
    assert(bits_of(w as nat, n as nat) =~= bits_of((w & 0xff) as nat, 8) + bits_of(
        (w >> 8) as nat,
        (n - 8) as nat,
    ));
}

/// Taking the first `s` of `n` bits keeps the low bits; skipping them shifts
/// the word right by `s`.
pub proof fn lemma_bits_of_take_skip(w: u64, n: u64, s: u64)
    requires
        s <= n < 64,
    ensures
        bits_of(w as nat, n as nat).take(s as int) == bits_of(w as nat, s as nat),
        bits_of(w as nat, n as nat).skip(s as int) == bits_of((w >> s) as nat, (n - s) as nat),
{
    assert(bits_of(w as nat, n as nat).take(s as int) =~= bits_of(w as nat, s as nat));
    assert forall|i: int| 0 <= i < n - s implies bits_of(w as nat, n as nat).skip(s as int)[i]
        == bits_of((w >> s) as nat, (n - s) as nat)[i] by {
        let j = i as u64;
        lemma_bit_at_u64(w, (j + s) as u64);
        lemma_bit_at_u64(w >> s, j);
        assert((w >> (j + s) as u64) & 1 == ((w >> s) >> j) & 1) by (bit_vector)
            requires
                j + s < 64,
        ;
    }
    assert(bits_of(w as nat, n as nat).skip(s as int) =~= bits_of(
        (w >> s) as nat,
        (n - s) as nat,
    ));
}

/// Masking a word to its low `n` bits leaves those bits unchanged.
pub proof fn lemma_bits_of_mask(v: u64, n: u64)
    requires
        n < 64,
    ensures
        bits_of((v & (((1u64 << n) - 1) as u64)) as nat, n as nat) == bits_of(v as nat, n as nat),
{
    assert forall|i: int| 0 <= i < n implies bits_of((v & (((1u64 << n) - 1) as u64)) as nat, n as nat)[i]
        == bits_of(v as nat, n as nat)[i] by {
        let j = i as u64;
        lemma_bit_at_u64(v & (((1u64 << n) - 1) as u64), j);
        lemma_bit_at_u64(v, j);
        assert(((v & (((1u64 << n) - 1) as u64)) >> j) & 1 == (v >> j) & 1) by (bit_vector)
            requires
                j < n,
                n < 64,
        ;
    }
    assert(bits_of((v & (((1u64 << n) - 1) as u64)) as nat, n as nat) =~= bits_of(v as nat, n as nat));
}

/// Accumulating a chunk `c` at bit offset `off` into `a` by shift-and-or is
/// addition of `c * pow2(off)`, provided the low `off` bits of the shifted
/// chunk are free and nothing overflows 32 bits.
pub proof fn lemma_or_shift_add(a: u32, c: u32, off: u32)
    requires
        off < 32,
        (a as nat) < pow2(off as nat),
        (c as nat) * pow2(off as nat) < 0x1_0000_0000,
    ensures
        ((a | (c << off)) as nat) == a as nat + (c as nat) * pow2(off as nat),
{
    let a64 = a as u64;
    let c64 = c as u64;
    let o = off as u64;
    lemma_shl1_pow2(o);
    lemma_u64_pow2_no_overflow(o as nat);
    lemma_u64_shl_is_mul(c64, o);
    assert((c64 << o) as nat == (c as nat) * pow2(off as nat));
    assert(((a | (c << off)) as u64) == (a64 | (c64 << o))) by (bit_vector)
        requires
            a64 == a as u64,
            c64 == c as u64,
            o == off as u64,
            o < 32,
            (c64 << o) < 0x1_0000_0000,
    ;
    assert((a64 | (c64 << o)) == a64 + (c64 << o)) by (bit_vector)
        requires
            a64 < (1u64 << o),
            o < 32,
            (c64 << o) < 0x1_0000_0000,
    ;
}

/// Little-endian chunking: the bits from offset `a` to `a + c` of `v` are the
/// low `c` bits of the byte-sized chunk `(v >> a) & 0xff`.
pub proof fn lemma_bits_of_chunk(v: u64, a: u64, c: u64)
    requires
        c <= 8,
        a + c < 64,
    ensures
        bits_of(v as nat, (a + c) as nat) == bits_of(v as nat, a as nat) + bits_of(
            ((v >> a) & 0xff) as nat,
            c as nat,
        ),
{
    assert forall|i: int| 0 <= i < a + c implies bits_of(v as nat, (a + c) as nat)[i] == (bits_of(
        v as nat,
        a as nat,
    ) + bits_of(((v >> a) & 0xff) as nat, c as nat))[i] by {
        if i >= a {
            let j = i as u64;
            lemma_bit_at_u64(v, j);
            lemma_bit_at_u64((v >> a) & 0xff, (j - a) as u64);
            assert((v >> j) & 1 == (((v >> a) & 0xff) >> (j - a) as u64) & 1) by (bit_vector)
                requires
                    a <= j,
                    j - a < c,
                    c <= 8,
                    j < 64,
            ;
        }
    }
    assert(bits_of(v as nat, (a + c) as nat) =~= bits_of(v as nat, a as nat) + bits_of(
        ((v >> a) & 0xff) as nat,
        c as nat,
    ));
}

} // verus!
