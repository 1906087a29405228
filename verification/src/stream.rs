//! Bit writer and bit reader.
//!
//! The writer packs sub-byte writes into bytes, least significant bit first,
//! and flushes each completed byte into an in-memory byte sink. The reader
//! mirrors it: it pulls bytes from its source on demand and keeps the
//! leftover bits. Both are specified against the `Seq<bool>` bit-stream model
//! of [`crate::bits`].

use vstd::prelude::*;
use vstd::arithmetic::power2::{
    pow2, lemma2_to64, lemma_pow2_adds, lemma_pow2_pos, lemma_pow2_strictly_increases,
};
use vstd::arithmetic::div_mod::{lemma_mod_multiples_vanish, lemma_small_mod};
use crate::bits::{
    bits_of, bits_val, byte_bits, bytes_bits, lemma_bits_of_chunk, lemma_bits_of_high_zero,
    lemma_bits_of_mask, lemma_bits_of_take_skip, lemma_bits_of_val, lemma_bits_val_bound,
    lemma_bits_val_concat, lemma_bytes_bits_len, lemma_bytes_bits_push, lemma_bytes_bits_skip,
    lemma_combine_bits, lemma_mask_mod, lemma_or_shift_add, lemma_shl1_pow2, lemma_split_bits,
    zeros,
};

verus! {

/// The one failure a bit stream itself can produce: the reader needed another
/// byte and its source had none left.
#[derive(Clone, Copy, PartialEq, Eq, Structural, Debug)]
pub enum StreamError {
    EndOfStream,
}

/// Number of zero bits `finish` pads a stream of `n` bits with to reach a
/// whole byte.
pub open spec fn pad_len(n: nat) -> nat {
    if n % 8 == 0 {
        0
    } else {
        (8 - n % 8) as nat
    }
}

/// Accumulates sub-byte writes, flushing each completed byte to the sink.
pub struct BitWriter {
    sink: Vec<u8>,
    buffer: u8,
    pending: u8,
}

impl BitWriter {
    /// Every bit handed to `write` so far, in stream order.
    pub closed spec fn written(self) -> Seq<bool> {
        bytes_bits(self.sink@) + bits_of(self.buffer as nat, self.pending as nat)
    }

    /// The bytes flushed to the sink so far.
    pub closed spec fn flushed(self) -> Seq<u8> {
        self.sink@
    }

    /// Fewer than eight bits are pending and the buffer holds only those bits.
    pub closed spec fn wf(self) -> bool {
        self.pending < 8 && (self.buffer as nat) < pow2(self.pending as nat)
    }

    pub fn new() -> (w: BitWriter)
        ensures
            w.wf(),
            w.written() == Seq::<bool>::empty(),
            w.flushed() == Seq::<u8>::empty(),
    {
        let w = BitWriter { sink: Vec::new(), buffer: 0, pending: 0 };
        proof {
            lemma2_to64();
            assert(w.written() =~= Seq::<bool>::empty());
        }
        w
    }

    /// Append the low `size` bits of `value` to the stream; the higher bits of
    /// `value` are ignored. Flushes one byte to the sink exactly when the
    /// pending bits reach eight. A write of zero bits changes nothing.
    pub fn write(&mut self, value: u8, size: u8)
        requires
            size <= 8,
            old(self).wf(),
        ensures
            final(self).wf(),
            final(self).written() == old(self).written() + bits_of(value as nat, size as nat),
            old(self).flushed().is_prefix_of(final(self).flushed()),
            size == 0 ==> final(self).flushed() == old(self).flushed(),
    {
        proof {
            assert(1u64 << size >= 1) by (bit_vector)
                requires
                    size <= 8,
            ;
        }
        let m: u64 = (value as u64) & ((1u64 << size) - 1);
        let wide: u64 = (self.buffer as u64) | (m << self.pending);
        let np: u8 = self.pending + size;
        proof {
            let p = self.pending as u64;
            let sz = size as u64;
            lemma_shl1_pow2(p);
            lemma_shl1_pow2(sz);
            assert(m < (1u64 << sz)) by (bit_vector)
                requires
                    m == (value as u64) & (((1u64 << sz) - 1) as u64),
                    sz <= 8,
            ;
            lemma_combine_bits(self.buffer as u64, m, p, sz);
            lemma_bits_of_mask(value as u64, sz);
        }
        if np >= 8 {
            let lo: u8 = (wide & 0xff) as u8;
            let hi: u8 = (wide >> 8) as u8;
            proof {
                let np64 = np as u64;
                lemma_split_bits(wide, np64);
                assert(wide >> 8 < (1u64 << ((np64 - 8) as u64)) && wide >> 8 < 256 && wide & 0xff
                    < 256) by (bit_vector)
                    requires
                        wide < (1u64 << np64),
                        8 <= np64 < 16,
                ;
                lemma_shl1_pow2((np64 - 8) as u64);
                lemma_bytes_bits_push(self.sink@, lo);
            }
            self.sink.push(lo);
            self.buffer = hi;
            self.pending = np - 8;
            proof {
                let p = old(self).pending as u64;
                let sz = size as u64;
                let np64 = np as u64;
                assert(old(self).flushed() =~= self.flushed().take(old(self).sink@.len() as int));
                assert(self.sink@ == old(self).sink@.push(lo));
                assert(bytes_bits(self.sink@) == bytes_bits(old(self).sink@) + byte_bits(lo));
                assert(lo as nat == (wide & 0xff) as nat);
                assert(hi as nat == (wide >> 8) as nat);
                assert(byte_bits(lo) == bits_of((wide & 0xff) as nat, 8));
                assert(bits_of(self.buffer as nat, self.pending as nat) == bits_of(
                    (wide >> 8) as nat,
                    (np64 - 8) as nat,
                ));
                assert(bits_of(wide as nat, np64 as nat) == bits_of((wide & 0xff) as nat, 8)
                    + bits_of((wide >> 8) as nat, (np64 - 8) as nat));
                assert(bits_of(wide as nat, np64 as nat) == bits_of(
                    old(self).buffer as nat,
                    p as nat,
                ) + bits_of(m as nat, sz as nat));
                assert(bits_of(m as nat, sz as nat) == bits_of(value as nat, size as nat));
                assert(old(self).written() == bytes_bits(old(self).sink@) + bits_of(
                    old(self).buffer as nat,
                    p as nat,
                ));
                assert(self.written() =~= bytes_bits(old(self).sink@) + (byte_bits(lo) + bits_of(
                    (wide >> 8) as nat,
                    (np64 - 8) as nat,
                )));
                assert(old(self).written() + bits_of(value as nat, size as nat) =~= bytes_bits(
                    old(self).sink@,
                ) + (bits_of(old(self).buffer as nat, p as nat) + bits_of(
                    value as nat,
                    size as nat,
                )));
                assert(byte_bits(lo) + bits_of((wide >> 8) as nat, (np64 - 8) as nat) == bits_of(
                    wide as nat,
                    np64 as nat,
                ));
                assert(bits_of(old(self).buffer as nat, p as nat) + bits_of(
                    value as nat,
                    size as nat,
                ) == bits_of(wide as nat, np64 as nat));
                assert(self.written() == old(self).written() + bits_of(
                    value as nat,
                    size as nat,
                ));
            }
        } else {
            proof {
                let np64 = np as u64;
                assert(wide < 256) by (bit_vector)
                    requires
                        wide < (1u64 << np64),
                        np64 < 8,
                ;
                lemma_shl1_pow2(np64);
            }
            self.buffer = wide as u8;
            self.pending = np;
            proof {
                assert(old(self).flushed() =~= self.flushed().take(old(self).sink@.len() as int));
                assert(self.written() =~= old(self).written() + bits_of(
                    value as nat,
                    size as nat,
                ));
            }
        }
    }

    /// Append the low `size` bits of `value`, `size <= 32`, as little-endian
    /// chunks: whole low-order bytes first, then the remainder bits.
    pub fn write32(&mut self, value: u32, size: u8)
        requires
            size <= 32,
            old(self).wf(),
        ensures
            final(self).wf(),
            final(self).written() == old(self).written() + bits_of(value as nat, size as nat),
    {
        let mut off: u8 = 0;
        proof {
            assert(old(self).written() + bits_of(value as nat, 0) =~= old(self).written());
        }
        while off + 8 <= size
            invariant
                size <= 32,
                off <= size,
                old(self).wf(),
                self.wf(),
                self.written() == old(self).written() + bits_of(value as nat, off as nat),
            decreases size - off,
        {
            let chunk: u8 = ((value >> (off as u32)) & 0xff) as u8;
            self.write(chunk, 8);
            proof {
                let v64 = value as u64;
                let o64 = off as u64;
                assert(chunk as u64 == (v64 >> o64) & 0xff) by (bit_vector)
                    requires
                        chunk == ((value >> (off as u32)) & 0xff) as u8,
                        v64 == value as u64,
                        o64 == off as u64,
                        o64 < 32,
                ;
                lemma_bits_of_chunk(v64, o64, 8);
                assert(self.written() =~= old(self).written() + bits_of(
                    value as nat,
                    (off + 8) as nat,
                ));
            }
            off = off + 8;
        }
        if off < size {
            let rem: u8 = size - off;
            let chunk: u8 = ((value >> (off as u32)) & 0xff) as u8;
            self.write(chunk, rem);
            proof {
                let v64 = value as u64;
                let o64 = off as u64;
                assert(chunk as u64 == (v64 >> o64) & 0xff) by (bit_vector)
                    requires
                        chunk == ((value >> (off as u32)) & 0xff) as u8,
                        v64 == value as u64,
                        o64 == off as u64,
                        o64 < 32,
                ;
                lemma_bits_of_chunk(v64, o64, rem as u64);
                assert(self.written() =~= old(self).written() + bits_of(
                    value as nat,
                    size as nat,
                ));
            }
        }
    }

    /// Close the stream: pad the pending bits, if any, with zeros up to a
    /// whole byte, flush it, and hand the sink back.
    pub fn finish(self) -> (bytes: Vec<u8>)
        requires
            self.wf(),
        ensures
            bytes_bits(bytes@) == self.written() + zeros(pad_len(self.written().len())),
            8 * bytes@.len() == self.written().len() + pad_len(self.written().len()),
    {
        let BitWriter { sink, buffer, pending } = self;
        let mut bytes = sink;
        proof {
            lemma_bytes_bits_len(bytes@);
            lemma_mod_multiples_vanish(bytes@.len() as int, pending as int, 8);
            lemma_small_mod(pending as nat, 8);
            assert(self.written().len() % 8 == pending as nat);
        }
        if pending > 0 {
            proof {
                lemma_bits_of_high_zero(buffer as nat, pending as nat, 8);
                lemma_bytes_bits_push(bytes@, buffer);
            }
            bytes.push(buffer);
            proof {
                assert(bytes_bits(bytes@) =~= self.written() + zeros(
                    pad_len(self.written().len()),
                ));
            }
        } else {
            proof {
                assert(bytes_bits(bytes@) =~= self.written() + zeros(
                    pad_len(self.written().len()),
                ));
            }
        }
        bytes
    }
}

/// Pulls bytes from an in-memory source on demand and serves sub-byte reads.
pub struct BitReader {
    source: Vec<u8>,
    pos: usize,
    buffer: u8,
    pending: u8,
}

impl BitReader {
    /// The bits not yet consumed: the pending buffer bits, then the bits of
    /// the bytes not yet fetched.
    pub closed spec fn remaining(self) -> Seq<bool> {
        bits_of(self.buffer as nat, self.pending as nat) + bytes_bits(
            self.source@.skip(self.pos as int),
        )
    }

    /// The whole byte source this reader was built over.
    pub closed spec fn source_bytes(self) -> Seq<u8> {
        self.source@
    }

    /// How many bytes have been fetched from the source so far.
    pub closed spec fn fetched(self) -> nat {
        self.pos as nat
    }

    /// Fewer than eight bits are pending, the buffer holds only those bits,
    /// and the fetch position is inside the source.
    pub closed spec fn wf(self) -> bool {
        self.pending < 8 && (self.buffer as nat) < pow2(self.pending as nat) && self.pos
            <= self.source@.len()
    }

    pub fn new(source: Vec<u8>) -> (r: BitReader)
        ensures
            r.wf(),
            r.remaining() == bytes_bits(source@),
            r.source_bytes() == source@,
            r.fetched() == 0,
    {
        let r = BitReader { source, pos: 0, buffer: 0, pending: 0 };
        proof {
            lemma2_to64();
            assert(r.source@.skip(0) =~= r.source@);
            assert(r.remaining() =~= bytes_bits(r.source@));
        }
        r
    }

    /// Read `size` bits, `size <= 8`. Succeeds exactly when that many bits
    /// remain; fetches at most one byte from the source, and none when the
    /// pending bits suffice. A read of zero bits returns 0 and changes
    /// nothing.
    pub fn read(&mut self, size: u8) -> (r: Result<u8, StreamError>)
        requires
            size <= 8,
            old(self).wf(),
        ensures
            final(self).wf(),
            final(self).source_bytes() == old(self).source_bytes(),
            size as nat <= old(self).remaining().len() ==> (r matches Ok(v) && v as nat
                == bits_val(old(self).remaining().take(size as int)) && final(self).remaining()
                == old(self).remaining().skip(size as int)),
            size as nat > old(self).remaining().len() ==> (r matches Err(e) && e
                == StreamError::EndOfStream && final(self).remaining() == old(self).remaining()
                && final(self).fetched() == old(self).fetched()),
            size == 0 ==> final(self).fetched() == old(self).fetched(),
            old(self).fetched() <= final(self).fetched() <= old(self).fetched() + 1,
    {
        proof {
            lemma_bytes_bits_len(self.source@.skip(self.pos as int));
            lemma_shl1_pow2(self.pending as u64);
        }
        let wide: u64;
        let p: u8;
        if self.pending >= size {
            wide = self.buffer as u64;
            p = self.pending;
        } else {
            if self.pos == self.source.len() {
                proof {
                    assert(self.source@.skip(self.pos as int) =~= Seq::<u8>::empty());
                    assert(old(self).remaining().len() == self.pending as nat);
                }
                return Err(StreamError::EndOfStream);
            }
            let b = self.source[self.pos];
            proof {
                lemma_bytes_bits_skip(self.source@, self.pos as int);
                assert((b as u64) < (1u64 << 8u64)) by (bit_vector);
                lemma_combine_bits(self.buffer as u64, b as u64, self.pending as u64, 8);
                lemma_shl1_pow2((self.pending + 8) as u64);
            }
            wide = (self.buffer as u64) | ((b as u64) << self.pending);
            p = self.pending + 8;
            self.pos = self.pos + 1;
            proof {
                assert(old(self).remaining() =~= bits_of(wide as nat, p as nat) + bytes_bits(
                    self.source@.skip(self.pos as int),
                ));
            }
        }
        proof {
            assert(size <= p && p - size < 8 && (wide as nat) < pow2(p as nat));
            assert(1u64 << size >= 1) by (bit_vector)
                requires
                    size <= 8,
            ;
        }
        let mask: u64 = (1u64 << size) - 1;
        let r: u8 = (wide & mask) as u8;
        let nb: u8 = (wide >> size) as u8;
        proof {
            let p64 = p as u64;
            let sz = size as u64;
            lemma_bits_of_take_skip(wide, p64, sz);
            lemma_mask_mod(wide, sz);
            lemma_bits_of_val(wide as nat, sz as nat);
            assert(wide & ((((1u64 << sz) - 1)) as u64) < 256) by (bit_vector)
                requires
                    sz <= 8,
            ;
            assert(wide >> sz < (1u64 << ((p64 - sz) as u64)) && wide >> sz < 256) by (bit_vector)
                requires
                    wide < (1u64 << p64),
                    sz <= p64,
                    p64 < 16,
                    p64 - sz < 8,
            ;
            lemma_shl1_pow2((p64 - sz) as u64);
        }
        self.buffer = nb;
        self.pending = p - size;
        proof {
            assert(old(self).remaining().take(size as int) =~= bits_of(wide as nat, size as nat));
            assert(r as nat == bits_val(old(self).remaining().take(size as int)));
            assert(self.remaining() =~= old(self).remaining().skip(size as int));
        }
        Ok(r)
    }

    /// Read `size` bits, `size <= 32`, as little-endian chunks: whole
    /// low-order bytes first, then the remainder bits. Succeeds exactly when
    /// `size` bits remain.
    #[verifier::rlimit(30)]
    pub fn read32(&mut self, size: u8) -> (r: Result<u32, StreamError>)
        requires
            size <= 32,
            old(self).wf(),
        ensures
            final(self).wf(),
            final(self).source_bytes() == old(self).source_bytes(),
            size as nat <= old(self).remaining().len() ==> (r matches Ok(v) && v as nat
                == bits_val(old(self).remaining().take(size as int)) && final(self).remaining()
                == old(self).remaining().skip(size as int)),
            size as nat > old(self).remaining().len() ==> (r matches Err(e) && e
                == StreamError::EndOfStream),
    {
        let ghost orem = old(self).remaining();
        let mut acc: u32 = 0;
        let mut off: u8 = 0;
        proof {
            assert(orem.skip(0) =~= orem);
            assert(orem.take(0) =~= Seq::<bool>::empty());
        }
        while off + 8 <= size
            invariant
                size <= 32,
                off <= size,
                self.wf(),
                orem == old(self).remaining(),
                self.source_bytes() == old(self).source_bytes(),
                off as nat <= orem.len(),
                self.remaining() == orem.skip(off as int),
                acc as nat == bits_val(orem.take(off as int)),
            decreases size - off,
        {
            let res = self.read(8);
            match res {
                Ok(chunk) => {
                    proof {
                        let mid = orem.skip(off as int);
                        assert(mid.skip(8) =~= orem.skip(off + 8));
                        assert(orem.take(off + 8) =~= orem.take(off as int) + mid.take(8));
                        lemma_bits_val_concat(orem.take(off as int), mid.take(8));
                        lemma_bits_val_bound(orem.take(off as int));
                        lemma_bits_val_bound(mid.take(8));
                        lemma_pow2_pos(off as nat);
                        lemma_pow2_adds(off as nat, 8);
                        lemma2_to64();
                        if off + 8 < 32 {
                            lemma_pow2_strictly_increases((off + 8) as nat, 32);
                        }
                        assert((chunk as nat) * pow2(off as nat) < pow2(8) * pow2(off as nat))
                            by (nonlinear_arith)
                            requires
                                (chunk as nat) < pow2(8),
                                pow2(off as nat) > 0,
                        ;
                        lemma_or_shift_add(acc, chunk as u32, off as u32);
                    }
                    acc = acc | ((chunk as u32) << (off as u32));
                    off = off + 8;
                }
                Err(e) => {
                    return Err(e);
                },
            }
        }
        if off < size {
            let last: u8 = size - off;
            let res = self.read(last);
            match res {
                Ok(chunk) => {
                    proof {
                        let mid = orem.skip(off as int);
                        assert(mid.skip(last as int) =~= orem.skip(size as int));
                        assert(orem.take(size as int) =~= orem.take(off as int) + mid.take(
                            last as int,
                        ));
                        lemma_bits_val_concat(orem.take(off as int), mid.take(last as int));
                        lemma_bits_val_bound(orem.take(off as int));
                        lemma_bits_val_bound(mid.take(last as int));
                        lemma_pow2_pos(off as nat);
                        lemma_pow2_adds(off as nat, last as nat);
                        lemma2_to64();
                        if size < 32 {
                            lemma_pow2_strictly_increases(size as nat, 32);
                        }
                        assert((chunk as nat) * pow2(off as nat) < pow2(last as nat) * pow2(
                            off as nat,
                        )) by (nonlinear_arith)
                            requires
                                (chunk as nat) < pow2(last as nat),
                                pow2(off as nat) > 0,
                        ;
                        assert(off < 32);
                        assert((acc as nat) < pow2(off as nat));
                        assert((chunk as nat) < pow2(last as nat));
                        assert(off as nat + last as nat == size as nat);
                        assert(pow2(size as nat) == pow2(off as nat) * pow2(last as nat));
                        assert(pow2(last as nat) * pow2(off as nat) == pow2(off as nat) * pow2(
                            last as nat,
                        )) by (nonlinear_arith);
                        assert(pow2(last as nat) * pow2(off as nat) == pow2(size as nat));
                        assert(pow2(size as nat) <= 0x1_0000_0000);
                        assert(((chunk as u32) as nat) * pow2(off as nat) < 0x1_0000_0000);
                        lemma_or_shift_add(acc, chunk as u32, off as u32);
                    }
                    acc = acc | ((chunk as u32) << (off as u32));
                    proof {
                        let mid = orem.skip(off as int);
                        assert((chunk as u32) as nat == chunk as nat);
                        assert(acc as nat == bits_val(orem.take(off as int)) + (chunk as nat)
                            * pow2(off as nat));
                        assert(chunk as nat == bits_val(mid.take(last as int)));
                        assert((chunk as nat) * pow2(off as nat) == pow2(off as nat) * (
                        chunk as nat)) by (nonlinear_arith);
                        assert(orem.take(off as int).len() == off as int);
                        assert(bits_val(orem.take(size as int)) == bits_val(orem.take(off as int))
                            + pow2(off as nat) * bits_val(mid.take(last as int)));
                        assert(acc as nat == bits_val(orem.take(size as int)));
                        assert(self.remaining() == orem.skip(size as int));
                    }
                }
                Err(e) => {
                    return Err(e);
                },
            }
        }
        Ok(acc)
    }
}

/// A writer buffers at most one partial byte: the flushed bytes are exactly
/// the whole bytes of the stream written so far, in order.
pub proof fn lemma_writer_flushed_prefix(w: BitWriter)
    requires
        w.wf(),
    ensures
        8 * w.flushed().len() <= w.written().len() < 8 * w.flushed().len() + 8,
        bytes_bits(w.flushed()) == w.written().take(8 * w.flushed().len() as int),
{
    lemma_bytes_bits_len(w.flushed());
    assert(bytes_bits(w.flushed()) =~= w.written().take(8 * w.flushed().len() as int));
}

/// The bit stream that a sequence of `(value, size)` writes produces.
pub open spec fn codes_bits(ps: Seq<(u8, u8)>) -> Seq<bool>
    decreases ps.len(),
{
    if ps.len() == 0 {
        Seq::empty()
    } else {
        bits_of(ps[0].0 as nat, ps[0].1 as nat) + codes_bits(ps.skip(1))
    }
}

/// The values obtained by reading the given sizes one after another from a
/// bit stream.
pub open spec fn reads_back(s: Seq<bool>, sizes: Seq<u8>) -> Seq<u8>
    decreases sizes.len(),
{
    if sizes.len() == 0 {
        Seq::empty()
    } else {
        seq![bits_val(s.take(sizes[0] as int)) as u8] + reads_back(
            s.skip(sizes[0] as int),
            sizes.skip(1),
        )
    }
}

/// Bit-stream round trip: write any sequence of `(value, size)` pairs with
/// `size <= 8` and `value` below `2^size`, then read the same sizes back in
/// order, and exactly the written values return — whatever bits follow the
/// codes, in particular the zero padding that `finish` adds.
pub proof fn lemma_stream_round_trip(ps: Seq<(u8, u8)>, rest: Seq<bool>)
    requires
        forall|i: int|
            0 <= i < ps.len() ==> (#[trigger] ps[i]).1 <= 8 && (ps[i].0 as nat) < pow2(
                ps[i].1 as nat,
            ),
    ensures
        reads_back(codes_bits(ps) + rest, ps.map_values(|p: (u8, u8)| p.1)) == ps.map_values(
            |p: (u8, u8)| p.0,
        ),
    decreases ps.len(),
{
    let sizes = ps.map_values(|p: (u8, u8)| p.1);
    let vals = ps.map_values(|p: (u8, u8)| p.0);
    if ps.len() == 0 {
        assert(codes_bits(ps) + rest =~= rest);
        assert(vals =~= Seq::<u8>::empty());
        assert(reads_back(codes_bits(ps) + rest, sizes) =~= Seq::<u8>::empty());
    } else {
        let v = ps[0].0;
        let n = ps[0].1;
        let s = codes_bits(ps) + rest;
        let tail = codes_bits(ps.skip(1)) + rest;
        assert(s =~= bits_of(v as nat, n as nat) + tail);
        assert(s.take(n as int) =~= bits_of(v as nat, n as nat));
        lemma_bits_of_val(v as nat, n as nat);
        lemma_pow2_pos(n as nat);
        lemma_small_mod(v as nat, pow2(n as nat));
        assert(bits_val(s.take(n as int)) == v as nat);
        assert(s.skip(n as int) =~= tail);
        lemma_stream_round_trip(ps.skip(1), rest);
        assert(sizes[0] == n && vals[0] == v);
        assert(sizes.skip(1) =~= ps.skip(1).map_values(|p: (u8, u8)| p.1));
        assert(vals.skip(1) =~= ps.skip(1).map_values(|p: (u8, u8)| p.0));
        assert(reads_back(s, sizes) =~= vals);
    }
}

/// `write32`/`read32` round trip: the chunked code of `value` at any
/// `size <= 32` reads back as `value` reduced to its low `size` bits, and
/// consumes exactly those `size` bits, whatever follows them.
pub proof fn lemma_write32_read32_round_trip(value: u32, size: u8, rest: Seq<bool>)
    requires
        size <= 32,
    ensures
        bits_val((bits_of(value as nat, size as nat) + rest).take(size as int)) == (value as nat)
            % pow2(size as nat),
        (bits_of(value as nat, size as nat) + rest).skip(size as int) == rest,
{
    let s = bits_of(value as nat, size as nat) + rest;
    assert(s.take(size as int) =~= bits_of(value as nat, size as nat));
    lemma_bits_of_val(value as nat, size as nat);
    assert(s.skip(size as int) =~= rest);
}

} // verus!
