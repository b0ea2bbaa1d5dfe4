//! The bit-level reader over an in-memory compressed byte stream.
//!
//! Bits are consumed least-significant-bit-first within each byte, the
//! packing order DEFLATE prescribes. The reader tracks its position as a
//! bit cursor; `reset` realigns it to the next byte boundary, which the
//! byte-aligned stored-block path requires.

use vstd::prelude::*;

use crate::error::Error;

verus! {

/// The value of bit `i` (0 = least significant) of byte `b`.
pub open spec fn bit_of_byte(b: u8, i: u8) -> bool
    recommends
        i < 8,
{
    (b >> i) & 1 == 1
}

/// The value of bit `i` of a byte sequence, in DEFLATE bit order: bytes in
/// stream order, least-significant bit of each byte first.
pub open spec fn bit_at(bytes: Seq<u8>, i: nat) -> bool
    recommends
        i < bytes.len() * 8,
{
    bit_of_byte(bytes[(i / 8) as int], (i % 8) as u8)
}

/// The unsigned integer formed by the `n` bits starting at bit `start`,
/// least-significant-bit-first (the first bit read is the lowest bit of the
/// value), as DEFLATE packs fixed-width fields and extra bits.
pub open spec fn bits_value(bytes: Seq<u8>, start: nat, n: nat) -> nat
    decreases n,
{
    if n == 0 {
        0
    } else {
        (if bit_at(bytes, start) {
            1nat
        } else {
            0nat
        }) + 2 * bits_value(bytes, start + 1, (n - 1) as nat)
    }
}

/// The unsigned integer formed by the `n` bits starting at bit `start`,
/// most-significant-bit-first: the order in which Huffman code bits are
/// accumulated while walking a canonical code.
pub open spec fn code_value(bytes: Seq<u8>, start: nat, n: nat) -> nat
    decreases n,
{
    if n == 0 {
        0
    } else {
        2 * code_value(bytes, start, (n - 1) as nat) + (if bit_at(bytes, (start + n - 1) as nat) {
            1nat
        } else {
            0nat
        })
    }
}

/// Two raised to the power `n`.
pub open spec fn p2(n: nat) -> nat
    decreases n,
{
    if n == 0 {
        1
    } else {
        2 * p2((n - 1) as nat)
    }
}

/// `p2` is monotone.
pub proof fn lemma_p2_mono(a: nat, b: nat)
    requires
        a <= b,
    ensures
        p2(a) <= p2(b),
    decreases b,
{
    if a < b {
        lemma_p2_mono(a, (b - 1) as nat);
    }
}

/// `bits_value` always fits in `n` bits.
pub proof fn lemma_bits_value_bound(bytes: Seq<u8>, start: nat, n: nat)
    ensures
        bits_value(bytes, start, n) < p2(n),
    decreases n,
{
    if n > 0 {
        lemma_bits_value_bound(bytes, start + 1, (n - 1) as nat);
    }
}

/// `code_value` always fits in `n` bits.
pub proof fn lemma_code_value_bound(bytes: Seq<u8>, start: nat, n: nat)
    ensures
        code_value(bytes, start, n) < p2(n),
    decreases n,
{
    if n > 0 {
        lemma_code_value_bound(bytes, start, (n - 1) as nat);
    }
}

/// Reads bits and byte-aligned bytes from an in-memory compressed stream.
///
/// The bit cursor counts bits already consumed; it never exceeds eight times
/// the input length, and reading past the end reports `UnexpectedEof`.
pub struct BitReader {
    bytes: Vec<u8>,
    pos: usize,
    bit: u8,
}

impl BitReader {
    /// The whole compressed input this reader was created over.
    pub closed spec fn input(self) -> Seq<u8> {
        self.bytes@
    }

    /// How many bits have been consumed so far.
    pub closed spec fn cursor(self) -> nat {
        (8 * self.pos + self.bit) as nat
    }

    /// The cursor stays within the input and within the current byte.
    pub closed spec fn wf(self) -> bool {
        &&& self.bit < 8
        &&& self.pos <= self.bytes.len()
        &&& (self.bit > 0 ==> self.pos < self.bytes.len())
    }

    /// The cursor sits on a byte boundary.
    pub closed spec fn aligned(self) -> bool {
        self.bit == 0
    }

    /// The index of the next whole byte, once aligned.
    pub closed spec fn byte_pos(self) -> nat {
        self.pos as nat
    }

    pub proof fn lemma_cursor_in_input(self)
        requires
            self.wf(),
        ensures
            self.cursor() <= self.input().len() * 8,
            self.aligned() ==> self.cursor() == self.byte_pos() * 8,
    {
    }

    /// A fresh reader positioned at the first bit of `bytes`.
    pub fn new(bytes: Vec<u8>) -> (r: BitReader)
        ensures
            r.wf(),
            r.input() == bytes@,
            r.cursor() == 0,
            r.aligned(),
    {
        BitReader { bytes, pos: 0, bit: 0 }
    }

    /// Consumes and returns the next bit, least-significant-bit-first.
    pub fn read_bit(&mut self) -> (r: Result<bool, Error>)
        requires
            old(self).wf(),
        ensures
            final(self).wf(),
            final(self).input() == old(self).input(),
            match r {
                Ok(b) => {
                    &&& old(self).cursor() < old(self).input().len() * 8
                    &&& b == bit_at(old(self).input(), old(self).cursor())
                    &&& final(self).cursor() == old(self).cursor() + 1
                },
                Err(e) => {
                    &&& e == Error::UnexpectedEof
                    &&& old(self).cursor() == old(self).input().len() * 8
                    &&& *final(self) == *old(self)
                },
            },
    {
        if self.pos >= self.bytes.len() {
            return Err(Error::UnexpectedEof);
        }
        let byte = self.bytes[self.pos];
        let b = ((byte >> self.bit) & 1) == 1;
        proof {
            assert(self.cursor() / 8 == self.pos as nat) by (nonlinear_arith)
                requires
                    self.bit < 8,
                    self.cursor() == 8 * self.pos + self.bit as nat,
            ;
            assert(self.cursor() % 8 == self.bit as nat) by (nonlinear_arith)
                requires
                    self.bit < 8,
                    self.cursor() == 8 * self.pos + self.bit as nat,
            ;
        }
        if self.bit == 7 {
            self.bit = 0;
            self.pos = self.pos + 1;
        } else {
            self.bit = self.bit + 1;
        }
        Ok(b)
    }

    /// Consumes `n` bits and packs them least-significant-bit-first into an
    /// unsigned value, as DEFLATE's fixed-width header fields and extra bits
    /// are packed.
    pub fn read_bits(&mut self, n: u8) -> (r: Result<u16, Error>)
        requires
            old(self).wf(),
            n <= 16,
        ensures
            final(self).wf(),
            final(self).input() == old(self).input(),
            match r {
                Ok(v) => {
                    &&& old(self).cursor() + n <= old(self).input().len() * 8
                    &&& final(self).cursor() == old(self).cursor() + n
                    &&& v as nat == bits_value(old(self).input(), old(self).cursor(), n as nat)
                    &&& (v as nat) < p2(n as nat)
                },
                Err(e) => {
                    &&& e == Error::UnexpectedEof
                    &&& final(self).cursor() >= old(self).cursor()
                    &&& old(self).cursor() + n > old(self).input().len() * 8
                },
            },
        decreases n,
    {
        if n == 0 {
            Ok(0)
        } else {
            let b = self.read_bit()?;
            let rest = self.read_bits(n - 1)?;
            proof {
                lemma_bits_value_bound(self.input(), old(self).cursor() + 1, (n - 1) as nat);
                assert(p2(n as nat) == 2 * p2((n - 1) as nat));
                reveal_with_fuel(p2, 17);
                assert(p2(15) == 32768);
                lemma_p2_mono((n - 1) as nat, 15);
            }
            let v: u16 = (if b {
                1
            } else {
                0
            }) + 2 * rest;
            Ok(v)
        }
    }

    /// Discards any bits buffered in the current byte, realigning the cursor
    /// to the next byte boundary. Required immediately before the LEN/NLEN
    /// header of a stored block.
    pub fn reset(&mut self)
        requires
            old(self).wf(),
        ensures
            final(self).wf(),
            final(self).aligned(),
            final(self).input() == old(self).input(),
            old(self).cursor() <= final(self).cursor() < old(self).cursor() + 8,
            final(self).cursor() == final(self).byte_pos() * 8,
            old(self).aligned() ==> *final(self) == *old(self),
    {
        if self.bit != 0 {
            self.bit = 0;
            self.pos = self.pos + 1;
        }
    }

    /// Consumes one whole byte from a byte-aligned position.
    pub fn read_byte(&mut self) -> (r: Result<u8, Error>)
        requires
            old(self).wf(),
            old(self).aligned(),
        ensures
            final(self).wf(),
            final(self).aligned(),
            final(self).input() == old(self).input(),
            match r {
                Ok(b) => {
                    &&& old(self).byte_pos() < old(self).input().len()
                    &&& b == old(self).input()[old(self).byte_pos() as int]
                    &&& final(self).byte_pos() == old(self).byte_pos() + 1
                    &&& final(self).cursor() == old(self).cursor() + 8
                },
                Err(e) => {
                    &&& e == Error::UnexpectedEof
                    &&& old(self).byte_pos() == old(self).input().len()
                    &&& *final(self) == *old(self)
                },
            },
    {
        if self.pos >= self.bytes.len() {
            return Err(Error::UnexpectedEof);
        }
        let b = self.bytes[self.pos];
        self.pos = self.pos + 1;
        Ok(b)
    }

    /// Reads a 16-bit little-endian integer from a byte-aligned position,
    /// as the LEN/NLEN fields of a stored block are laid out.
    pub fn read_u16_le(&mut self) -> (r: Result<u16, Error>)
        requires
            old(self).wf(),
            old(self).aligned(),
        ensures
            final(self).wf(),
            final(self).aligned(),
            final(self).input() == old(self).input(),
            match r {
                Ok(v) => {
                    &&& old(self).byte_pos() + 2 <= old(self).input().len()
                    &&& v as nat == old(self).input()[old(self).byte_pos() as int] + 256 * old(
                        self,
                    ).input()[old(self).byte_pos() + 1 as int]
                    &&& final(self).byte_pos() == old(self).byte_pos() + 2
                    &&& final(self).cursor() == old(self).cursor() + 16
                },
                Err(e) => {
                    &&& e == Error::UnexpectedEof
                    &&& old(self).input().len() < old(self).byte_pos() + 2
                    &&& final(self).byte_pos() >= old(self).byte_pos()
                    &&& final(self).cursor() >= old(self).cursor()
                },
            },
    {
        let lo = self.read_byte()?;
        let hi = self.read_byte()?;
        Ok(lo as u16 + 256 * (hi as u16))
    }

    /// Appends the next `n` whole input bytes to `out`, from a byte-aligned
    /// position: the raw-payload fast path of a stored block. Consumes
    /// nothing and changes nothing on failure.
    pub fn read_exact_append(&mut self, out: &mut Vec<u8>, n: usize) -> (r: Result<(), Error>)
        requires
            old(self).wf(),
            old(self).aligned(),
        ensures
            final(self).wf(),
            final(self).aligned(),
            final(self).input() == old(self).input(),
            match r {
                Ok(()) => {
                    &&& old(self).byte_pos() + n <= old(self).input().len()
                    &&& final(out)@ == old(out)@ + old(self).input().subrange(
                        old(self).byte_pos() as int,
                        old(self).byte_pos() + n,
                    )
                    &&& final(self).byte_pos() == old(self).byte_pos() + n
                    &&& final(self).cursor() == old(self).cursor() + 8 * n
                },
                Err(e) => {
                    &&& e == Error::UnexpectedEof
                    &&& old(self).input().len() < old(self).byte_pos() + n
                    &&& *final(self) == *old(self)
                    &&& final(out)@ == old(out)@
                },
            },
    {
        if self.bytes.len() - self.pos < n {
            return Err(Error::UnexpectedEof);
        }
        let mut i: usize = 0;
        while i < n
            invariant
                self.wf(),
                self.aligned(),
                self.input() == old(self).input(),
                i <= n,
                old(self).byte_pos() + n <= old(self).input().len(),
                self.byte_pos() == old(self).byte_pos() + i,
                out@ == old(out)@ + old(self).input().subrange(
                    old(self).byte_pos() as int,
                    old(self).byte_pos() + i,
                ),
            decreases n - i,
        {
            let b = self.bytes[self.pos];
            out.push(b);
            self.pos = self.pos + 1;
            i = i + 1;
            proof {
                assert(out@ == old(out)@ + old(self).input().subrange(
                    old(self).byte_pos() as int,
                    old(self).byte_pos() + i,
                ));
            }
        }
        Ok(())
    }
}

} // verus!
