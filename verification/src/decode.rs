//! The block state machine and the pull-based decompressed byte stream.
//!
//! A [`Decoder`] reads block headers, dispatches to the stored, fixed- or
//! dynamic-Huffman block handlers, and exposes the result through a pull
//! interface: each pull first delivers bytes already decoded, and only
//! decodes further blocks once everything decoded so far has been
//! delivered. The output buffer doubles as the LZ77 history; it is
//! compacted at block boundaries, always retaining at least the most
//! recent `MAX_DISTANCE` bytes of produced output.

use vstd::prelude::*;

use crate::bits::{bit_at, bits_value, p2, BitReader};
use crate::error::Error;
use crate::lz77;
use crate::lz77::MAX_DISTANCE;
use crate::symbol::{
    dynamic_header_err, dynamic_header_ok, fixed_literal_len, symbol_decodes, symbol_error_eof,
    symbol_error_invalid, Symbol, SymbolDecoder,
};

verus! {

/// The index of the first whole byte at or after bit position `c`.
pub open spec fn next_byte(c: nat) -> nat {
    (c + 7) / 8
}

/// Appending the same bytes to a sequence and to one of its suffixes
/// leaves the extended suffix a suffix of the extended sequence.
proof fn lemma_suffix_append(oldh: Seq<u8>, oldb: Seq<u8>, app: Seq<u8>)
    requires
        oldb.len() <= oldh.len(),
        oldb == oldh.subrange(oldh.len() - oldb.len(), oldh.len() as int),
    ensures
        oldb + app =~= (oldh + app).subrange(
            oldh.len() + app.len() - (oldb.len() + app.len()),
            (oldh.len() + app.len()) as int,
        ),
{
    assert forall|i: int| 0 <= i < oldb.len() + app.len() implies (oldb + app)[i] == (oldh
        + app).subrange(
        oldh.len() + app.len() - (oldb.len() + app.len()),
        (oldh.len() + app.len()) as int,
    )[i] by {
        if i < oldb.len() {
            assert(oldb[i] == oldh.subrange(oldh.len() - oldb.len(), oldh.len() as int)[i]);
        }
    }
}

/// The effect of one symbol on the output: a literal appends its byte, a
/// back-reference appends its overlap-correct copy, end-of-block appends
/// nothing.
pub open spec fn apply_symbol(out: Seq<u8>, sym: Symbol) -> Seq<u8> {
    match sym {
        Symbol::Literal(b) => out.push(b),
        Symbol::Share { length, distance } => lz77::back_ref(out, distance as nat, length as nat),
        Symbol::EndOfBlock => out,
    }
}

/// The output after a whole symbol stream, applied in order.
pub open spec fn apply_symbols(out: Seq<u8>, syms: Seq<Symbol>) -> Seq<u8>
    decreases syms.len(),
{
    if syms.len() == 0 {
        out
    } else {
        apply_symbols(apply_symbol(out, syms[0]), syms.skip(1))
    }
}

/// Every symbol of the stream is well-formed and, at its turn, within
/// range: a back-reference never reaches behind the start of the output.
pub open spec fn symbols_valid(out: Seq<u8>, syms: Seq<Symbol>) -> bool
    decreases syms.len(),
{
    if syms.len() == 0 {
        true
    } else {
        &&& syms[0].wf()
        &&& (syms[0] matches Symbol::Share { length, distance } ==> distance as nat <= out.len())
        &&& symbols_valid(apply_symbol(out, syms[0]), syms.skip(1))
    }
}

/// Applying one more symbol after a stream is applying the extended stream.
proof fn lemma_apply_symbols_snoc(out: Seq<u8>, syms: Seq<Symbol>, sym: Symbol)
    ensures
        apply_symbols(out, syms.push(sym)) == apply_symbol(apply_symbols(out, syms), sym),
        symbols_valid(out, syms) && sym.wf() && (sym matches Symbol::Share { length, distance }
            ==> distance as nat <= apply_symbols(out, syms).len()) ==> symbols_valid(
            out,
            syms.push(sym),
        ),
    decreases syms.len(),
{
    let p = syms.push(sym);
    if syms.len() == 0 {
        assert(p[0] == sym);
        assert(p.skip(1) =~= Seq::<Symbol>::empty());
        assert(apply_symbols(out, p) == apply_symbols(apply_symbol(out, sym), p.skip(1)));
        assert(apply_symbols(apply_symbol(out, sym), p.skip(1)) == apply_symbol(out, sym));
        assert(apply_symbols(out, syms) == out);
        assert(symbols_valid(apply_symbol(out, sym), p.skip(1)));
    } else {
        assert(p[0] == syms[0]);
        assert(p.skip(1) =~= syms.skip(1).push(sym));
        lemma_apply_symbols_snoc(apply_symbol(out, syms[0]), syms.skip(1), sym);
        assert(apply_symbols(out, p) == apply_symbols(apply_symbol(out, p[0]), p.skip(1)));
        assert(apply_symbols(out, syms) == apply_symbols(apply_symbol(out, syms[0]), syms.skip(1)));
    }
}

/// The non-terminal symbols `syms` decode consecutively from bit `c` to
/// bit `c2` of the input, under the block's two tables.
pub open spec fn symbols_decode_from(
    litl: Seq<u8>,
    distl: Seq<u8>,
    bytes: Seq<u8>,
    c: nat,
    syms: Seq<Symbol>,
    c2: nat,
) -> bool
    decreases syms.len(),
{
    if syms.len() == 0 {
        c2 == c
    } else {
        !(syms[0] is EndOfBlock) && exists|c1: nat|
            #[trigger] symbol_decodes(litl, distl, bytes, c, syms[0], c1) && symbols_decode_from(
                litl,
                distl,
                bytes,
                c1,
                syms.skip(1),
                c2,
            )
    }
}

/// A consecutive decoding extends by one more decoded symbol.
proof fn lemma_symbols_decode_snoc(
    litl: Seq<u8>,
    distl: Seq<u8>,
    bytes: Seq<u8>,
    c: nat,
    syms: Seq<Symbol>,
    c2: nat,
    sym: Symbol,
    c3: nat,
)
    requires
        symbols_decode_from(litl, distl, bytes, c, syms, c2),
        !(sym is EndOfBlock),
        symbol_decodes(litl, distl, bytes, c2, sym, c3),
    ensures
        symbols_decode_from(litl, distl, bytes, c, syms.push(sym), c3),
    decreases syms.len(),
{
    let p = syms.push(sym);
    if syms.len() == 0 {
        assert(p[0] == sym);
        assert(p.skip(1) =~= Seq::<Symbol>::empty());
        assert(symbols_decode_from(litl, distl, bytes, c3, p.skip(1), c3));
    } else {
        assert(p[0] == syms[0]);
        assert(p.skip(1) =~= syms.skip(1).push(sym));
        let c1 = choose|c1: nat|
            #[trigger] symbol_decodes(litl, distl, bytes, c, syms[0], c1) && symbols_decode_from(
                litl,
                distl,
                bytes,
                c1,
                syms.skip(1),
                c2,
            );
        lemma_symbols_decode_snoc(litl, distl, bytes, c1, syms.skip(1), c2, sym, c3);
    }
}

/// A completed block decode: some symbol sequence decodes consecutively
/// from bit `c0` to `c_mid`, the end-of-block code follows from `c_mid`
/// to `c_end`, and the output grew from `out0` to `out_end` by applying
/// exactly that sequence.
pub open spec fn block_decode_ok(
    litl: Seq<u8>,
    distl: Seq<u8>,
    bytes: Seq<u8>,
    c0: nat,
    out0: Seq<u8>,
    out_end: Seq<u8>,
    c_end: nat,
) -> bool {
    exists|syms: Seq<Symbol>, c_mid: nat|
        {
            &&& #[trigger] symbols_valid(out0, syms)
            &&& out_end == apply_symbols(out0, syms)
            &&& #[trigger] symbols_decode_from(litl, distl, bytes, c0, syms, c_mid)
            &&& symbol_decodes(litl, distl, bytes, c_mid, Symbol::EndOfBlock, c_end)
        }
}

/// A failed block decode: some symbol sequence decodes consecutively from
/// bit `c0` to `c_mid` and was applied to grow the output from `out0` to
/// `out_end`, and at `c_mid` the error `e` has its exact cause — an
/// undecodable or undefined symbol, exhausted input, or a back-reference
/// reaching behind the start of the produced stream.
pub open spec fn block_decode_err(
    litl: Seq<u8>,
    distl: Seq<u8>,
    bytes: Seq<u8>,
    c0: nat,
    out0: Seq<u8>,
    e: Error,
    out_end: Seq<u8>,
    c_end: nat,
) -> bool {
    exists|syms: Seq<Symbol>, c_mid: nat|
        {
            &&& #[trigger] symbols_valid(out0, syms)
            &&& out_end == apply_symbols(out0, syms)
            &&& #[trigger] symbols_decode_from(litl, distl, bytes, c0, syms, c_mid)
            &&& match e {
                Error::InvalidSymbol => symbol_error_invalid(litl, distl, bytes, c_mid),
                Error::UnexpectedEof => symbol_error_eof(litl, distl, bytes, c_mid),
                Error::DistanceTooFar { available, distance } => {
                    &&& available == out_end.len()
                    &&& (distance as int) > available
                    &&& exists|length: u16|
                        #[trigger] symbol_decodes(
                            litl,
                            distl,
                            bytes,
                            c_mid,
                            (Symbol::Share { length, distance }),
                            c_end,
                        )
                },
                _ => false,
            }
        }
}

/// The fixed literal/length code lengths as a sequence (RFC 1951 §3.2.6).
pub open spec fn fixed_lit_lens() -> Seq<u8> {
    Seq::new(288, |i: int| fixed_literal_len(i) as u8)
}

/// The fixed distance code lengths as a sequence (RFC 1951 §3.2.6).
pub open spec fn fixed_dist_lens() -> Seq<u8> {
    Seq::new(30, |i: int| 5u8)
}

/// The window retained at a block boundary: compacted to its most recent
/// `MAX_DISTANCE` bytes once it has grown past four times that, otherwise
/// kept whole.
pub open spec fn spec_truncated(w: Seq<u8>) -> Seq<u8> {
    if w.len() > 4 * (MAX_DISTANCE as int) {
        w.subrange(w.len() - MAX_DISTANCE as int, w.len() as int)
    } else {
        w
    }
}

/// A stored block whose header starts at bit `c_hdr`: aligned to the next
/// byte, `LEN` and its ones' complement `NLEN` little-endian, then `LEN`
/// raw bytes appended verbatim, ending byte-aligned after the payload.
pub open spec fn stored_block_decodes(
    bytes: Seq<u8>,
    c_hdr: nat,
    out: Seq<u8>,
    c2: nat,
    out2: Seq<u8>,
) -> bool {
    let p = next_byte(c_hdr) as int;
    let len = (bytes[p] + 256 * bytes[p + 1]) as u16;
    &&& p + 4 + len <= bytes.len()
    &&& (bytes[p + 2] + 256 * bytes[p + 3]) as u16 == 0xFFFF - len
    &&& out2 == out + bytes.subrange(p + 4, p + 4 + len)
    &&& c2 == 8 * (p + 4 + len)
}

/// A stored block whose header starts at bit `c_hdr` fails with `e`:
/// `NLEN` is not the ones' complement of `LEN` — detected before any
/// payload byte — or the input ends inside the header or payload.
pub open spec fn stored_block_error(bytes: Seq<u8>, c_hdr: nat, e: Error) -> bool {
    let p = next_byte(c_hdr) as int;
    match e {
        Error::StoredLengthMismatch { len, nlen } => {
            &&& p + 4 <= bytes.len()
            &&& len == (bytes[p] + 256 * bytes[p + 1]) as u16
            &&& nlen == (bytes[p + 2] + 256 * bytes[p + 3]) as u16
            &&& nlen != 0xFFFF - len
        },
        Error::UnexpectedEof => bytes.len() < p + 4 || ((bytes[p + 2] + 256 * bytes[p + 3]) as u16
            == 0xFFFF - ((bytes[p] + 256 * bytes[p + 1]) as u16) && bytes.len() < p + 4 + (bytes[p]
            + 256 * bytes[p + 1])),
        _ => false,
    }
}

/// One whole block decodes from bit `c` against the window `out`,
/// producing `out2` and ending at bit `c2`, with `bfinal` its final-block
/// header bit: the three header bits, then a stored, fixed-Huffman or
/// dynamic-Huffman body per the two type bits.
pub open spec fn block_decodes(
    bytes: Seq<u8>,
    c: nat,
    out: Seq<u8>,
    c2: nat,
    out2: Seq<u8>,
    bfinal: bool,
) -> bool {
    let btype = bits_value(bytes, (c + 1) as nat, 2);
    &&& c + 3 <= bytes.len() * 8
    &&& c + 3 <= c2
    &&& bfinal == bit_at(bytes, c)
    &&& if btype == 0 {
        stored_block_decodes(bytes, (c + 3) as nat, out, c2, out2)
    } else if btype == 1 {
        block_decode_ok(fixed_lit_lens(), fixed_dist_lens(), bytes, (c + 3) as nat, out, out2, c2)
    } else if btype == 2 {
        exists|litl: Seq<u8>, distl: Seq<u8>, ch: nat|
            #[trigger] dynamic_header_ok(bytes, (c + 3) as nat, litl, distl, ch)
                && block_decode_ok(litl, distl, bytes, ch, out, out2, c2)
    } else {
        false
    }
}

/// The block whose header starts at bit `c` fails with `e` against the
/// window `out`, leaving `out2` at bit `c_end`: the input ends inside the
/// header, the reserved type `11` appears — with exactly the three header
/// bits consumed and nothing produced — or the stored header, dynamic
/// header or symbol stream has the fault `e` names.
pub open spec fn block_fails(
    bytes: Seq<u8>,
    c: nat,
    out: Seq<u8>,
    e: Error,
    out2: Seq<u8>,
    c_end: nat,
) -> bool {
    ||| (e == Error::UnexpectedEof && bytes.len() * 8 < c + 3 && out2 == out)
    ||| (c + 3 <= bytes.len() * 8 && {
        let btype = bits_value(bytes, (c + 1) as nat, 2);
        ||| (btype == 3 && e == Error::ReservedBlockType && c_end == c + 3 && out2 == out)
        ||| (btype == 0 && out2 == out && stored_block_error(bytes, (c + 3) as nat, e))
        ||| (btype == 1 && block_decode_err(
            fixed_lit_lens(),
            fixed_dist_lens(),
            bytes,
            (c + 3) as nat,
            out,
            e,
            out2,
            c_end,
        ))
        ||| (btype == 2 && out2 == out && dynamic_header_err(bytes, (c + 3) as nat, e))
        ||| (btype == 2 && exists|litl: Seq<u8>, distl: Seq<u8>, ch: nat|
            #[trigger] dynamic_header_ok(bytes, (c + 3) as nat, litl, distl, ch)
                && block_decode_err(litl, distl, bytes, ch, out, e, out2, c_end))
    })
}

/// The decoder state advances from (bit `c`, window `w`, produced `p`,
/// final-flag `eos`) to (`c2`, `w2`, `p2`, `eos2`) by decoding zero or
/// more whole blocks: each step compacts the fully-delivered window at
/// the block boundary, decodes one block against it, appends the block's
/// output to the produced stream, and records the block's final-flag bit;
/// no block is decoded once the flag is set.
pub open spec fn stream_decodes(
    bytes: Seq<u8>,
    c: nat,
    w: Seq<u8>,
    p: Seq<u8>,
    eos: bool,
    c2: nat,
    w2: Seq<u8>,
    p2: Seq<u8>,
    eos2: bool,
) -> bool
    decreases c2 - c,
{
    ||| (c2 == c && w2 == w && p2 == p && eos2 == eos)
    ||| (!eos && exists|c1: nat, w1: Seq<u8>, bf: bool|
        {
            &&& c < c1 <= c2
            &&& #[trigger] block_decodes(bytes, c, spec_truncated(w), c1, w1, bf)
            &&& stream_decodes(
                bytes,
                c1,
                w1,
                p + w1.skip(spec_truncated(w).len() as int),
                bf,
                c2,
                w2,
                p2,
                eos2,
            )
        })
}

/// A decoded stream extends by one more block at its end.
proof fn lemma_stream_decodes_snoc(
    bytes: Seq<u8>,
    c: nat,
    w: Seq<u8>,
    p: Seq<u8>,
    eos: bool,
    c1: nat,
    w1: Seq<u8>,
    p1: Seq<u8>,
    c2: nat,
    w2: Seq<u8>,
    p2: Seq<u8>,
    bf: bool,
)
    requires
        stream_decodes(bytes, c, w, p, eos, c1, w1, p1, false),
        block_decodes(bytes, c1, spec_truncated(w1), c2, w2, bf),
        p2 == p1 + w2.skip(spec_truncated(w1).len() as int),
        c1 < c2,
    ensures
        stream_decodes(bytes, c, w, p, eos, c2, w2, p2, bf),
    decreases c1 - c,
{
    if c1 == c && w1 == w && p1 == p && !eos {
        assert(stream_decodes(bytes, c2, w2, p2, bf, c2, w2, p2, bf));
    } else {
        let (cm, wm, bfm): (nat, Seq<u8>, bool) = choose|cm: nat, wm: Seq<u8>, bfm: bool|
            c < cm <= c1 && #[trigger] block_decodes(bytes, c, spec_truncated(w), cm, wm, bfm)
                && stream_decodes(
                bytes,
                cm,
                wm,
                p + wm.skip(spec_truncated(w).len() as int),
                bfm,
                c1,
                w1,
                p1,
                false,
            );
        lemma_stream_decodes_snoc(
            bytes,
            cm,
            wm,
            p + wm.skip(spec_truncated(w).len() as int),
            bfm,
            c1,
            w1,
            p1,
            c2,
            w2,
            p2,
            bf,
        );
    }
}

/// When a window suffix of the produced stream grows in step with it, the
/// produced stream's extension is exactly the window's.
proof fn lemma_extension_match(p: Seq<u8>, b: Seq<u8>, p2: Seq<u8>, b2: Seq<u8>)
    requires
        p.is_prefix_of(p2),
        b.is_prefix_of(b2),
        b.len() <= p.len(),
        b2.len() <= p2.len(),
        b2 == p2.subrange(p2.len() - b2.len(), p2.len() as int),
        p2.len() - p.len() == b2.len() - b.len(),
    ensures
        p2 == p + b2.skip(b.len() as int),
{
    assert forall|i: int| 0 <= i < p2.len() implies p2[i] == (p + b2.skip(b.len() as int))[i] by {
        if i >= p.len() {
            assert(b2[i - (p2.len() - b2.len())] == p2.subrange(
                p2.len() - b2.len(),
                p2.len() as int,
            )[i - (p2.len() - b2.len())]);
        }
    }
    assert(p2 =~= p + b2.skip(b.len() as int));
}

/// A streaming DEFLATE decoder over an in-memory compressed stream.
///
/// The output buffer holds the most recent stretch of decompressed
/// history; `offset` marks how much of it has been delivered to the
/// consumer, and `eos` records that the final block's header has been
/// read. The ghost `history` is the entire decompressed stream produced
/// since creation, of which the buffer is always a suffix.
pub struct Decoder {
    bit_reader: BitReader,
    buffer: Vec<u8>,
    offset: usize,
    eos: bool,
    history: Ghost<Seq<u8>>,
}

impl Decoder {
    /// The whole compressed input.
    pub closed spec fn input(self) -> Seq<u8> {
        self.bit_reader.input()
    }

    /// How many bits of the input have been consumed.
    pub closed spec fn cursor(self) -> nat {
        self.bit_reader.cursor()
    }

    /// Every decompressed byte produced since creation, in order.
    pub closed spec fn produced(self) -> Seq<u8> {
        self.history@
    }

    /// The retained trailing window of the produced stream.
    pub closed spec fn buffered(self) -> Seq<u8> {
        self.buffer@
    }

    /// How many produced bytes have been handed to the consumer.
    pub closed spec fn delivered(self) -> int {
        self.history@.len() - self.buffer@.len() + self.offset
    }

    /// How many produced bytes await delivery.
    pub closed spec fn pending(self) -> int {
        self.buffer@.len() - self.offset
    }

    /// Whether the final block's header has been read.
    pub closed spec fn eos_flag(self) -> bool {
        self.eos
    }

    /// The buffer is an undelivered-suffix window of the produced stream,
    /// never shorter than `MAX_DISTANCE` while that much has been produced,
    /// so every back-reference the format permits stays resolvable.
    pub closed spec fn wf(self) -> bool {
        &&& self.bit_reader.wf()
        &&& self.offset <= self.buffer@.len()
        &&& self.buffer@.len() <= self.history@.len()
        &&& self.buffer@ == self.history@.subrange(
            self.history@.len() - self.buffer@.len(),
            self.history@.len() as int,
        )
        &&& self.buffer@.len() >= (if self.history@.len() < MAX_DISTANCE as nat {
            self.history@.len()
        } else {
            MAX_DISTANCE as nat
        })
    }

    /// The produced stream is never shorter than the window, and the window
    /// is its suffix: a back-reference within `MAX_DISTANCE` of the end of
    /// the produced stream always finds its source in the retained buffer.
    pub proof fn lemma_window_retains_history(self, distance: nat)
        requires
            self.wf(),
            1 <= distance <= MAX_DISTANCE,
            distance <= self.produced().len(),
        ensures
            distance <= self.buffered().len(),
            forall|j: int|
                1 <= j <= distance ==> #[trigger] self.buffered()[self.buffered().len() - j]
                    == self.produced()[self.produced().len() - j],
    {
    }

    /// A decoder at the start of `input`, with nothing produced and the
    /// end-of-stream flag clear.
    pub fn new(input: Vec<u8>) -> (r: Decoder)
        ensures
            r.wf(),
            r.input() == input@,
            r.cursor() == 0,
            r.produced() == Seq::<u8>::empty(),
            r.delivered() == 0,
            r.pending() == 0,
            !r.eos_flag(),
    {
        let d = Decoder {
            bit_reader: BitReader::new(input),
            buffer: Vec::new(),
            offset: 0,
            eos: false,
            history: Ghost(Seq::empty()),
        };
        proof {
            assert(d.buffer@ =~= d.history@.subrange(0, 0));
        }
        d
    }

    /// Reads one stored block: realigns to the byte boundary, reads the
    /// 16-bit little-endian `LEN` and `NLEN`, requires `NLEN` to be the
    /// ones' complement of `LEN` — failing before any payload byte is
    /// consumed — and then appends exactly `LEN` raw input bytes to the
    /// output.
    fn read_non_compressed_block(&mut self) -> (r: Result<(), Error>)
        requires
            old(self).wf(),
        ensures
            final(self).wf(),
            final(self).input() == old(self).input(),
            final(self).eos_flag() == old(self).eos_flag(),
            final(self).delivered() == old(self).delivered(),
            final(self).cursor() >= old(self).cursor(),
            ({
                let p = next_byte(old(self).cursor()) as int;
                let inp = old(self).input();
                match r {
                    Ok(()) => {
                        let len = (inp[p] + 256 * inp[p + 1]) as u16;
                        &&& p + 4 + len <= inp.len()
                        &&& (inp[p + 2] + 256 * inp[p + 3]) as u16 == 0xFFFF - len
                        &&& final(self).produced() == old(self).produced() + inp.subrange(
                            p + 4,
                            p + 4 + len,
                        )
                        &&& final(self).buffered() == old(self).buffered() + inp.subrange(
                            p + 4,
                            p + 4 + len,
                        )
                        &&& final(self).cursor() == 8 * (p + 4 + len)
                    },
                    Err(e) => {
                        &&& final(self).produced() == old(self).produced()
                        &&& final(self).buffered() == old(self).buffered()
                        &&& match e {
                            Error::StoredLengthMismatch { len, nlen } => {
                                &&& p + 4 <= inp.len()
                                &&& len == (inp[p] + 256 * inp[p + 1]) as u16
                                &&& nlen == (inp[p + 2] + 256 * inp[p + 3]) as u16
                                &&& nlen != 0xFFFF - len
                                &&& final(self).cursor() == 8 * (p + 4)
                            },
                            Error::UnexpectedEof => inp.len() < p + 4 || ((inp[p + 2] + 256 * inp[p
                                + 3]) as u16 == 0xFFFF - ((inp[p] + 256 * inp[p + 1]) as u16)
                                && inp.len() < p + 4 + (inp[p] + 256 * inp[p + 1])),
                            _ => false,
                        }
                    },
                }
            }),
    {
        let ghost c0 = old(self).cursor();
        self.bit_reader.reset();
        proof {
            assert(self.bit_reader.byte_pos() == next_byte(c0)) by (nonlinear_arith)
                requires
                    8 * self.bit_reader.byte_pos() == self.bit_reader.cursor(),
                    c0 <= self.bit_reader.cursor() < c0 + 8,
            ;
        }
        let len = self.bit_reader.read_u16_le()?;
        let nlen = self.bit_reader.read_u16_le()?;
        if nlen != 0xFFFF - len {
            return Err(Error::StoredLengthMismatch { len, nlen });
        }
        let ghost before = self.buffer@;
        let res = self.bit_reader.read_exact_append(&mut self.buffer, len as usize);
        match res {
            Ok(()) => {
                proof {
                    let app = self.buffer@.subrange(before.len() as int, self.buffer@.len() as int);
                    assert(self.buffer@ =~= before + app);
                    lemma_suffix_append(self.history@, before, app);
                    self.history = Ghost(self.history@ + app);
                    assert(self.buffer@ =~= self.history@.subrange(
                        self.history@.len() - self.buffer@.len(),
                        self.history@.len() as int,
                    ));
                }
                Ok(())
            },
            Err(e) => Err(e),
        }
    }

    /// Decodes one compressed block's symbol stream to completion: literals
    /// are appended to the output, back-references are resolved against it,
    /// and the end-of-block symbol stops the loop. Only appends to the
    /// output; delivery state and the end-of-stream flag are untouched.
    fn read_compressed_block(&mut self, decoder: &SymbolDecoder) -> (r: Result<(), Error>)
        requires
            old(self).wf(),
            decoder.wf(),
        ensures
            final(self).wf(),
            final(self).input() == old(self).input(),
            final(self).eos_flag() == old(self).eos_flag(),
            final(self).delivered() == old(self).delivered(),
            final(self).cursor() >= old(self).cursor(),
            old(self).produced().is_prefix_of(final(self).produced()),
            old(self).buffered().is_prefix_of(final(self).buffered()),
            final(self).produced().len() - old(self).produced().len()
                == final(self).buffered().len() - old(self).buffered().len(),
            match r {
                Ok(()) => block_decode_ok(
                    decoder.lit_lens(),
                    decoder.dist_lens(),
                    old(self).input(),
                    old(self).cursor(),
                    old(self).buffered(),
                    final(self).buffered(),
                    final(self).cursor(),
                ),
                Err(e) => {
                    &&& !(e is ReservedBlockType)
                    &&& !(e is StoredLengthMismatch)
                    &&& !(e is InvalidHuffmanTable)
                    &&& block_decode_err(
                        decoder.lit_lens(),
                        decoder.dist_lens(),
                        old(self).input(),
                        old(self).cursor(),
                        old(self).buffered(),
                        e,
                        final(self).buffered(),
                        final(self).cursor(),
                    )
                },
            },
    {
        let ghost mut syms: Seq<Symbol> = Seq::empty();
        loop
            invariant
                self.wf(),
                decoder.wf(),
                self.input() == old(self).input(),
                self.eos == old(self).eos,
                self.offset == old(self).offset,
                self.delivered() == old(self).delivered(),
                self.cursor() >= old(self).cursor(),
                old(self).produced().is_prefix_of(self.produced()),
                old(self).buffered().is_prefix_of(self.buffered()),
                symbols_valid(old(self).buffered(), syms),
                self.buffered() == apply_symbols(old(self).buffered(), syms),
                symbols_decode_from(
                    decoder.lit_lens(),
                    decoder.dist_lens(),
                    self.input(),
                    old(self).cursor(),
                    syms,
                    self.cursor(),
                ),
            decreases 8 * self.input().len() - self.cursor(),
        {
            proof {
                self.bit_reader.lemma_cursor_in_input();
            }
            let ghost c_at = self.cursor();
            let s = match decoder.decode_symbol(&mut self.bit_reader) {
                Ok(s) => s,
                Err(e) => {
                    return Err(e);
                },
            };
            let ghost c_next = self.cursor();
            match s {
                Symbol::Literal(b) => {
                    self.buffer.push(b);
                    proof {
                        self.history = Ghost(self.history@.push(b));
                        assert(self.buffer@ =~= self.history@.subrange(
                            self.history@.len() - self.buffer@.len(),
                            self.history@.len() as int,
                        ));
                        lemma_apply_symbols_snoc(old(self).buffered(), syms, s);
                        lemma_symbols_decode_snoc(
                            decoder.lit_lens(),
                            decoder.dist_lens(),
                            self.input(),
                            old(self).cursor(),
                            syms,
                            c_at,
                            s,
                            c_next,
                        );
                        syms = syms.push(s);
                    }
                },
                Symbol::Share { length, distance } => {
                    let ghost before = self.buffer@;
                    let res = lz77::apply_back_reference(&mut self.buffer, length, distance);
                    match res {
                        Ok(()) => {
                            proof {
                                lz77::lemma_back_ref_grows(before, distance as nat, length as nat);
                                let app = self.buffer@.subrange(
                                    before.len() as int,
                                    self.buffer@.len() as int,
                                );
                                assert(self.buffer@ =~= before + app);
                                lemma_suffix_append(self.history@, before, app);
                                self.history = Ghost(self.history@ + app);
                                assert(self.buffer@ =~= self.history@.subrange(
                                    self.history@.len() - self.buffer@.len(),
                                    self.history@.len() as int,
                                ));
                                assert(before.is_prefix_of(self.buffer@));
                                lemma_apply_symbols_snoc(old(self).buffered(), syms, s);
                                lemma_symbols_decode_snoc(
                                    decoder.lit_lens(),
                                    decoder.dist_lens(),
                                    self.input(),
                                    old(self).cursor(),
                                    syms,
                                    c_at,
                                    s,
                                    c_next,
                                );
                                syms = syms.push(s);
                            }
                        },
                        Err(e) => {
                            proof {
                                assert(symbol_decodes(
                                    decoder.lit_lens(),
                                    decoder.dist_lens(),
                                    self.input(),
                                    c_at,
                                    (Symbol::Share { length, distance }),
                                    c_next,
                                ));
                                assert(self.buffered() == apply_symbols(
                                    old(self).buffered(),
                                    syms,
                                ) && symbols_valid(old(self).buffered(), syms)
                                    && symbols_decode_from(
                                    decoder.lit_lens(),
                                    decoder.dist_lens(),
                                    self.input(),
                                    old(self).cursor(),
                                    syms,
                                    c_at,
                                ));
                                assert(block_decode_err(
                                    decoder.lit_lens(),
                                    decoder.dist_lens(),
                                    self.input(),
                                    old(self).cursor(),
                                    old(self).buffered(),
                                    (Error::DistanceTooFar { available: self.buffer.len(), distance }),
                                    self.buffered(),
                                    c_next,
                                ));
                            }
                            return Err(e);
                        },
                    }
                },
                Symbol::EndOfBlock => {
                    proof {
                        assert(symbols_valid(old(self).buffered(), syms) && self.buffered()
                            == apply_symbols(old(self).buffered(), syms) && symbols_decode_from(
                            decoder.lit_lens(),
                            decoder.dist_lens(),
                            self.input(),
                            old(self).cursor(),
                            syms,
                            c_at,
                        ) && symbol_decodes(
                            decoder.lit_lens(),
                            decoder.dist_lens(),
                            self.input(),
                            c_at,
                            Symbol::EndOfBlock,
                            c_next,
                        ));
                    }
                    return Ok(());
                },
            }
            proof {
                self.bit_reader.lemma_cursor_in_input();
            }
        }
    }

    /// Compacts the fully-delivered output buffer at a block boundary:
    /// once it has grown past four times `MAX_DISTANCE`, only the most
    /// recent `MAX_DISTANCE` bytes — the furthest any future back-reference
    /// can reach — are retained. The produced stream and the delivery count
    /// are unchanged; no undelivered byte exists to be lost.
    fn truncate_old_buffer(&mut self)
        requires
            old(self).wf(),
            old(self).pending() == 0,
        ensures
            final(self).wf(),
            final(self).input() == old(self).input(),
            final(self).cursor() == old(self).cursor(),
            final(self).eos_flag() == old(self).eos_flag(),
            final(self).produced() == old(self).produced(),
            final(self).delivered() == old(self).delivered(),
            final(self).pending() == 0,
            old(self).buffered().len() <= 4 * MAX_DISTANCE ==> *final(self) == *old(self),
            old(self).buffered().len() > 4 * MAX_DISTANCE ==> final(self).buffered() == old(
                self,
            ).buffered().subrange(
                old(self).buffered().len() - MAX_DISTANCE as int,
                old(self).buffered().len() as int,
            ),
    {
        let len = self.buffer.len();
        if len > (MAX_DISTANCE as usize) * 4 {
            let new_len = MAX_DISTANCE as usize;
            let start = len - new_len;
            let mut i: usize = 0;
            while i < new_len
                invariant
                    self.buffer@.len() == len,
                    new_len == MAX_DISTANCE as usize,
                    start == len - new_len,
                    len > 4 * new_len,
                    i <= new_len,
                    forall|j: int| 0 <= j < i ==> self.buffer@[j] == old(self).buffer@[start + j],
                    forall|j: int| i <= j < len ==> self.buffer@[j] == old(self).buffer@[j],
                    self.bit_reader == old(self).bit_reader,
                    self.offset == old(self).offset,
                    self.eos == old(self).eos,
                    self.history == old(self).history,
                decreases new_len - i,
            {
                let b = self.buffer[start + i];
                self.buffer[i] = b;
                i = i + 1;
            }
            self.buffer.truncate(new_len);
            self.offset = new_len;
            proof {
                assert(self.buffer@ =~= old(self).buffer@.subrange(
                    start as int,
                    len as int,
                ));
                assert(self.buffer@ =~= self.history@.subrange(
                    self.history@.len() - self.buffer@.len(),
                    self.history@.len() as int,
                ));
            }
        }
    }

    /// Compacts the fully-delivered window at the block boundary, then
    /// reads one block header and decodes that block to completion. On
    /// success the window and the produced stream extend by exactly the
    /// block's decoding from the bits at the old cursor, and the
    /// end-of-stream flag becomes the header's final-block bit; on
    /// failure the block's fault is named at its position. The reserved
    /// block type `11` fails immediately after the three header bits,
    /// consuming nothing further and producing nothing.
    fn read_block(&mut self) -> (r: Result<(), Error>)
        requires
            old(self).wf(),
            old(self).pending() == 0,
        ensures
            final(self).wf(),
            final(self).input() == old(self).input(),
            final(self).delivered() == old(self).delivered(),
            final(self).cursor() >= old(self).cursor(),
            r is Ok ==> final(self).cursor() >= old(self).cursor() + 3,
            final(self).cursor() <= 8 * final(self).input().len(),
            old(self).produced().is_prefix_of(final(self).produced()),
            r is Ok ==> final(self).eos_flag() == bit_at(old(self).input(), old(self).cursor()),
            (r == Err::<(), Error>(Error::ReservedBlockType) <==> (old(self).cursor() + 3 <= 8
                * old(self).input().len() && bits_value(
                old(self).input(),
                old(self).cursor() + 1,
                2,
            ) == 3)),
            r == Err::<(), Error>(Error::ReservedBlockType) ==> final(self).cursor() == old(
                self,
            ).cursor() + 3 && final(self).produced() == old(self).produced(),
            final(self).produced() == old(self).produced() + final(self).buffered().skip(
                spec_truncated(old(self).buffered()).len() as int,
            ),
            match r {
                Ok(()) => block_decodes(
                    old(self).input(),
                    old(self).cursor(),
                    spec_truncated(old(self).buffered()),
                    final(self).cursor(),
                    final(self).buffered(),
                    final(self).eos_flag(),
                ),
                Err(e) => block_fails(
                    old(self).input(),
                    old(self).cursor(),
                    spec_truncated(old(self).buffered()),
                    e,
                    final(self).buffered(),
                    final(self).cursor(),
                ),
            },
    {
        let ghost inp = old(self).input();
        let ghost c0 = old(self).cursor();
        self.truncate_old_buffer();
        let ghost wt = self.buffered();
        let ghost p0 = self.produced();
        proof {
            assert(wt == spec_truncated(old(self).buffered()));
            assert(wt.skip(wt.len() as int) =~= Seq::<u8>::empty());
            assert(p0 =~= p0 + wt.skip(wt.len() as int));
        }
        let bfinal = match self.bit_reader.read_bit() {
            Ok(b) => b,
            Err(e) => {
                proof {
                    self.bit_reader.lemma_cursor_in_input();
                }
                return Err(e);
            },
        };
        let btype = match self.bit_reader.read_bits(2) {
            Ok(v) => v,
            Err(e) => {
                proof {
                    self.bit_reader.lemma_cursor_in_input();
                }
                return Err(e);
            },
        };
        proof {
            reveal_with_fuel(p2, 3);
            assert(p2(2) == 4);
        }
        self.eos = bfinal;
        if btype == 0 {
            let r = self.read_non_compressed_block();
            proof {
                self.bit_reader.lemma_cursor_in_input();
                assert(8 * next_byte((c0 + 3) as nat) >= c0 + 3) by (nonlinear_arith);
                match r {
                    Ok(()) => {
                        let app = self.buffered().skip(wt.len() as int);
                        assert(app =~= inp.subrange(
                            next_byte((c0 + 3) as nat) as int + 4,
                            next_byte((c0 + 3) as nat) as int + 4 + (inp[next_byte(
                                (c0 + 3) as nat,
                            ) as int] + 256 * inp[next_byte((c0 + 3) as nat) as int + 1]),
                        ));
                        assert(stored_block_decodes(
                            inp,
                            (c0 + 3) as nat,
                            wt,
                            self.cursor(),
                            self.buffered(),
                        ));
                    },
                    Err(e) => {
                        assert(stored_block_error(inp, (c0 + 3) as nat, e));
                    },
                }
            }
            r
        } else if btype == 1 {
            let d = SymbolDecoder::fixed()?;
            proof {
                assert(d.lit_lens() =~= fixed_lit_lens());
                assert(d.dist_lens() =~= fixed_dist_lens());
            }
            let r = self.read_compressed_block(&d);
            proof {
                self.bit_reader.lemma_cursor_in_input();
                lemma_extension_match(p0, wt, self.produced(), self.buffered());
            }
            r
        } else if btype == 2 {
            let d = match SymbolDecoder::dynamic(&mut self.bit_reader) {
                Ok(d) => d,
                Err(e) => {
                    proof {
                        self.bit_reader.lemma_cursor_in_input();
                        assert(dynamic_header_err(inp, (c0 + 3) as nat, e));
                    }
                    return Err(e);
                },
            };
            let ghost ch = self.cursor();
            proof {
                assert(dynamic_header_ok(inp, (c0 + 3) as nat, d.lit_lens(), d.dist_lens(), ch));
            }
            let r = self.read_compressed_block(&d);
            proof {
                self.bit_reader.lemma_cursor_in_input();
                lemma_extension_match(p0, wt, self.produced(), self.buffered());
                match r {
                    Ok(()) => {
                        assert(block_decode_ok(
                            d.lit_lens(),
                            d.dist_lens(),
                            inp,
                            ch,
                            wt,
                            self.buffered(),
                            self.cursor(),
                        ));
                    },
                    Err(e) => {
                        assert(block_decode_err(
                            d.lit_lens(),
                            d.dist_lens(),
                            inp,
                            ch,
                            wt,
                            e,
                            self.buffered(),
                            self.cursor(),
                        ));
                    },
                }
            }
            r
        } else {
            proof {
                self.bit_reader.lemma_cursor_in_input();
            }
            return Err(Error::ReservedBlockType);
        }
    }

    /// The consumer pull interface. Delivers pending decoded bytes into the
    /// front of `buf` if any remain; otherwise reports end-of-stream with
    /// zero bytes once the final block has been consumed — repeatably, with
    /// the decoder unchanged — and otherwise decodes exactly one more block
    /// and retries. The bytes delivered are exactly the next run of the
    /// produced stream, in order, with no byte skipped or lost, and the
    /// produced stream itself grows only by [`stream_decodes`]: the
    /// block-by-block DEFLATE decoding of the bits consumed from the
    /// input, with the end-of-stream flag tracking the last block
    /// header's final bit. Every failure names, through [`block_fails`],
    /// the fault in the input at the position where decoding stopped.
    #[verifier::rlimit(50)]
    pub fn read(&mut self, buf: &mut Vec<u8>) -> (r: Result<usize, Error>)
        requires
            old(self).wf(),
        ensures
            final(self).wf(),
            final(self).input() == old(self).input(),
            final(buf)@.len() == old(buf)@.len(),
            old(self).pending() > 0 ==> r is Ok,
            old(self).pending() == 0 && old(self).eos_flag() ==> r is Ok,
            r is Err ==> final(self).delivered() == old(self).delivered() && final(buf)@ == old(
                buf,
            )@,
            r is Err ==> (exists|ck: nat, wk: Seq<u8>, pk: Seq<u8>|
                {
                    &&& #[trigger] stream_decodes(
                        final(self).input(),
                        old(self).cursor(),
                        old(self).buffered(),
                        old(self).produced(),
                        old(self).eos_flag(),
                        ck,
                        wk,
                        pk,
                        false,
                    )
                    &&& block_fails(
                        final(self).input(),
                        ck,
                        spec_truncated(wk),
                        r.get_Err_0(),
                        final(self).buffered(),
                        final(self).cursor(),
                    )
                    &&& final(self).produced() == pk + final(self).buffered().skip(
                        spec_truncated(wk).len() as int,
                    )
                }),
            r == Err::<usize, Error>(Error::ReservedBlockType) ==> final(self).cursor() >= old(
                self,
            ).cursor() + 3 && bits_value(final(self).input(), (final(self).cursor() - 2) as nat, 2)
                == 3,
            match r {
                Ok(n) => {
                    &&& n <= old(buf)@.len()
                    &&& (n == old(buf)@.len() || final(self).pending() == 0)
                    &&& stream_decodes(
                        final(self).input(),
                        old(self).cursor(),
                        old(self).buffered(),
                        old(self).produced(),
                        old(self).eos_flag(),
                        final(self).cursor(),
                        final(self).buffered(),
                        final(self).produced(),
                        final(self).eos_flag(),
                    )
                    &&& old(self).produced().is_prefix_of(final(self).produced())
                    &&& final(self).delivered() == old(self).delivered() + n
                    &&& final(buf)@.subrange(0, n as int) == final(self).produced().subrange(
                        old(self).delivered(),
                        old(self).delivered() + n,
                    )
                    &&& final(buf)@.subrange(n as int, final(buf)@.len() as int)
                        == old(buf)@.subrange(n as int, old(buf)@.len() as int)
                    &&& (n == 0 && old(buf)@.len() > 0 ==> final(self).eos_flag()
                        && final(self).pending() == 0)
                    &&& (old(self).pending() == 0 && old(self).eos_flag() ==> n == 0
                        && *final(self) == *old(self) && final(buf)@ == old(buf)@)
                    &&& (old(self).pending() > 0 ==> n == (if old(buf)@.len() < old(self).pending() {
                        old(buf)@.len() as int
                    } else {
                        old(self).pending()
                    }) && final(self).produced() == old(self).produced() && final(self).buffered()
                        == old(self).buffered() && final(self).cursor() == old(self).cursor()
                        && final(self).eos_flag() == old(self).eos_flag())
                    &&& (old(self).eos_flag() ==> final(self).eos_flag())
                    &&& (!old(self).eos_flag() && final(self).eos_flag() ==> exists|c: nat|
                        old(self).cursor() <= c && c + 3 <= final(self).cursor()
                            && #[trigger] bit_at(final(self).input(), c))
                },
                Err(e) => true,
            },
    {
        loop
            invariant
                self.wf(),
                self.input() == old(self).input(),
                buf@ == old(buf)@,
                self.delivered() == old(self).delivered(),
                old(self).produced().is_prefix_of(self.produced()),
                self.cursor() >= old(self).cursor(),
                stream_decodes(
                    self.input(),
                    old(self).cursor(),
                    old(self).buffered(),
                    old(self).produced(),
                    old(self).eos_flag(),
                    self.cursor(),
                    self.buffered(),
                    self.produced(),
                    self.eos_flag(),
                ),
                old(self).pending() == 0 && old(self).eos_flag() ==> *self == *old(self),
                old(self).pending() > 0 ==> *self == *old(self),
                old(self).eos_flag() ==> self.eos_flag(),
                !old(self).eos_flag() && self.eos_flag() ==> exists|c: nat|
                    old(self).cursor() <= c && c + 3 <= self.cursor() && #[trigger] bit_at(
                        self.input(),
                        c,
                    ),
            decreases 8 * self.input().len() - self.cursor(),
        {
            proof {
                self.bit_reader.lemma_cursor_in_input();
            }
            if self.offset < self.buffer.len() {
                let pending = self.buffer.len() - self.offset;
                let copy_size = if buf.len() < pending {
                    buf.len()
                } else {
                    pending
                };
                let mut i: usize = 0;
                while i < copy_size
                    invariant
                        self.wf(),
                        i <= copy_size,
                        copy_size <= buf@.len(),
                        self.offset + copy_size <= self.buffer@.len(),
                        buf@.len() == old(buf)@.len(),
                        forall|j: int|
                            0 <= j < i ==> buf@[j] == self.buffer@[self.offset + j],
                        forall|j: int| i <= j < buf@.len() ==> buf@[j] == old(buf)@[j],
                    decreases copy_size - i,
                {
                    let b_len = self.buffer.len();
                    assert(self.offset + i < b_len);
                    let b = self.buffer[self.offset + i];
                    buf[i] = b;
                    i = i + 1;
                }
                let ghost pre = *self;
                self.offset = self.offset + copy_size;
                proof {
                    if !old(self).eos_flag() && self.eos_flag() {
                        let c = choose|c: nat|
                            old(self).cursor() <= c && c + 3 <= pre.cursor() && #[trigger] bit_at(
                                pre.input(),
                                c,
                            );
                        assert(old(self).cursor() <= c && c + 3 <= self.cursor() && bit_at(
                            self.input(),
                            c,
                        ));
                    }
                    assert(buf@.subrange(0, copy_size as int) =~= self.produced().subrange(
                        pre.delivered(),
                        pre.delivered() + copy_size,
                    ));
                    assert(buf@.subrange(copy_size as int, buf@.len() as int) =~= old(
                        buf,
                    )@.subrange(copy_size as int, old(buf)@.len() as int));
                }
                return Ok(copy_size);
            } else if self.eos {
                proof {
                    assert(buf@.subrange(0, 0) =~= self.produced().subrange(
                        self.delivered(),
                        self.delivered(),
                    ));
                    assert(buf@.subrange(0, buf@.len() as int) =~= old(buf)@.subrange(
                        0,
                        old(buf)@.len() as int,
                    ));
                }
                return Ok(0);
            } else {
                let ghost c_blk = self.cursor();
                let ghost w_blk = self.buffered();
                let ghost p_blk = self.produced();
                let ghost eos_before = self.eos_flag();
                let res = self.read_block();
                match res {
                    Ok(()) => {
                        proof {
                            if !eos_before && self.eos_flag() {
                                assert(bit_at(self.input(), c_blk));
                            }
                            lemma_stream_decodes_snoc(
                                self.input(),
                                old(self).cursor(),
                                old(self).buffered(),
                                old(self).produced(),
                                old(self).eos_flag(),
                                c_blk,
                                w_blk,
                                p_blk,
                                self.cursor(),
                                self.buffered(),
                                self.produced(),
                                self.eos_flag(),
                            );
                        }
                    },
                    Err(e) => {
                        proof {
                            if e == Error::ReservedBlockType {
                                assert(self.cursor() == c_blk + 3);
                                assert(bits_value(self.input(), (c_blk + 1) as nat, 2) == 3);
                            }
                            assert(stream_decodes(
                                self.input(),
                                old(self).cursor(),
                                old(self).buffered(),
                                old(self).produced(),
                                old(self).eos_flag(),
                                c_blk,
                                w_blk,
                                p_blk,
                                false,
                            ) && block_fails(
                                self.input(),
                                c_blk,
                                spec_truncated(w_blk),
                                e,
                                self.buffered(),
                                self.cursor(),
                            ) && self.produced() == p_blk + self.buffered().skip(
                                spec_truncated(w_blk).len() as int,
                            ));
                        }
                        return Err(e);
                    },
                }
            }
        }
    }
}

} // verus!
