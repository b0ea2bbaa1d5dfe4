//! End-to-end tests of the DEFLATE decoder: stored, fixed-Huffman and
//! dynamic-Huffman blocks, error handling, and windowing.

use libflate::Decoder;
use libflate::Error;

/// Packs bits into bytes least-significant-bit-first, the DEFLATE order.
struct BitWriter {
    bytes: Vec<u8>,
    bit: u8,
}

impl BitWriter {
    fn new() -> BitWriter {
        BitWriter { bytes: Vec::new(), bit: 0 }
    }

    fn push_bit(&mut self, b: u32) {
        if self.bit == 0 {
            self.bytes.push(0);
        }
        let last = self.bytes.len() - 1;
        if b != 0 {
            self.bytes[last] |= 1 << self.bit;
        }
        self.bit = (self.bit + 1) % 8;
    }

    /// Writes an `n`-bit field, least-significant bit first.
    fn push_bits_lsb(&mut self, v: u32, n: u8) {
        for i in 0..n {
            self.push_bit((v >> i) & 1);
        }
    }

    /// Writes an `n`-bit Huffman code, most-significant bit first.
    fn push_code_msb(&mut self, code: u32, n: u8) {
        for i in (0..n).rev() {
            self.push_bit((code >> i) & 1);
        }
    }

    fn align(&mut self) {
        self.bit = 0;
    }

    fn push_byte(&mut self, b: u8) {
        assert_eq!(self.bit, 0);
        self.bytes.push(b);
    }
}

/// The fixed literal/length code of RFC 1951 §3.2.6 for symbol `s`.
fn fixed_lit_code(s: u32) -> (u32, u8) {
    if s < 144 {
        (0x30 + s, 8)
    } else if s < 256 {
        (0x190 + (s - 144), 9)
    } else if s < 280 {
        (s - 256, 7)
    } else {
        (0xC0 + (s - 280), 8)
    }
}

fn push_fixed_symbol(w: &mut BitWriter, s: u32) {
    let (code, n) = fixed_lit_code(s);
    w.push_code_msb(code, n);
}

/// Drains the decoder completely, panicking on any error.
fn drain(d: &mut Decoder) -> Vec<u8> {
    let mut out = Vec::new();
    let mut buf = vec![0u8; 4096];
    loop {
        let n = d.read(&mut buf).expect("decode failed");
        if n == 0 {
            return out;
        }
        out.extend_from_slice(&buf[..n]);
    }
}

#[test]
fn stored_block_roundtrip() {
    // LEN = 0x0005, NLEN = 0xFFFA (ones' complement), five payload bytes.
    let input = vec![0x01, 0x05, 0x00, 0xFA, 0xFF, 10, 20, 30, 40, 50];
    let mut d = Decoder::new(input);
    assert_eq!(drain(&mut d), vec![10, 20, 30, 40, 50]);
}

#[test]
fn stored_block_partial_reads() {
    let input = vec![0x01, 0x05, 0x00, 0xFA, 0xFF, 1, 2, 3, 4, 5];
    let mut d = Decoder::new(input);
    let mut buf = vec![0u8; 2];
    assert_eq!(d.read(&mut buf).unwrap(), 2);
    assert_eq!(buf, vec![1, 2]);
    assert_eq!(d.read(&mut buf).unwrap(), 2);
    assert_eq!(buf, vec![3, 4]);
    assert_eq!(d.read(&mut buf).unwrap(), 1);
    assert_eq!(buf[0], 5);
    assert_eq!(d.read(&mut buf).unwrap(), 0);
}

#[test]
fn stored_block_corruption() {
    // NLEN equals LEN instead of its ones' complement: a format error
    // before any payload byte is consumed.
    let input = vec![0x01, 0x05, 0x00, 0x05, 0x00, 1, 2, 3, 4, 5];
    let mut d = Decoder::new(input);
    let mut buf = vec![0u8; 16];
    let e = d.read(&mut buf).unwrap_err();
    assert_eq!(e, Error::StoredLengthMismatch { len: 5, nlen: 5 });
    assert!(e.is_format());
}

#[test]
fn fixed_block_backref_overlap() {
    // Literal 'A', Literal 'B', Share{length=4, distance=2}, EndOfBlock:
    // the overlapping forward copy must produce "ABABAB".
    let mut w = BitWriter::new();
    w.push_bits_lsb(1, 1); // bfinal
    w.push_bits_lsb(1, 2); // btype = 01, fixed Huffman
    push_fixed_symbol(&mut w, 'A' as u32);
    push_fixed_symbol(&mut w, 'B' as u32);
    push_fixed_symbol(&mut w, 258); // length 4, no extra bits
    w.push_code_msb(1, 5); // distance code 1: distance 2, no extra bits
    push_fixed_symbol(&mut w, 256); // end of block
    let mut d = Decoder::new(w.bytes);
    assert_eq!(drain(&mut d), b"ABABAB".to_vec());
}

#[test]
fn out_of_range_backref() {
    // A Share{distance=10} as the very first symbol: no history exists.
    let mut w = BitWriter::new();
    w.push_bits_lsb(1, 1);
    w.push_bits_lsb(1, 2);
    push_fixed_symbol(&mut w, 257); // length 3, no extra bits
    w.push_code_msb(6, 5); // distance code 6: base 9, 2 extra bits
    w.push_bits_lsb(1, 2); // extra value 1: distance 10
    push_fixed_symbol(&mut w, 256);
    let mut d = Decoder::new(w.bytes);
    let mut buf = vec![0u8; 16];
    let e = d.read(&mut buf).unwrap_err();
    assert_eq!(e, Error::DistanceTooFar { available: 0, distance: 10 });
    assert!(e.is_format());
}

#[test]
fn reserved_block_type() {
    // bfinal=1, btype=11: always a format error.
    let mut d = Decoder::new(vec![0x07]);
    let mut buf = vec![0u8; 16];
    let e = d.read(&mut buf).unwrap_err();
    assert_eq!(e, Error::ReservedBlockType);
    assert!(e.is_format());
}

#[test]
fn drained_stream_is_idempotent() {
    // An empty final fixed-Huffman block: once drained, every further
    // pull returns zero bytes without error.
    let mut w = BitWriter::new();
    w.push_bits_lsb(1, 1);
    w.push_bits_lsb(1, 2);
    push_fixed_symbol(&mut w, 256);
    let mut d = Decoder::new(w.bytes);
    let mut buf = vec![0u8; 16];
    for _ in 0..5 {
        assert_eq!(d.read(&mut buf).unwrap(), 0);
    }
}

#[test]
fn empty_input_reports_eof() {
    let mut d = Decoder::new(Vec::new());
    let mut buf = vec![0u8; 16];
    let e = d.read(&mut buf).unwrap_err();
    assert_eq!(e, Error::UnexpectedEof);
    assert!(!e.is_format());
}

#[test]
fn undefined_literal_symbol() {
    // Literal/length value 286 is undefined by the format.
    let mut w = BitWriter::new();
    w.push_bits_lsb(1, 1);
    w.push_bits_lsb(1, 2);
    push_fixed_symbol(&mut w, 286);
    let mut d = Decoder::new(w.bytes);
    let mut buf = vec![0u8; 16];
    assert_eq!(d.read(&mut buf).unwrap_err(), Error::InvalidSymbol);
}

#[test]
fn multi_block_stream() {
    // A non-final stored block followed by a final fixed block.
    let mut w = BitWriter::new();
    w.push_bits_lsb(0, 1); // not final
    w.push_bits_lsb(0, 2); // stored
    w.align();
    w.push_byte(0x07);
    w.push_byte(0x00);
    w.push_byte(0xF8);
    w.push_byte(0xFF);
    for &b in b"Hello, " {
        w.push_byte(b);
    }
    w.push_bits_lsb(1, 1); // final
    w.push_bits_lsb(1, 2); // fixed
    for &b in b"deflate" {
        push_fixed_symbol(&mut w, b as u32);
    }
    push_fixed_symbol(&mut w, 256);
    let mut d = Decoder::new(w.bytes);
    assert_eq!(drain(&mut d), b"Hello, deflate".to_vec());
}

#[test]
fn backref_across_stored_block_boundary() {
    // History carries across blocks: a fixed block may reference bytes
    // produced by an earlier stored block.
    let mut w = BitWriter::new();
    w.push_bits_lsb(0, 1);
    w.push_bits_lsb(0, 2);
    w.align();
    w.push_byte(0x03);
    w.push_byte(0x00);
    w.push_byte(0xFC);
    w.push_byte(0xFF);
    for &b in b"xyz" {
        w.push_byte(b);
    }
    w.push_bits_lsb(1, 1);
    w.push_bits_lsb(1, 2);
    push_fixed_symbol(&mut w, 257); // length 3
    w.push_code_msb(2, 5); // distance code 2: distance 3
    push_fixed_symbol(&mut w, 256);
    let mut d = Decoder::new(w.bytes);
    assert_eq!(drain(&mut d), b"xyzxyz".to_vec());
}

#[test]
fn windowing_keeps_recent_history() {
    // Enough literal bytes to trigger compaction (more than four times
    // MAX_DISTANCE), then a back-reference within MAX_DISTANCE of the end:
    // nothing undelivered is lost and the reference still resolves.
    let mut w = BitWriter::new();
    let mut expected: Vec<u8> = Vec::new();
    for block in 0..3u32 {
        w.push_bits_lsb(0, 1);
        w.push_bits_lsb(0, 2);
        w.align();
        w.push_byte(0xFF);
        w.push_byte(0xFF);
        w.push_byte(0x00);
        w.push_byte(0x00);
        for i in 0..65535u32 {
            let b = ((block * 65535 + i) % 251) as u8;
            w.push_byte(b);
            expected.push(b);
        }
    }
    // 196605 bytes so far: past 4 * 32768, so the window has been (or will
    // be) compacted at the next block boundary.
    w.push_bits_lsb(1, 1);
    w.push_bits_lsb(1, 2);
    push_fixed_symbol(&mut w, 'Q' as u32);
    // length 5 = code 259; distance 1000 = code 19 (base 769, 8 extra bits).
    push_fixed_symbol(&mut w, 259);
    w.push_code_msb(19, 5);
    w.push_bits_lsb(1000 - 769, 8);
    push_fixed_symbol(&mut w, 256);
    expected.push(b'Q');
    for _ in 0..5 {
        let b = expected[expected.len() - 1000];
        expected.push(b);
    }
    let mut d = Decoder::new(w.bytes);
    let out = drain(&mut d);
    assert_eq!(out.len(), expected.len());
    assert_eq!(out, expected);
}

#[test]
fn dynamic_block_single_literal() {
    // A dynamic header defining one-bit codes for literal 'A' and
    // end-of-block, then the two symbols.
    let mut w = BitWriter::new();
    w.push_bits_lsb(1, 1); // bfinal
    w.push_bits_lsb(2, 2); // btype = 10, dynamic Huffman
    w.push_bits_lsb(0, 5); // HLIT: 257 literal/length codes
    w.push_bits_lsb(0, 5); // HDIST: 1 distance code
    w.push_bits_lsb(14, 4); // HCLEN: 18 code-length code lengths
    // Code-length alphabet lengths, in the transmission order
    // 16 17 18 0 8 7 9 6 10 5 11 4 12 3 13 2 14 1: length 1 for
    // symbols 18 and 1, zero for the rest.
    let clen_bits = [0, 0, 1, 0, 0, 0, 0, 0, 0, 0, 0, 0, 0, 0, 0, 0, 0, 1];
    for &v in clen_bits.iter() {
        w.push_bits_lsb(v, 3);
    }
    // Canonical codes over {1, 18}: symbol 1 -> 0, symbol 18 -> 1.
    // Literal lengths: 65 zeros, then length 1 for 'A', 190 zeros, then
    // length 1 for end-of-block; one distance length of 1.
    w.push_code_msb(1, 1); // 18: run of zeros
    w.push_bits_lsb(65 - 11, 7);
    w.push_code_msb(0, 1); // length 1 for symbol 65 ('A')
    w.push_code_msb(1, 1); // 18: run of zeros
    w.push_bits_lsb(138 - 11, 7);
    w.push_code_msb(1, 1); // 18: run of zeros
    w.push_bits_lsb(52 - 11, 7);
    w.push_code_msb(0, 1); // length 1 for symbol 256 (end of block)
    w.push_code_msb(0, 1); // distance symbol 0: length 1
    // Block data: 'A' (code 0), end of block (code 1).
    w.push_code_msb(0, 1);
    w.push_code_msb(1, 1);
    let mut d = Decoder::new(w.bytes);
    assert_eq!(drain(&mut d), b"A".to_vec());
}

#[test]
fn dynamic_block_oversubscribed_lengths() {
    // A dynamic header whose code-length alphabet is over-subscribed:
    // three one-bit codes cannot form a prefix code.
    let mut w = BitWriter::new();
    w.push_bits_lsb(1, 1);
    w.push_bits_lsb(2, 2);
    w.push_bits_lsb(0, 5);
    w.push_bits_lsb(0, 5);
    w.push_bits_lsb(14, 4);
    let clen_bits = [0, 0, 1, 1, 0, 0, 0, 0, 0, 0, 0, 0, 0, 0, 0, 0, 0, 1];
    for &v in clen_bits.iter() {
        w.push_bits_lsb(v, 3);
    }
    let mut d = Decoder::new(w.bytes);
    let mut buf = vec![0u8; 16];
    assert_eq!(d.read(&mut buf).unwrap_err(), Error::InvalidHuffmanTable);
}

#[test]
fn maximum_length_run() {
    // Literal 'x' then Share{length=258, distance=1}: a run of 259 'x's.
    let mut w = BitWriter::new();
    w.push_bits_lsb(1, 1);
    w.push_bits_lsb(1, 2);
    push_fixed_symbol(&mut w, 'x' as u32);
    push_fixed_symbol(&mut w, 285); // length 258, no extra bits
    w.push_code_msb(0, 5); // distance code 0: distance 1
    push_fixed_symbol(&mut w, 256);
    let mut d = Decoder::new(w.bytes);
    assert_eq!(drain(&mut d), vec![b'x'; 259]);
}

#[test]
fn empty_stored_block() {
    // A zero-length stored block followed by an empty final fixed block.
    let input = vec![0x00, 0x00, 0x00, 0xFF, 0xFF, 0x03, 0x00];
    let mut d = Decoder::new(input);
    assert_eq!(drain(&mut d), Vec::<u8>::new());
}

#[test]
fn dynamic_block_run_length_codes() {
    // A dynamic header exercising all three run-length codes: 16 repeats
    // the previous length, 17 and 18 insert short and long zero runs.
    // Literal/length symbols 0..=6 and 256 get the eight three-bit codes
    // of a complete code; symbol 3 and end-of-block are then decoded from
    // the block data.
    let mut w = BitWriter::new();
    w.push_bits_lsb(1, 1); // bfinal
    w.push_bits_lsb(2, 2); // btype = 10, dynamic Huffman
    w.push_bits_lsb(0, 5); // HLIT: 257
    w.push_bits_lsb(0, 5); // HDIST: 1
    w.push_bits_lsb(12, 4); // HCLEN: 16
    // Code-length alphabet: lengths 2 for symbols 2, 3 and 16, lengths 3
    // for 17 and 18; canonical codes 2=00, 3=01, 16=10, 17=110, 18=111.
    let clen_bits = [2, 3, 3, 0, 0, 0, 0, 0, 0, 0, 0, 0, 0, 2, 0, 2];
    for &v in clen_bits.iter() {
        w.push_bits_lsb(v, 3);
    }
    w.push_code_msb(1, 2); // symbol 0: length 3
    w.push_code_msb(2, 2); // 16: repeat previous length
    w.push_bits_lsb(3, 2); // six more threes: symbols 1..=6
    w.push_code_msb(7, 3); // 18: long zero run
    w.push_bits_lsb(126, 7); // 137 zeros: symbols 7..=143
    w.push_code_msb(6, 3); // 17: short zero run
    w.push_bits_lsb(7, 3); // 10 zeros: symbols 144..=153
    w.push_code_msb(7, 3); // 18: long zero run
    w.push_bits_lsb(91, 7); // 102 zeros: symbols 154..=255
    w.push_code_msb(1, 2); // symbol 256: length 3
    w.push_code_msb(1, 2); // distance symbol 0: length 3
    // Block data: literal 3 (code 011), end of block (code 111).
    w.push_code_msb(3, 3);
    w.push_code_msb(7, 3);
    let mut d = Decoder::new(w.bytes);
    assert_eq!(drain(&mut d), vec![3u8]);
}

#[test]
fn dynamic_incomplete_literal_code_rejected() {
    // A dynamic header whose literal/length code has a single one-bit
    // code (end-of-block only): half the code space is unused, which the
    // format forbids for the literal/length table.
    let mut w = BitWriter::new();
    w.push_bits_lsb(1, 1);
    w.push_bits_lsb(2, 2);
    w.push_bits_lsb(0, 5);
    w.push_bits_lsb(0, 5);
    w.push_bits_lsb(14, 4); // HCLEN: 18
    let clen_bits = [0, 0, 1, 0, 0, 0, 0, 0, 0, 0, 0, 0, 0, 0, 0, 0, 0, 1];
    for &v in clen_bits.iter() {
        w.push_bits_lsb(v, 3);
    }
    // Codes over {1, 18}: symbol 1 -> 0, symbol 18 -> 1.
    w.push_code_msb(1, 1); // 18: run of zeros
    w.push_bits_lsb(138 - 11, 7);
    w.push_code_msb(1, 1); // 18: run of zeros
    w.push_bits_lsb(118 - 11, 7); // 256 zeros in all
    w.push_code_msb(0, 1); // length 1 for symbol 256 (end of block)
    w.push_code_msb(0, 1); // distance symbol 0: length 1
    let mut d = Decoder::new(w.bytes);
    let mut buf = vec![0u8; 16];
    assert_eq!(d.read(&mut buf).unwrap_err(), Error::InvalidHuffmanTable);
}

#[test]
fn dynamic_repeat_without_previous() {
    // Run-length code 16 as the very first length entry has nothing to
    // repeat: a format error.
    let mut w = BitWriter::new();
    w.push_bits_lsb(1, 1);
    w.push_bits_lsb(2, 2);
    w.push_bits_lsb(0, 5);
    w.push_bits_lsb(0, 5);
    w.push_bits_lsb(12, 4);
    let clen_bits = [2, 3, 3, 0, 0, 0, 0, 0, 0, 0, 0, 0, 0, 2, 0, 2];
    for &v in clen_bits.iter() {
        w.push_bits_lsb(v, 3);
    }
    w.push_code_msb(2, 2); // 16 with no previous length
    w.push_bits_lsb(0, 2);
    let mut d = Decoder::new(w.bytes);
    let mut buf = vec![0u8; 16];
    assert_eq!(d.read(&mut buf).unwrap_err(), Error::InvalidHuffmanTable);
}
