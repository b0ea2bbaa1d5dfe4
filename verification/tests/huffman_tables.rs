//! Direct tests of canonical Huffman table construction and decoding,
//! including the worked example of RFC 1951 §3.2.2.

use libflate::bits::BitReader;
use libflate::huffman::Table;
use libflate::Error;

#[test]
fn canonical_codes_of_rfc_example() {
    // Lengths (2, 1, 3, 3) for symbols A B C D yield the canonical codes
    // B=0, A=10, C=110, D=111. Decoding the bit stream for B A D C
    // (0 10 111 110, packed least-significant-bit-first) returns the
    // symbol indices 1, 0, 3, 2.
    let table = Table::new(vec![2, 1, 3, 3]).expect("a valid prefix code");
    let mut r = BitReader::new(vec![0xFA, 0x00]);
    assert_eq!(table.decode(&mut r).unwrap(), 1);
    assert_eq!(table.decode(&mut r).unwrap(), 0);
    assert_eq!(table.decode(&mut r).unwrap(), 3);
    assert_eq!(table.decode(&mut r).unwrap(), 2);
}

#[test]
fn oversubscribed_lengths_rejected() {
    // Three codes of length one cannot form a prefix code.
    assert_eq!(Table::new(vec![1, 1, 1]).unwrap_err(), Error::InvalidHuffmanTable);
}

#[test]
fn undersubscribed_code_is_undecodable() {
    // A single one-bit code leaves the other half of the code space
    // unassigned: bits that fall into it decode to no symbol.
    let table = Table::new(vec![1]).expect("an incomplete but usable code");
    let mut r = BitReader::new(vec![0xFF, 0xFF]);
    assert_eq!(table.decode(&mut r).unwrap_err(), Error::InvalidSymbol);
}
