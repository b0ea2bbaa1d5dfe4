//! The three-symbol alphabet of a DEFLATE block and its two codecs.
//!
//! A block's symbol stream consists of literal bytes, back-references
//! (`Share`), and an end-of-block mark. The fixed codec uses the two
//! hard-coded canonical tables of RFC 1951 §3.2.6; the dynamic codec first
//! reads a header that describes the block's custom tables, itself
//! Huffman-coded over a 19-symbol code-length alphabet with run-length
//! encodings (§3.2.7).

use vstd::prelude::*;

use crate::bits::{bits_value, lemma_bits_value_bound, p2, BitReader};
use crate::error::Error;
use crate::huffman::{
    complete, count_present, decodes_to, has_code_at, is_complete, oversubscribed, present_count,
    undecodable_at, Table,
};

verus! {

/// One decoded element of a block's symbol stream.
#[derive(Clone, Copy, Debug, PartialEq, Eq, Structural)]
pub enum Symbol {
    /// A literal output byte.
    Literal(u8),
    /// A back-reference: copy `length` bytes from `distance` bytes behind
    /// the current end of the output.
    Share { length: u16, distance: u16 },
    /// The end of the current block.
    EndOfBlock,
}

impl Symbol {
    /// Back-reference fields stay within the ranges the format defines.
    pub open spec fn wf(self) -> bool {
        match self {
            Symbol::Share { length, distance } => 3 <= length <= 258 && 1 <= distance <= 32768,
            _ => true,
        }
    }
}

/// The bits starting at `c` decode to `sym` under the literal/length
/// table `litl` and distance table `distl`, ending at bit `c_end`:
/// values 0..=255 are literals, 256 the end of the block, and 257..=285
/// a length code with its extra bits followed by a distance code with
/// its extra bits.
pub open spec fn symbol_decodes(
    litl: Seq<u8>,
    distl: Seq<u8>,
    bytes: Seq<u8>,
    c: nat,
    sym: Symbol,
    c_end: nat,
) -> bool {
    match sym {
        Symbol::Literal(b) => decodes_to(litl, bytes, c, b as int, c_end),
        Symbol::EndOfBlock => decodes_to(litl, bytes, c, 256, c_end),
        Symbol::Share { length, distance } => exists|s: int, c1: nat, ds: int, c3: nat|
            {
                &&& #[trigger] decodes_to(litl, bytes, c, s, c1)
                &&& 257 <= s <= 285
                &&& c1 + length_extra_bits(s) <= bytes.len() * 8
                &&& length == length_base(s) + bits_value(bytes, c1, length_extra_bits(s) as nat)
                &&& #[trigger] decodes_to(distl, bytes, (c1 + length_extra_bits(s)) as nat, ds, c3)
                &&& 0 <= ds <= 29
                &&& c3 + distance_extra_bits(ds) <= bytes.len() * 8
                &&& distance == distance_base(ds) + bits_value(
                    bytes,
                    c3,
                    distance_extra_bits(ds) as nat,
                )
                &&& c_end == c3 + distance_extra_bits(ds)
            },
    }
}

/// The bits starting at `c` are a format error for the symbol codec: an
/// undecodable literal/length walk, a literal/length value the format
/// leaves undefined (286..=287), an undecodable distance walk, or a
/// distance code the format leaves undefined (30..=31).
pub open spec fn symbol_error_invalid(litl: Seq<u8>, distl: Seq<u8>, bytes: Seq<u8>, c: nat) -> bool {
    ||| (c + 15 <= bytes.len() * 8 && undecodable_at(litl, bytes, c))
    ||| exists|s: int, c1: nat| #[trigger] decodes_to(litl, bytes, c, s, c1) && s > 285
    ||| exists|s: int, c1: nat|
        #[trigger] decodes_to(litl, bytes, c, s, c1) && 257 <= s <= 285 && c1 + length_extra_bits(s)
            + 15 <= bytes.len() * 8 && undecodable_at(
            distl,
            bytes,
            (c1 + length_extra_bits(s)) as nat,
        )
    ||| exists|s: int, c1: nat, ds: int, c3: nat|
        #[trigger] decodes_to(litl, bytes, c, s, c1) && 257 <= s <= 285 && #[trigger] decodes_to(
            distl,
            bytes,
            (c1 + length_extra_bits(s)) as nat,
            ds,
            c3,
        ) && ds > 29
}

/// The input exhausts before the symbol starting at bit `c` completes:
/// during the literal/length walk, its extra bits, the distance walk, or
/// the distance extra bits.
pub open spec fn symbol_error_eof(litl: Seq<u8>, distl: Seq<u8>, bytes: Seq<u8>, c: nat) -> bool {
    ||| (bytes.len() * 8 < c + 15 && forall|l: int|
        1 <= l && c + l <= bytes.len() * 8 ==> !has_code_at(litl, bytes, c, l))
    ||| exists|s: int, c1: nat|
        #[trigger] decodes_to(litl, bytes, c, s, c1) && 257 <= s <= 285 && bytes.len() * 8 < c1
            + length_extra_bits(s)
    ||| exists|s: int, c1: nat|
        #[trigger] decodes_to(litl, bytes, c, s, c1) && 257 <= s <= 285 && c1 + length_extra_bits(s)
            <= bytes.len() * 8 && bytes.len() * 8 < c1 + length_extra_bits(s) + 15 && (forall|
            l: int,
        |
            1 <= l && c1 + length_extra_bits(s) + l <= bytes.len() * 8 ==> !(#[trigger] has_code_at(
                distl,
                bytes,
                (c1 + length_extra_bits(s)) as nat,
                l,
            )))
    ||| exists|s: int, c1: nat, ds: int, c3: nat|
        #[trigger] decodes_to(litl, bytes, c, s, c1) && 257 <= s <= 285 && #[trigger] decodes_to(
            distl,
            bytes,
            (c1 + length_extra_bits(s)) as nat,
            ds,
            c3,
        ) && 0 <= ds <= 29 && bytes.len() * 8 < c3 + distance_extra_bits(ds)
}

/// The base length of literal/length codes 257..=285 (RFC 1951 §3.2.5).
pub open spec fn length_base(code: int) -> int {
    if code == 257 {
        3
    } else if code == 258 {
        4
    } else if code == 259 {
        5
    } else if code == 260 {
        6
    } else if code == 261 {
        7
    } else if code == 262 {
        8
    } else if code == 263 {
        9
    } else if code == 264 {
        10
    } else if code == 265 {
        11
    } else if code == 266 {
        13
    } else if code == 267 {
        15
    } else if code == 268 {
        17
    } else if code == 269 {
        19
    } else if code == 270 {
        23
    } else if code == 271 {
        27
    } else if code == 272 {
        31
    } else if code == 273 {
        35
    } else if code == 274 {
        43
    } else if code == 275 {
        51
    } else if code == 276 {
        59
    } else if code == 277 {
        67
    } else if code == 278 {
        83
    } else if code == 279 {
        99
    } else if code == 280 {
        115
    } else if code == 281 {
        131
    } else if code == 282 {
        163
    } else if code == 283 {
        195
    } else if code == 284 {
        227
    } else {
        258
    }
}

/// The extra-bit count of literal/length codes 257..=285 (RFC 1951 §3.2.5).
pub open spec fn length_extra_bits(code: int) -> int {
    if code <= 264 {
        0
    } else if code <= 268 {
        1
    } else if code <= 272 {
        2
    } else if code <= 276 {
        3
    } else if code <= 280 {
        4
    } else if code <= 284 {
        5
    } else {
        0
    }
}

/// The base distance of distance codes 0..=29 (RFC 1951 §3.2.5).
pub open spec fn distance_base(code: int) -> int {
    if code == 0 {
        1
    } else if code == 1 {
        2
    } else if code == 2 {
        3
    } else if code == 3 {
        4
    } else if code == 4 {
        5
    } else if code == 5 {
        7
    } else if code == 6 {
        9
    } else if code == 7 {
        13
    } else if code == 8 {
        17
    } else if code == 9 {
        25
    } else if code == 10 {
        33
    } else if code == 11 {
        49
    } else if code == 12 {
        65
    } else if code == 13 {
        97
    } else if code == 14 {
        129
    } else if code == 15 {
        193
    } else if code == 16 {
        257
    } else if code == 17 {
        385
    } else if code == 18 {
        513
    } else if code == 19 {
        769
    } else if code == 20 {
        1025
    } else if code == 21 {
        1537
    } else if code == 22 {
        2049
    } else if code == 23 {
        3073
    } else if code == 24 {
        4097
    } else if code == 25 {
        6145
    } else if code == 26 {
        8193
    } else if code == 27 {
        12289
    } else if code == 28 {
        16385
    } else {
        24577
    }
}

/// The extra-bit count of distance codes 0..=29 (RFC 1951 §3.2.5).
pub open spec fn distance_extra_bits(code: int) -> int {
    if code <= 3 {
        0
    } else if code <= 5 {
        1
    } else if code <= 7 {
        2
    } else if code <= 9 {
        3
    } else if code <= 11 {
        4
    } else if code <= 13 {
        5
    } else if code <= 15 {
        6
    } else if code <= 17 {
        7
    } else if code <= 19 {
        8
    } else if code <= 21 {
        9
    } else if code <= 23 {
        10
    } else if code <= 25 {
        11
    } else if code <= 27 {
        12
    } else {
        13
    }
}

/// The base length and extra-bit count of literal/length codes 257..=285
/// (RFC 1951 §3.2.5). The decoded length is the base plus the value of the
/// extra bits, and always lies in 3..=258.
pub fn length_param(code: usize) -> (r: (u16, u8))
    requires
        257 <= code <= 285,
    ensures
        r.0 == length_base(code as int),
        r.1 == length_extra_bits(code as int),
        3 <= r.0,
        r.1 <= 5,
        r.0 + p2(r.1 as nat) <= 259,
{
    proof {
        reveal_with_fuel(p2, 7);
    }
    match code {
        257 => (3, 0),
        258 => (4, 0),
        259 => (5, 0),
        260 => (6, 0),
        261 => (7, 0),
        262 => (8, 0),
        263 => (9, 0),
        264 => (10, 0),
        265 => (11, 1),
        266 => (13, 1),
        267 => (15, 1),
        268 => (17, 1),
        269 => (19, 2),
        270 => (23, 2),
        271 => (27, 2),
        272 => (31, 2),
        273 => (35, 3),
        274 => (43, 3),
        275 => (51, 3),
        276 => (59, 3),
        277 => (67, 4),
        278 => (83, 4),
        279 => (99, 4),
        280 => (115, 4),
        281 => (131, 5),
        282 => (163, 5),
        283 => (195, 5),
        284 => (227, 5),
        _ => (258, 0),
    }
}

/// The base distance and extra-bit count of distance codes 0..=29
/// (RFC 1951 §3.2.5). The decoded distance is the base plus the value of
/// the extra bits, and always lies in 1..=32768.
pub fn distance_param(code: usize) -> (r: (u16, u8))
    requires
        code <= 29,
    ensures
        r.0 == distance_base(code as int),
        r.1 == distance_extra_bits(code as int),
        1 <= r.0,
        r.1 <= 13,
        r.0 + p2(r.1 as nat) <= 32769,
{
    proof {
        reveal_with_fuel(p2, 15);
    }
    match code {
        0 => (1, 0),
        1 => (2, 0),
        2 => (3, 0),
        3 => (4, 0),
        4 => (5, 1),
        5 => (7, 1),
        6 => (9, 2),
        7 => (13, 2),
        8 => (17, 3),
        9 => (25, 3),
        10 => (33, 4),
        11 => (49, 4),
        12 => (65, 5),
        13 => (97, 5),
        14 => (129, 6),
        15 => (193, 6),
        16 => (257, 7),
        17 => (385, 7),
        18 => (513, 8),
        19 => (769, 8),
        20 => (1025, 9),
        21 => (1537, 9),
        22 => (2049, 10),
        23 => (3073, 10),
        24 => (4097, 11),
        25 => (6145, 11),
        26 => (8193, 12),
        27 => (12289, 12),
        28 => (16385, 13),
        _ => (24577, 13),
    }
}


/// How many of the first `k` fixed literal/length symbols carry each code
/// length: 7-bit codes fill 256..280, 8-bit codes 0..144 and 280..288,
/// 9-bit codes 144..256, and no other length occurs.
proof fn lemma_fixed_literal_counts(lens: Seq<u8>, k: int)
    requires
        lens.len() == 288,
        forall|i: int| 0 <= i < 288 ==> lens[i] == fixed_literal_len(i),
        0 <= k <= 288,
    ensures
        crate::huffman::count_len(lens, 7, k) == (if k <= 256 {
            0int
        } else if k <= 280 {
            k - 256
        } else {
            24
        }),
        crate::huffman::count_len(lens, 8, k) == (if k <= 144 {
            k
        } else if k <= 280 {
            144int
        } else {
            144 + k - 280
        }),
        crate::huffman::count_len(lens, 9, k) == (if k <= 144 {
            0int
        } else if k <= 256 {
            k - 144
        } else {
            112
        }),
        forall|l: u8|
            1 <= l <= 15 && l != 7 && l != 8 && l != 9 ==> #[trigger] crate::huffman::count_len(
                lens,
                l,
                k,
            ) == 0,
    decreases k,
{
    if k > 0 {
        lemma_fixed_literal_counts(lens, k - 1);
        assert(lens[k - 1] == fixed_literal_len(k - 1));
    }
    assert forall|l: u8| 1 <= l <= 15 && l != 7 && l != 8 && l != 9 implies
        #[trigger] crate::huffman::count_len(lens, l, k) == 0 by {
        if k > 0 {
            assert(crate::huffman::count_len(lens, l, k) == crate::huffman::count_len(
                lens,
                l,
                k - 1,
            ) + if lens[k - 1] == l {
                1int
            } else {
                0int
            });
        } else {
            assert(crate::huffman::count_len(lens, l, k) == 0);
        }
    }
}

/// How many of the first `k` fixed distance symbols carry each code
/// length: all thirty are 5 bits.
proof fn lemma_fixed_distance_counts(lens: Seq<u8>, k: int)
    requires
        lens.len() == 30,
        forall|i: int| 0 <= i < 30 ==> lens[i] == 5,
        0 <= k <= 30,
    ensures
        crate::huffman::count_len(lens, 5, k) == k,
        forall|l: u8|
            1 <= l <= 15 && l != 5 ==> #[trigger] crate::huffman::count_len(lens, l, k) == 0,
    decreases k,
{
    if k > 0 {
        lemma_fixed_distance_counts(lens, k - 1);
    }
    assert forall|l: u8| 1 <= l <= 15 && l != 5 implies #[trigger] crate::huffman::count_len(
        lens,
        l,
        k,
    ) == 0 by {
        if k > 0 {
            assert(crate::huffman::count_len(lens, l, k) == crate::huffman::count_len(
                lens,
                l,
                k - 1,
            ) + if lens[k - 1] == l {
                1int
            } else {
                0int
            });
        } else {
            assert(crate::huffman::count_len(lens, l, k) == 0);
        }
    }
}

/// Neither fixed table's length set is over-subscribed: the fixed codes
/// always build.
proof fn lemma_fixed_tables_valid(lit: Seq<u8>, dist: Seq<u8>)
    requires
        lit.len() == 288,
        forall|i: int| 0 <= i < 288 ==> lit[i] == fixed_literal_len(i),
        dist.len() == 30,
        forall|i: int| 0 <= i < 30 ==> dist[i] == 5,
    ensures
        !crate::huffman::oversubscribed(lit),
        !crate::huffman::oversubscribed(dist),
{
    lemma_fixed_literal_counts(lit, 288);
    lemma_fixed_distance_counts(dist, 30);
    reveal_with_fuel(p2, 17);
    assert forall|l: u8| 1 <= l <= 15 implies #[trigger] crate::huffman::base_code(lit, l)
        + crate::huffman::count_len(lit, l, 288) <= p2(l as nat) by {
        lemma_fixed_literal_counts(lit, 288);
        reveal_with_fuel(crate::huffman::base_code, 16);
        reveal_with_fuel(p2, 17);
        assert(crate::huffman::base_code(lit, 7) == 0);
        assert(crate::huffman::base_code(lit, 8) == 48);
        assert(crate::huffman::base_code(lit, 9) == 400);
        assert(crate::huffman::base_code(lit, 10) == 1024);
        assert(crate::huffman::base_code(lit, 15) == 32768);
    }
    assert forall|l: u8| 1 <= l <= 15 implies #[trigger] crate::huffman::base_code(dist, l)
        + crate::huffman::count_len(dist, l, 30) <= p2(l as nat) by {
        lemma_fixed_distance_counts(dist, 30);
        reveal_with_fuel(crate::huffman::base_code, 16);
        reveal_with_fuel(p2, 17);
        assert(crate::huffman::base_code(dist, 5) == 0);
        assert(crate::huffman::base_code(dist, 6) == 60);
        assert(crate::huffman::base_code(dist, 15) == 30720);
    }
}

/// The transmission position of each code-length alphabet symbol in a
/// dynamic header: the inverse of the permuted order 16 17 18 0 8 7 9 6
/// 10 5 11 4 12 3 13 2 14 1 15 (RFC 1951 §3.2.7).
pub open spec fn clen_pos(sym: int) -> int {
    if sym == 16 {
        0
    } else if sym == 17 {
        1
    } else if sym == 18 {
        2
    } else if sym == 0 {
        3
    } else if sym == 8 {
        4
    } else if sym == 7 {
        5
    } else if sym == 9 {
        6
    } else if sym == 6 {
        7
    } else if sym == 10 {
        8
    } else if sym == 5 {
        9
    } else if sym == 11 {
        10
    } else if sym == 4 {
        11
    } else if sym == 12 {
        12
    } else if sym == 3 {
        13
    } else if sym == 13 {
        14
    } else if sym == 2 {
        15
    } else if sym == 14 {
        16
    } else if sym == 1 {
        17
    } else {
        18
    }
}

/// The code-length alphabet's lengths as a dynamic header transmits
/// them: symbol `j`'s length is the 3-bit field at its transmission
/// position when that position is within the first `hclen` fields, and
/// zero otherwise.
pub open spec fn header_cl_lens(bytes: Seq<u8>, cf: nat, hclen: int) -> Seq<u8> {
    Seq::new(
        19,
        |j: int|
            if clen_pos(j) < hclen {
                bits_value(bytes, (cf + 3 * clen_pos(j)) as nat, 3) as u8
            } else {
                0u8
            },
    )
}

/// One step of the run-length decoding of code lengths (RFC 1951
/// §3.2.7): a code-length symbol decoded at bit `c` extends the lengths
/// `acc` to `acc2`, ending at bit `c2`. Symbols 0..=15 are lengths;
/// 16 repeats the previous length 3..=6 times, 17 and 18 insert 3..=10
/// and 11..=138 zeros, with the repeat counts in extra bits.
pub open spec fn clen_step(
    cl: Seq<u8>,
    bytes: Seq<u8>,
    c: nat,
    acc: Seq<u8>,
    c2: nat,
    acc2: Seq<u8>,
) -> bool {
    exists|s: int, c1: nat|
        #[trigger] decodes_to(cl, bytes, c, s, c1) && {
            if s <= 15 {
                acc2 == acc.push(s as u8) && c2 == c1
            } else if s == 16 {
                acc.len() > 0 && c1 + 2 <= bytes.len() * 8 && c2 == c1 + 2 && acc2 == acc
                    + Seq::new((3 + bits_value(bytes, c1, 2)) as nat, |i: int| acc.last())
            } else if s == 17 {
                c1 + 3 <= bytes.len() * 8 && c2 == c1 + 3 && acc2 == acc + Seq::new(
                    (3 + bits_value(bytes, c1, 3)) as nat,
                    |i: int| 0u8,
                )
            } else {
                s == 18 && c1 + 7 <= bytes.len() * 8 && c2 == c1 + 7 && acc2 == acc + Seq::new(
                    (11 + bits_value(bytes, c1, 7)) as nat,
                    |i: int| 0u8,
                )
            }
        }
}

/// The lengths `acc` are what the run-length decoding of the header's
/// code-length symbol stream produces, starting empty at bit `c0` and
/// ending at bit `c`.
pub open spec fn clen_derives(cl: Seq<u8>, bytes: Seq<u8>, c0: nat, c: nat, acc: Seq<u8>) -> bool
    decreases acc.len(),
{
    ||| (c == c0 && acc == Seq::<u8>::empty())
    ||| exists|cp: nat, accp: Seq<u8>|
        accp.len() < acc.len() && clen_derives(cl, bytes, c0, cp, accp) && #[trigger] clen_step(
            cl,
            bytes,
            cp,
            accp,
            c,
            acc,
        )
}

/// A derivation extends by one run-length step.
proof fn lemma_clen_derives_step(
    cl: Seq<u8>,
    bytes: Seq<u8>,
    c0: nat,
    cp: nat,
    accp: Seq<u8>,
    c: nat,
    acc: Seq<u8>,
)
    requires
        clen_derives(cl, bytes, c0, cp, accp),
        clen_step(cl, bytes, cp, accp, c, acc),
        accp.len() < acc.len(),
    ensures
        clen_derives(cl, bytes, c0, c, acc),
{
}

/// A dynamic block header at bit `c` is well-formed and yields the
/// literal/length lengths `litl` and distance lengths `distl`, ending at
/// bit `c_end`: the three counts, the code-length alphabet, the
/// run-length-decoded lengths, a complete literal/length code, and a
/// distance code that is complete or reduced to at most one present
/// symbol.
pub open spec fn dynamic_header_ok(
    bytes: Seq<u8>,
    c: nat,
    litl: Seq<u8>,
    distl: Seq<u8>,
    c_end: nat,
) -> bool {
    let hlit = 257 + bits_value(bytes, c, 5);
    let hdist = 1 + bits_value(bytes, (c + 5) as nat, 5);
    let hclen = 4 + bits_value(bytes, (c + 10) as nat, 4);
    let st = (c + 14 + 3 * hclen) as nat;
    let cl = header_cl_lens(bytes, (c + 14) as nat, hclen as int);
    &&& c + 14 + 3 * hclen <= bytes.len() * 8
    &&& !oversubscribed(cl)
    &&& exists|all: Seq<u8>|
        #[trigger] clen_derives(cl, bytes, st, c_end, all) && all.len() == hlit + hdist && litl
            == all.subrange(0, hlit as int) && distl == all.subrange(
            hlit as int,
            (hlit + hdist) as int,
        )
    &&& complete(litl)
    &&& (complete(distl) || present_count(distl, distl.len() as int) <= 1)
}

/// The dynamic block header at bit `c` fails with error `e`: an
/// undecodable code-length symbol, exhausted input, or a malformed
/// length set — the repeat codes misused, the alphabet over-subscribed,
/// or the resulting tables over-subscribed or forbidden-incomplete.
pub open spec fn dynamic_header_err(bytes: Seq<u8>, c: nat, e: Error) -> bool {
    let hlit = 257 + bits_value(bytes, c, 5);
    let hdist = 1 + bits_value(bytes, (c + 5) as nat, 5);
    let hclen = 4 + bits_value(bytes, (c + 10) as nat, 4);
    let st = (c + 14 + 3 * hclen) as nat;
    let cl = header_cl_lens(bytes, (c + 14) as nat, hclen as int);
    match e {
        Error::InvalidSymbol => exists|cm: nat, acc: Seq<u8>|
            #[trigger] clen_derives(cl, bytes, st, cm, acc) && cm + 15 <= bytes.len() * 8
                && undecodable_at(cl, bytes, cm),
        Error::UnexpectedEof => {
            ||| bytes.len() * 8 < c + 14 + 3 * hclen
            ||| exists|cm: nat, acc: Seq<u8>|
                #[trigger] clen_derives(cl, bytes, st, cm, acc) && bytes.len() * 8 < cm + 22
        },
        Error::InvalidHuffmanTable => {
            ||| oversubscribed(cl)
            ||| exists|cm: nat, acc: Seq<u8>, s: int, c1: nat|
                #[trigger] clen_derives(cl, bytes, st, cm, acc) && #[trigger] decodes_to(
                    cl,
                    bytes,
                    cm,
                    s,
                    c1,
                ) && ((s == 16 && acc.len() == 0) || (s == 16 && acc.len() + 3 + bits_value(
                    bytes,
                    c1,
                    2,
                ) > hlit + hdist) || (s == 17 && acc.len() + 3 + bits_value(bytes, c1, 3) > hlit
                    + hdist) || (s == 18 && acc.len() + 11 + bits_value(bytes, c1, 7) > hlit
                    + hdist))
            ||| exists|cm: nat, all: Seq<u8>|
                #[trigger] clen_derives(cl, bytes, st, cm, all) && all.len() == hlit + hdist && (
                oversubscribed(all.subrange(0, hlit as int)) || !complete(
                    all.subrange(0, hlit as int),
                ) || oversubscribed(all.subrange(hlit as int, (hlit + hdist) as int)) || (
                !complete(all.subrange(hlit as int, (hlit + hdist) as int)) && present_count(
                    all.subrange(hlit as int, (hlit + hdist) as int),
                    hdist as int,
                ) > 1))
        },
        _ => false,
    }
}

/// The permuted order in which the code-length alphabet's own code lengths
/// are transmitted in a dynamic header (RFC 1951 §3.2.7).
fn clen_order(i: usize) -> (r: usize)
    requires
        i < 19,
    ensures
        r < 19,
        clen_pos(r as int) == i as int,
        forall|j: int| 0 <= j < 19 && j != r ==> clen_pos(j) != i as int,
{
    match i {
        0 => 16,
        1 => 17,
        2 => 18,
        3 => 0,
        4 => 8,
        5 => 7,
        6 => 9,
        7 => 6,
        8 => 10,
        9 => 5,
        10 => 11,
        11 => 4,
        12 => 12,
        13 => 3,
        14 => 13,
        15 => 2,
        16 => 14,
        17 => 1,
        _ => 15,
    }
}

/// The fixed literal/length code length of symbol `i`: 8 bits for symbols
/// 0..=143, 9 bits for 144..=255, 7 bits for 256..=279, 8 bits for
/// 280..=287 (RFC 1951 §3.2.6).
pub open spec fn fixed_literal_len(i: int) -> int {
    if i < 144 {
        8
    } else if i < 256 {
        9
    } else if i < 280 {
        7
    } else {
        8
    }
}

/// The fixed literal/length code lengths (RFC 1951 §3.2.6).
fn fixed_literal_lengths() -> (r: Vec<u8>)
    ensures
        r@.len() == 288,
        forall|i: int| 0 <= i < 288 ==> r@[i] == fixed_literal_len(i),
{
    let mut lens: Vec<u8> = Vec::new();
    let mut i: usize = 0;
    while i < 144
        invariant
            lens@.len() == i,
            i <= 144,
            forall|j: int| 0 <= j < i ==> lens@[j] == fixed_literal_len(j),
        decreases 144 - i,
    {
        lens.push(8);
        i = i + 1;
    }
    while i < 256
        invariant
            lens@.len() == i,
            144 <= i <= 256,
            forall|j: int| 0 <= j < i ==> lens@[j] == fixed_literal_len(j),
        decreases 256 - i,
    {
        lens.push(9);
        i = i + 1;
    }
    while i < 280
        invariant
            lens@.len() == i,
            256 <= i <= 280,
            forall|j: int| 0 <= j < i ==> lens@[j] == fixed_literal_len(j),
        decreases 280 - i,
    {
        lens.push(7);
        i = i + 1;
    }
    while i < 288
        invariant
            lens@.len() == i,
            280 <= i <= 288,
            forall|j: int| 0 <= j < i ==> lens@[j] == fixed_literal_len(j),
        decreases 288 - i,
    {
        lens.push(8);
        i = i + 1;
    }
    lens
}

/// The fixed distance code lengths: 5 bits for every distance code
/// (RFC 1951 §3.2.6).
fn fixed_distance_lengths() -> (r: Vec<u8>)
    ensures
        r@.len() == 30,
        forall|i: int| 0 <= i < 30 ==> r@[i] == 5,
{
    let mut lens: Vec<u8> = Vec::new();
    let mut i: usize = 0;
    while i < 30
        invariant
            lens@.len() == i,
            i <= 30,
            forall|j: int| 0 <= j < i ==> lens@[j] == 5,
        decreases 30 - i,
    {
        lens.push(5);
        i = i + 1;
    }
    lens
}

/// A ready-to-use decoder of one block's symbol stream: the block's
/// literal/length table and distance table.
pub struct SymbolDecoder {
    literal: Table,
    distance: Table,
}

impl SymbolDecoder {
    /// Both tables are well-formed canonical tables of permissible size.
    pub closed spec fn wf(self) -> bool {
        &&& self.literal.wf()
        &&& self.distance.wf()
    }

    /// The literal/length table's per-symbol code lengths.
    pub closed spec fn lit_lens(self) -> Seq<u8> {
        self.literal.lens()
    }

    /// The distance table's per-symbol code lengths.
    pub closed spec fn dist_lens(self) -> Seq<u8> {
        self.distance.lens()
    }

    /// The symbol decoder for a fixed-Huffman block: both tables are the
    /// format's hard-coded ones — a valid prefix code, so loading never
    /// fails — and no header bits are consumed.
    pub fn fixed() -> (r: Result<SymbolDecoder, Error>)
        ensures
            r is Ok,
            match r {
                Ok(d) => {
                    &&& d.wf()
                    &&& d.lit_lens().len() == 288
                    &&& (forall|i: int|
                        0 <= i < 288 ==> d.lit_lens()[i] == fixed_literal_len(i))
                    &&& d.dist_lens().len() == 30
                    &&& (forall|i: int| 0 <= i < 30 ==> d.dist_lens()[i] == 5)
                },
                Err(e) => e == Error::InvalidHuffmanTable,
            },
    {
        let lit = fixed_literal_lengths();
        let dist = fixed_distance_lengths();
        proof {
            assert forall|i: int| 0 <= i < lit@.len() implies lit@[i] <= 15 by {
                assert(lit@[i] == fixed_literal_len(i));
            }
            lemma_fixed_tables_valid(lit@, dist@);
        }
        let literal = Table::new(lit)?;
        let distance = Table::new(dist)?;
        Ok(SymbolDecoder { literal, distance })
    }

    /// Reads a dynamic block's header and builds its two tables
    /// (RFC 1951 §3.2.7): the three counts, the code-length alphabet's
    /// lengths in their permuted transmission order, then the
    /// run-length-coded literal/length and distance code lengths. On
    /// success the tables' lengths are exactly the run-length decoding of
    /// the header's code-length symbol stream, the literal/length code is
    /// complete, and the distance code is complete or reduced to at most
    /// one present symbol; each error implies the header condition it
    /// names.
    pub fn dynamic(reader: &mut BitReader) -> (r: Result<SymbolDecoder, Error>)
        requires
            old(reader).wf(),
        ensures
            final(reader).wf(),
            final(reader).input() == old(reader).input(),
            final(reader).cursor() >= old(reader).cursor(),
            match r {
                Ok(d) => {
                    &&& d.wf()
                    &&& final(reader).cursor() > old(reader).cursor()
                    &&& 257 <= d.lit_lens().len() <= 288
                    &&& 1 <= d.dist_lens().len() <= 32
                    &&& dynamic_header_ok(
                        old(reader).input(),
                        old(reader).cursor(),
                        d.lit_lens(),
                        d.dist_lens(),
                        final(reader).cursor(),
                    )
                },
                Err(e) => dynamic_header_err(old(reader).input(), old(reader).cursor(), e),
            },
    {
        let ghost inp = old(reader).input();
        let ghost c0 = old(reader).cursor();
        let hlit = match reader.read_bits(5) {
            Ok(v) => v as usize + 257,
            Err(e) => {
                return Err(e);
            },
        };
        let hdist = match reader.read_bits(5) {
            Ok(v) => v as usize + 1,
            Err(e) => {
                return Err(e);
            },
        };
        let hclen = match reader.read_bits(4) {
            Ok(v) => v as usize + 4,
            Err(e) => {
                return Err(e);
            },
        };
        proof {
            reveal_with_fuel(p2, 6);
            assert(p2(5) == 32);
            assert(p2(4) == 16);
            assert(p2(3) == 8);
        }
        let ghost cf = reader.cursor();
        let mut cl_lens: Vec<u8> = Vec::new();
        let mut i: usize = 0;
        while i < 19
            invariant
                cl_lens@.len() == i,
                i <= 19,
                forall|j: int| 0 <= j < i ==> cl_lens@[j] == 0,
            decreases 19 - i,
        {
            cl_lens.push(0);
            i = i + 1;
        }
        let mut i: usize = 0;
        while i < hclen
            invariant
                reader.wf(),
                inp == old(reader).input(),
                c0 == old(reader).cursor(),
                reader.input() == inp,
                cf == c0 + 14,
                4 <= hclen <= 19,
                hclen == 4 + bits_value(inp, (c0 + 10) as nat, 4),
                i <= hclen,
                reader.cursor() == cf + 3 * i,
                cl_lens@.len() == 19,
                forall|j: int|
                    0 <= j < 19 ==> cl_lens@[j] == (if clen_pos(j) < i {
                        bits_value(inp, ((c0 + 14) + 3 * clen_pos(j)) as nat, 3) as u8
                    } else {
                        0u8
                    }),
            decreases hclen - i,
        {
            let v = match reader.read_bits(3) {
                Ok(v) => v,
                Err(e) => {
                    return Err(e);
                },
            };
            proof {
                reveal_with_fuel(p2, 4);
            }
            let idx = clen_order(i);
            cl_lens[idx] = v as u8;
            i = i + 1;
        }
        proof {
            reveal_with_fuel(p2, 4);
            assert forall|j: int| 0 <= j < 19 implies cl_lens@[j] == header_cl_lens(
                inp,
                (c0 + 14) as nat,
                hclen as int,
            )[j] by {
                if clen_pos(j) < hclen {
                    lemma_bits_value_bound(inp, ((c0 + 14) + 3 * clen_pos(j)) as nat, 3);
                }
            }
            assert(cl_lens@ =~= header_cl_lens(inp, (c0 + 14) as nat, hclen as int));
            assert forall|j: int| 0 <= j < cl_lens@.len() implies cl_lens@[j] <= 15 by {
                if clen_pos(j) < hclen {
                    lemma_bits_value_bound(inp, ((c0 + 14) + 3 * clen_pos(j)) as nat, 3);
                }
            }
        }
        let cl_table = match Table::new(cl_lens) {
            Ok(t) => t,
            Err(e) => {
                return Err(e);
            },
        };
        let ghost st = reader.cursor();
        let ghost cl = cl_table.lens();
        let total = hlit + hdist;
        let mut lens: Vec<u8> = Vec::new();
        proof {
            reader.lemma_cursor_in_input();
            assert(clen_derives(cl, inp, st, st, lens@));
        }
        while lens.len() < total
            invariant
                reader.wf(),
                inp == old(reader).input(),
                c0 == old(reader).cursor(),
                reader.input() == inp,
                reader.cursor() >= st,
                reader.cursor() <= inp.len() * 8,
                cl_table.wf(),
                cl == cl_table.lens(),
                cl == header_cl_lens(inp, (c0 + 14) as nat, hclen as int),
                cl.len() == 19,
                hlit + hdist == total,
                257 <= hlit <= 288,
                1 <= hdist <= 32,
                hlit == 257 + bits_value(inp, c0, 5),
                hdist == 1 + bits_value(inp, (c0 + 5) as nat, 5),
                hclen == 4 + bits_value(inp, (c0 + 10) as nat, 4),
                st == c0 + 14 + 3 * hclen,
                lens@.len() <= total,
                forall|j: int| 0 <= j < lens@.len() ==> lens@[j] <= 15,
                clen_derives(cl, inp, st, reader.cursor(), lens@),
            decreases inp.len() * 8 - reader.cursor(),
        {
            let ghost cp = reader.cursor();
            let ghost accp = lens@;
            let s = match cl_table.decode(reader) {
                Ok(s) => s,
                Err(e) => {
                    proof {
                        let hs = 4 + bits_value(inp, (c0 + 10) as nat, 4);
                        assert(hclen == hs);
                        assert(cl == header_cl_lens(inp, (c0 + 14) as nat, hs as int));
                        assert(st == (c0 + 14 + 3 * hs) as nat);
                        assert(clen_derives(
                            header_cl_lens(inp, (c0 + 14) as nat, hs as int),
                            inp,
                            (c0 + 14 + 3 * hs) as nat,
                            cp,
                            accp,
                        ));
                        if e == Error::InvalidSymbol {
                            assert(cp + 15 <= inp.len() * 8 && undecodable_at(
                                header_cl_lens(inp, (c0 + 14) as nat, hs as int),
                                inp,
                                cp,
                            ));
                        } else {
                            assert(inp.len() * 8 < cp + 22);
                        }
                    }
                    return Err(e);
                },
            };
            let ghost c1 = reader.cursor();
            if s <= 15 {
                lens.push(s as u8);
                proof {
                    assert(decodes_to(cl, inp, cp, s as int, c1));
                    assert(lens@ == accp.push((s as int) as u8));
                    assert(clen_step(cl, inp, cp, accp, c1, lens@));
                    assert(reader.cursor() == c1);
                    lemma_clen_derives_step(cl, inp, st, cp, accp, c1, lens@);
                }
            } else if s == 16 {
                if lens.len() == 0 {
                    proof {
                        let hs = 4 + bits_value(inp, (c0 + 10) as nat, 4);
                        let cls = header_cl_lens(inp, (c0 + 14) as nat, hs as int);
                        let sts = (c0 + 14 + 3 * hs) as nat;
                        assert(cl == cls && st == sts);
                        assert(clen_derives(cls, inp, sts, cp, accp) && decodes_to(
                            cls,
                            inp,
                            cp,
                            s as int,
                            c1,
                        ) && s == 16 && accp.len() == 0);
                    }
                    return Err(Error::InvalidHuffmanTable);
                }
                let prev = lens[lens.len() - 1];
                let rep = match reader.read_bits(2) {
                    Ok(v) => 3 + v as usize,
                    Err(e) => {
                        proof {
                            assert(clen_derives(cl, inp, st, cp, accp));
                            assert(inp.len() * 8 < cp + 22);
                        }
                        return Err(e);
                    },
                };
                if total - lens.len() < rep {
                    proof {
                        let hs = 4 + bits_value(inp, (c0 + 10) as nat, 4);
                        let cls = header_cl_lens(inp, (c0 + 14) as nat, hs as int);
                        let sts = (c0 + 14 + 3 * hs) as nat;
                        assert(cl == cls && st == sts);
                        assert(clen_derives(cls, inp, sts, cp, accp) && decodes_to(
                            cls,
                            inp,
                            cp,
                            s as int,
                            c1,
                        ) && s == 16 && accp.len() + 3 + bits_value(inp, c1, 2) > (257
                            + bits_value(inp, c0, 5)) + (1 + bits_value(inp, (c0 + 5) as nat, 5)));
                    }
                    return Err(Error::InvalidHuffmanTable);
                }
                let mut k: usize = 0;
                while k < rep
                    invariant
                        k <= rep,
                        lens@.len() == accp.len() + k,
                        accp.len() + rep <= total,
                        prev <= 15,
                        lens@ == accp + Seq::new(k as nat, |i: int| prev),
                        forall|j: int| 0 <= j < lens@.len() ==> lens@[j] <= 15,
                    decreases rep - k,
                {
                    lens.push(prev);
                    k = k + 1;
                    proof {
                        assert(lens@ =~= accp + Seq::new(k as nat, |i: int| prev));
                    }
                }
                proof {
                    assert(lens@ =~= accp + Seq::new(
                        (3 + bits_value(inp, c1, 2)) as nat,
                        |i: int| accp.last(),
                    ));
                    assert(clen_step(cl, inp, cp, accp, reader.cursor(), lens@));
                    lemma_clen_derives_step(cl, inp, st, cp, accp, reader.cursor(), lens@);
                }
            } else if s == 17 {
                let rep = match reader.read_bits(3) {
                    Ok(v) => 3 + v as usize,
                    Err(e) => {
                        proof {
                            assert(clen_derives(cl, inp, st, cp, accp));
                            assert(inp.len() * 8 < cp + 22);
                        }
                        return Err(e);
                    },
                };
                if total - lens.len() < rep {
                    proof {
                        let hs = 4 + bits_value(inp, (c0 + 10) as nat, 4);
                        let cls = header_cl_lens(inp, (c0 + 14) as nat, hs as int);
                        let sts = (c0 + 14 + 3 * hs) as nat;
                        assert(cl == cls && st == sts);
                        assert(clen_derives(cls, inp, sts, cp, accp) && decodes_to(
                            cls,
                            inp,
                            cp,
                            s as int,
                            c1,
                        ) && s == 17 && accp.len() + 3 + bits_value(inp, c1, 3) > (257
                            + bits_value(inp, c0, 5)) + (1 + bits_value(inp, (c0 + 5) as nat, 5)));
                    }
                    return Err(Error::InvalidHuffmanTable);
                }
                let mut k: usize = 0;
                while k < rep
                    invariant
                        k <= rep,
                        lens@.len() == accp.len() + k,
                        accp.len() + rep <= total,
                        lens@ == accp + Seq::new(k as nat, |i: int| 0u8),
                        forall|j: int| 0 <= j < lens@.len() ==> lens@[j] <= 15,
                    decreases rep - k,
                {
                    lens.push(0);
                    k = k + 1;
                    proof {
                        assert(lens@ =~= accp + Seq::new(k as nat, |i: int| 0u8));
                    }
                }
                proof {
                    assert(lens@ =~= accp + Seq::new(
                        (3 + bits_value(inp, c1, 3)) as nat,
                        |i: int| 0u8,
                    ));
                    assert(clen_step(cl, inp, cp, accp, reader.cursor(), lens@));
                    lemma_clen_derives_step(cl, inp, st, cp, accp, reader.cursor(), lens@);
                }
            } else {
                let rep = match reader.read_bits(7) {
                    Ok(v) => 11 + v as usize,
                    Err(e) => {
                        proof {
                            assert(clen_derives(cl, inp, st, cp, accp));
                            assert(inp.len() * 8 < cp + 22);
                        }
                        return Err(e);
                    },
                };
                if total - lens.len() < rep {
                    proof {
                        let hs = 4 + bits_value(inp, (c0 + 10) as nat, 4);
                        let cls = header_cl_lens(inp, (c0 + 14) as nat, hs as int);
                        let sts = (c0 + 14 + 3 * hs) as nat;
                        assert(cl == cls && st == sts);
                        assert(clen_derives(cls, inp, sts, cp, accp) && decodes_to(
                            cls,
                            inp,
                            cp,
                            s as int,
                            c1,
                        ) && s == 18 && accp.len() + 11 + bits_value(inp, c1, 7) > (257
                            + bits_value(inp, c0, 5)) + (1 + bits_value(inp, (c0 + 5) as nat, 5)));
                    }
                    return Err(Error::InvalidHuffmanTable);
                }
                let mut k: usize = 0;
                while k < rep
                    invariant
                        k <= rep,
                        lens@.len() == accp.len() + k,
                        accp.len() + rep <= total,
                        lens@ == accp + Seq::new(k as nat, |i: int| 0u8),
                        forall|j: int| 0 <= j < lens@.len() ==> lens@[j] <= 15,
                    decreases rep - k,
                {
                    lens.push(0);
                    k = k + 1;
                    proof {
                        assert(lens@ =~= accp + Seq::new(k as nat, |i: int| 0u8));
                    }
                }
                proof {
                    assert(lens@ =~= accp + Seq::new(
                        (11 + bits_value(inp, c1, 7)) as nat,
                        |i: int| 0u8,
                    ));
                    assert(clen_step(cl, inp, cp, accp, reader.cursor(), lens@));
                    lemma_clen_derives_step(cl, inp, st, cp, accp, reader.cursor(), lens@);
                }
            }
        }
        let ghost c_end = reader.cursor();
        let ghost all_lens = lens@;
        let mut lit_lens = lens;
        let dist_lens = lit_lens.split_off(hlit);
        proof {
            assert(lit_lens@ == all_lens.subrange(0, hlit as int));
            assert(dist_lens@ == all_lens.subrange(hlit as int, (hlit + hdist) as int));
            assert forall|j: int| 0 <= j < lit_lens@.len() implies lit_lens@[j] <= 15 by {
                assert(lit_lens@[j] == all_lens[j]);
            }
            assert forall|j: int| 0 <= j < dist_lens@.len() implies dist_lens@[j] <= 15 by {
                assert(dist_lens@[j] == all_lens[j + hlit]);
            }
        }
        proof {
            let hs = 4 + bits_value(inp, (c0 + 10) as nat, 4);
            let cls = header_cl_lens(inp, (c0 + 14) as nat, hs as int);
            let sts = (c0 + 14 + 3 * hs) as nat;
            let hlit_s = 257 + bits_value(inp, c0, 5);
            let hdist_s = 1 + bits_value(inp, (c0 + 5) as nat, 5);
            assert(cl == cls && st == sts && hlit == hlit_s && hdist == hdist_s);
            assert(clen_derives(cls, inp, sts, c_end, all_lens) && all_lens.len() == hlit_s
                + hdist_s);
            assert(lit_lens@ == all_lens.subrange(0, hlit_s as int));
            assert(dist_lens@ == all_lens.subrange(hlit_s as int, (hlit_s + hdist_s) as int));
            assert(dist_lens@.len() == hdist_s);
        }
        if !is_complete(&lit_lens) {
            return Err(Error::InvalidHuffmanTable);
        }
        if !is_complete(&dist_lens) && count_present(&dist_lens) > 1 {
            return Err(Error::InvalidHuffmanTable);
        }
        let literal = match Table::new(lit_lens) {
            Ok(t) => t,
            Err(e) => {
                return Err(e);
            },
        };
        let distance = match Table::new(dist_lens) {
            Ok(t) => t,
            Err(e) => {
                return Err(e);
            },
        };
        proof {
            assert(clen_derives(cl, inp, st, c_end, all_lens) && all_lens.len() == (257
                + bits_value(inp, c0, 5)) + (1 + bits_value(inp, (c0 + 5) as nat, 5))
                && literal.lens() == all_lens.subrange(0, hlit as int) && distance.lens()
                == all_lens.subrange(hlit as int, (hlit + hdist) as int));
        }
        Ok(SymbolDecoder { literal, distance })
    }

    /// Decodes one symbol: a literal/length code, then, for length codes,
    /// its extra bits, the distance code and the distance extra bits. On
    /// success the symbol is exactly what the bits at the old cursor
    /// decode to under this codec's tables; the format-error and
    /// input-exhaustion results come exactly under the conditions those
    /// predicates name.
    pub fn decode_symbol(&self, reader: &mut BitReader) -> (r: Result<Symbol, Error>)
        requires
            self.wf(),
            old(reader).wf(),
        ensures
            final(reader).wf(),
            final(reader).input() == old(reader).input(),
            final(reader).cursor() >= old(reader).cursor(),
            match r {
                Ok(sym) => {
                    &&& sym.wf()
                    &&& final(reader).cursor() > old(reader).cursor()
                    &&& symbol_decodes(
                        self.lit_lens(),
                        self.dist_lens(),
                        old(reader).input(),
                        old(reader).cursor(),
                        sym,
                        final(reader).cursor(),
                    )
                },
                Err(e) => match e {
                    Error::InvalidSymbol => symbol_error_invalid(
                        self.lit_lens(),
                        self.dist_lens(),
                        old(reader).input(),
                        old(reader).cursor(),
                    ),
                    Error::UnexpectedEof => symbol_error_eof(
                        self.lit_lens(),
                        self.dist_lens(),
                        old(reader).input(),
                        old(reader).cursor(),
                    ),
                    _ => false,
                },
            },
    {
        let ghost inp = old(reader).input();
        let ghost c0 = old(reader).cursor();
        let s = match self.literal.decode(reader) {
            Ok(s) => s,
            Err(e) => {
                return Err(e);
            },
        };
        let ghost c1 = reader.cursor();
        if s < 256 {
            return Ok(Symbol::Literal(s as u8));
        }
        if s == 256 {
            return Ok(Symbol::EndOfBlock);
        }
        if s > 285 {
            proof {
                assert(decodes_to(self.lit_lens(), inp, c0, s as int, c1) && s > 285);
            }
            return Err(Error::InvalidSymbol);
        }
        let (base, extra) = length_param(s);
        let ebits = match reader.read_bits(extra) {
            Ok(v) => v,
            Err(e) => {
                proof {
                    assert(decodes_to(self.lit_lens(), inp, c0, s as int, c1) && 257 <= s <= 285
                        && inp.len() * 8 < c1 + length_extra_bits(s as int));
                }
                return Err(e);
            },
        };
        let length: u16 = base + ebits;
        let ghost c2 = reader.cursor();
        let ds = match self.distance.decode(reader) {
            Ok(ds) => ds,
            Err(e) => {
                proof {
                    assert(c2 == (c1 + length_extra_bits(s as int)) as nat);
                    assert(decodes_to(self.lit_lens(), inp, c0, s as int, c1) && 257 <= s <= 285);
                }
                return Err(e);
            },
        };
        let ghost c3 = reader.cursor();
        if ds > 29 {
            proof {
                assert(c2 == (c1 + length_extra_bits(s as int)) as nat);
                assert(decodes_to(self.lit_lens(), inp, c0, s as int, c1) && 257 <= s <= 285
                    && decodes_to(
                    self.dist_lens(),
                    inp,
                    (c1 + length_extra_bits(s as int)) as nat,
                    ds as int,
                    c3,
                ) && ds > 29);
            }
            return Err(Error::InvalidSymbol);
        }
        let (dbase, dextra) = distance_param(ds);
        let debits = match reader.read_bits(dextra) {
            Ok(v) => v,
            Err(e) => {
                proof {
                    assert(c2 == (c1 + length_extra_bits(s as int)) as nat);
                    assert(decodes_to(self.lit_lens(), inp, c0, s as int, c1) && 257 <= s <= 285
                        && decodes_to(
                        self.dist_lens(),
                        inp,
                        (c1 + length_extra_bits(s as int)) as nat,
                        ds as int,
                        c3,
                    ) && 0 <= ds <= 29 && inp.len() * 8 < c3 + distance_extra_bits(ds as int));
                }
                return Err(e);
            },
        };
        let distance: u16 = dbase + debits;
        proof {
            assert(c2 == (c1 + length_extra_bits(s as int)) as nat);
            assert(decodes_to(
                self.dist_lens(),
                inp,
                (c1 + length_extra_bits(s as int)) as nat,
                ds as int,
                c3,
            ));
            assert({
                &&& decodes_to(self.lit_lens(), inp, c0, s as int, c1)
                &&& 257 <= s <= 285
                &&& c1 + length_extra_bits(s as int) <= inp.len() * 8
                &&& length == length_base(s as int) + bits_value(
                    inp,
                    c1,
                    length_extra_bits(s as int) as nat,
                )
                &&& decodes_to(self.dist_lens(), inp, c2, ds as int, c3)
                &&& 0 <= ds <= 29
                &&& c3 + distance_extra_bits(ds as int) <= inp.len() * 8
                &&& distance == distance_base(ds as int) + bits_value(
                    inp,
                    c3,
                    distance_extra_bits(ds as int) as nat,
                )
                &&& reader.cursor() == c3 + distance_extra_bits(ds as int)
            });
        }
        Ok(Symbol::Share { length, distance })
    }
}

} // verus!
