//! Canonical Huffman code tables and bit-by-bit symbol decoding.
//!
//! A table is built from a list of per-symbol code lengths; the codes
//! themselves follow from the lengths by the canonical construction of
//! RFC 1951 §3.2.2: shorter codes first, and lexicographic order among
//! symbols of equal length. Building a table from an over-subscribed
//! length set fails rather than decode silently.

use vstd::prelude::*;

use crate::bits::{p2, code_value, lemma_code_value_bound, lemma_p2_mono, BitReader};
use crate::error::Error;

verus! {

/// The longest code length DEFLATE permits.
pub const MAX_CODE_LEN: u8 = 15;

/// How many of the first `k` symbols have code length `l`.
pub open spec fn count_len(lengths: Seq<u8>, l: u8, k: int) -> int
    decreases k,
{
    if k <= 0 {
        0
    } else {
        count_len(lengths, l, k - 1) + if lengths[k - 1] == l {
            1int
        } else {
            0int
        }
    }
}

/// The first canonical code of length `l`: zero for length one, and for
/// every further length the previous first code advanced past all codes of
/// the previous length and doubled, exactly the `next_code` recurrence of
/// RFC 1951 §3.2.2.
pub open spec fn base_code(lengths: Seq<u8>, l: u8) -> int
    decreases l,
{
    if l <= 1 {
        0
    } else {
        2 * (base_code(lengths, (l - 1) as u8) + count_len(
            lengths,
            (l - 1) as u8,
            lengths.len() as int,
        ))
    }
}

/// The canonical code of symbol `s`: the first code of its length, advanced
/// by its rank among earlier symbols of the same length.
pub open spec fn code_of(lengths: Seq<u8>, s: int) -> int {
    base_code(lengths, lengths[s]) + count_len(lengths, lengths[s], s)
}

/// A length set is over-subscribed when, at some length, the canonical
/// codes would run past the available code space.
pub open spec fn oversubscribed(lengths: Seq<u8>) -> bool {
    exists|l: u8|
        1 <= l <= MAX_CODE_LEN && #[trigger] base_code(lengths, l) + count_len(
            lengths,
            l,
            lengths.len() as int,
        ) > p2(l as nat)
}

/// Some symbol's canonical code has length `l` and equals the `l` bits
/// starting at bit `c` of the input.
pub open spec fn has_code_at(lens: Seq<u8>, bytes: Seq<u8>, c: nat, l: int) -> bool {
    exists|s: int|
        0 <= s < lens.len() && lens[s] == l && #[trigger] code_of(lens, s) == code_value(
            bytes,
            c,
            l as nat,
        )
}

/// The Huffman walk starting at bit `c` yields symbol `s` and ends at
/// `c_end`: `s` carries the shortest code matching the bits at `c`, no
/// shorter prefix matches any symbol, and `s` is the first symbol with
/// that code.
pub open spec fn decodes_to(lens: Seq<u8>, bytes: Seq<u8>, c: nat, s: int, c_end: nat) -> bool {
    &&& 0 <= s < lens.len()
    &&& 1 <= lens[s] <= MAX_CODE_LEN
    &&& c_end == c + lens[s]
    &&& c_end <= bytes.len() * 8
    &&& code_of(lens, s) == code_value(bytes, c, lens[s] as nat)
    &&& (forall|l: int| 1 <= l < lens[s] ==> !has_code_at(lens, bytes, c, l))
    &&& (forall|t: int|
        0 <= t < s ==> !(lens[t] == lens[s] && #[trigger] code_of(lens, t) == code_of(lens, s)))
}

/// No prefix of the next fifteen bits at `c` is any symbol's code: the
/// bit sequence is undecodable under this table.
pub open spec fn undecodable_at(lens: Seq<u8>, bytes: Seq<u8>, c: nat) -> bool {
    forall|l: int| 1 <= l <= MAX_CODE_LEN ==> !has_code_at(lens, bytes, c, l)
}

/// The code space the first `k` lengths claim, in units of `1/p2(15)`.
pub open spec fn kraft_sum(lens: Seq<u8>, k: int) -> int
    decreases k,
{
    if k <= 0 {
        0
    } else {
        kraft_sum(lens, k - 1) + if 0 < lens[k - 1] <= 15 {
            p2((15 - lens[k - 1]) as nat) as int
        } else {
            0
        }
    }
}

/// A complete prefix code: the lengths claim the whole code space, so
/// every bit sequence decodes to some symbol.
pub open spec fn complete(lens: Seq<u8>) -> bool {
    kraft_sum(lens, lens.len() as int) == p2(15)
}

/// How many of the first `k` symbols are present (nonzero length).
pub open spec fn present_count(lens: Seq<u8>, k: int) -> int
    decreases k,
{
    if k <= 0 {
        0
    } else {
        present_count(lens, k - 1) + if lens[k - 1] > 0 {
            1int
        } else {
            0int
        }
    }
}

/// `count_len` never counts below zero.
pub proof fn lemma_count_len_nonneg(lengths: Seq<u8>, l: u8, k: int)
    ensures
        0 <= count_len(lengths, l, k),
        k >= 0 ==> count_len(lengths, l, k) <= k,
    decreases k,
{
    if k > 0 {
        lemma_count_len_nonneg(lengths, l, k - 1);
    }
}

/// `count_len` is monotone in the prefix it counts over.
pub proof fn lemma_count_len_mono(lengths: Seq<u8>, l: u8, a: int, b: int)
    requires
        a <= b,
    ensures
        count_len(lengths, l, a) <= count_len(lengths, l, b),
    decreases b - a,
{
    if a < b {
        lemma_count_len_mono(lengths, l, a, b - 1);
    }
}

/// `base_code` is never negative.
pub proof fn lemma_base_code_nonneg(lengths: Seq<u8>, l: u8)
    ensures
        0 <= base_code(lengths, l),
    decreases l,
{
    if l > 1 {
        lemma_base_code_nonneg(lengths, (l - 1) as u8);
        lemma_count_len_nonneg(lengths, (l - 1) as u8, lengths.len() as int);
    }
}

/// Two raised to a small power, as an executable value.
fn pow2_u32(l: usize) -> (r: u32)
    requires
        l <= 16,
    ensures
        r as nat == p2(l as nat),
{
    proof {
        reveal_with_fuel(p2, 17);
    }
    match l {
        0 => 1,
        1 => 2,
        2 => 4,
        3 => 8,
        4 => 16,
        5 => 32,
        6 => 64,
        7 => 128,
        8 => 256,
        9 => 512,
        10 => 1024,
        11 => 2048,
        12 => 4096,
        13 => 8192,
        14 => 16384,
        15 => 32768,
        _ => 65536,
    }
}

/// Whether a length set forms a complete prefix code: its Kraft sum
/// exhausts the code space exactly.
pub fn is_complete(lens: &Vec<u8>) -> (r: bool)
    requires
        lens@.len() <= 320,
        forall|i: int| 0 <= i < lens@.len() ==> lens@[i] <= 15,
    ensures
        r == complete(lens@),
{
    let n = lens.len();
    let mut sum: u64 = 0;
    let mut i: usize = 0;
    while i < n
        invariant
            n == lens@.len() <= 320,
            forall|j: int| 0 <= j < lens@.len() ==> lens@[j] <= 15,
            i <= n,
            sum == kraft_sum(lens@, i as int),
            sum <= i * 16384,
        decreases n - i,
    {
        let l = lens[i];
        if l > 0 {
            proof {
                reveal_with_fuel(p2, 17);
                lemma_p2_mono((15 - l) as nat, 14);
                assert(p2(14) == 16384);
            }
            sum = sum + pow2_u32((15 - l) as usize) as u64;
        }
        i = i + 1;
    }
    proof {
        reveal_with_fuel(p2, 17);
        assert(p2(15) == 32768);
    }
    sum == 32768
}

/// How many symbols of a length set are present (nonzero length).
pub fn count_present(lens: &Vec<u8>) -> (r: usize)
    ensures
        r == present_count(lens@, lens@.len() as int),
{
    let n = lens.len();
    let mut count: usize = 0;
    let mut i: usize = 0;
    while i < n
        invariant
            n == lens@.len(),
            i <= n,
            count == present_count(lens@, i as int),
            count <= i,
        decreases n - i,
    {
        if lens[i] > 0 {
            count = count + 1;
        }
        i = i + 1;
    }
    count
}

/// A canonical Huffman code table: per-symbol code lengths (zero marks an
/// absent symbol) together with the canonical code of every present symbol.
#[derive(Debug)]
pub struct Table {
    lengths: Vec<u8>,
    codes: Vec<u16>,
}

impl Table {
    /// The per-symbol code lengths the table was built from.
    pub closed spec fn lens(self) -> Seq<u8> {
        self.lengths@
    }

    /// The lengths are in range, the set is not over-subscribed, and every
    /// present symbol carries its canonical code, which fits its length.
    pub closed spec fn wf(self) -> bool {
        &&& self.lengths@.len() <= 288
        &&& (forall|i: int| 0 <= i < self.lengths@.len() ==> self.lengths@[i] <= MAX_CODE_LEN)
        &&& self.codes@.len() == self.lengths@.len()
        &&& !oversubscribed(self.lengths@)
        &&& (forall|s: int|
            0 <= s < self.lengths@.len() && self.lengths@[s] > 0 ==> self.codes@[s]
                == #[trigger] code_of(self.lengths@, s) && code_of(self.lengths@, s) < p2(
                self.lengths@[s] as nat,
            ))
    }

    /// Builds the canonical table for a length set, or fails with a format
    /// error exactly when the set is over-subscribed.
    pub fn new(lengths: Vec<u8>) -> (r: Result<Table, Error>)
        requires
            lengths@.len() <= 288,
            forall|i: int| 0 <= i < lengths@.len() ==> lengths@[i] <= MAX_CODE_LEN,
        ensures
            match r {
                Ok(t) => t.wf() && t.lens() == lengths@ && !oversubscribed(lengths@),
                Err(e) => e == Error::InvalidHuffmanTable && oversubscribed(lengths@),
            },
    {
        let ghost all: int = lengths@.len() as int;
        let n = lengths.len();
        // Count how many symbols carry each length.
        let mut bl_count: Vec<usize> = Vec::new();
        let mut j: usize = 0;
        while j < 16
            invariant
                bl_count@.len() == j,
                j <= 16,
                forall|t: int| 0 <= t < j ==> bl_count@[t] == 0,
            decreases 16 - j,
        {
            bl_count.push(0);
            j = j + 1;
        }
        let mut s: usize = 0;
        while s < n
            invariant
                bl_count@.len() == 16,
                n == lengths@.len() <= 288,
                s <= n,
                forall|i: int| 0 <= i < lengths@.len() ==> lengths@[i] <= MAX_CODE_LEN,
                forall|t: int|
                    0 <= t < 16 ==> bl_count@[t] == count_len(lengths@, t as u8, s as int),
                forall|t: int| 0 <= t < 16 ==> bl_count@[t] <= s,
            decreases n - s,
        {
            let l = lengths[s] as usize;
            bl_count[l] = bl_count[l] + 1;
            s = s + 1;
        }
        // Zero-length entries mark absent symbols; they claim no code space.
        bl_count[0] = 0;
        // Derive the first code of each length, rejecting over-subscription.
        let mut next_code: Vec<u16> = Vec::new();
        next_code.push(0);
        let mut prev_end: u32 = 0;
        let mut l: usize = 1;
        while l <= 15
            invariant
                1 <= l <= 16,
                bl_count@.len() == 16,
                n == lengths@.len() <= 288,
                all == lengths@.len() as int,
                bl_count@[0] == 0,
                forall|t: int| 1 <= t < 16 ==> bl_count@[t] == count_len(lengths@, t as u8, all),
                forall|t: int| 1 <= t < 16 ==> bl_count@[t] <= n,
                next_code@.len() == l,
                forall|t: int| 1 <= t < l ==> next_code@[t] == base_code(lengths@, t as u8),
                forall|t: u8|
                    1 <= t < l ==> #[trigger] base_code(lengths@, t) + count_len(lengths@, t, all)
                        <= p2(t as nat),
                l == 1 ==> prev_end == 0,
                l > 1 ==> prev_end == base_code(lengths@, (l - 1) as u8) + count_len(
                    lengths@,
                    (l - 1) as u8,
                    all,
                ),
                prev_end <= p2((l - 1) as nat),
            decreases 16 - l,
        {
            proof {
                reveal_with_fuel(p2, 17);
                lemma_p2_mono((l - 1) as nat, 14);
                assert(p2(14) == 16384);
            }
            let base: u32 = 2 * prev_end;
            proof {
                assert(base == base_code(lengths@, l as u8));
                lemma_count_len_nonneg(lengths@, l as u8, all);
            }
            let cnt = bl_count[l] as u32;
            let limit = pow2_u32(l);
            if base + cnt > limit {
                proof {
                    assert(1 <= l as u8 <= MAX_CODE_LEN && base_code(lengths@, l as u8)
                        + count_len(lengths@, l as u8, lengths@.len() as int) > p2(
                        (l as u8) as nat,
                    ));
                }
                return Err(Error::InvalidHuffmanTable);
            }
            next_code.push(base as u16);
            prev_end = base + cnt;
            l = l + 1;
        }
        proof {
            assert(!oversubscribed(lengths@));
        }
        // Assign each present symbol the next code of its length.
        let mut codes: Vec<u16> = Vec::new();
        let mut next: Vec<u16> = next_code;
        let mut s: usize = 0;
        while s < n
            invariant
                n == lengths@.len() <= 288,
                all == lengths@.len() as int,
                s <= n,
                next@.len() == 16,
                forall|i: int| 0 <= i < lengths@.len() ==> lengths@[i] <= MAX_CODE_LEN,
                forall|t: u8|
                    1 <= t <= 15 ==> #[trigger] base_code(lengths@, t) + count_len(lengths@, t, all)
                        <= p2(t as nat),
                forall|t: int|
                    1 <= t < 16 ==> next@[t] == base_code(lengths@, t as u8) + count_len(
                        lengths@,
                        t as u8,
                        s as int,
                    ),
                codes@.len() == s,
                forall|t: int|
                    0 <= t < s && lengths@[t] > 0 ==> codes@[t] == #[trigger] code_of(lengths@, t)
                        && code_of(lengths@, t) < p2(lengths@[t] as nat),
                !oversubscribed(lengths@),
            decreases n - s,
        {
            let l = lengths[s];
            if l == 0 {
                codes.push(0);
            } else {
                proof {
                    lemma_base_code_nonneg(lengths@, l);
                    lemma_count_len_nonneg(lengths@, l, s as int);
                    lemma_count_len_mono(lengths@, l, s as int + 1, all);
                    assert(count_len(lengths@, l, s as int + 1) == count_len(lengths@, l, s as int)
                        + 1);
                    lemma_p2_mono(l as nat, 15);
                    reveal_with_fuel(p2, 17);
                    assert(p2(15) == 32768);
                }
                let c = next[l as usize];
                codes.push(c);
                next[l as usize] = c + 1;
            }
            s = s + 1;
        }
        Ok(Table { lengths, codes })
    }

    /// Finds the first symbol, if any, whose canonical code of length
    /// `len` is exactly `code`.
    fn lookup(&self, code: u16, len: u8) -> (r: Option<usize>)
        requires
            self.wf(),
            1 <= len,
        ensures
            match r {
                Some(s) => s < self.lens().len() && self.lens()[s as int] == len && code_of(
                    self.lens(),
                    s as int,
                ) == code && (forall|t: int|
                    0 <= t < s ==> !(self.lens()[t] == len && #[trigger] code_of(self.lens(), t)
                        == code)),
                None => forall|t: int|
                    0 <= t < self.lens().len() ==> !(self.lens()[t] == len && #[trigger] code_of(
                        self.lens(),
                        t,
                    ) == code),
            },
    {
        let mut s: usize = 0;
        let n = self.lengths.len();
        while s < n
            invariant
                self.wf(),
                1 <= len,
                n == self.lens().len(),
                s <= n,
                forall|t: int|
                    0 <= t < s ==> !(self.lens()[t] == len && #[trigger] code_of(self.lens(), t)
                        == code),
            decreases n - s,
        {
            proof {
                assert(self.lengths@[s as int] > 0 ==> self.codes@[s as int] == code_of(
                    self.lengths@,
                    s as int,
                ));
            }
            if self.lengths[s] == len && self.codes[s] == code {
                return Some(s);
            }
            s = s + 1;
        }
        None
    }

    /// Decodes one symbol by reading bits most-significant-bit-first until
    /// the accumulated bits are the canonical code of some symbol. Success
    /// is owed whenever a prefix of the next bits is some symbol's code:
    /// the result is the first symbol of the shortest matching code, the
    /// undecodable-symbol error comes exactly when no prefix of the next
    /// fifteen readable bits matches, and input exhaustion only when the
    /// input ends before a match is possible.
    pub fn decode(&self, reader: &mut BitReader) -> (r: Result<usize, Error>)
        requires
            self.wf(),
            old(reader).wf(),
        ensures
            final(reader).wf(),
            final(reader).input() == old(reader).input(),
            final(reader).cursor() >= old(reader).cursor(),
            match r {
                Ok(s) => {
                    &&& s < self.lens().len()
                    &&& 1 <= self.lens()[s as int] <= MAX_CODE_LEN
                    &&& final(reader).cursor() == old(reader).cursor() + self.lens()[s as int]
                    &&& decodes_to(
                        self.lens(),
                        old(reader).input(),
                        old(reader).cursor(),
                        s as int,
                        final(reader).cursor(),
                    )
                },
                Err(e) => match e {
                    Error::UnexpectedEof => {
                        &&& final(reader).cursor() == old(reader).input().len() * 8
                        &&& old(reader).input().len() * 8 < old(reader).cursor() + MAX_CODE_LEN
                        &&& forall|l: int|
                            1 <= l && old(reader).cursor() + l <= old(reader).input().len() * 8
                                ==> !has_code_at(
                                self.lens(),
                                old(reader).input(),
                                old(reader).cursor(),
                                l,
                            )
                    },
                    Error::InvalidSymbol => {
                        &&& old(reader).cursor() + MAX_CODE_LEN <= old(reader).input().len() * 8
                        &&& undecodable_at(self.lens(), old(reader).input(), old(reader).cursor())
                    },
                    _ => false,
                },
            },
    {
        let mut code: u16 = 0;
        let mut len: u8 = 0;
        loop
            invariant
                self.wf(),
                reader.wf(),
                reader.input() == old(reader).input(),
                len <= MAX_CODE_LEN,
                reader.cursor() == old(reader).cursor() + len,
                code as nat == code_value(reader.input(), old(reader).cursor(), len as nat),
                (code as nat) < p2(len as nat),
                forall|l: int|
                    1 <= l <= len ==> !has_code_at(
                        self.lens(),
                        reader.input(),
                        old(reader).cursor(),
                        l,
                    ),
            decreases MAX_CODE_LEN - len,
        {
            if len >= MAX_CODE_LEN {
                proof {
                    reader.lemma_cursor_in_input();
                }
                return Err(Error::InvalidSymbol);
            }
            let b = match reader.read_bit() {
                Ok(b) => b,
                Err(e) => {
                    return Err(e);
                },
            };
            proof {
                lemma_code_value_bound(reader.input(), old(reader).cursor(), len as nat + 1);
                lemma_p2_mono(len as nat + 1, 15);
                reveal_with_fuel(p2, 17);
                assert(p2(15) == 32768);
            }
            code = 2 * code + (if b {
                1
            } else {
                0
            });
            len = len + 1;
            if let Some(s) = self.lookup(code, len) {
                return Ok(s);
            }
            proof {
                assert(!has_code_at(self.lens(), reader.input(), old(reader).cursor(), len as int))
                    by {
                    if has_code_at(self.lens(), reader.input(), old(reader).cursor(), len as int) {
                        let w = choose|w: int|
                            0 <= w < self.lens().len() && self.lens()[w] == len as int
                                && #[trigger] code_of(self.lens(), w) == code_value(
                                reader.input(),
                                old(reader).cursor(),
                                len as nat,
                            );
                        assert(!(self.lens()[w] == len && code_of(self.lens(), w) == code));
                    }
                }
            }
        }
    }
}

} // verus!
