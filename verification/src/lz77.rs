//! LZ77 back-reference resolution against the growing output history.
//!
//! A `Share{length, distance}` symbol appends `length` bytes copied from
//! `distance` bytes behind the end of the output. The source region may
//! overlap the destination when `length > distance`: the copy proceeds
//! byte by byte in forward order, so bytes written earlier in the same
//! operation become valid sources for later ones.

use vstd::prelude::*;

use crate::error::Error;

verus! {

/// The format's maximum back-reference distance, which also bounds how much
/// output history must be retained.
pub const MAX_DISTANCE: u16 = 32768;

/// The output after appending `length` bytes, each copied from `distance`
/// bytes behind the current end. Appending one byte at a time makes the
/// overlapping case (`length > distance`) self-describing: each step reads
/// a byte that an earlier step may just have produced.
pub open spec fn back_ref(hist: Seq<u8>, distance: nat, length: nat) -> Seq<u8>
    recommends
        1 <= distance <= hist.len(),
    decreases length,
{
    if length == 0 {
        hist
    } else {
        back_ref(hist.push(hist[hist.len() - distance]), distance, (length - 1) as nat)
    }
}

/// Resolving a back-reference only ever appends bytes.
pub proof fn lemma_back_ref_grows(hist: Seq<u8>, distance: nat, length: nat)
    requires
        1 <= distance <= hist.len(),
    ensures
        back_ref(hist, distance, length).len() == hist.len() + length,
        forall|i: int| 0 <= i < hist.len() ==> back_ref(hist, distance, length)[i] == hist[i],
    decreases length,
{
    if length > 0 {
        let next = hist.push(hist[hist.len() - distance]);
        lemma_back_ref_grows(next, distance, (length - 1) as nat);
        assert(back_ref(hist, distance, length) == back_ref(next, distance, (length - 1) as nat));
        assert forall|i: int| 0 <= i < hist.len() implies back_ref(hist, distance, length)[i]
            == hist[i] by {
            assert(back_ref(next, distance, (length - 1) as nat)[i] == next[i]);
            assert(next[i] == hist[i]);
        }
    }
}

/// Unrolling a back-reference from the far end: the last byte appended is
/// itself a copy from `distance` bytes behind the then-current end.
pub proof fn lemma_back_ref_snoc(hist: Seq<u8>, distance: nat, length: nat)
    requires
        1 <= distance <= hist.len(),
    ensures
        ({
            let prev = back_ref(hist, distance, length);
            back_ref(hist, distance, length + 1) == prev.push(prev[prev.len() - distance])
        }),
    decreases length,
{
    lemma_back_ref_grows(hist, distance, length);
    let next = hist.push(hist[hist.len() - distance]);
    if length == 0 {
        assert(back_ref(hist, distance, 1) == back_ref(next, distance, 0));
        assert(back_ref(hist, distance, 0) == hist);
    } else {
        lemma_back_ref_snoc(next, distance, (length - 1) as nat);
        assert(back_ref(hist, distance, length + 1) == back_ref(next, distance, length));
        assert(back_ref(hist, distance, length) == back_ref(next, distance, (length - 1) as nat));
    }
}

/// Every byte a back-reference appends equals the byte `distance` positions
/// before it in the final output — also when `length > distance`, where the
/// source region overlaps the bytes the same operation produced: the
/// defining property of the forward overlapping copy.
pub proof fn lemma_back_ref_overlap(hist: Seq<u8>, distance: nat, length: nat)
    requires
        1 <= distance <= hist.len(),
    ensures
        forall|j: int|
            hist.len() <= j < hist.len() + length ==> #[trigger] back_ref(hist, distance, length)[j]
                == back_ref(hist, distance, length)[j - distance],
    decreases length,
{
    lemma_back_ref_grows(hist, distance, length);
    if length > 0 {
        let prev = back_ref(hist, distance, (length - 1) as nat);
        lemma_back_ref_overlap(hist, distance, (length - 1) as nat);
        lemma_back_ref_grows(hist, distance, (length - 1) as nat);
        lemma_back_ref_snoc(hist, distance, (length - 1) as nat);
        let cur = back_ref(hist, distance, length);
        assert(cur == prev.push(prev[prev.len() - distance]));
        assert forall|j: int| hist.len() <= j < hist.len() + length implies #[trigger] cur[j]
            == cur[j - distance] by {
            if j < hist.len() + length - 1 {
                assert(prev[j] == prev[j - distance]);
            } else {
                assert(cur[j] == prev[prev.len() - distance]);
            }
        }
    }
}

/// Appends `length` bytes to `buffer`, copied from `distance` bytes behind
/// its end, in forward order so that overlapping copies reproduce repeated
/// runs. Fails, changing nothing, exactly when the back-reference reaches
/// further back than the bytes already produced.
pub fn apply_back_reference(buffer: &mut Vec<u8>, length: u16, distance: u16) -> (r: Result<
    (),
    Error,
>)
    requires
        1 <= distance,
        length <= 258,
    ensures
        match r {
            Ok(()) => {
                &&& distance as nat <= old(buffer)@.len()
                &&& final(buffer)@ == back_ref(old(buffer)@, distance as nat, length as nat)
            },
            Err(e) => {
                &&& e == (Error::DistanceTooFar { available: old(buffer)@.len() as usize, distance })
                &&& old(buffer)@.len() < distance as nat
                &&& final(buffer)@ == old(buffer)@
            },
        },
{
    if buffer.len() < distance as usize {
        return Err(Error::DistanceTooFar { available: buffer.len(), distance });
    }
    let start = buffer.len() - distance as usize;
    let mut i: usize = 0;
    while i < length as usize
        invariant
            1 <= distance,
            distance as nat <= old(buffer)@.len(),
            start == old(buffer)@.len() - distance as nat,
            i <= length,
            buffer@ == back_ref(old(buffer)@, distance as nat, i as nat),
            buffer@.len() == old(buffer)@.len() + i,
        decreases length - i,
    {
        proof {
            lemma_back_ref_snoc(old(buffer)@, distance as nat, i as nat);
        }
        let cur = buffer.len();
        assert(start + i < cur);
        let b = buffer[start + i];
        buffer.push(b);
        i = i + 1;
    }
    Ok(())
}

} // verus!
