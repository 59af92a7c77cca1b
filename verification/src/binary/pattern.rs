//! Bit patterns: which bits of which byte carry the message.
//!
//! A pattern is a function from the index of a byte to the mask of that
//! byte, or to `None` from the index on at which the pattern ends. In the
//! contracts a pattern is spoken of through the sequence of its answers.

use vstd::prelude::*;
use super::bits::weight;

verus! {

/// Whether `pattern` may be asked for the mask at every index.
pub open spec fn callable<P: FnMut(usize) -> Option<u8>>(pattern: P) -> bool {
    forall|index: usize| call_requires(pattern, (index,))
}

/// Whether `masks` holds the answers of `pattern`: at each index below the
/// length of `masks`, the pattern can answer nothing but the entry there.
pub open spec fn follows<P: FnMut(usize) -> Option<u8>>(
    pattern: P,
    masks: Seq<Option<u8>>,
) -> bool {
    forall|index: usize, mask: Option<u8>|
        index < masks.len() && call_ensures(pattern, (index,), mask) ==> mask == masks[index as int]
}

/// How many masks there are from index `from` on before the pattern ends.
pub open spec fn reach_from(masks: Seq<Option<u8>>, from: int) -> nat
    decreases masks.len() - from,
{
    if from < 0 || from >= masks.len() {
        0
    } else {
        match masks[from] {
            None => 0,
            Some(_) => 1 + reach_from(masks, from + 1),
        }
    }
}

/// How many bytes the pattern covers: the index at which it ends, or the
/// length of `masks` where it does not end.
pub open spec fn reach(masks: Seq<Option<u8>>) -> nat {
    reach_from(masks, 0)
}

/// How many bits the masks before index `index` select.
pub open spec fn capacity_before(masks: Seq<Option<u8>>, index: int) -> nat
    decreases index,
{
    if index <= 0 || index > masks.len() {
        0
    } else {
        capacity_before(masks, index - 1) + match masks[index - 1] {
            None => 0nat,
            Some(mask) => weight(mask),
        }
    }
}

/// How many message bits the bytes that the pattern covers can carry: as
/// many as the masks select before the pattern ends.
pub open spec fn capacity(masks: Seq<Option<u8>>) -> nat {
    capacity_before(masks, reach(masks) as int)
}

/// The pattern covers no more bytes than there are.
pub proof fn lemma_reach_bound(masks: Seq<Option<u8>>, from: int)
    requires
        0 <= from <= masks.len(),
    ensures
        reach_from(masks, from) <= masks.len() - from,
    decreases masks.len() - from,
{
    if from < masks.len() && masks[from] is Some {
        lemma_reach_bound(masks, from + 1);
    }
}

/// The index at which the pattern ends is not below an index before which
/// every mask is there.
pub proof fn lemma_reach_from(masks: Seq<Option<u8>>, from: int, index: int)
    requires
        0 <= from <= index <= masks.len(),
        forall|k: int| from <= k < index ==> masks[k] is Some,
    ensures
        reach_from(masks, from) == index - from + reach_from(masks, index),
    decreases index - from,
{
    if from < index {
        lemma_reach_from(masks, from + 1, index);
    }
}

/// Every mask before the index at which the pattern ends is there, and the
/// mask at that index is not.
pub proof fn lemma_reach_masks(masks: Seq<Option<u8>>, from: int, index: int)
    requires
        0 <= from <= index < masks.len(),
    ensures
        index < from + reach_from(masks, from) ==> masks[index] is Some,
        index == from + reach_from(masks, from) ==> masks[index] is None,
    decreases index - from,
{
    if from < index && masks[from] is Some {
        lemma_reach_masks(masks, from + 1, index);
    }
}

/// The masks before a later index select no fewer bits than those before
/// an earlier one.
pub proof fn lemma_capacity_before_grows(masks: Seq<Option<u8>>, low: int, high: int)
    requires
        0 <= low <= high <= masks.len(),
    ensures
        capacity_before(masks, low) <= capacity_before(masks, high),
    decreases high - low,
{
    if low < high {
        lemma_capacity_before_grows(masks, low, high - 1);
    }
}

} // verus!
