//! Bits of a single byte: which of them a mask selects, and in what order.
//!
//! A mask selects the positions at which it has a bit set. The bits of a
//! message take the selected positions of a byte in ascending order, and
//! are read from them in the same order.
//!
//! The functions [`bit`], [`rank`], [`lowest_from`], [`nth_one`] and
//! [`byte_of`] are written out for the eight positions of a byte and kept
//! opaque, so that proofs go by the lemmas of this module. Where the value
//! of one of them is wanted for given arguments, `reveal` lays it open.

use vstd::prelude::*;

verus! {

/// The value that a set bit has at position `pos` of a byte.
pub open spec fn place(pos: int) -> int {
    if pos == 0 {
        1
    } else if pos == 1 {
        2
    } else if pos == 2 {
        4
    } else if pos == 3 {
        8
    } else if pos == 4 {
        16
    } else if pos == 5 {
        32
    } else if pos == 6 {
        64
    } else {
        128
    }
}

/// Whether the bit of `byte` at position `pos` is set; position 0 is the
/// least significant one, and a byte has no position but 0 to 7.
#[verifier::opaque]
pub open spec fn bit(byte: u8, pos: int) -> bool {
    0 <= pos < 8 && (byte as int / place(pos)) % 2 == 1
}

/// One for a bit that is set, zero for one that is clear.
pub open spec fn unit(on: bool) -> nat {
    if on {
        1
    } else {
        0
    }
}

/// The number of bits of `mask` that are set below position `pos`.
#[verifier::opaque]
pub open spec fn rank(mask: u8, pos: int) -> nat {
    unit(0 < pos && bit(mask, 0)) + unit(1 < pos && bit(mask, 1)) + unit(2 < pos && bit(mask, 2))
        + unit(3 < pos && bit(mask, 3)) + unit(4 < pos && bit(mask, 4)) + unit(
        5 < pos && bit(mask, 5),
    ) + unit(6 < pos && bit(mask, 6)) + unit(7 < pos && bit(mask, 7))
}

/// The number of bits that `mask` selects.
pub open spec fn weight(mask: u8) -> nat {
    rank(mask, 8)
}

/// The lowest position at or above `from` that `mask` selects, or 8 where it
/// selects none there.
#[verifier::opaque]
pub open spec fn lowest_from(mask: u8, from: int) -> int {
    if from <= 0 && bit(mask, 0) {
        0
    } else if from <= 1 && bit(mask, 1) {
        1
    } else if from <= 2 && bit(mask, 2) {
        2
    } else if from <= 3 && bit(mask, 3) {
        3
    } else if from <= 4 && bit(mask, 4) {
        4
    } else if from <= 5 && bit(mask, 5) {
        5
    } else if from <= 6 && bit(mask, 6) {
        6
    } else if from <= 7 && bit(mask, 7) {
        7
    } else {
        8
    }
}

/// The position that `mask` selects and below which it selects `nth` others,
/// or 8 where it selects no more than `nth` positions.
#[verifier::opaque]
pub open spec fn nth_one(mask: u8, nth: int) -> int {
    if bit(mask, 0) && rank(mask, 0) == nth {
        0
    } else if bit(mask, 1) && rank(mask, 1) == nth {
        1
    } else if bit(mask, 2) && rank(mask, 2) == nth {
        2
    } else if bit(mask, 3) && rank(mask, 3) == nth {
        3
    } else if bit(mask, 4) && rank(mask, 4) == nth {
        4
    } else if bit(mask, 5) && rank(mask, 5) == nth {
        5
    } else if bit(mask, 6) && rank(mask, 6) == nth {
        6
    } else if bit(mask, 7) && rank(mask, 7) == nth {
        7
    } else {
        8
    }
}

/// The positions at or above `from` that `mask` selects, in ascending order.
pub open spec fn ones_from(mask: u8, from: int) -> Seq<usize>
    decreases 8 - from,
{
    if from < 0 || from >= 8 {
        Seq::empty()
    } else if bit(mask, from) {
        seq![from as usize] + ones_from(mask, from + 1)
    } else {
        ones_from(mask, from + 1)
    }
}

/// Whether `bits` holds a set bit at index `k`; beyond its end it holds none.
pub open spec fn bit_at(bits: Seq<bool>, k: int) -> bool {
    0 <= k < bits.len() && bits[k]
}

/// The byte whose bit at position `k` is `bits[k]`, for the first eight
/// entries of `bits`; where `bits` is shorter, the bit is clear.
#[verifier::opaque]
pub open spec fn byte_of(bits: Seq<bool>) -> u8 {
    (unit(bit_at(bits, 0)) + 2 * unit(bit_at(bits, 1)) + 4 * unit(bit_at(bits, 2)) + 8 * unit(
        bit_at(bits, 3),
    ) + 16 * unit(bit_at(bits, 4)) + 32 * unit(bit_at(bits, 5)) + 64 * unit(bit_at(bits, 6)) + 128
        * unit(bit_at(bits, 7))) as u8
}

/// The eight bits of `byte`, least significant first.
pub open spec fn bits_of_byte(byte: u8) -> Seq<bool> {
    Seq::new(8, |k: int| bit(byte, k))
}

/// The bits of `byte` that `mask` selects, in ascending order of position.
pub open spec fn selected(byte: u8, mask: u8) -> Seq<bool> {
    Seq::new(weight(mask), |nth: int| bit(byte, nth_one(mask, nth)))
}

/// The bits of `byte` at the positions below `pos` that `mask` selects, in
/// ascending order of position.
pub open spec fn selected_below(byte: u8, mask: u8, pos: int) -> Seq<bool> {
    Seq::new(rank(mask, pos), |nth: int| bit(byte, nth_one(mask, nth)))
}

/// The bit at position `pos` of the byte that carries `bits` in `cover`
/// under `mask`.
pub open spec fn merged_bit(cover: u8, mask: u8, bits: Seq<bool>, pos: int) -> bool {
    if bit(mask, pos) {
        bit_at(bits, rank(mask, pos) as int)
    } else {
        bit(cover, pos)
    }
}

/// The byte that carries `bits` in `cover` under `mask`: outside the mask it
/// has the bits of `cover`; the selected positions hold, in ascending order,
/// the entries of `bits` from the first on, and clear bits once `bits` has
/// run out.
pub open spec fn merged(cover: u8, mask: u8, bits: Seq<bool>) -> u8 {
    byte_of(Seq::new(8, |k: int| merged_bit(cover, mask, bits, k)))
}

/// The ascending walk over the positions that a mask selects.
pub struct Ones {
    byte: u8,
    offset: usize,
}

impl Ones {
    #[verifier::type_invariant]
    spec fn in_range(self) -> bool {
        self.offset <= 8
    }

    /// The mask that is walked.
    pub closed spec fn mask(self) -> u8 {
        self.byte
    }

    /// The position at which the walk goes on: 0 to 8.
    pub closed spec fn offset(self) -> int {
        self.offset as int
    }

    /// The positions still to come.
    pub open spec fn remaining(self) -> Seq<usize> {
        ones_from(self.mask(), self.offset())
    }

    /// The next position that the mask selects, if there is one left: the
    /// lowest one that the walk has not passed. The walk goes on behind it.
    pub fn next(&mut self) -> (pos: Option<usize>)
        ensures
            final(self).mask() == old(self).mask(),
            pos == if lowest_from(old(self).mask(), old(self).offset()) < 8 {
                Some(lowest_from(old(self).mask(), old(self).offset()) as usize)
            } else {
                None
            },
            final(self).offset() == if lowest_from(old(self).mask(), old(self).offset()) < 8 {
                lowest_from(old(self).mask(), old(self).offset()) + 1
            } else {
                8
            },
            old(self).remaining() == match pos {
                Some(p) => seq![p] + final(self).remaining(),
                None => Seq::empty(),
            },
    {
        proof {
            use_type_invariant(&*self);
        }
        let ghost start = self.offset as int;
        while self.offset < 8
            invariant
                self.byte == old(self).byte,
                start <= self.offset <= 8,
                start == old(self).offset,
                forall|q: int| start <= q < self.offset ==> !bit(self.byte, q),
                ones_from(self.byte, start) == ones_from(self.byte, self.offset as int),
            decreases 8 - self.offset,
        {
            let shift: u8 = self.offset as u8;
            let found: bool = self.byte & (1u8 << shift) != 0;
            proof {
                let b = self.byte;
                assert((b & (1u8 << shift) != 0) == ((b >> shift) & 1u8 == 1u8)) by (bit_vector)
                    requires
                        shift < 8,
                ;
                lemma_bit_shift(b, shift as int);
            }
            if found {
                let here: usize = self.offset;
                self.offset = here + 1;
                proof {
                    lemma_lowest_from(self.byte, start);
                }
                return Some(here);
            }
            self.offset = self.offset + 1;
        }
        proof {
            lemma_lowest_from(self.byte, start);
        }
        None
    }
}

impl From<u8> for Ones {
    /// Starts the walk over `value` at position 0.
    fn from(value: u8) -> (ones: Self)
        ensures
            ones.mask() == value,
            ones.offset() == 0,
    {
        Ones { byte: value, offset: 0 }
    }
}

impl vstd::std_specs::convert::FromSpecImpl<u8> for Ones {
    open spec fn obeys_from_spec() -> bool {
        true
    }

    closed spec fn from_spec(v: u8) -> Self {
        Ones { byte: v, offset: 0 }
    }
}

/// The bit at a position is the bit that a shift by the position brings to
/// position 0.
pub proof fn lemma_bit_shift(byte: u8, pos: int)
    requires
        0 <= pos < 8,
    ensures
        bit(byte, pos) == ((byte >> (pos as u8)) & 1u8 == 1u8),
{
    reveal(bit);
    let shift = pos as u8;
    let value = place(pos) as u8;
    assert(value == 1u8 << shift) by (bit_vector)
        requires
            shift == 0 && value == 1 || shift == 1 && value == 2 || shift == 2 && value == 4
                || shift == 3 && value == 8 || shift == 4 && value == 16 || shift == 5 && value
                == 32 || shift == 6 && value == 64 || shift == 7 && value == 128,
    ;
    assert(((byte / value) % 2u8 == 1u8) == ((byte >> shift) & 1u8 == 1u8)) by (bit_vector)
        requires
            shift < 8,
            value == 1u8 << shift,
    ;
}

/// The lowest selected position at or above a position is selected, and no
/// position between the two is.
pub proof fn lemma_lowest_from(mask: u8, from: int)
    requires
        0 <= from <= 8,
    ensures
        from <= lowest_from(mask, from) <= 8,
        lowest_from(mask, from) < 8 ==> bit(mask, lowest_from(mask, from)),
        forall|q: int| from <= q < lowest_from(mask, from) ==> !bit(mask, q),
{
    reveal(lowest_from);
    reveal(bit);
}

/// The rank at the position behind a position: one more where the position
/// is selected, and the same where it is not.
pub proof fn lemma_rank_step(mask: u8, pos: int)
    requires
        0 <= pos,
    ensures
        rank(mask, 0) == 0,
        rank(mask, pos + 1) == rank(mask, pos) + unit(bit(mask, pos)),
{
    reveal(rank);
    reveal(bit);
}

/// The positions that a walk has still to come: those from its offset on
/// that the mask selects, each of them once and in ascending order, so that
/// a whole walk has as many positions as the mask has bits set.
pub proof fn law_ones_ascending(mask: u8, from: int)
    requires
        0 <= from <= 8,
    ensures
        ones_from(mask, from).len() == weight(mask) - rank(mask, from),
        forall|i: int|
            0 <= i < ones_from(mask, from).len() ==> {
                let pos = #[trigger] ones_from(mask, from)[i];
                &&& from <= pos < 8
                &&& bit(mask, pos as int)
                &&& rank(mask, pos as int) == rank(mask, from) + i
            },
        forall|i: int, j: int|
            0 <= i < j < ones_from(mask, from).len() ==> ones_from(mask, from)[i] < ones_from(
                mask,
                from,
            )[j],
    decreases 8 - from,
{
    if from < 8 {
        law_ones_ascending(mask, from + 1);
        lemma_rank_step(mask, from);
        let later = ones_from(mask, from + 1);
        let all = ones_from(mask, from);
        if bit(mask, from) {
            assert(all == seq![from as usize] + later);
            assert forall|i: int| 0 <= i < all.len() implies {
                let pos = #[trigger] all[i];
                &&& from <= pos < 8
                &&& bit(mask, pos as int)
                &&& rank(mask, pos as int) == rank(mask, from) + i
            } by {
                if i > 0 {
                    assert(all[i] == later[i - 1]);
                }
            }
            assert forall|i: int, j: int| 0 <= i < j < all.len() implies all[i] < all[j] by {
                assert(all[j] == later[j - 1]);
                if i > 0 {
                    assert(all[i] == later[i - 1]);
                }
            }
        }
    }
}

/// The byte assembled from bits is the sum of the values that they have at
/// their positions.
proof fn lemma_byte_of_sum(bits: Seq<bool>) -> (sum: (u8, u8, u8, u8, u8, u8, u8, u8))
    ensures
        sum.0 == unit(bit_at(bits, 0)),
        sum.1 == unit(bit_at(bits, 1)),
        sum.2 == unit(bit_at(bits, 2)),
        sum.3 == unit(bit_at(bits, 3)),
        sum.4 == unit(bit_at(bits, 4)),
        sum.5 == unit(bit_at(bits, 5)),
        sum.6 == unit(bit_at(bits, 6)),
        sum.7 == unit(bit_at(bits, 7)),
        byte_of(bits) == sum.0 + 2 * sum.1 + 4 * sum.2 + 8 * sum.3 + 16 * sum.4 + 32 * sum.5 + 64
            * sum.6 + 128 * sum.7,
{
    reveal(byte_of);
    (
        unit(bit_at(bits, 0)) as u8,
        unit(bit_at(bits, 1)) as u8,
        unit(bit_at(bits, 2)) as u8,
        unit(bit_at(bits, 3)) as u8,
        unit(bit_at(bits, 4)) as u8,
        unit(bit_at(bits, 5)) as u8,
        unit(bit_at(bits, 6)) as u8,
        unit(bit_at(bits, 7)) as u8,
    )
}

/// The bit of a byte at a position, by the quotient of the byte and the
/// value of the position.
proof fn lemma_bit_quotient(byte: u8, pos: int, value: u8)
    requires
        0 <= pos < 8,
        value == place(pos),
    ensures
        bit(byte, pos) == ((byte / value) % 2 == 1),
{
    reveal(bit);
}

/// A byte assembled from bits holds each of them at its position.
pub proof fn lemma_byte_of_bit(bits: Seq<bool>, pos: int)
    requires
        0 <= pos < 8,
    ensures
        bit(byte_of(bits), pos) == bit_at(bits, pos),
{
    let whole = byte_of(bits);
    let (b0, b1, b2, b3, b4, b5, b6, b7) = lemma_byte_of_sum(bits);
    assert((whole / 1u8) % 2u8 == b0 && (whole / 2u8) % 2u8 == b1 && (whole / 4u8) % 2u8 == b2 && (
    whole / 8u8) % 2u8 == b3 && (whole / 16u8) % 2u8 == b4 && (whole / 32u8) % 2u8 == b5 && (whole
        / 64u8) % 2u8 == b6 && (whole / 128u8) % 2u8 == b7) by (bit_vector)
        requires
            whole == b0 + 2 * b1 + 4 * b2 + 8 * b3 + 16 * b4 + 32 * b5 + 64 * b6 + 128 * b7,
            b0 <= 1,
            b1 <= 1,
            b2 <= 1,
            b3 <= 1,
            b4 <= 1,
            b5 <= 1,
            b6 <= 1,
            b7 <= 1,
    ;
    lemma_bit_quotient(whole, pos, place(pos) as u8);
}

/// Two bytes with the same bit at each of the eight positions are equal.
pub proof fn lemma_byte_by_bits(a: u8, b: u8)
    requires
        forall|pos: int| 0 <= pos < 8 ==> bit(a, pos) == bit(b, pos),
    ensures
        a == b,
{
    assert(bit(a, 0) == bit(b, 0));
    assert(bit(a, 1) == bit(b, 1));
    assert(bit(a, 2) == bit(b, 2));
    assert(bit(a, 3) == bit(b, 3));
    assert(bit(a, 4) == bit(b, 4));
    assert(bit(a, 5) == bit(b, 5));
    assert(bit(a, 6) == bit(b, 6));
    assert(bit(a, 7) == bit(b, 7));
    lemma_bit_shift(a, 0);
    lemma_bit_shift(a, 1);
    lemma_bit_shift(a, 2);
    lemma_bit_shift(a, 3);
    lemma_bit_shift(a, 4);
    lemma_bit_shift(a, 5);
    lemma_bit_shift(a, 6);
    lemma_bit_shift(a, 7);
    lemma_bit_shift(b, 0);
    lemma_bit_shift(b, 1);
    lemma_bit_shift(b, 2);
    lemma_bit_shift(b, 3);
    lemma_bit_shift(b, 4);
    lemma_bit_shift(b, 5);
    lemma_bit_shift(b, 6);
    lemma_bit_shift(b, 7);
    assert(a == b) by (bit_vector)
        requires
            ((a >> 0u8) & 1u8 == 1u8) == ((b >> 0u8) & 1u8 == 1u8),
            ((a >> 1u8) & 1u8 == 1u8) == ((b >> 1u8) & 1u8 == 1u8),
            ((a >> 2u8) & 1u8 == 1u8) == ((b >> 2u8) & 1u8 == 1u8),
            ((a >> 3u8) & 1u8 == 1u8) == ((b >> 3u8) & 1u8 == 1u8),
            ((a >> 4u8) & 1u8 == 1u8) == ((b >> 4u8) & 1u8 == 1u8),
            ((a >> 5u8) & 1u8 == 1u8) == ((b >> 5u8) & 1u8 == 1u8),
            ((a >> 6u8) & 1u8 == 1u8) == ((b >> 6u8) & 1u8 == 1u8),
            ((a >> 7u8) & 1u8 == 1u8) == ((b >> 7u8) & 1u8 == 1u8),
    ;
}

/// A byte is assembled again from its own eight bits.
pub proof fn lemma_byte_of_bits_of_byte(byte: u8)
    ensures
        byte_of(bits_of_byte(byte)) == byte,
{
    assert forall|pos: int| 0 <= pos < 8 implies bit(byte_of(bits_of_byte(byte)), pos) == bit(
        byte,
        pos,
    ) by {
        lemma_byte_of_bit(bits_of_byte(byte), pos);
    }
    lemma_byte_by_bits(byte_of(bits_of_byte(byte)), byte);
}

/// The bit of a merged byte at each position: the cover's outside the mask,
/// the carried one inside it.
pub proof fn lemma_merged_bit(cover: u8, mask: u8, bits: Seq<bool>, pos: int)
    requires
        0 <= pos < 8,
    ensures
        bit(merged(cover, mask, bits), pos) == merged_bit(cover, mask, bits, pos),
{
    lemma_byte_of_bit(Seq::new(8, |k: int| merged_bit(cover, mask, bits, k)), pos);
}

/// Clearing the selected bits of a byte leaves the others as they were.
pub proof fn lemma_cleared_bit(cover: u8, mask: u8, pos: int)
    requires
        0 <= pos < 8,
    ensures
        bit(cover & !mask, pos) == (!bit(mask, pos) && bit(cover, pos)),
{
    let s = pos as u8;
    lemma_bit_shift(cover & !mask, pos);
    lemma_bit_shift(cover, pos);
    lemma_bit_shift(mask, pos);
    assert((((cover & !mask) >> s) & 1u8 == 1u8) == (!((mask >> s) & 1u8 == 1u8) && ((cover >> s)
        & 1u8 == 1u8))) by (bit_vector)
        requires
            s < 8,
    ;
}

/// Setting the bit at one position of a byte leaves the others as they were.
pub proof fn lemma_set_bit(byte: u8, at: int, pos: int)
    requires
        0 <= at < 8,
        0 <= pos < 8,
    ensures
        bit(byte | (1u8 << (at as u8)), pos) == (pos == at || bit(byte, pos)),
{
    let a = at as u8;
    let s = pos as u8;
    lemma_bit_shift(byte | (1u8 << a), pos);
    lemma_bit_shift(byte, pos);
    assert((((byte | (1u8 << a)) >> s) & 1u8 == 1u8) == (s == a || ((byte >> s) & 1u8 == 1u8)))
        by (bit_vector)
        requires
            a < 8,
            s < 8,
    ;
}

/// Where no bit of the mask is set between two positions, the rank is the
/// same at both.
pub proof fn lemma_rank_gap(mask: u8, low: int, high: int)
    requires
        0 <= low <= high,
        forall|q: int| low <= q < high ==> !bit(mask, q),
    ensures
        rank(mask, low) == rank(mask, high),
{
    reveal(rank);
    reveal(bit);
}

/// The rank does not fall as the position rises, and it is at most the
/// position.
pub proof fn lemma_rank_bounds(mask: u8, low: int, high: int)
    requires
        0 <= low <= high,
    ensures
        rank(mask, low) <= rank(mask, high),
        rank(mask, high) <= high,
{
    reveal(rank);
}

/// The rank tells the selected positions apart: the rank of a selected
/// position is below the rank of another position exactly where the
/// position itself is below the other.
pub proof fn lemma_rank_order(mask: u8, pos: int, other: int)
    requires
        0 <= pos,
        0 <= other,
        bit(mask, pos),
    ensures
        (rank(mask, pos) < rank(mask, other)) == (pos < other),
{
    reveal(rank);
    reveal(bit);
}

/// The position that a mask selects at a rank is the selected position of
/// that rank.
pub proof fn lemma_nth_one(mask: u8, pos: int)
    requires
        bit(mask, pos),
    ensures
        nth_one(mask, rank(mask, pos) as int) == pos,
{
    reveal(nth_one);
    reveal(rank);
    reveal(bit);
}

/// As many bits are selected below a position as the mask has set below it,
/// and the bits selected below position 8 are all that are selected.
pub proof fn lemma_selected_len(byte: u8, mask: u8, pos: int)
    ensures
        selected_below(byte, mask, pos).len() == rank(mask, pos),
        selected_below(byte, mask, 8) == selected(byte, mask),
{
}

/// The bits selected below the position behind a position: one more where
/// the position is selected, and the same where it is not.
pub proof fn lemma_selected_step(byte: u8, mask: u8, pos: int)
    requires
        0 <= pos,
    ensures
        selected_below(byte, mask, pos + 1) == if bit(mask, pos) {
            selected_below(byte, mask, pos).push(bit(byte, pos))
        } else {
            selected_below(byte, mask, pos)
        },
{
    lemma_rank_step(mask, pos);
    if bit(mask, pos) {
        lemma_nth_one(mask, pos);
        assert(selected_below(byte, mask, pos + 1) =~= selected_below(byte, mask, pos).push(
            bit(byte, pos),
        ));
    } else {
        assert(selected_below(byte, mask, pos + 1) =~= selected_below(byte, mask, pos));
    }
}

/// Where no bit of the mask is set between two positions, the same bits are
/// selected below both.
pub proof fn lemma_selected_gap(byte: u8, mask: u8, low: int, high: int)
    requires
        0 <= low <= high,
        forall|q: int| low <= q < high ==> !bit(mask, q),
    ensures
        selected_below(byte, mask, low) == selected_below(byte, mask, high),
{
    lemma_rank_gap(mask, low, high);
}

/// The bits selected below a position come first among those selected below
/// a higher one.
pub proof fn lemma_selected_grows(byte: u8, mask: u8, low: int, high: int)
    requires
        0 <= low <= high,
    ensures
        selected_below(byte, mask, low).is_prefix_of(selected_below(byte, mask, high)),
{
    lemma_rank_bounds(mask, low, high);
}

/// No bits at all make the byte zero.
pub proof fn lemma_byte_of_none()
    ensures
        byte_of(Seq::empty()) == 0,
{
    reveal(byte_of);
}

/// A byte assembled from bits depends on the first eight of them alone.
pub proof fn lemma_byte_of_same(a: Seq<bool>, b: Seq<bool>)
    requires
        forall|k: int| 0 <= k < 8 ==> bit_at(a, k) == bit_at(b, k),
    ensures
        byte_of(a) == byte_of(b),
{
    reveal(byte_of);
    assert(bit_at(a, 0) == bit_at(b, 0));
    assert(bit_at(a, 1) == bit_at(b, 1));
    assert(bit_at(a, 2) == bit_at(b, 2));
    assert(bit_at(a, 3) == bit_at(b, 3));
    assert(bit_at(a, 4) == bit_at(b, 4));
    assert(bit_at(a, 5) == bit_at(b, 5));
    assert(bit_at(a, 6) == bit_at(b, 6));
    assert(bit_at(a, 7) == bit_at(b, 7));
}

/// One more bit behind fewer than eight sets, or leaves clear, the bit of
/// the assembled byte at the next position.
pub proof fn lemma_byte_of_push(bits: Seq<bool>, on: bool)
    requires
        bits.len() < 8,
    ensures
        byte_of(bits.push(on)) == if on {
            byte_of(bits) | (1u8 << (bits.len() as u8))
        } else {
            byte_of(bits)
        },
{
    let grown = byte_of(bits.push(on));
    let other = if on {
        byte_of(bits) | (1u8 << (bits.len() as u8))
    } else {
        byte_of(bits)
    };
    assert forall|pos: int| 0 <= pos < 8 implies bit(grown, pos) == bit(other, pos) by {
        lemma_byte_of_bit(bits.push(on), pos);
        lemma_byte_of_bit(bits, pos);
        lemma_set_bit(byte_of(bits), bits.len() as int, pos);
    }
    lemma_byte_by_bits(grown, other);
}

/// A merged byte holds, at the selected position of each rank, the bit that
/// it was given at that rank.
proof fn lemma_merged_at(cover: u8, mask: u8, bits: Seq<bool>, nth: int)
    requires
        0 <= nth < weight(mask),
    ensures
        bit(merged(cover, mask, bits), nth_one(mask, nth)) == bit_at(bits, nth),
{
    let pos = nth_one(mask, nth);
    lemma_nth_found(mask, nth);
    lemma_merged_bit(cover, mask, bits, pos);
}

/// What a merged byte carries is read back under the same mask: the bits
/// that were given, as far as the mask has room, and clear bits after them.
pub proof fn lemma_selected_of_merged(cover: u8, mask: u8, bits: Seq<bool>)
    ensures
        selected(merged(cover, mask, bits), mask) == Seq::new(
            weight(mask),
            |nth: int| bit_at(bits, nth),
        ),
{
    let byte = merged(cover, mask, bits);
    let read = selected(byte, mask);
    let given = Seq::new(weight(mask), |nth: int| bit_at(bits, nth));
    assert forall|nth: int| 0 <= nth < weight(mask) implies read[nth] == given[nth] by {
        lemma_merged_at(cover, mask, bits, nth);
    }
    assert(read =~= given);
}

/// A mask selects a position at every rank below its weight.
pub proof fn lemma_nth_found(mask: u8, nth: int)
    requires
        0 <= nth < weight(mask),
    ensures
        0 <= nth_one(mask, nth) < 8,
        bit(mask, nth_one(mask, nth)),
        rank(mask, nth_one(mask, nth)) == nth,
{
    reveal(nth_one);
    reveal(rank);
    reveal(bit);
}

} // verus!
