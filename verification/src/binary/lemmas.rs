//! Lemmas on the model: a package as it is made byte after byte, the bits
//! that it carries, and the bytes that they pack to.

use vstd::prelude::*;
use super::bits::{
    bit, bit_at, bits_of_byte, lemma_byte_of_bits_of_byte, lemma_byte_of_same, lemma_selected_len,
    lemma_selected_of_merged, merged, selected, weight,
};
use super::model::{
    be_bytes, be_value, bits_of, carried, carried_from, pack, package, package_byte, pow256, rest,
};
use super::pattern::{
    capacity, capacity_before, lemma_capacity_before_grows, lemma_reach_from, lemma_reach_masks,
};

verus! {

/// The package bytes from index `from` on as they are made one after the
/// other, where `pending` are the payload bits that are not yet concealed.
/// While bits are pending and the pattern has not ended, each cover byte
/// carries as many of them as its mask selects; every later byte is the
/// cover's own.
pub open spec fn weave(masks: Seq<Option<u8>>, cover: Seq<u8>, pending: Seq<bool>, from: int) -> Seq<
    u8,
>
    decreases cover.len() - from,
{
    if from < 0 || from >= cover.len() {
        Seq::empty()
    } else if pending.len() == 0 {
        cover.skip(from)
    } else {
        match masks[from] {
            None => cover.skip(from),
            Some(mask) => seq![merged(cover[from], mask, pending)] + weave(
                masks,
                cover,
                rest(pending, weight(mask) as int),
                from + 1,
            ),
        }
    }
}

/// The package bytes from an index on are as many as the cover bytes from
/// there on.
pub proof fn lemma_weave_len(
    masks: Seq<Option<u8>>,
    cover: Seq<u8>,
    pending: Seq<bool>,
    from: int,
)
    requires
        0 <= from <= cover.len(),
    ensures
        weave(masks, cover, pending, from).len() == cover.len() - from,
    decreases cover.len() - from,
{
    if from < cover.len() && pending.len() > 0 {
        match masks[from] {
            None => {},
            Some(mask) => {
                lemma_weave_len(masks, cover, rest(pending, weight(mask) as int), from + 1);
            },
        }
    }
}

/// The package byte at an index, where the bits before it were pending at
/// an earlier index before which the pattern has not ended.
pub proof fn lemma_weave_at(
    masks: Seq<Option<u8>>,
    cover: Seq<u8>,
    bits: Seq<bool>,
    from: int,
    index: int,
)
    requires
        masks.len() == cover.len(),
        0 <= from <= index < cover.len(),
        forall|k: int| 0 <= k < from ==> masks[k] is Some,
    ensures
        weave(masks, cover, rest(bits, capacity_before(masks, from) as int), from).len()
            == cover.len() - from,
        weave(masks, cover, rest(bits, capacity_before(masks, from) as int), from)[index - from]
            == package_byte(masks, cover, bits, index),
    decreases index - from,
{
    let pending = rest(bits, capacity_before(masks, from) as int);
    lemma_weave_len(masks, cover, pending, from);
    lemma_reach_from(masks, 0, from);
    lemma_reach_masks(masks, from, index);
    lemma_capacity_before_grows(masks, from, index);
    if pending.len() > 0 {
        match masks[from] {
            None => {},
            Some(mask) => {
                let later = rest(pending, weight(mask) as int);
                assert(later =~= rest(bits, capacity_before(masks, from + 1) as int));
                if from < index {
                    lemma_weave_at(masks, cover, bits, from + 1, index);
                    let tail = weave(masks, cover, later, from + 1);
                    assert(weave(masks, cover, pending, from)[index - from] == tail[index - from
                        - 1]);
                } else {
                    assert(pending =~= bits.skip(capacity_before(masks, index) as int));
                }
            },
        }
    }
}

/// A package is what comes of making its bytes one after the other, from
/// the first on, with all bits of the stream pending.
pub proof fn lemma_package_woven(masks: Seq<Option<u8>>, cover: Seq<u8>, stream: Seq<u8>)
    requires
        masks.len() == cover.len(),
    ensures
        weave(masks, cover, bits_of(stream), 0) == package(masks, cover, stream),
{
    let bits = bits_of(stream);
    let woven = weave(masks, cover, bits, 0);
    lemma_weave_len(masks, cover, bits, 0);
    assert(rest(bits, capacity_before(masks, 0) as int) =~= bits);
    assert forall|index: int| 0 <= index < cover.len() implies woven[index] == package_byte(
        masks,
        cover,
        bits,
        index,
    ) by {
        lemma_weave_at(masks, cover, bits, 0, index);
    }
    assert(woven =~= package(masks, cover, stream));
}

/// The bits that a package carries from an index on are as many as its
/// masks select from there on, and they depend on the bytes before the end
/// of the pattern alone.
pub proof fn lemma_carried_same(
    masks: Seq<Option<u8>>,
    package: Seq<u8>,
    other: Seq<u8>,
    stop: int,
    from: int,
)
    requires
        masks.len() == package.len(),
        other.len() == package.len(),
        0 <= from <= package.len(),
        from <= stop <= package.len(),
        stop < package.len() ==> masks[stop] is None,
        forall|i: int| from <= i < stop ==> package[i] == other[i],
    ensures
        carried_from(masks, package, from) == carried_from(masks, other, from),
    decreases package.len() - from,
{
    if from < package.len() {
        match masks[from] {
            None => {},
            Some(mask) => {
                lemma_carried_same(masks, package, other, stop, from + 1);
            },
        }
    }
}

/// The bits that a package carries are as many as its masks select before
/// the pattern ends.
pub proof fn lemma_carried_len(masks: Seq<Option<u8>>, package: Seq<u8>, from: int)
    requires
        masks.len() == package.len(),
        0 <= from <= package.len(),
        forall|k: int| 0 <= k < from ==> masks[k] is Some,
    ensures
        capacity_before(masks, from) + carried_from(masks, package, from).len() == capacity(
            masks,
        ),
    decreases package.len() - from,
{
    lemma_reach_from(masks, 0, from);
    if from < package.len() {
        match masks[from] {
            None => {},
            Some(mask) => {
                lemma_carried_len(masks, package, from + 1);
                lemma_selected_len(package[from], mask, 8);
            },
        }
    }
}

/// The bits that a package carries from an index on are the bits that were
/// pending there when it was woven, as far as both go.
pub proof fn lemma_carried_of_woven(
    masks: Seq<Option<u8>>,
    cover: Seq<u8>,
    pending: Seq<bool>,
    whole: Seq<u8>,
    from: int,
)
    requires
        masks.len() == cover.len(),
        whole.len() == cover.len(),
        0 <= from <= cover.len(),
        whole.skip(from) == weave(masks, cover, pending, from),
    ensures
        forall|t: int|
            0 <= t < pending.len() && t < carried_from(masks, whole, from).len()
                ==> carried_from(masks, whole, from)[t] == pending[t],
    decreases cover.len() - from,
{
    if from < cover.len() && pending.len() > 0 {
        match masks[from] {
            None => {},
            Some(mask) => {
                let later = rest(pending, weight(mask) as int);
                let tail = weave(masks, cover, later, from + 1);
                assert(whole[from] == whole.skip(from)[0]);
                assert(whole.skip(from + 1) =~= whole.skip(from).skip(1));
                assert(whole.skip(from + 1) =~= tail);
                lemma_carried_of_woven(masks, cover, later, whole, from + 1);
                lemma_selected_of_merged(cover[from], mask, pending);
                lemma_selected_len(whole[from], mask, 8);
                let head = selected(whole[from], mask);
                let back = carried_from(masks, whole, from + 1);
                assert forall|t: int|
                    0 <= t < pending.len() && t < carried_from(
                        masks,
                        whole,
                        from,
                    ).len() implies carried_from(masks, whole, from)[t] == pending[t] by {
                    if t < head.len() {
                        assert(head[t] == bit_at(pending, t));
                    } else {
                        assert(later[t - head.len()] == pending[t]);
                        assert(back[t - head.len()] == later[t - head.len()]);
                    }
                }
            },
        }
    }
}

/// Bits that begin with the bits of some bytes pack to bytes that begin
/// with those bytes.
pub proof fn lemma_pack_of_bits(all: Seq<bool>, stream: Seq<u8>)
    requires
        all.len() >= 8 * stream.len(),
        forall|t: int| 0 <= t < 8 * stream.len() ==> all[t] == bits_of(stream)[t],
    ensures
        stream.is_prefix_of(pack(all)),
{
    assert forall|j: int| 0 <= j < stream.len() implies pack(all)[j] == stream[j] by {
        let one = bits_of_byte(stream[j]);
        assert forall|k: int| 0 <= k < 8 implies bit_at(all.skip(8 * j), k) == bit_at(one, k) by {
            let t = 8 * j + k;
            assert(all.skip(8 * j)[k] == all[t]);
            assert(t / 8 == j && t % 8 == k);
            assert(bits_of(stream)[t] == bit(stream[j], k));
        }
        lemma_byte_of_same(all.skip(8 * j), one);
        lemma_byte_of_bits_of_byte(stream[j]);
    }
    assert(stream =~= pack(all).subrange(0, stream.len() as int));
}

/// A package whose cover has room for the whole stream carries bytes that
/// begin with the stream.
pub proof fn lemma_package_carries(masks: Seq<Option<u8>>, cover: Seq<u8>, stream: Seq<u8>)
    requires
        masks.len() == cover.len(),
        capacity(masks) >= 8 * stream.len(),
    ensures
        stream.is_prefix_of(pack(carried(masks, package(masks, cover, stream)))),
{
    let whole = package(masks, cover, stream);
    lemma_package_woven(masks, cover, stream);
    assert(whole.skip(0) =~= whole);
    lemma_carried_of_woven(masks, cover, bits_of(stream), whole, 0);
    lemma_carried_len(masks, whole, 0);
    lemma_pack_of_bits(carried(masks, whole), stream);
}

/// The big-endian value of some bytes is below the power of 256 with their
/// number as the exponent.
pub proof fn lemma_be_value_bound(bytes: Seq<u8>, count: int)
    requires
        0 <= count <= 8,
    ensures
        be_value(bytes, count) < pow256(count),
    decreases count,
{
    if count > 0 {
        lemma_be_value_bound(bytes, count - 1);
    }
}

/// Eight bytes in big-endian order give back the value that they encode.
pub proof fn lemma_be_round_trip(value: u64)
    ensures
        be_value(be_bytes(value), 8) == value,
{
    let bytes = be_bytes(value);
    let b0 = bytes[0] as u64;
    let b1 = bytes[1] as u64;
    let b2 = bytes[2] as u64;
    let b3 = bytes[3] as u64;
    let b4 = bytes[4] as u64;
    let b5 = bytes[5] as u64;
    let b6 = bytes[6] as u64;
    let b7 = bytes[7] as u64;
    assert(b0 == (value / 0x100_0000_0000_0000) % 256);
    assert(b1 == (value / 0x1_0000_0000_0000) % 256);
    assert(b2 == (value / 0x100_0000_0000) % 256);
    assert(b3 == (value / 0x1_0000_0000) % 256);
    assert(b4 == (value / 0x100_0000) % 256);
    assert(b5 == (value / 0x1_0000) % 256);
    assert(b6 == (value / 0x100) % 256);
    assert(b7 == (value / 1) % 256);
    assert(((((((b0 * 256 + b1) * 256 + b2) * 256 + b3) * 256 + b4) * 256 + b5) * 256 + b6) * 256
        + b7 == value) by (bit_vector)
        requires
            b0 == (value / 0x100_0000_0000_0000u64) % 256u64,
            b1 == (value / 0x1_0000_0000_0000u64) % 256u64,
            b2 == (value / 0x100_0000_0000u64) % 256u64,
            b3 == (value / 0x1_0000_0000u64) % 256u64,
            b4 == (value / 0x100_0000u64) % 256u64,
            b5 == (value / 0x1_0000u64) % 256u64,
            b6 == (value / 0x100u64) % 256u64,
            b7 == (value / 1u64) % 256u64,
    ;
    reveal_with_fuel(be_value, 9);
}

/// The big-endian value of some leading bytes depends on those bytes alone.
pub proof fn lemma_be_value_same(a: Seq<u8>, b: Seq<u8>, count: int)
    requires
        0 <= count <= a.len(),
        count <= b.len(),
        forall|i: int| 0 <= i < count ==> a[i] == b[i],
    ensures
        be_value(a, count) == be_value(b, count),
    decreases count,
{
    if count > 0 {
        lemma_be_value_same(a, b, count - 1);
    }
}

} // verus!
