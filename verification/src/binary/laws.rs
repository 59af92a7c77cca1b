//! What holds of concealment and extraction together: a package gives back
//! the payload that it conceals, it leaves alone what its pattern does not
//! select, and the end of the pattern is the end of the message.

use vstd::prelude::*;
use super::bits::{bit, lemma_merged_bit};
use super::lemmas::{
    lemma_be_round_trip, lemma_be_value_same, lemma_carried_same, lemma_package_carries,
};
use super::model::{
    be_bytes, bits_of, carried, conceals, emitted, lacks_room, logical_payload, pack, package,
    prefix, rest, revealed, reveals,
};
use super::package::PayloadLength;
use super::pattern::{capacity, capacity_before, lemma_reach_from, lemma_reach_masks, reach};
use super::sink::Sink;
use crate::Error;

verus! {

/// A package is as long as its cover, whatever the pattern and the payload.
/// Under a pattern that does not end before the cover does, as many bytes
/// are emitted, whether the cover has room for the payload or lacks it.
pub proof fn law_package_len(
    masks: Seq<Option<u8>>,
    cover: Seq<u8>,
    stream: Seq<u8>,
    bounded: bool,
)
    requires
        masks.len() == cover.len(),
    ensures
        package(masks, cover, stream).len() == cover.len(),
        (forall|index: int| 0 <= index < masks.len() ==> masks[index] is Some) ==> emitted(
            masks,
            cover,
            stream,
            bounded,
        ).len() == cover.len(),
{
    if forall|index: int| 0 <= index < masks.len() ==> masks[index] is Some {
        lemma_reach_from(masks, 0, masks.len() as int);
    }
}

/// The bits of a cover byte that its mask does not select are the same in
/// the package byte at its place.
pub proof fn law_cover_bits_kept(
    masks: Seq<Option<u8>>,
    cover: Seq<u8>,
    stream: Seq<u8>,
    index: int,
    pos: int,
)
    requires
        masks.len() == cover.len(),
        0 <= index < cover.len(),
        0 <= pos < 8,
        masks[index] matches Some(mask) ==> !bit(mask, pos),
    ensures
        bit(package(masks, cover, stream)[index], pos) == bit(cover[index], pos),
{
    let bits = bits_of(stream);
    if index < reach(masks) && capacity_before(masks, index) < bits.len() {
        lemma_reach_masks(masks, 0, index);
        lemma_merged_bit(
            cover[index],
            masks[index]->0,
            bits.skip(capacity_before(masks, index) as int),
            pos,
        );
    }
}

/// From the index at which the pattern ends, the package bytes are the
/// cover bytes.
pub proof fn law_stop_copies_cover(
    masks: Seq<Option<u8>>,
    cover: Seq<u8>,
    stream: Seq<u8>,
    stop: int,
    index: int,
)
    requires
        masks.len() == cover.len(),
        0 <= stop <= index < cover.len(),
        masks[stop] is None,
    ensures
        package(masks, cover, stream)[index] == cover[index],
{
    lemma_reach_masks(masks, 0, stop);
}

/// A package reveals the same message whatever its bytes are from the index
/// on at which the pattern ends.
pub proof fn law_stop_ends_message(
    masks: Seq<Option<u8>>,
    package: Seq<u8>,
    other: Seq<u8>,
    stop: int,
    len: PayloadLength,
)
    requires
        masks.len() == package.len(),
        other.len() == package.len(),
        0 <= stop < package.len(),
        masks[stop] is None,
        forall|i: int| 0 <= i < stop ==> package[i] == other[i],
    ensures
        revealed(masks, package, len) == revealed(masks, other, len),
{
    lemma_carried_same(masks, package, other, stop, 0);
}

/// A payload that is concealed without a bound, in a cover with room for
/// all of it, is revealed in full to a receiver that knows its length.
pub proof fn law_round_trip_known_length(
    masks: Seq<Option<u8>>,
    payload: Seq<u8>,
    cover: Seq<u8>,
)
    requires
        masks.len() == cover.len(),
        payload.len() <= u64::MAX,
        capacity(masks) >= 8 * payload.len(),
    ensures
        !lacks_room(masks, logical_payload(None, false, payload), false),
        revealed(
            masks,
            package(masks, cover, logical_payload(None, false, payload)),
            PayloadLength::Bound(payload.len() as u64),
        ) == payload,
{
    lemma_package_carries(masks, cover, payload);
    let decoded = pack(carried(masks, package(masks, cover, payload)));
    assert(prefix(decoded, payload.len() as int) =~= payload);
}

/// A payload that is concealed behind its own length, in a cover with room
/// for both, is revealed in full to a receiver that reads the length from
/// the package. An empty payload is concealed as nothing at all: it comes
/// back where the cover by itself reveals nothing.
pub proof fn law_round_trip_embedded_length(
    masks: Seq<Option<u8>>,
    payload: Seq<u8>,
    cover: Seq<u8>,
)
    requires
        masks.len() == cover.len(),
        payload.len() <= u64::MAX,
        capacity(masks) >= 8 * (8 + payload.len()),
        payload.len() == 0 ==> revealed(masks, cover, PayloadLength::Embedded).len() == 0,
    ensures
        !lacks_room(
            masks,
            logical_payload(Some(payload.len() as u64), true, payload),
            true,
        ),
        revealed(
            masks,
            package(masks, cover, logical_payload(Some(payload.len() as u64), true, payload)),
            PayloadLength::Embedded,
        ) == payload,
{
    let len = payload.len() as u64;
    let stream = logical_payload(Some(len), true, payload);
    if payload.len() == 0 {
        law_zero_length(masks, payload, cover, true, cover);
        assert(revealed(masks, cover, PayloadLength::Embedded) =~= payload);
    } else {
        assert(stream =~= be_bytes(len) + payload);
        lemma_package_carries(masks, cover, stream);
        let decoded = pack(carried(masks, package(masks, cover, stream)));
        lemma_be_round_trip(len);
        assert forall|i: int| 0 <= i < stream.len() implies decoded[i] == stream[i] by {
            assert(decoded.subrange(0, stream.len() as int)[i] == stream[i]);
        }
        lemma_be_value_same(decoded, be_bytes(len), 8);
        assert(prefix(rest(decoded, 8), len as int) =~= payload) by {
            assert forall|i: int| 0 <= i < payload.len() implies rest(decoded, 8)[i]
                == payload[i] by {
                assert(decoded[8 + i] == stream[8 + i]);
            }
        }
    }
}

/// Concealing a payload without a bound and revealing it by its length, as
/// calls: into a sink that is empty, from a cover with room for the payload,
/// concealing succeeds; from what that sink holds, into a sink with room
/// for the payload, revealing succeeds and writes the payload.
pub proof fn law_conceal_then_reveal_known_length(
    masks: Seq<Option<u8>>,
    payload: Seq<u8>,
    cover: Seq<u8>,
    package_before: Sink,
    package_after: Sink,
    concealing: Result<usize, Error>,
    message_before: Sink,
    message_after: Sink,
    revealing: Result<usize, Error>,
)
    requires
        masks.len() == cover.len(),
        payload.len() <= u64::MAX,
        capacity(masks) >= 8 * payload.len(),
        package_before@.len() == 0,
        package_before.room() >= cover.len(),
        conceals(
            package_before,
            package_after,
            concealing,
            masks,
            cover,
            logical_payload(None, false, payload),
            false,
        ),
        message_before.room() >= payload.len(),
        reveals(
            message_before,
            message_after,
            revealing,
            masks,
            package_after@,
            PayloadLength::Bound(payload.len() as u64),
        ),
    ensures
        concealing is Ok,
        revealing is Ok,
        message_after@ == message_before@ + payload,
{
    law_round_trip_known_length(masks, payload, cover);
    assert(package_after@ =~= package(masks, cover, logical_payload(None, false, payload)));
}

/// Concealing a payload behind its length and revealing it by the length
/// in the package, as calls: into a sink that is empty, from a cover with
/// room for the length and the payload, concealing succeeds; from what that
/// sink holds, into a sink with room for the payload, revealing succeeds
/// and writes the payload.
pub proof fn law_conceal_then_reveal_embedded_length(
    masks: Seq<Option<u8>>,
    payload: Seq<u8>,
    cover: Seq<u8>,
    package_before: Sink,
    package_after: Sink,
    concealing: Result<usize, Error>,
    message_before: Sink,
    message_after: Sink,
    revealing: Result<usize, Error>,
)
    requires
        masks.len() == cover.len(),
        payload.len() <= u64::MAX,
        capacity(masks) >= 8 * (8 + payload.len()),
        payload.len() == 0 ==> revealed(masks, cover, PayloadLength::Embedded).len() == 0,
        package_before@.len() == 0,
        package_before.room() >= cover.len(),
        conceals(
            package_before,
            package_after,
            concealing,
            masks,
            cover,
            logical_payload(Some(payload.len() as u64), true, payload),
            true,
        ),
        message_before.room() >= payload.len(),
        reveals(
            message_before,
            message_after,
            revealing,
            masks,
            package_after@,
            PayloadLength::Embedded,
        ),
    ensures
        concealing is Ok,
        revealing is Ok,
        message_after@ == message_before@ + payload,
{
    law_round_trip_embedded_length(masks, payload, cover);
    assert(package_after@ =~= package(
        masks,
        cover,
        logical_payload(Some(payload.len() as u64), true, payload),
    ));
}

/// Under a bound of zero nothing is concealed, whatever the payload: the
/// package is the cover, and the cover never lacks room. A receiver that
/// knows the length to be zero takes no byte from any package.
pub proof fn law_zero_length(
    masks: Seq<Option<u8>>,
    payload: Seq<u8>,
    cover: Seq<u8>,
    embedded: bool,
    any: Seq<u8>,
)
    requires
        masks.len() == cover.len(),
    ensures
        package(masks, cover, logical_payload(Some(0), embedded, payload)) == cover,
        !lacks_room(masks, logical_payload(Some(0), embedded, payload), true),
        revealed(masks, any, PayloadLength::Bound(0)) == Seq::<u8>::empty(),
{
    let stream = logical_payload(Some(0), embedded, payload);
    assert(bits_of(stream).len() == 0);
    assert(package(masks, cover, stream) =~= cover);
}

/// Concealing a payload that is not empty in an empty cover fails for want
/// of room, and writes nothing; but under a bound of zero nothing is to be
/// concealed, and an empty cover is enough.
pub proof fn law_empty_cover_fails(
    before: Sink,
    after: Sink,
    result: Result<usize, Error>,
    payload: Seq<u8>,
    bound: Option<u64>,
    embedded: bool,
)
    requires
        payload.len() > 0,
        bound != Some(0u64),
        conceals(
            before,
            after,
            result,
            Seq::empty(),
            Seq::empty(),
            logical_payload(bound, embedded, payload),
            bound is Some,
        ),
    ensures
        result == Err::<usize, Error>(Error::NoSpace),
        after@ == before@,
{
    let none = Seq::<Option<u8>>::empty();
    let stream = logical_payload(bound, embedded, payload);
    assert(stream.len() > 0);
    assert(lacks_room(none, stream, bound is Some));
    assert(emitted(none, Seq::empty(), stream, bound is Some) =~= Seq::<u8>::empty());
    assert(after@ =~= before@);
}

/// Revealing a message that is longer than the sink has room for fails for
/// want of room, and the sink takes the bytes that it has room for.
pub proof fn law_small_sink_fails(
    before: Sink,
    after: Sink,
    result: Result<usize, Error>,
    masks: Seq<Option<u8>>,
    package: Seq<u8>,
    len: PayloadLength,
)
    requires
        reveals(before, after, result, masks, package, len),
        revealed(masks, package, len).len() > before.room(),
    ensures
        result == Err::<usize, Error>(Error::NoSpace),
        after@ == before@ + revealed(masks, package, len).take(before.room() as int),
        after.room() == 0,
{
    let out = revealed(masks, package, len);
    assert(prefix(out, before.room() as int) =~= out.take(before.room() as int));
}

} // verus!
