//! The mathematical model of concealment and extraction: what a package is,
//! given the cover, the pattern's masks and the payload, and what message a
//! package holds.

use vstd::prelude::*;
use super::bits::{bit, byte_of, merged, selected};
use super::package::PayloadLength;
use super::pattern::{capacity, capacity_before, reach};
use super::sink::Sink;
use crate::Error;

verus! {

/// The bits of `bytes` in the order in which they are concealed: byte by
/// byte, and within each byte from the least significant bit up.
pub open spec fn bits_of(bytes: Seq<u8>) -> Seq<bool> {
    Seq::new(8 * bytes.len(), |t: int| bit(bytes[t / 8], t % 8))
}

/// The bytes that `bits` make up, eight bits to a byte, least significant
/// first. A last byte of fewer than eight bits is completed with clear bits.
pub open spec fn pack(bits: Seq<bool>) -> Seq<u8> {
    Seq::new((bits.len() + 7) / 8, |j: int| byte_of(bits.skip(8 * j)))
}

/// The first `n` entries of `s`, or all of `s` where it has fewer.
pub open spec fn prefix<A>(s: Seq<A>, n: int) -> Seq<A> {
    if n <= 0 {
        Seq::empty()
    } else if n >= s.len() {
        s
    } else {
        s.take(n)
    }
}

/// What is left of `s` after its first `n` entries.
pub open spec fn rest<A>(s: Seq<A>, n: int) -> Seq<A> {
    if n <= 0 {
        s
    } else if n >= s.len() {
        Seq::empty()
    } else {
        s.skip(n)
    }
}

/// The big-endian value of the first `count` entries of `bytes`.
pub open spec fn be_value(bytes: Seq<u8>, count: int) -> nat
    decreases count,
{
    if count <= 0 {
        0
    } else {
        be_value(bytes, count - 1) * 256 + bytes[count - 1] as nat
    }
}

/// The power of 256 with the exponent `exponent`, for the exponents 0 to 8.
pub open spec fn pow256(exponent: int) -> int {
    if exponent <= 0 {
        1
    } else if exponent == 1 {
        0x100
    } else if exponent == 2 {
        0x1_0000
    } else if exponent == 3 {
        0x100_0000
    } else if exponent == 4 {
        0x1_0000_0000
    } else if exponent == 5 {
        0x100_0000_0000
    } else if exponent == 6 {
        0x1_0000_0000_0000
    } else if exponent == 7 {
        0x100_0000_0000_0000
    } else {
        0x1_0000_0000_0000_0000
    }
}

/// The byte at index `i` of the big-endian encoding of `value` in eight
/// bytes.
pub open spec fn be_byte(value: u64, i: int) -> u8 {
    ((value as int / pow256(7 - i)) % 256) as u8
}

/// The big-endian encoding of `value` in eight bytes.
pub open spec fn be_bytes(value: u64) -> Seq<u8> {
    Seq::new(8, |i: int| be_byte(value, i))
}

/// The bytes that are concealed for `payload`: at most `bound` bytes of it
/// where a bound is declared, and before them, where `embedded` is set, the
/// bound itself in eight bytes. Nothing is concealed under a bound of zero.
pub open spec fn logical_payload(bound: Option<u64>, embedded: bool, payload: Seq<u8>) -> Seq<u8> {
    match bound {
        None => payload,
        Some(n) => if n == 0 {
            Seq::empty()
        } else if embedded {
            be_bytes(n) + prefix(payload, n as int)
        } else {
            prefix(payload, n as int)
        },
    }
}

/// The package byte at index `index`, by itself: before the pattern ends,
/// and while the masks before it have left some of `bits` to conceal, the
/// cover byte merged with the bits that are left; otherwise the cover byte.
pub open spec fn package_byte(
    masks: Seq<Option<u8>>,
    cover: Seq<u8>,
    bits: Seq<bool>,
    index: int,
) -> u8 {
    if index < reach(masks) && capacity_before(masks, index) < bits.len() {
        merged(cover[index], masks[index]->0, bits.skip(capacity_before(masks, index) as int))
    } else {
        cover[index]
    }
}

/// The package that conceals `stream` in `cover` under the pattern whose
/// answers are `masks`: as long as the cover, and each byte as
/// [`package_byte`] says.
pub open spec fn package(masks: Seq<Option<u8>>, cover: Seq<u8>, stream: Seq<u8>) -> Seq<u8> {
    Seq::new(cover.len(), |index: int| package_byte(masks, cover, bits_of(stream), index))
}

/// Whether the cover is too small for the stream in a way that is an error:
/// some bits of the stream find no room, and either a bound was declared, or
/// the cover is empty, or a byte of the stream is concealed in part while
/// further bytes wait behind it. A payload without a bound that ends
/// otherwise is cut short in silence.
pub open spec fn lacks_room(masks: Seq<Option<u8>>, stream: Seq<u8>, bounded: bool) -> bool {
    let left = 8 * stream.len() - capacity(masks);
    left > 0 && (bounded || masks.len() == 0 || (left % 8 != 0 && left > 8))
}

/// The bytes that concealment hands to the sink: the whole package, or,
/// where the cover lacks room, the bytes up to the index at which the
/// pattern or the cover ended.
pub open spec fn emitted(
    masks: Seq<Option<u8>>,
    cover: Seq<u8>,
    stream: Seq<u8>,
    bounded: bool,
) -> Seq<u8> {
    if lacks_room(masks, stream, bounded) {
        package(masks, cover, stream).take(reach(masks) as int)
    } else {
        package(masks, cover, stream)
    }
}

/// What every call that writes to a sink does to it, and what it returns
/// of it: the sink keeps what it held and takes at most `most` bytes more;
/// a call that succeeds returns how many bytes the sink took, and a call
/// fails only for want of room.
pub open spec fn writes(before: Sink, after: Sink, result: Result<usize, Error>, most: nat) -> bool {
    &&& before@.is_prefix_of(after@)
    &&& after@.len() <= before@.len() + most
    &&& result matches Ok(written) ==> after@.len() == before@.len() + written
    &&& result matches Err(error) ==> error == Error::NoSpace
}

/// What a call that conceals `stream` in `cover` does to its sink and
/// returns: the sink takes the emitted bytes as far as it has room, and the
/// call succeeds, with the length of the cover, where the cover does not
/// lack room and the sink took every byte.
pub open spec fn conceals(
    before: Sink,
    after: Sink,
    result: Result<usize, Error>,
    masks: Seq<Option<u8>>,
    cover: Seq<u8>,
    stream: Seq<u8>,
    bounded: bool,
) -> bool {
    let out = emitted(masks, cover, stream, bounded);
    &&& after@ == before@ + prefix(out, before.room() as int)
    &&& after.room() == before.room() - prefix(out, before.room() as int).len()
    &&& result is Ok <==> !lacks_room(masks, stream, bounded) && out.len() <= before.room()
    &&& result matches Ok(written) ==> written == cover.len()
    &&& result matches Err(error) ==> error == Error::NoSpace
}

/// The bits that the package bytes from index `from` on carry, up to the
/// index at which the pattern ends.
pub open spec fn carried_from(masks: Seq<Option<u8>>, package: Seq<u8>, from: int) -> Seq<bool>
    decreases package.len() - from,
{
    if from < 0 || from >= package.len() {
        Seq::empty()
    } else {
        match masks[from] {
            None => Seq::empty(),
            Some(mask) => selected(package[from], mask) + carried_from(masks, package, from + 1),
        }
    }
}

/// The bits that `package` carries under the pattern whose answers are
/// `masks`.
pub open spec fn carried(masks: Seq<Option<u8>>, package: Seq<u8>) -> Seq<bool> {
    carried_from(masks, package, 0)
}

/// The message among the bytes `decoded` from a package, by the length that
/// the receiver goes by: all of them, or the first so many, or, where the
/// length is embedded, the first so many as the eight bytes before them say.
pub open spec fn message(len: PayloadLength, decoded: Seq<u8>) -> Seq<u8> {
    match len {
        PayloadLength::Unbound => decoded,
        PayloadLength::Bound(n) => prefix(decoded, n as int),
        PayloadLength::Embedded => if decoded.len() < 8 {
            Seq::empty()
        } else {
            prefix(rest(decoded, 8), be_value(decoded, 8) as int)
        },
    }
}

/// The message that `package` holds under the pattern whose answers are
/// `masks`, for a receiver that goes by `len`.
pub open spec fn revealed(masks: Seq<Option<u8>>, package: Seq<u8>, len: PayloadLength) -> Seq<
    u8,
> {
    message(len, pack(carried(masks, package)))
}

/// What a call that reveals the message of `package` does to its sink and
/// returns: the sink takes the message as far as it has room, and the call
/// succeeds, with the length of the message, where the sink took all of it.
pub open spec fn reveals(
    before: Sink,
    after: Sink,
    result: Result<usize, Error>,
    masks: Seq<Option<u8>>,
    package: Seq<u8>,
    len: PayloadLength,
) -> bool {
    let out = revealed(masks, package, len);
    &&& after@ == before@ + prefix(out, before.room() as int)
    &&& after.room() == before.room() - prefix(out, before.room() as int).len()
    &&& result is Ok <==> out.len() <= before.room()
    &&& result matches Ok(written) ==> written == out.len()
    &&& result matches Err(error) ==> error == Error::NoSpace
}

} // verus!
