//! The carrier: conceals a payload in the bytes of a cover.

use vstd::prelude::*;
use vstd::slice::slice_subrange;
use super::bits::{
    bit, bit_at, lemma_bit_shift, lemma_byte_by_bits, lemma_cleared_bit, lemma_lowest_from, lemma_merged_bit, lemma_rank_bounds,
    lemma_rank_gap, lemma_rank_order, lemma_rank_step, lemma_set_bit, merged, rank, weight, Ones,
};
use super::lemmas::{lemma_package_woven, lemma_weave_len, weave};
use super::model::{
    be_bytes, bits_of, conceals, emitted, lacks_room, logical_payload, package, prefix, rest,
    writes,
};
use super::pattern::{
    callable, capacity_before, follows, lemma_capacity_before_grows, lemma_reach_bound, reach,
    reach_from,
};
use super::sink::Sink;
use crate::{Conceal, Error};

verus! {

/// The bytes that are to be concealed, handed out bit by bit: first those of
/// `head`, then those of `body`.
struct Feed<'a> {
    head: Vec<u8>,
    body: &'a [u8],
    /// How many bytes of `head` have been fetched.
    headed: usize,
    /// How many bytes of `body` have been fetched.
    bodied: usize,
    /// The byte fetched last.
    byte: u8,
    /// How many bits of `byte` have been handed out.
    used: usize,
}

impl<'a> Feed<'a> {
    spec fn stream(self) -> Seq<u8> {
        self.head@ + self.body@
    }

    spec fn fetched(self) -> int {
        self.headed + self.bodied
    }

    spec fn wf(self) -> bool {
        &&& self.headed <= self.head.len()
        &&& self.bodied <= self.body@.len()
        &&& self.bodied > 0 ==> self.headed == self.head.len()
        &&& self.used <= 8
        &&& self.fetched() == 0 ==> self.used == 8
        &&& self.fetched() > 0 ==> self.byte == self.stream()[self.fetched() - 1]
    }

    /// The index, among the bits of the stream, of the bit handed out next.
    spec fn position(self) -> int {
        8 * self.fetched() - (8 - self.used)
    }

    /// The bits that have not been handed out.
    spec fn pending(self) -> Seq<bool> {
        bits_of(self.stream()).skip(self.position())
    }

    fn new(head: Vec<u8>, body: &'a [u8]) -> (feed: Self)
        ensures
            feed.wf(),
            feed.stream() == head@ + body@,
            feed.pending() == bits_of(head@ + body@),
    {
        let feed = Feed { head, body, headed: 0, bodied: 0, byte: 0, used: 8 };
        assert(bits_of(feed.stream()).skip(0) =~= bits_of(feed.stream()));
        feed
    }

    /// Whether every bit has been handed out.
    fn is_spent(&self) -> (spent: bool)
        requires
            self.wf(),
        ensures
            spent == (self.pending().len() == 0),
    {
        self.used == 8 && self.headed == self.head.len() && self.bodied == self.body.len()
    }

    /// Whether the byte fetched last has been handed out in part only while
    /// further bytes wait behind it.
    fn is_cut(&self) -> (cut: bool)
        requires
            self.wf(),
        ensures
            cut == (self.pending().len() % 8 != 0 && self.pending().len() > 8),
    {
        0 < self.used && self.used < 8 && (self.headed < self.head.len() || self.bodied
            < self.body.len())
    }

    /// Hands out the next bit, if one is left.
    fn take_bit(&mut self) -> (next: Option<bool>)
        requires
            old(self).wf(),
        ensures
            final(self).wf(),
            final(self).stream() == old(self).stream(),
            match next {
                Some(on) => {
                    &&& old(self).pending().len() > 0
                    &&& on == old(self).pending()[0]
                    &&& final(self).pending() == old(self).pending().skip(1)
                },
                None => {
                    &&& old(self).pending().len() == 0
                    &&& final(self).pending() == old(self).pending()
                },
            },
    {
        if self.used == 8 {
            if self.headed < self.head.len() {
                self.byte = self.head[self.headed];
                self.headed = self.headed + 1;
            } else if self.bodied < self.body.len() {
                self.byte = self.body[self.bodied];
                self.bodied = self.bodied + 1;
            } else {
                return None;
            }
            self.used = 0;
        }
        let shift: u8 = self.used as u8;
        let on: bool = (self.byte >> shift) & 1u8 == 1u8;
        self.used = self.used + 1;
        proof {
            let at = old(self).position();
            assert(self.position() == at + 1);
            assert(at / 8 == self.fetched() - 1);
            assert(at % 8 == shift);
            lemma_bit_shift(self.byte, shift as int);
            assert(bits_of(self.stream())[at] == on);
            assert(old(self).pending().skip(1) =~= self.pending());
        }
        Some(on)
    }
}

/// The bit at position `pos` of a cover byte that carries the first `taken`
/// of `bits` so far: outside the mask the cover's, inside it the bit it was
/// given, or a clear bit where it has been given none yet.
spec fn merging_bit(cover: u8, mask: u8, bits: Seq<bool>, taken: int, pos: int) -> bool {
    if bit(mask, pos) {
        rank(mask, pos) < taken && bit_at(bits, rank(mask, pos) as int)
    } else {
        bit(cover, pos)
    }
}

/// Lets `cover` carry the pending bits of `feed` at the positions that
/// `mask` selects, in ascending order, as far as there are bits and
/// positions.
fn merge(cover: u8, mask: u8, feed: &mut Feed) -> (byte: u8)
    requires
        old(feed).wf(),
    ensures
        final(feed).wf(),
        final(feed).stream() == old(feed).stream(),
        byte == merged(cover, mask, old(feed).pending()),
        final(feed).pending() == rest(old(feed).pending(), weight(mask) as int),
{
    let ghost bits = feed.pending();
    let ghost mut taken: int = 0;
    let mut byte: u8 = cover & !mask;
    let mut ones = Ones::from(mask);
    proof {
        assert forall|k: int| 0 <= k < 8 implies bit(byte, k) == merging_bit(
            cover,
            mask,
            bits,
            taken,
            k,
        ) by {
            lemma_cleared_bit(cover, mask, k);
            lemma_rank_bounds(mask, 0, k);
        }
        assert(bits.skip(0) =~= bits);
        lemma_rank_step(mask, 0);
        lemma_rank_bounds(mask, 0, 8);
    }
    loop
        invariant_except_break
            taken == rank(mask, ones.offset()),
        invariant
            feed.wf(),
            feed.stream() == old(feed).stream(),
            ones.mask() == mask,
            0 <= ones.offset() <= 8,
            0 <= taken <= bits.len(),
            taken <= weight(mask),
            feed.pending() == bits.skip(taken),
            forall|k: int| 0 <= k < 8 ==> bit(byte, k) == merging_bit(cover, mask, bits, taken, k),
        ensures
            taken == weight(mask) || taken == bits.len(),
        decreases 8 - ones.offset(),
    {
        let ghost before = ones.offset();
        proof {
            lemma_lowest_from(mask, before);
        }
        match ones.next() {
            None => {
                proof {
                    lemma_rank_gap(mask, before, 8);
                }
                break ;
            },
            Some(pos) => {
                proof {
                    lemma_rank_gap(mask, before, pos as int);
                    lemma_rank_step(mask, pos as int);
                    lemma_rank_bounds(mask, pos + 1, 8);
                }
                match feed.take_bit() {
                    None => {
                        break ;
                    },
                    Some(on) => {
                        let ghost prior = byte;
                        if on {
                            byte = byte | (1u8 << (pos as u8));
                        }
                        proof {
                            assert forall|k: int| 0 <= k < 8 implies bit(byte, k)
                                == merging_bit(cover, mask, bits, taken + 1, k) by {
                                lemma_set_bit(prior, pos as int, k);
                                if bit(mask, k) {
                                    lemma_rank_order(mask, k, pos as int);
                                    lemma_rank_order(mask, k, pos + 1);
                                }
                            }
                            assert(bits.skip(taken).skip(1) =~= bits.skip(taken + 1));
                            taken = taken + 1;
                        }
                    },
                }
            },
        }
    }
    proof {
        assert forall|k: int| 0 <= k < 8 implies bit(byte, k) == bit(
            merged(cover, mask, bits),
            k,
        ) by {
            lemma_merged_bit(cover, mask, bits, k);
            if bit(mask, k) {
                lemma_rank_order(mask, k, 8);
            }
        }
        lemma_byte_by_bits(byte, merged(cover, mask, bits));
        assert(feed.pending() =~= rest(bits, weight(mask) as int));
    }
    byte
}

/// The big-endian encoding of `value` in eight bytes.
fn be_encode(value: u64) -> (bytes: Vec<u8>)
    ensures
        bytes@ == be_bytes(value),
{
    let b0: u64 = (value >> 56u64) & 0xffu64;
    let b1: u64 = (value >> 48u64) & 0xffu64;
    let b2: u64 = (value >> 40u64) & 0xffu64;
    let b3: u64 = (value >> 32u64) & 0xffu64;
    let b4: u64 = (value >> 24u64) & 0xffu64;
    let b5: u64 = (value >> 16u64) & 0xffu64;
    let b6: u64 = (value >> 8u64) & 0xffu64;
    let b7: u64 = value & 0xffu64;
    assert(b0 == (value / 0x100_0000_0000_0000u64) % 256u64 && b1 == (value
        / 0x1_0000_0000_0000u64) % 256u64 && b2 == (value / 0x100_0000_0000u64) % 256u64 && b3 == (
    value / 0x1_0000_0000u64) % 256u64 && b4 == (value / 0x100_0000u64) % 256u64 && b5 == (value
        / 0x1_0000u64) % 256u64 && b6 == (value / 0x100u64) % 256u64 && b7 == (value / 1u64)
        % 256u64) by (bit_vector)
        requires
            b0 == (value >> 56u64) & 0xffu64,
            b1 == (value >> 48u64) & 0xffu64,
            b2 == (value >> 40u64) & 0xffu64,
            b3 == (value >> 32u64) & 0xffu64,
            b4 == (value >> 24u64) & 0xffu64,
            b5 == (value >> 16u64) & 0xffu64,
            b6 == (value >> 8u64) & 0xffu64,
            b7 == value & 0xffu64,
    ;
    let mut bytes: Vec<u8> = Vec::new();
    bytes.push(b0 as u8);
    bytes.push(b1 as u8);
    bytes.push(b2 as u8);
    bytes.push(b3 as u8);
    bytes.push(b4 as u8);
    bytes.push(b5 as u8);
    bytes.push(b6 as u8);
    bytes.push(b7 as u8);
    assert(bytes@ =~= be_bytes(value));
    bytes
}

/// How far concealment has come before the cover byte at index `at`: `done`
/// are the package bytes before it, `pending` the bits still to conceal.
spec fn woven(
    masks: Seq<Option<u8>>,
    cover: Seq<u8>,
    stream: Seq<u8>,
    pending: Seq<bool>,
    done: Seq<u8>,
    at: int,
) -> bool {
    &&& done + weave(masks, cover, pending, at) == package(masks, cover, stream)
    &&& package(masks, cover, stream).len() == cover.len()
    &&& reach(masks) == at + reach_from(masks, at)
    &&& pending.len() > 0 ==> capacity_before(masks, at) == 8 * stream.len() - pending.len()
    &&& pending.len() == 0 ==> capacity_before(masks, at) >= 8 * stream.len()
}

/// Conceals the bits of `feed` in `cover` under `pattern` and writes the
/// package to `writer`.
fn interleave<P: FnMut(usize) -> Option<u8>>(
    pattern: &mut P,
    writer: &mut Sink,
    source: Feed,
    cover: &[u8],
    bounded: bool,
) -> (result: Result<usize, Error>)
    requires
        callable(*old(pattern)),
        source.wf(),
        source.pending() == bits_of(source.stream()),
    ensures
        *final(pattern) == *old(pattern),
        writes(*old(writer), *final(writer), result, cover@.len()),
        result matches Ok(written) ==> written == cover@.len(),
        forall|masks: Seq<Option<u8>>|
            masks.len() == cover@.len() && #[trigger] follows(*old(pattern), masks) ==> conceals(
                *old(writer),
                *final(writer),
                result,
                masks,
                cover@,
                source.stream(),
                bounded,
            ),
{
    let ghost stream = source.stream();
    let ghost mut done: Seq<u8> = Seq::empty();
    let mut feed = source;
    let mut at: usize = 0;
    proof {
        assert forall|masks: Seq<Option<u8>>|
            masks.len() == cover@.len() && #[trigger] follows(*old(pattern), masks) implies woven(
            masks,
            cover@,
            stream,
            feed.pending(),
            done,
            0,
        ) by {
            lemma_package_woven(masks, cover@, stream);
            assert(done + weave(masks, cover@, feed.pending(), 0) =~= package(
                masks,
                cover@,
                stream,
            ));
        }
    }
    while at < cover.len()
        invariant
            *pattern == *old(pattern),
            callable(*pattern),
            feed.wf(),
            feed.stream() == stream,
            stream == source.stream(),
            at <= cover@.len(),
            done.len() == at,
            at <= old(writer).room(),
            writer@ == old(writer)@ + done,
            writer.room() == old(writer).room() - at,
            forall|masks: Seq<Option<u8>>|
                masks.len() == cover@.len() && #[trigger] follows(*old(pattern), masks) ==> woven(
                    masks,
                    cover@,
                    stream,
                    feed.pending(),
                    done,
                    at as int,
                ),
        ensures
            at <= cover@.len(),
            feed.pending().len() > 0 ==> forall|masks: Seq<Option<u8>>|
                masks.len() == cover@.len() && #[trigger] follows(*old(pattern), masks)
                    ==> reach_from(masks, at as int) == 0,
        decreases cover@.len() - at,
    {
        if feed.is_spent() {
            break ;
        }
        let answer: Option<u8> = pattern(at);
        match answer {
            None => {
                proof {
                    assert forall|masks: Seq<Option<u8>>|
                        masks.len() == cover@.len() && #[trigger] follows(
                            *old(pattern),
                            masks,
                        ) implies reach_from(masks, at as int) == 0 by {
                        assert(masks[at as int] == answer);
                    }
                }
                break ;
            },
            Some(mask) => {
                let ghost pending = feed.pending();
                let byte: u8 = merge(cover[at], mask, &mut feed);
                if !writer.put(byte) {
                    proof {
                        assert forall|masks: Seq<Option<u8>>|
                            masks.len() == cover@.len() && #[trigger] follows(
                                *old(pattern),
                                masks,
                            ) implies conceals(
                            *old(writer),
                            *writer,
                            Err::<usize, Error>(Error::NoSpace),
                            masks,
                            cover@,
                            stream,
                            bounded,
                        ) by {
                            assert(masks[at as int] == answer);
                            assert(woven(masks, cover@, stream, pending, done, at as int));
                            lemma_weave_len(masks, cover@, pending, at as int);
                            lemma_reach_bound(masks, at as int);
                            let whole = package(masks, cover@, stream);
                            let out = emitted(masks, cover@, stream, bounded);
                            assert(reach_from(masks, at as int) >= 1);
                            assert(whole.len() == cover@.len());
                            assert(whole.take(at as int) =~= done);
                            assert(out.take(at as int) =~= done);
                        }
                    }
                    return Err(Error::NoSpace);
                }
                proof {
                    assert forall|masks: Seq<Option<u8>>|
                        masks.len() == cover@.len() && #[trigger] follows(
                            *old(pattern),
                            masks,
                        ) implies woven(
                        masks,
                        cover@,
                        stream,
                        feed.pending(),
                        done.push(byte),
                        at + 1,
                    ) by {
                        assert(masks[at as int] == answer);
                        assert(woven(masks, cover@, stream, pending, done, at as int));
                        assert(done.push(byte) + weave(masks, cover@, feed.pending(), at + 1)
                            =~= done + weave(masks, cover@, pending, at as int));
                    }
                    done = done.push(byte);
                }
                at = at + 1;
            },
        }
    }
    if !feed.is_spent() && (bounded || cover.len() == 0 || feed.is_cut()) {
        proof {
            assert forall|masks: Seq<Option<u8>>|
                masks.len() == cover@.len() && #[trigger] follows(
                    *old(pattern),
                    masks,
                ) implies conceals(
                *old(writer),
                *writer,
                Err::<usize, Error>(Error::NoSpace),
                masks,
                cover@,
                stream,
                bounded,
            ) by {
                assert(woven(masks, cover@, stream, feed.pending(), done, at as int));
                lemma_weave_len(masks, cover@, feed.pending(), at as int);
                let whole = package(masks, cover@, stream);
                assert(whole.take(at as int) =~= done);
                assert(lacks_room(masks, stream, bounded));
            }
        }
        return Err(Error::NoSpace);
    }
    proof {
        assert forall|masks: Seq<Option<u8>>|
            masks.len() == cover@.len() && #[trigger] follows(*old(pattern), masks) implies {
            &&& !lacks_room(masks, stream, bounded)
            &&& done + cover@.skip(at as int) == package(masks, cover@, stream)
        } by {
            assert(woven(masks, cover@, stream, feed.pending(), done, at as int));
            lemma_reach_bound(masks, at as int);
            lemma_capacity_before_grows(masks, at as int, reach(masks) as int);
            assert(weave(masks, cover@, feed.pending(), at as int) =~= cover@.skip(at as int));
        }
    }
    while at < cover.len()
        invariant
            *pattern == *old(pattern),
            stream == source.stream(),
            at <= cover@.len(),
            done.len() == at,
            at <= old(writer).room(),
            writer@ == old(writer)@ + done,
            writer.room() == old(writer).room() - at,
            forall|masks: Seq<Option<u8>>|
                masks.len() == cover@.len() && #[trigger] follows(*old(pattern), masks) ==> {
                    &&& !lacks_room(masks, stream, bounded)
                    &&& done + cover@.skip(at as int) == package(masks, cover@, stream)
                },
        decreases cover@.len() - at,
    {
        if !writer.put(cover[at]) {
            proof {
                assert forall|masks: Seq<Option<u8>>|
                    masks.len() == cover@.len() && #[trigger] follows(
                        *old(pattern),
                        masks,
                    ) implies conceals(
                    *old(writer),
                    *writer,
                    Err::<usize, Error>(Error::NoSpace),
                    masks,
                    cover@,
                    stream,
                    bounded,
                ) by {
                    let whole = package(masks, cover@, stream);
                    assert(whole.take(at as int) =~= done);
                }
            }
            return Err(Error::NoSpace);
        }
        proof {
            assert forall|masks: Seq<Option<u8>>|
                masks.len() == cover@.len() && #[trigger] follows(
                    *old(pattern),
                    masks,
                ) implies done.push(cover@[at as int]) + cover@.skip(at + 1) == package(
                masks,
                cover@,
                stream,
            ) by {
                assert(done.push(cover@[at as int]) + cover@.skip(at + 1) =~= done + cover@.skip(
                    at as int,
                ));
            }
            done = done.push(cover@[at as int]);
        }
        at = at + 1;
    }
    proof {
        assert forall|masks: Seq<Option<u8>>|
            masks.len() == cover@.len() && #[trigger] follows(
                *old(pattern),
                masks,
            ) implies conceals(
            *old(writer),
            *writer,
            Ok::<usize, Error>(at),
            masks,
            cover@,
            stream,
            bounded,
        ) by {
            let whole = package(masks, cover@, stream);
            assert(whole =~= done);
        }
    }
    Ok(at)
}

/// A carrier of binary messages: it conceals a payload in the bits of a
/// cover that its pattern selects, and writes the package to its sink.
///
/// A carrier made by [`Carrier::new`] conceals the whole payload; one made by
/// [`Carrier::with_len`] conceals no more than the bound it was given; one
/// made by [`Carrier::with_embedded_len`] conceals the bound itself before
/// the payload, as a 64-bit integer in big-endian byte order.
///
/// A carrier conceals one message: concealing uses it up.
pub struct Carrier<'a, P: FnMut(usize) -> Option<u8>> {
    pattern: P,
    writer: &'a mut Sink,
    len: Option<u64>,
    embedded: bool,
}

impl<'a, P: FnMut(usize) -> Option<u8>> Carrier<'a, P> {
    #[verifier::type_invariant]
    spec fn inv(self) -> bool {
        callable(self.pattern)
    }

    /// The bit pattern of the carrier.
    pub closed spec fn pattern(self) -> P {
        self.pattern
    }

    /// The sink that the carrier writes to.
    pub closed spec fn writer(self) -> &'a mut Sink {
        self.writer
    }

    /// The bound on the number of payload bytes that are concealed, if one
    /// was declared.
    pub closed spec fn bound(self) -> Option<u64> {
        self.len
    }

    /// Whether the bound is concealed before the payload.
    pub closed spec fn embeds_len(self) -> bool {
        self.embedded
    }

    /// The bytes that the carrier conceals for `payload`.
    pub open spec fn stream(self, payload: Seq<u8>) -> Seq<u8> {
        logical_payload(self.bound(), self.embeds_len(), payload)
    }

    /// A carrier that conceals the length `len` before the payload, and of
    /// the payload no more than `len` bytes.
    pub fn with_embedded_len(len: usize, pattern: P, writer: &'a mut Sink) -> (carrier: Self)
        requires
            callable(pattern),
        ensures
            carrier.pattern() == pattern,
            *carrier.writer() == *old(writer),
            *final(carrier.writer()) == *final(writer),
            carrier.bound() == Some(len as u64),
            carrier.embeds_len(),
    {
        Carrier { pattern, writer, len: Some(len as u64), embedded: true }
    }

    /// A carrier that conceals no more than `len` bytes of the payload; the
    /// receiver is to know `len`.
    pub fn with_len(len: usize, pattern: P, writer: &'a mut Sink) -> (carrier: Self)
        requires
            callable(pattern),
        ensures
            carrier.pattern() == pattern,
            *carrier.writer() == *old(writer),
            *final(carrier.writer()) == *final(writer),
            carrier.bound() == Some(len as u64),
            !carrier.embeds_len(),
    {
        Carrier { pattern, writer, len: Some(len as u64), embedded: false }
    }

    /// A carrier that conceals the whole payload, as far as the cover has
    /// room for it.
    #[must_use]
    pub fn new(pattern: P, writer: &'a mut Sink) -> (carrier: Self)
        requires
            callable(pattern),
        ensures
            carrier.pattern() == pattern,
            *carrier.writer() == *old(writer),
            *final(carrier.writer()) == *final(writer),
            carrier.bound().is_none(),
            !carrier.embeds_len(),
    {
        Carrier { pattern, writer, len: None, embedded: false }
    }
}

impl<'a, P: FnMut(usize) -> Option<u8>> Conceal for Carrier<'a, P> {
    /// Conceals `payload` in `cover` and writes the package to the sink.
    ///
    /// Whatever masks the pattern answers with: the sink takes the package,
    /// which is as long as the cover, and the call returns that length;
    /// where the cover lacks room for the payload, or the sink for the
    /// package, the call fails and the sink holds what was written until
    /// then.
    fn conceal(self, payload: &[u8], cover: &[u8]) -> (result: Result<usize, Error>)
        ensures
            writes(*self.writer(), *final(self.writer()), result, cover@.len()),
            result matches Ok(written) ==> written == cover@.len(),
            forall|masks: Seq<Option<u8>>|
                masks.len() == cover@.len() && #[trigger] follows(self.pattern(), masks)
                    ==> conceals(
                    *self.writer(),
                    *final(self.writer()),
                    result,
                    masks,
                    cover@,
                    self.stream(payload@),
                    self.bound() is Some,
                ),
    {
        proof {
            use_type_invariant(&self);
        }
        let ghost stream = self.stream(payload@);
        let Carrier { mut pattern, writer, len, embedded } = self;
        let feed = match len {
            None => Feed::new(Vec::new(), payload),
            Some(bound) => {
                let limit: usize = if payload.len() as u64 <= bound {
                    payload.len()
                } else {
                    bound as usize
                };
                let body = slice_subrange(payload, 0, limit);
                assert(body@ =~= prefix(payload@, bound as int));
                if bound > 0 && embedded {
                    Feed::new(be_encode(bound), body)
                } else {
                    assert(Seq::<u8>::empty() + body@ =~= body@);
                    Feed::new(Vec::new(), body)
                }
            },
        };
        assert(feed.stream() =~= stream);
        interleave(&mut pattern, writer, feed, cover, len.is_some())
    }
}

} // verus!
