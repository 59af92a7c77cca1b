//! The package: reveals the message that its bytes conceal.

use vstd::prelude::*;
use super::bits::{
    byte_of, lemma_bit_shift, lemma_byte_of_none, lemma_byte_of_push, lemma_lowest_from, lemma_byte_of_same, lemma_rank_bounds, lemma_rank_step,
    lemma_selected_gap, lemma_selected_grows, lemma_selected_len, lemma_selected_step, selected,
    selected_below, Ones,
};
use super::lemmas::{lemma_be_value_bound, lemma_be_value_same};
use super::model::{
    be_value, carried, carried_from, message, pack, prefix, rest, revealed, reveals, writes,
};
use super::pattern::{callable, follows};
use super::sink::Sink;
use crate::{Error, Reveal};

verus! {

/// How a receiver knows where the message ends.
#[derive(Debug, Clone, Copy, PartialEq, Eq, Structural)]
pub enum PayloadLength {
    /// The message has this many bytes.
    Bound(u64),
    /// The message goes on as long as the package carries bits.
    Unbound,
    /// The first eight bytes that the package carries give the length of the
    /// message behind them, as a 64-bit integer in big-endian byte order.
    Embedded,
}

/// What the bytes that come out of the package are taken for.
enum Phase {
    /// They are the length of the message: `filled` of its eight bytes have
    /// come, and `value` is their big-endian value.
    Prefix { filled: usize, value: u64 },
    /// They are the message, which has this many bytes.
    Bound(u64),
    /// They are the message, as long as they come.
    Unbound,
}

/// How extraction goes on after a bit.
enum Step {
    /// Further bits are wanted.
    More,
    /// The message is complete.
    Done,
    /// The sink refused a byte of the message.
    Refused,
}

/// Whether the bytes `full` hold the whole message of a receiver that goes
/// by `len`.
spec fn finished(len: PayloadLength, full: Seq<u8>) -> bool {
    match len {
        PayloadLength::Unbound => false,
        PayloadLength::Bound(n) => full.len() >= n,
        PayloadLength::Embedded => full.len() >= 8 && full.len() - 8 >= be_value(full, 8),
    }
}

/// Whether `now` is the sink `before` after it has taken `sent`.
spec fn delivered(before: Sink, now: Sink, sent: Seq<u8>) -> bool {
    &&& sent.len() <= before.room()
    &&& now@ == before@ + sent
    &&& now.room() == before.room() - sent.len()
}

/// A message only grows as further bytes are decoded, and a finished one
/// does not change.
proof fn lemma_message_grows(len: PayloadLength, full: Seq<u8>, decoded: Seq<u8>)
    requires
        full.is_prefix_of(decoded),
    ensures
        message(len, full).is_prefix_of(message(len, decoded)),
        finished(len, full) ==> message(len, decoded) == message(len, full),
{
    if full.len() >= 8 {
        lemma_be_value_same(full, decoded, 8);
    }
    assert(message(len, full).is_prefix_of(message(len, decoded)));
    if finished(len, full) {
        assert(message(len, decoded) =~= message(len, full));
    }
}

/// Whether `full` are the bytes that the bits `got` make up, with no bit
/// left over.
spec fn rounded(got: Seq<bool>, full: Seq<u8>) -> bool {
    &&& got.len() == 8 * full.len()
    &&& forall|j: int| 0 <= j < full.len() ==> full[j] == byte_of(#[trigger] got.skip(8 * j))
}

/// The bytes made of the first bits of a sequence are the first bytes that
/// the whole sequence packs to.
proof fn lemma_pack_prefix(got: Seq<bool>, all: Seq<bool>, full: Seq<u8>)
    requires
        got.is_prefix_of(all),
        rounded(got, full),
    ensures
        full.is_prefix_of(pack(all)),
{
    assert forall|j: int| 0 <= j < full.len() implies full[j] == pack(all)[j] by {
        assert(full[j] == byte_of(got.skip(8 * j)));
        lemma_byte_of_same(got.skip(8 * j), all.skip(8 * j));
    }
    assert(full =~= pack(all).subrange(0, full.len() as int));
}

/// The bytes that a sequence of bits packs to: the complete ones, and one
/// more of the bits that are left over.
proof fn lemma_pack_exact(got: Seq<bool>, full: Seq<u8>, acc: u8, count: int)
    requires
        0 <= count < 8,
        got.len() == 8 * full.len() + count,
        forall|j: int| 0 <= j < full.len() ==> full[j] == byte_of(#[trigger] got.skip(8 * j)),
        acc == byte_of(got.skip(8 * full.len() as int)),
    ensures
        pack(got) == if count == 0 {
            full
        } else {
            full.push(acc)
        },
{
    let whole = if count == 0 {
        full
    } else {
        full.push(acc)
    };
    assert(pack(got) =~= whole);
}

/// The bytes assembled from the bits that come out of the package.
struct Assembler {
    /// The bits of the byte that is not yet complete.
    acc: u8,
    /// How many bits `acc` holds.
    count: usize,
    phase: Phase,
    /// How many bytes of the message have been written.
    written: usize,
}

impl Assembler {
    /// Whether the assembler has made the bytes `full` of the bits `got` and
    /// holds the bits behind them.
    spec fn holds(self, got: Seq<bool>, full: Seq<u8>) -> bool {
        &&& self.count < 8
        &&& got.len() == 8 * full.len() + self.count
        &&& forall|j: int| 0 <= j < full.len() ==> full[j] == byte_of(#[trigger] got.skip(8 * j))
        &&& self.acc == byte_of(got.skip(8 * full.len() as int))
    }

    /// Whether the assembler has taken the bytes `full` for what a receiver
    /// that goes by `len` takes them, and waits for more.
    spec fn tracks(self, len: PayloadLength, full: Seq<u8>) -> bool {
        &&& self.written == message(len, full).len()
        &&& match len {
            PayloadLength::Unbound => self.phase == Phase::Unbound,
            PayloadLength::Bound(n) => self.phase == Phase::Bound(n) && full.len() < n,
            PayloadLength::Embedded => if full.len() < 8 {
                &&& self.phase matches Phase::Prefix { filled, value }
                &&& filled == full.len()
                &&& value == be_value(full, full.len() as int)
            } else {
                &&& self.phase matches Phase::Bound(n)
                &&& n == be_value(full, 8)
                &&& full.len() - 8 < n
            },
        }
    }

    fn new(len: PayloadLength) -> (assembler: Self)
        requires
            len != PayloadLength::Bound(0),
        ensures
            assembler.holds(Seq::empty(), Seq::empty()),
            assembler.tracks(len, Seq::empty()),
    {
        let phase = match len {
            PayloadLength::Bound(n) => Phase::Bound(n),
            PayloadLength::Unbound => Phase::Unbound,
            PayloadLength::Embedded => Phase::Prefix { filled: 0, value: 0 },
        };
        let assembler = Assembler { acc: 0, count: 0, phase, written: 0 };
        proof {
            let none = Seq::<bool>::empty();
            assert(none.skip(0) =~= none);
            lemma_byte_of_none();
        }
        assembler
    }

    /// Takes the complete byte `byte` for what the phase says it is.
    fn emit(
        &mut self,
        byte: u8,
        output: &mut Sink,
        Ghost(len): Ghost<PayloadLength>,
        Ghost(full): Ghost<Seq<u8>>,
        Ghost(before): Ghost<Sink>,
    ) -> (step: Step)
        requires
            old(self).tracks(len, full),
            full.len() < usize::MAX,
            delivered(before, *old(output), message(len, full)),
        ensures
            final(self).acc == old(self).acc,
            final(self).count == old(self).count,
            match step {
                Step::More => {
                    &&& final(self).tracks(len, full.push(byte))
                    &&& delivered(before, *final(output), message(len, full.push(byte)))
                },
                Step::Done => {
                    &&& finished(len, full.push(byte))
                    &&& final(self).written == message(len, full.push(byte)).len()
                    &&& delivered(before, *final(output), message(len, full.push(byte)))
                },
                Step::Refused => {
                    &&& final(output)@ == old(output)@
                    &&& final(output).room() == 0
                    &&& old(output).room() == 0
                    &&& message(len, full.push(byte)).len() == message(len, full).len() + 1
                },
            },
    {
        let ghost next = full.push(byte);
        proof {
            if full.len() >= 8 {
                lemma_be_value_same(full, next, 8);
            }
            lemma_be_value_same(full, next, full.len() as int);
            assert(next.take(full.len() as int) =~= full);
        }
        match self.phase {
            Phase::Prefix { filled, value } => {
                let ghost before = value;
                proof {
                    lemma_be_value_bound(full, full.len() as int);
                }
                let value: u64 = (value << 8u64) | (byte as u64);
                proof {
                    assert(len == PayloadLength::Embedded);
                    assert(value == before * 256 + byte) by (bit_vector)
                        requires
                            value == (before << 8u64) | (byte as u64),
                            before < 0x100_0000_0000_0000u64,
                    ;
                    assert(value == be_value(next, next.len() as int));
                }
                if filled + 1 < 8 {
                    self.phase = Phase::Prefix { filled: filled + 1, value };
                    Step::More
                } else {
                    self.phase = Phase::Bound(value);
                    proof {
                        assert(rest(next, 8) =~= Seq::<u8>::empty());
                    }
                    if value == 0 {
                        Step::Done
                    } else {
                        Step::More
                    }
                }
            },
            Phase::Bound(n) => {
                proof {
                    if len == PayloadLength::Embedded {
                        assert(rest(next, 8) =~= rest(full, 8).push(byte));
                    }
                    assert(message(len, next) =~= message(len, full).push(byte));
                }
                if !output.put(byte) {
                    Step::Refused
                } else {
                    self.written = self.written + 1;
                    if self.written as u64 >= n {
                        Step::Done
                    } else {
                        Step::More
                    }
                }
            },
            Phase::Unbound => {
                proof {
                    assert(message(len, next) =~= message(len, full).push(byte));
                }
                if !output.put(byte) {
                    Step::Refused
                } else {
                    self.written = self.written + 1;
                    Step::More
                }
            },
        }
    }

    /// Takes one more bit, and the byte that it may complete.
    fn push_bit(
        &mut self,
        on: bool,
        output: &mut Sink,
        Ghost(len): Ghost<PayloadLength>,
        Ghost(got): Ghost<Seq<bool>>,
        Ghost(full): Ghost<Seq<u8>>,
        Ghost(before): Ghost<Sink>,
    ) -> (step: Step)
        requires
            old(self).holds(got, full),
            old(self).tracks(len, full),
            full.len() < usize::MAX,
            delivered(before, *old(output), message(len, full)),
        ensures
            ({
                let bits = got.push(on);
                let next = if old(self).count == 7 {
                    full.push(byte_of(bits.skip(8 * full.len() as int)))
                } else {
                    full
                };
                match step {
                    Step::More => {
                        &&& final(self).holds(bits, next)
                        &&& final(self).tracks(len, next)
                        &&& delivered(before, *final(output), message(len, next))
                    },
                    Step::Done => {
                        &&& old(self).count == 7
                        &&& rounded(bits, next)
                        &&& finished(len, next)
                        &&& final(self).written == message(len, next).len()
                        &&& delivered(before, *final(output), message(len, next))
                    },
                    Step::Refused => {
                        &&& old(self).count == 7
                        &&& rounded(bits, next)
                        &&& final(output)@ == old(output)@
                        &&& final(output).room() == 0
                        &&& old(output).room() == 0
                        &&& message(len, next).len() == message(len, full).len() + 1
                    },
                }
            }),
    {
        let ghost bits = got.push(on);
        let ghost part = got.skip(8 * full.len() as int);
        proof {
            lemma_byte_of_push(part, on);
            assert(bits.skip(8 * full.len() as int) =~= part.push(on));
            assert forall|j: int| 0 <= j < full.len() implies full[j] == byte_of(
                #[trigger] bits.skip(8 * j),
            ) by {
                lemma_byte_of_same(got.skip(8 * j), bits.skip(8 * j));
            }
        }
        if on {
            self.acc = self.acc | (1u8 << (self.count as u8));
        }
        self.count = self.count + 1;
        if self.count < 8 {
            return Step::More;
        }
        let byte: u8 = self.acc;
        self.acc = 0;
        self.count = 0;
        proof {
            let next = full.push(byte);
            assert(rounded(bits, next));
            let none = bits.skip(8 * next.len() as int);
            assert(none =~= Seq::<bool>::empty());
            lemma_byte_of_none();
        }
        self.emit(byte, output, Ghost(len), Ghost(full), Ghost(before))
    }
}

/// Takes from `byte` the bits that `mask` selects, in ascending order, as
/// long as further bits are wanted. Gives the bits and the bytes that have
/// come out of the package by then.
fn absorb(
    byte: u8,
    mask: u8,
    assembler: &mut Assembler,
    output: &mut Sink,
    Ghost(len): Ghost<PayloadLength>,
    Ghost(got): Ghost<Seq<bool>>,
    Ghost(full): Ghost<Seq<u8>>,
    Ghost(before): Ghost<Sink>,
) -> (outcome: (Step, Ghost<Seq<bool>>, Ghost<Seq<u8>>))
    requires
        old(assembler).holds(got, full),
        old(assembler).tracks(len, full),
        got.len() + 8 <= 8 * usize::MAX,
        delivered(before, *old(output), message(len, full)),
    ensures
        ({
            let whole = got + selected(byte, mask);
            let bits = outcome.1@;
            let bytes = outcome.2@;
            match outcome.0 {
                Step::More => {
                    &&& bits == whole
                    &&& final(assembler).holds(bits, bytes)
                    &&& final(assembler).tracks(len, bytes)
                    &&& delivered(before, *final(output), message(len, bytes))
                },
                Step::Done => {
                    &&& bits.is_prefix_of(whole)
                    &&& rounded(bits, bytes)
                    &&& finished(len, bytes)
                    &&& final(assembler).written == message(len, bytes).len()
                    &&& delivered(before, *final(output), message(len, bytes))
                },
                Step::Refused => {
                    &&& bits.is_prefix_of(whole)
                    &&& rounded(bits, bytes)
                    &&& bytes.len() > 0
                    &&& delivered(before, *final(output), message(len, bytes.drop_last()))
                    &&& final(output).room() == 0
                    &&& message(len, bytes).len() == message(len, bytes.drop_last()).len() + 1
                },
            }
        }),
{
    let ghost mut bits = got;
    let ghost mut bytes = full;
    let mut ones = Ones::from(mask);
    proof {
        lemma_rank_step(mask, 0);
        assert(got + selected_below(byte, mask, 0) =~= got);
    }
    loop
        invariant
            ones.mask() == mask,
            0 <= ones.offset() <= 8,
            got.len() + 8 <= 8 * usize::MAX,
            bits == got + selected_below(byte, mask, ones.offset()),
            bits.len() <= got.len() + ones.offset(),
            assembler.holds(bits, bytes),
            assembler.tracks(len, bytes),
            delivered(before, *output, message(len, bytes)),
        ensures
            bits == got + selected(byte, mask),
        decreases 8 - ones.offset(),
    {
        let ghost low = ones.offset();
        proof {
            lemma_lowest_from(mask, low);
        }
        match ones.next() {
            None => {
                proof {
                    lemma_selected_gap(byte, mask, low, 8);
                }
                break ;
            },
            Some(pos) => {
                let on: bool = (byte >> (pos as u8)) & 1u8 == 1u8;
                let ghost grown = bits.push(on);
                let ghost prior = bytes;
                proof {
                    lemma_selected_gap(byte, mask, low, pos as int);
                    lemma_selected_grows(byte, mask, pos + 1, 8);
                    lemma_selected_step(byte, mask, pos as int);
                    lemma_selected_len(byte, mask, 8);
                    lemma_bit_shift(byte, pos as int);
                    assert(grown =~= got + selected_below(byte, mask, pos + 1));
                    assert(grown.is_prefix_of(got + selected(byte, mask))) by {
                        let tail = selected_below(byte, mask, pos + 1);
                        let all = selected(byte, mask);
                        assert(tail =~= all.subrange(0, tail.len() as int));
                        assert(grown =~= (got + all).subrange(0, grown.len() as int));
                    }
                }
                let ghost next = if assembler.count == 7 {
                    bytes.push(byte_of(grown.skip(8 * bytes.len() as int)))
                } else {
                    bytes
                };
                let step = assembler.push_bit(
                    on,
                    output,
                    Ghost(len),
                    Ghost(bits),
                    Ghost(bytes),
                    Ghost(before),
                );
                proof {
                    bits = grown;
                    bytes = next;
                }
                match step {
                    Step::More => {},
                    Step::Done => {
                        return (Step::Done, Ghost(bits), Ghost(bytes));
                    },
                    Step::Refused => {
                        proof {
                            assert(bytes.drop_last() =~= prior);
                        }
                        return (Step::Refused, Ghost(bits), Ghost(bytes));
                    },
                }
            },
        }
    }
    (Step::More, Ghost(bits), Ghost(bytes))
}

/// Extracts from `package` the message that it holds under `pattern`, for a
/// receiver that goes by `len`, and writes it to `output`.
fn extract<P: FnMut(usize) -> Option<u8>>(
    pattern: &mut P,
    package: &[u8],
    len: PayloadLength,
    output: &mut Sink,
) -> (result: Result<usize, Error>)
    requires
        callable(*old(pattern)),
    ensures
        *final(pattern) == *old(pattern),
        writes(*old(output), *final(output), result, package@.len()),
        forall|masks: Seq<Option<u8>>|
            masks.len() == package@.len() && #[trigger] follows(*old(pattern), masks) ==> reveals(
                *old(output),
                *final(output),
                result,
                masks,
                package@,
                len,
            ),
{
    let ghost before = *output;
    if let PayloadLength::Bound(0) = len {
        proof {
            assert(output@ =~= before@ + Seq::<u8>::empty());
        }
        return Ok(0);
    }
    let mut assembler = Assembler::new(len);
    let ghost mut got: Seq<bool> = Seq::empty();
    let ghost mut full: Seq<u8> = Seq::empty();
    let mut at: usize = 0;
    proof {
        assert(output@ =~= before@ + message(len, full));
        assert forall|masks: Seq<Option<u8>>|
            masks.len() == package@.len() && #[trigger] follows(
                *old(pattern),
                masks,
            ) implies carried(masks, package@) == got + carried_from(masks, package@, 0) by {
            assert(got + carried_from(masks, package@, 0) =~= carried(masks, package@));
        }
    }
    while at < package.len()
        invariant
            *pattern == *old(pattern),
            callable(*pattern),
            before == *old(output),
            at <= package@.len(),
            got.len() <= 8 * at,
            assembler.holds(got, full),
            assembler.tracks(len, full),
            delivered(before, *output, message(len, full)),
            forall|masks: Seq<Option<u8>>|
                masks.len() == package@.len() && #[trigger] follows(*old(pattern), masks)
                    ==> carried(masks, package@) == got + carried_from(
                    masks,
                    package@,
                    at as int,
                ),
        ensures
            forall|masks: Seq<Option<u8>>|
                masks.len() == package@.len() && #[trigger] follows(*old(pattern), masks)
                    ==> carried(masks, package@) == got,
        decreases package@.len() - at,
    {
        let answer: Option<u8> = pattern(at);
        match answer {
            None => {
                proof {
                    assert forall|masks: Seq<Option<u8>>|
                        masks.len() == package@.len() && #[trigger] follows(
                            *old(pattern),
                            masks,
                        ) implies carried(masks, package@) == got by {
                        assert(masks[at as int] == answer);
                        assert(got + carried_from(masks, package@, at as int) =~= got);
                    }
                }
                break ;
            },
            Some(mask) => {
                let ghost earlier = got;
                let (step, Ghost(bits), Ghost(bytes)) = absorb(
                    package[at],
                    mask,
                    &mut assembler,
                    output,
                    Ghost(len),
                    Ghost(got),
                    Ghost(full),
                    Ghost(before),
                );
                proof {
                    got = bits;
                    full = bytes;
                    assert forall|masks: Seq<Option<u8>>|
                        masks.len() == package@.len() && #[trigger] follows(
                            *old(pattern),
                            masks,
                        ) implies carried(masks, package@) == earlier + selected(
                        package@[at as int],
                        mask,
                    ) + carried_from(masks, package@, at + 1) by {
                        assert(masks[at as int] == answer);
                        assert(earlier + selected(package@[at as int], mask) + carried_from(
                            masks,
                            package@,
                            at + 1,
                        ) =~= earlier + carried_from(masks, package@, at as int));
                    }
                }
                proof {
                    lemma_selected_len(package@[at as int], mask, 8);
                    lemma_rank_bounds(mask, 0, 8);
                }
                match step {
                    Step::More => {},
                    Step::Done => {
                        proof {
                            assert forall|masks: Seq<Option<u8>>|
                                masks.len() == package@.len() && #[trigger] follows(
                                    *old(pattern),
                                    masks,
                                ) implies reveals(
                                before,
                                *output,
                                Ok::<usize, Error>(assembler.written),
                                masks,
                                package@,
                                len,
                            ) by {
                                let all = carried(masks, package@);
                                let whole = earlier + selected(package@[at as int], mask);
                                assert(got.is_prefix_of(all)) by {
                                    assert(got =~= whole.subrange(0, got.len() as int));
                                    assert(whole =~= all.subrange(0, whole.len() as int));
                                    assert(got =~= all.subrange(0, got.len() as int));
                                }
                                lemma_pack_prefix(got, all, full);
                                lemma_message_grows(len, full, pack(all));
                            }
                        }
                        return Ok(assembler.written);
                    },
                    Step::Refused => {
                        proof {
                            assert forall|masks: Seq<Option<u8>>|
                                masks.len() == package@.len() && #[trigger] follows(
                                    *old(pattern),
                                    masks,
                                ) implies reveals(
                                before,
                                *output,
                                Err::<usize, Error>(Error::NoSpace),
                                masks,
                                package@,
                                len,
                            ) by {
                                let all = carried(masks, package@);
                                let whole = earlier + selected(package@[at as int], mask);
                                assert(got.is_prefix_of(all)) by {
                                    assert(got =~= whole.subrange(0, got.len() as int));
                                    assert(whole =~= all.subrange(0, whole.len() as int));
                                    assert(got =~= all.subrange(0, got.len() as int));
                                }
                                lemma_pack_prefix(got, all, full);
                                lemma_message_grows(len, full, pack(all));
                                lemma_message_grows(len, full.drop_last(), full);
                                lemma_refused(
                                    before,
                                    *output,
                                    message(len, full.drop_last()),
                                    message(len, full),
                                    revealed(masks, package@, len),
                                );
                            }
                        }
                        return Err(Error::NoSpace);
                    },
                }
                at = at + 1;
            },
        }
    }
    proof {
        lemma_pack_exact(got, full, assembler.acc, assembler.count as int);
    }
    if assembler.count > 0 {
        let last: u8 = assembler.acc;
        let ghost prior = full;
        let step = assembler.emit(last, output, Ghost(len), Ghost(full), Ghost(before));
        proof {
            full = full.push(last);
            assert(full.drop_last() =~= prior);
        }
        if let Step::Refused = step {
            proof {
                assert forall|masks: Seq<Option<u8>>|
                    masks.len() == package@.len() && #[trigger] follows(
                        *old(pattern),
                        masks,
                    ) implies reveals(
                    before,
                    *output,
                    Err::<usize, Error>(Error::NoSpace),
                    masks,
                    package@,
                    len,
                ) by {
                    lemma_message_grows(len, prior, full);
                    lemma_refused(
                        before,
                        *output,
                        message(len, prior),
                        message(len, full),
                        revealed(masks, package@, len),
                    );
                }
            }
            return Err(Error::NoSpace);
        }
    }
    Ok(assembler.written)
}

/// A sink that has taken `sent` and has no room for the byte that follows
/// it in `out` has taken of `out` what it had room for.
proof fn lemma_refused(before: Sink, now: Sink, sent: Seq<u8>, next: Seq<u8>, out: Seq<u8>)
    requires
        delivered(before, now, sent),
        now.room() == 0,
        sent.is_prefix_of(next),
        next.len() == sent.len() + 1,
        next.is_prefix_of(out),
    ensures
        out.len() > before.room(),
        now@ == before@ + prefix(out, before.room() as int),
        now.room() == before.room() - prefix(out, before.room() as int).len(),
{
    assert(sent =~= out.take(sent.len() as int));
}

/// A package of binary data that holds a message: it reveals the message
/// from the bits of its bytes that its pattern selects.
///
/// A package made by [`Package::with_len`] reveals a message of the length
/// it was given; one made by [`Package::with_embedded_len`] takes the first
/// eight bytes that come out for the length of the message behind them; one
/// made by [`Package::new`] reveals every byte that the package carries.
///
/// A package reveals its message once: revealing uses it up.
pub struct Package<'a, P: FnMut(usize) -> Option<u8>> {
    pattern: P,
    reader: &'a [u8],
    len: PayloadLength,
}

impl<'a, P: FnMut(usize) -> Option<u8>> Package<'a, P> {
    #[verifier::type_invariant]
    spec fn inv(self) -> bool {
        callable(self.pattern)
    }

    /// The bit pattern of the package.
    pub closed spec fn pattern(self) -> P {
        self.pattern
    }

    /// The bytes of the package.
    pub closed spec fn bytes(self) -> Seq<u8> {
        self.reader@
    }

    /// How the package knows where its message ends.
    pub closed spec fn length(self) -> PayloadLength {
        self.len
    }

    /// A package whose message has `len` bytes.
    #[must_use]
    pub fn with_len(len: usize, pattern: P, reader: &'a [u8]) -> (package: Self)
        requires
            callable(pattern),
        ensures
            package.pattern() == pattern,
            package.bytes() == reader@,
            package.length() == PayloadLength::Bound(len as u64),
    {
        Package { pattern, reader, len: PayloadLength::Bound(len as u64) }
    }

    /// A package that holds the length of its message before the message,
    /// as a 64-bit integer in big-endian byte order.
    #[must_use]
    pub fn with_embedded_len(pattern: P, reader: &'a [u8]) -> (package: Self)
        requires
            callable(pattern),
        ensures
            package.pattern() == pattern,
            package.bytes() == reader@,
            package.length() == PayloadLength::Embedded,
    {
        Package { pattern, reader, len: PayloadLength::Embedded }
    }

    /// A package whose message is every byte that it carries.
    #[must_use]
    pub fn new(pattern: P, reader: &'a [u8]) -> (package: Self)
        requires
            callable(pattern),
        ensures
            package.pattern() == pattern,
            package.bytes() == reader@,
            package.length() == PayloadLength::Unbound,
    {
        Package { pattern, reader, len: PayloadLength::Unbound }
    }
}

impl<'a, P: FnMut(usize) -> Option<u8>> Reveal for Package<'a, P> {
    /// Writes the message of the package to `output`.
    ///
    /// Whatever masks the pattern answers with: the sink takes the message
    /// that the package holds under them, and the call returns the length of
    /// the message; where the sink has no room for all of it, the call fails
    /// and the sink holds what it had room for.
    fn reveal_into(self, output: &mut Sink) -> (result: Result<usize, Error>)
        ensures
            writes(*old(output), *final(output), result, self.bytes().len()),
            forall|masks: Seq<Option<u8>>|
                masks.len() == self.bytes().len() && #[trigger] follows(self.pattern(), masks)
                    ==> reveals(
                    *old(output),
                    *final(output),
                    result,
                    masks,
                    self.bytes(),
                    self.length(),
                ),
    {
        proof {
            use_type_invariant(&self);
        }
        let Package { mut pattern, reader, len } = self;
        extract(&mut pattern, reader, len, output)
    }
}

} // verus!
