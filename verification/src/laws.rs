//! What holds of encoder and decoder together: a packet that was encoded is
//! decoded to the same payload, and neither side minds where the caller cuts
//! its input into chunks.

use vstd::prelude::*;
use crate::decoder::{
    decode_trace, lemma_after_nothing, lemma_after_twice, lemma_stream_trace_bounds, stream_trace, Phase, Trace,
};
use crate::encoder::{encoded, header};
use crate::error::Error;
use crate::wire::{
    escaped, frame, lemma_stuffed_concat, lemma_stuffed_prefix_grows, lemma_stuffed_push, lemma_stuffed_single,
    stuffed, END, ESC, ESC_END, ESC_ESC,
};

verus! {

/// What sequential encode calls write, one call for each chunk, where each
/// call has room for its whole chunk. Only the first call may owe the header.
pub open spec fn encoded_chunks(header_written: bool, chunks: Seq<Seq<u8>>) -> Seq<u8>
    decreases chunks.len(),
{
    if chunks.len() == 0 {
        Seq::empty()
    } else {
        encoded(header_written, chunks.first()) + encoded_chunks(true, chunks.drop_first())
    }
}

/// Encoding a payload in two calls writes what encoding it in one call writes.
pub proof fn lemma_encode_split(header_written: bool, first: Seq<u8>, second: Seq<u8>)
    ensures
        encoded(header_written, first + second) == encoded(header_written, first) + encoded(true, second),
{
    lemma_stuffed_concat(first, second);
    assert(encoded(true, second) =~= stuffed(second));
    assert(header(header_written) + (stuffed(first) + stuffed(second)) =~= (header(header_written) + stuffed(
        first,
    )) + stuffed(second));
}

/// Encoding a payload chunk by chunk, however it is cut into one chunk or
/// more, writes what encoding it in one call writes.
pub proof fn lemma_encode_chunks(header_written: bool, chunks: Seq<Seq<u8>>)
    requires
        chunks.len() > 0,
    ensures
        encoded_chunks(header_written, chunks) == encoded(header_written, chunks.flatten()),
    decreases chunks.len(),
{
    let rest = chunks.drop_first();
    if rest.len() == 0 {
        assert(encoded_chunks(true, rest) =~= Seq::<u8>::empty());
        assert(rest.flatten() =~= Seq::<u8>::empty());
        assert(chunks.flatten() =~= chunks.first());
        assert(encoded(header_written, chunks.first()) + Seq::<u8>::empty() =~= encoded(
            header_written,
            chunks.first(),
        ));
    } else {
        lemma_encode_chunks(true, rest);
        lemma_encode_split(header_written, chunks.first(), rest.flatten());
    }
}

/// An encode call reads the longest part of its input that fits. Where a
/// call has written `read` bytes of the input and the escape of the next
/// byte is too long for the room that is left, no longer part of the input
/// fits into the room either.
pub proof fn lemma_encode_reads_longest(header_written: bool, input: Seq<u8>, read: int, room: nat)
    requires
        0 <= read < input.len(),
        encoded(header_written, input.take(read)).len() + escaped(input[read]).len() > room,
    ensures
        forall|longer: int|
            read < longer <= input.len() ==> (#[trigger] encoded(header_written, input.take(longer))).len()
                > room,
{
    let next = input.take(read + 1);
    assert(next =~= input.take(read).push(input[read]));
    lemma_stuffed_push(input.take(read), input[read]);
    assert forall|longer: int| read < longer <= input.len() implies (#[trigger] encoded(
        header_written,
        input.take(longer),
    )).len() > room by {
        if read + 1 < longer {
            lemma_stuffed_prefix_grows(input, read + 1, longer);
        }
    }
}

/// The stream phase gives back a stuffed payload: on the payload, stuffed,
/// and the frame end after it, with room for more than the payload, it
/// produces the payload, consumes up to and with the frame end, reports the
/// end of the packet, and reads nothing of what follows.
pub proof fn lemma_stream_unstuffs(payload: Seq<u8>, tail: Seq<u8>, room: nat)
    requires
        room > payload.len(),
    ensures
        stream_trace(false, stuffed(payload) + seq![END] + tail, room) == (Trace {
            phase: Phase::Idle,
            consumed: stuffed(payload).len() + 1,
            produced: payload,
            end: true,
            error: None,
        }),
    decreases payload.len(),
{
    let wire = stuffed(payload) + seq![END] + tail;
    if payload.len() == 0 {
        assert(wire[0] == END);
        assert(payload =~= Seq::<u8>::empty());
    } else {
        let byte = payload.first();
        let rest = payload.drop_first();
        let after = stuffed(rest) + seq![END] + tail;
        let less = (room - 1) as nat;
        assert(payload =~= seq![byte] + rest);
        lemma_stuffed_concat(seq![byte], rest);
        lemma_stuffed_single(byte);
        assert(wire =~= escaped(byte) + after);
        lemma_stream_unstuffs(rest, tail, less);
        assert(seq![byte] + rest =~= payload);
        if byte == ESC || byte == END {
            let middle = wire.skip(1);
            assert(wire[0] == ESC);
            assert(middle[0] == if byte == ESC { ESC_ESC } else { ESC_END });
            assert(middle.skip(1) =~= after);
            assert(stream_trace(true, middle, room) == stream_trace(false, after, less).after(1, seq![byte]));
            lemma_after_twice(stream_trace(false, after, less), 1, seq![byte], 1, Seq::empty());
            assert(Seq::<u8>::empty() + seq![byte] =~= seq![byte]);
            assert(stream_trace(false, wire, room) == stream_trace(true, middle, room).after(1, Seq::empty()));
        } else {
            assert(wire[0] == byte);
            assert(wire.skip(1) =~= after);
        }
    }
}

/// Round trip: a packet is what a fresh encoder writes for the payload and
/// the frame end that finishes it; decoding it with a fresh decoder and room
/// for more than the payload gives back the payload, consumes the whole
/// packet and reports its end.
pub proof fn lemma_round_trip(payload: Seq<u8>, room: nat)
    requires
        room > payload.len(),
    ensures
        frame(payload) == encoded(false, payload) + seq![END],
        decode_trace(Phase::AwaitingHeader, frame(payload), room) == (Trace {
            phase: Phase::Idle,
            consumed: frame(payload).len(),
            produced: payload,
            end: true,
            error: None,
        }),
{
    let wire = frame(payload);
    let after = stuffed(payload) + seq![END] + Seq::<u8>::empty();
    assert(wire[0] == END);
    assert(wire.skip(1) =~= after);
    lemma_stream_unstuffs(payload, Seq::empty(), room);
    assert(Seq::<u8>::empty() + payload =~= payload);
}

/// Stuffing loses nothing: two payloads that look the same on the wire are
/// the same payload.
pub proof fn lemma_stuffed_injective(one: Seq<u8>, other: Seq<u8>)
    requires
        stuffed(one) == stuffed(other),
    ensures
        one == other,
{
    let room = one.len() + other.len() + 1;
    lemma_stream_unstuffs(one, Seq::empty(), room);
    lemma_stream_unstuffs(other, Seq::empty(), room);
}

/// The stream phase on an input in two parts. Where the call on the first
/// part stops before its end, or at a packet's end, the second part changes
/// nothing. Where it reads the first part to its end, a call on the second
/// part, with the room that is left, does what the one call on both would
/// have gone on to do.
pub proof fn lemma_stream_split(pending: bool, first: Seq<u8>, second: Seq<u8>, room: nat)
    ensures
        ({
            let head = stream_trace(pending, first, room);
            let whole = stream_trace(pending, first + second, room);
            if head.end || head.consumed < first.len() {
                whole == head
            } else {
                &&& head.error is None
                &&& head.consumed == first.len()
                &&& head.produced.len() <= room
                &&& head.phase != Phase::AwaitingHeader
                &&& whole == stream_trace(
                    head.phase == Phase::EscapePending,
                    second,
                    (room - head.produced.len()) as nat,
                ).after(head.consumed, head.produced)
            }
        }),
    decreases first.len(),
{
    let head = stream_trace(pending, first, room);
    let whole = stream_trace(pending, first + second, room);
    if first.len() == 0 {
        assert(first + second =~= second);
        lemma_after_nothing(whole);
    } else if room == 0 {
    } else {
        let both = first + second;
        let less = (room - 1) as nat;
        assert(both[0] == first[0]);
        assert(both.skip(1) =~= first.skip(1) + second);
        let byte = first[0];
        lemma_stream_trace_bounds(false, first.skip(1), less);
        lemma_stream_trace_bounds(true, first.skip(1), room);
        if pending {
            if byte == ESC_END || byte == ESC_ESC {
                let out = if byte == ESC_END { END } else { ESC };
                lemma_stream_split(false, first.skip(1), second, less);
                lemma_split_step(stream_trace(false, first.skip(1), less), second, less, seq![out]);
            }
        } else if byte == ESC {
            lemma_stream_split(true, first.skip(1), second, room);
            lemma_split_step(stream_trace(true, first.skip(1), room), second, room, Seq::empty());
        } else if byte != END {
            lemma_stream_split(false, first.skip(1), second, less);
            lemma_split_step(stream_trace(false, first.skip(1), less), second, less, seq![byte]);
        }
    }
}

/// One byte put before a call that is followed by another: the step of the
/// induction in `lemma_stream_split`.
proof fn lemma_split_step(head: Trace, second: Seq<u8>, room: nat, written: Seq<u8>)
    requires
        head.produced.len() <= room,
    ensures
        ({
            let next = stream_trace(
                head.phase == Phase::EscapePending,
                second,
                (room - head.produced.len()) as nat,
            );
            let moved = head.after(1, written);
            &&& next.after(head.consumed, head.produced).after(1, written) == next.after(
                moved.consumed,
                moved.produced,
            )
            &&& moved.produced.len() == written.len() + head.produced.len()
        }),
{
    let next = stream_trace(head.phase == Phase::EscapePending, second, (room - head.produced.len()) as nat);
    lemma_after_twice(next, head.consumed, head.produced, 1, written);
}

/// A decode call on an input in two parts. Where the call on the first part
/// stops before its end, or at a packet's end, the second part changes
/// nothing. Where it reads the first part to its end, a call on the second
/// part, with the room that is left, does what the one call on both would
/// have gone on to do. Only a decoder that awaits the header tells an empty
/// first part from none: it fails on it.
pub proof fn lemma_decode_split(phase: Phase, first: Seq<u8>, second: Seq<u8>, room: nat)
    ensures
        ({
            let head = decode_trace(phase, first, room);
            let whole = decode_trace(phase, first + second, room);
            if head.end || head.consumed < first.len() {
                whole == head
            } else if head.error is Some {
                &&& phase == Phase::AwaitingHeader
                &&& first.len() == 0
                &&& head.error == Some(Error::BadHeaderDecode)
            } else {
                &&& head.consumed == first.len()
                &&& head.produced.len() <= room
                &&& head.phase != Phase::AwaitingHeader
                &&& whole == decode_trace(head.phase, second, (room - head.produced.len()) as nat).after(
                    head.consumed,
                    head.produced,
                )
            }
        }),
{
    if phase == Phase::AwaitingHeader {
        if first.len() > 0 && first[0] == END {
            let both = first + second;
            assert(both[0] == END);
            assert(both.skip(1) =~= first.skip(1) + second);
            lemma_stream_split(false, first.skip(1), second, room);
            lemma_stream_trace_bounds(false, first.skip(1), room);
            lemma_split_step(stream_trace(false, first.skip(1), room), second, room, Seq::empty());
            assert(Seq::<u8>::empty() + stream_trace(false, first.skip(1), room).produced =~= stream_trace(
                false,
                first.skip(1),
                room,
            ).produced);
        } else if first.len() > 0 {
            assert((first + second)[0] == first[0]);
        }
    } else {
        lemma_stream_split(phase == Phase::EscapePending, first, second, room);
    }
}

/// What sequential decode calls do, one call for each chunk, into one
/// output buffer with room for `room` bytes: each call goes on where the
/// one before it stopped, and none is made after a call that failed, that
/// reached a packet's end, or that left part of its chunk unread.
pub open spec fn decoded_chunks(phase: Phase, chunks: Seq<Seq<u8>>, room: nat) -> Trace
    decreases chunks.len(),
{
    if chunks.len() == 0 {
        Trace::stop(phase)
    } else {
        let head = decode_trace(phase, chunks.first(), room);
        if head.end || head.error is Some || head.consumed < chunks.first().len() {
            head
        } else {
            decoded_chunks(head.phase, chunks.drop_first(), (room - head.produced.len()) as nat).after(
                head.consumed,
                head.produced,
            )
        }
    }
}

/// Decoding a stream chunk by chunk, however it is cut, also inside the
/// header or an escape sequence, does what decoding it in one call does: the
/// same payload, the same count, the same end and the same error. A decoder
/// that awaits the header needs a first chunk that is not empty. Where the
/// stream is malformed, the decoder is afterwards as the failed call found
/// it: the last of the calls on the chunks, or the one call on the whole.
pub proof fn lemma_decode_chunks(phase: Phase, chunks: Seq<Seq<u8>>, room: nat)
    requires
        phase == Phase::AwaitingHeader ==> chunks.len() > 0 && chunks.first().len() > 0,
    ensures
        decoded_chunks(phase, chunks, room) == decode_trace(phase, chunks.flatten(), room),
    decreases chunks.len(),
{
    if chunks.len() == 0 {
        assert(chunks.flatten() =~= Seq::<u8>::empty());
    } else {
        let rest = chunks.drop_first();
        let head = decode_trace(phase, chunks.first(), room);
        lemma_decode_split(phase, chunks.first(), rest.flatten(), room);
        if !(head.end || head.error is Some || head.consumed < chunks.first().len()) {
            lemma_decode_chunks(head.phase, rest, (room - head.produced.len()) as nat);
        }
    }
}

} // verus!
