//! The SLIP decoder: wire bytes in, payload out, resumable at any byte.

use vstd::prelude::*;
use crate::error::Error;
use crate::wire::{END, ESC, ESC_END, ESC_ESC};

verus! {

/// Where a decoder stands between two bytes of the stream.
#[derive(Debug, Clone, Copy, PartialEq, Eq, Structural)]
pub enum Phase {
    /// No frame end has been seen yet: the next byte must be one.
    AwaitingHeader,
    /// Inside the stream, with no escape sequence open.
    Idle,
    /// The last byte was the escape marker: the next byte must resolve it.
    EscapePending,
}

/// What one decode call does, byte by byte up to where it stops, as a
/// mathematical value.
pub struct Trace {
    /// The phase that the call has reached where it stops. A call that
    /// succeeds leaves the decoder in it; a call that fails leaves the
    /// decoder as it found it.
    pub phase: Phase,
    /// How many leading input bytes the call processed.
    pub consumed: nat,
    /// The payload bytes that the call wrote, in order.
    pub produced: Seq<u8>,
    /// Whether the call consumed the frame end that closes a packet.
    pub end: bool,
    /// The error that stopped the call, if one did.
    pub error: Option<Error>,
}

impl Trace {
    /// A call that stops at once, in `phase`.
    pub open spec fn stop(phase: Phase) -> Trace {
        Trace { phase, consumed: 0, produced: Seq::empty(), end: false, error: None }
    }

    /// A call that fails at once, in `phase`.
    pub open spec fn fail(phase: Phase, error: Error) -> Trace {
        Trace { phase, consumed: 0, produced: Seq::empty(), end: false, error: Some(error) }
    }

    /// This trace, coming after `consumed` bytes that gave `produced`.
    pub open spec fn after(self, consumed: nat, produced: Seq<u8>) -> Trace {
        Trace {
            phase: self.phase,
            consumed: consumed + self.consumed,
            produced: produced + self.produced,
            end: self.end,
            error: self.error,
        }
    }
}

/// Two prefixes put before a trace one after the other make one prefix.
pub proof fn lemma_after_twice(trace: Trace, inner: nat, written: Seq<u8>, outer: nat, earlier: Seq<u8>)
    ensures
        trace.after(inner, written).after(outer, earlier) == trace.after(outer + inner, earlier + written),
{
    assert(earlier + (written + trace.produced) =~= (earlier + written) + trace.produced);
}

/// An empty prefix leaves a trace as it is.
pub proof fn lemma_after_nothing(trace: Trace)
    ensures
        trace.after(0, Seq::empty()) == trace,
{
    assert(Seq::<u8>::empty() + trace.produced =~= trace.produced);
}

/// One byte written into a buffer: the written part grows by that byte, and
/// what lies behind it still is what it was at first.
proof fn lemma_written_one(buffer: Seq<u8>, initial: Seq<u8>, at: int, byte: u8)
    requires
        0 <= at < buffer.len(),
        buffer.len() == initial.len(),
        buffer.skip(at) == initial.skip(at),
    ensures
        buffer.update(at, byte).take(at + 1) == buffer.take(at) + seq![byte],
        buffer.update(at, byte).skip(at + 1) == initial.skip(at + 1),
{
    let after = buffer.update(at, byte);
    assert(after.take(at + 1) =~= buffer.take(at) + seq![byte]);
    assert(after.skip(at + 1) =~= buffer.skip(at).skip(1));
    assert(initial.skip(at + 1) =~= initial.skip(at).skip(1));
}

/// The phase of the stream with or without an open escape sequence.
pub open spec fn stream_phase(pending: bool) -> Phase {
    if pending {
        Phase::EscapePending
    } else {
        Phase::Idle
    }
}

/// The stream phase of a decode call: byte by byte until the input is
/// exhausted, `room` output bytes are written, a frame end is consumed, or an
/// escape sequence turns out malformed. `pending` says whether an escape
/// sequence is open at the start.
pub open spec fn stream_trace(pending: bool, input: Seq<u8>, room: nat) -> Trace
    decreases input.len(),
{
    if input.len() == 0 || room == 0 {
        Trace::stop(stream_phase(pending))
    } else if pending {
        if input[0] == ESC_END {
            stream_trace(false, input.skip(1), (room - 1) as nat).after(1, seq![END])
        } else if input[0] == ESC_ESC {
            stream_trace(false, input.skip(1), (room - 1) as nat).after(1, seq![ESC])
        } else {
            Trace::fail(Phase::EscapePending, Error::BadEscapeSequenceDecode)
        }
    } else {
        if input[0] == ESC {
            stream_trace(true, input.skip(1), room).after(1, Seq::empty())
        } else if input[0] == END {
            Trace { phase: Phase::Idle, consumed: 1, produced: Seq::empty(), end: true, error: None }
        } else {
            stream_trace(false, input.skip(1), (room - 1) as nat).after(1, seq![input[0]])
        }
    }
}

/// A whole decode call that starts in `phase`, on `input`, with room for
/// `room` output bytes. A decoder that awaits the header takes one frame end
/// first, and fails without it; then comes the stream phase.
pub open spec fn decode_trace(phase: Phase, input: Seq<u8>, room: nat) -> Trace {
    if phase == Phase::AwaitingHeader {
        if input.len() > 0 && input[0] == END {
            stream_trace(false, input.skip(1), room).after(1, Seq::empty())
        } else {
            Trace::fail(Phase::AwaitingHeader, Error::BadHeaderDecode)
        }
    } else {
        stream_trace(phase == Phase::EscapePending, input, room)
    }
}

/// Whether the stream phase of a call comes upon an escape marker that
/// opens an escape sequence: the decoder then holds that byte back.
pub open spec fn stream_holds_back(pending: bool, input: Seq<u8>, room: nat) -> bool
    decreases input.len(),
{
    if input.len() == 0 || room == 0 {
        false
    } else if pending {
        (input[0] == ESC_END || input[0] == ESC_ESC) && stream_holds_back(
            false,
            input.skip(1),
            (room - 1) as nat,
        )
    } else {
        input[0] == ESC || (input[0] != END && stream_holds_back(false, input.skip(1), (room - 1) as nat))
    }
}

/// Whether a whole decode call, as `decode_trace` describes it, comes upon
/// an escape marker that opens an escape sequence.
pub open spec fn decode_holds_back(phase: Phase, input: Seq<u8>, room: nat) -> bool {
    if phase == Phase::AwaitingHeader {
        input.len() > 0 && input[0] == END && stream_holds_back(false, input.skip(1), room)
    } else {
        stream_holds_back(phase == Phase::EscapePending, input, room)
    }
}

/// The escape buffer after a call: a byte that is held back stands in its
/// first place, and nothing else in it changes.
pub open spec fn buffer_after(buffer: Seq<u8>, holds_back: bool) -> Seq<u8> {
    if holds_back {
        buffer.update(0, ESC)
    } else {
        buffer
    }
}

/// The stream phase never reads past the input nor writes past the room.
pub proof fn lemma_stream_trace_bounds(pending: bool, input: Seq<u8>, room: nat)
    ensures
        stream_trace(pending, input, room).consumed <= input.len(),
        stream_trace(pending, input, room).produced.len() <= room,
    decreases input.len(),
{
    if input.len() > 0 && room > 0 {
        if pending {
            lemma_stream_trace_bounds(false, input.skip(1), (room - 1) as nat);
        } else {
            lemma_stream_trace_bounds(true, input.skip(1), room);
            lemma_stream_trace_bounds(false, input.skip(1), (room - 1) as nat);
        }
    }
}

/// A decode call never reads past the input nor writes past the room.
pub proof fn lemma_decode_trace_bounds(phase: Phase, input: Seq<u8>, room: nat)
    ensures
        decode_trace(phase, input, room).consumed <= input.len(),
        decode_trace(phase, input, room).produced.len() <= room,
{
    if phase == Phase::AwaitingHeader {
        if input.len() > 0 {
            lemma_stream_trace_bounds(false, input.skip(1), room);
        }
    } else {
        lemma_stream_trace_bounds(phase == Phase::EscapePending, input, room);
    }
}

/// SLIP decode context.
pub struct Decoder {
    header_found: bool,
    esc_seq: [u8; 4],
    esc_seq_len: usize,
}

impl Decoder {
    /// The invariant of a decoder: at most one byte of an escape sequence is
    /// held back, it is the escape marker, and it comes after the header.
    #[verifier::type_invariant]
    spec fn wf(&self) -> bool {
        &&& self.esc_seq_len <= 1
        &&& self.esc_seq_len == 1 ==> self.header_found && self.esc_seq[0] == ESC
    }

    /// Where the decoder stands.
    pub closed spec fn phase(&self) -> Phase {
        if !self.header_found {
            Phase::AwaitingHeader
        } else {
            stream_phase(self.esc_seq_len > 0)
        }
    }

    /// The four bytes of the buffer in which the decoder holds back the
    /// bytes of an escape sequence, whether in use or not.
    pub closed spec fn escape_buffer(&self) -> Seq<u8> {
        self.esc_seq@
    }

    /// Create a new context for SLIP decoding: it awaits the header, holds
    /// back no byte, and its escape buffer is zeroed.
    pub fn new() -> (decoder: Self)
        ensures
            decoder.phase() == Phase::AwaitingHeader,
            decoder.escape_buffer() == seq![0u8, 0u8, 0u8, 0u8],
    {
        Decoder { header_found: false, esc_seq: [0; 4], esc_seq_len: 0 }
    }

    /// SLIP decode the input slice into the output slice.
    ///
    /// This returns the number of bytes processed, the part of the output
    /// slice that was written, and an indication of the end of the packet.
    /// The decoder keeps its place between calls, so the stream may arrive in
    /// chunks of any size, also between an escape marker and the byte that
    /// resolves it. An escape marker that opens an escape sequence is held
    /// back in the first place of the escape buffer.
    ///
    /// A call that fails leaves the decoder as it found it: no header byte
    /// and no escape marker of the failed call stays taken. The output then
    /// holds what the bytes before the offending one gave.
    pub fn decode<'a>(&mut self, input: &'a [u8], output: &'a mut [u8]) -> (result: Result<(usize, &'a [u8], bool), Error>)
        ensures
            final(output)@.len() == old(output)@.len(),
            ({
                let trace = decode_trace(old(self).phase(), input@, old(output)@.len());
                &&& final(output)@ == trace.produced + old(output)@.skip(trace.produced.len() as int)
                &&& match result {
                    Ok((consumed, written, end)) => {
                        &&& trace.error is None
                        &&& final(self).phase() == trace.phase
                        &&& final(self).escape_buffer() == buffer_after(
                            old(self).escape_buffer(),
                            decode_holds_back(old(self).phase(), input@, old(output)@.len()),
                        )
                        &&& consumed == trace.consumed
                        &&& consumed <= input@.len()
                        &&& written@ == trace.produced
                        &&& written@.len() <= old(output)@.len()
                        &&& end == trace.end
                    },
                    Err(error) => {
                        &&& trace.error == Some(error)
                        &&& *final(self) == *old(self)
                    },
                }
            }),
    {
        let input_len = input.len();
        let header_found = self.header_found;
        let mut stream = input;
        proof {
            use_type_invariant(&*self);
            lemma_decode_trace_bounds(self.phase(), input@, output@.len());
            assert(output@ =~= Seq::<u8>::empty() + output@.skip(0));
        }
        if !self.header_found {
            stream = self.decode_header(stream)?;
        }
        proof {
            let tail = stream_trace(self.phase() == Phase::EscapePending, stream@, output@.len());
            lemma_stream_trace_bounds(self.phase() == Phase::EscapePending, stream@, output@.len());
            assert(Seq::<u8>::empty() + tail.produced =~= tail.produced);
        }
        match self.decode_stream(stream, output) {
            Ok(res) => Ok((input_len - res.0.len(), res.1, res.2)),
            Err(error) => {
                self.header_found = header_found;
                Err(error)
            },
        }
    }

    /// Push a byte onto the escape sequence: the escape marker, the one
    /// byte that is ever held back.
    fn esc_sequence_push(&mut self, byte: u8)
        requires
            old(self).esc_seq_len == 0,
            old(self).header_found,
            byte == ESC,
        ensures
            final(self).header_found == old(self).header_found,
            final(self).esc_seq_len == old(self).esc_seq_len + 1,
            final(self).esc_seq@ == old(self).esc_seq@.update(old(self).esc_seq_len as int, byte),
    {
        self.esc_seq[self.esc_seq_len] = byte;
        self.esc_seq_len += 1;
    }

    /// Reset the escape sequence.
    fn esc_sequence_empty(&mut self)
        ensures
            final(self).header_found == old(self).header_found,
            final(self).esc_seq_len == 0,
            final(self).esc_seq == old(self).esc_seq,
    {
        self.esc_seq_len = 0;
    }

    /// Put the escape sequence back to what it was when a call began.
    fn esc_sequence_restore(&mut self, esc_seq: [u8; 4], esc_seq_len: usize)
        requires
            esc_seq_len <= 1,
            esc_seq_len == 1 ==> old(self).header_found && esc_seq[0] == ESC,
        ensures
            final(self).header_found == old(self).header_found,
            final(self).esc_seq == esc_seq,
            final(self).esc_seq_len == esc_seq_len,
    {
        self.esc_seq_len = 0;
        self.esc_seq = esc_seq;
        self.esc_seq_len = esc_seq_len;
    }

    /// Either process the header successfully or return an error.
    fn decode_header<'a>(&mut self, input: &'a [u8]) -> (result: Result<&'a [u8], Error>)
        requires
            old(self).phase() == Phase::AwaitingHeader,
        ensures
            result is Ok <==> input@.len() > 0 && input@[0] == END,
            match result {
                Ok(rest) => {
                    &&& rest@ == input@.skip(1)
                    &&& final(self).phase() == Phase::Idle
                    &&& final(self).esc_seq == old(self).esc_seq
                    &&& final(self).esc_seq_len == old(self).esc_seq_len
                },
                Err(error) => error == Error::BadHeaderDecode && *final(self) == *old(self),
            },
    {
        proof {
            use_type_invariant(&*self);
        }
        if input.len() < 1 {
            return Err(Error::BadHeaderDecode);
        }
        if input[0] != END {
            return Err(Error::BadHeaderDecode);
        }
        self.header_found = true;

        Ok(&input[1..input.len()])
    }

    /// Core stream processing.
    fn decode_stream<'a>(&mut self, input: &'a [u8], output: &'a mut [u8]) -> (result: Result<(&'a [u8], &'a [u8], bool), Error>)
        requires
            old(self).phase() != Phase::AwaitingHeader,
        ensures
            ({
                let trace = stream_trace(old(self).phase() == Phase::EscapePending, input@, old(output)@.len());
                &&& final(output)@ == trace.produced + old(output)@.skip(trace.produced.len() as int)
                &&& match result {
                    Ok((rest, written, end)) => {
                        &&& trace.error is None
                        &&& final(self).phase() == trace.phase
                        &&& final(self).escape_buffer() == buffer_after(
                            old(self).escape_buffer(),
                            stream_holds_back(
                                old(self).phase() == Phase::EscapePending,
                                input@,
                                old(output)@.len(),
                            ),
                        )
                        &&& rest@ == input@.skip(trace.consumed as int)
                        &&& written@ == trace.produced
                        &&& end == trace.end
                    },
                    Err(error) => {
                        &&& trace.error == Some(error)
                        &&& *final(self) == *old(self)
                    },
                }
            }),
    {
        proof {
            use_type_invariant(&*self);
        }
        let esc_seq = self.esc_seq;
        let esc_seq_len = self.esc_seq_len;
        let mut in_byte: usize = 0;
        let mut out_byte: usize = 0;
        let mut end = false;
        let ghost whole = stream_trace(old(self).phase() == Phase::EscapePending, input@, old(output)@.len());
        let ghost holds_back = stream_holds_back(
            old(self).phase() == Phase::EscapePending,
            input@,
            old(output)@.len(),
        );
        let ghost mut held = false;
        proof {
            assert(input@.skip(0) =~= input@);
            assert(output@.take(0) =~= Seq::<u8>::empty());
            lemma_after_nothing(whole);
        }

        loop
            invariant_except_break
                !end,
                holds_back == (held || stream_holds_back(
                    self.phase() == Phase::EscapePending,
                    input@.skip(in_byte as int),
                    (output@.len() - out_byte) as nat,
                )),
                whole == stream_trace(
                    self.phase() == Phase::EscapePending,
                    input@.skip(in_byte as int),
                    (output@.len() - out_byte) as nat,
                ).after(in_byte as nat, output@.take(out_byte as int)),
            invariant
                self.phase() != Phase::AwaitingHeader,
                self.header_found == old(self).header_found,
                esc_seq == old(self).esc_seq,
                esc_seq_len == old(self).esc_seq_len,
                esc_seq_len <= 1,
                esc_seq_len == 1 ==> esc_seq[0] == ESC,
                in_byte <= input@.len(),
                out_byte <= output@.len(),
                output@.len() == old(output)@.len(),
                output@.skip(out_byte as int) == old(output)@.skip(out_byte as int),
                whole == stream_trace(old(self).phase() == Phase::EscapePending, input@, old(output)@.len()),
                holds_back == stream_holds_back(
                    old(self).phase() == Phase::EscapePending,
                    input@,
                    old(output)@.len(),
                ),
                self.escape_buffer() == buffer_after(old(self).escape_buffer(), held),
            ensures
                holds_back == held,
                whole == (Trace {
                    phase: self.phase(),
                    consumed: in_byte as nat,
                    produced: output@.take(out_byte as int),
                    end,
                    error: None,
                }),
            decreases input@.len() - in_byte,
        {
            let ghost before = output@;
            let ghost done = output@.take(out_byte as int);
            let ghost rest = input@.skip(in_byte as int);
            let ghost room = (output@.len() - out_byte) as nat;
            proof {
                assert(done + Seq::<u8>::empty() =~= done);
            }
            if in_byte == input.len() || out_byte == output.len() {
                break;
            }
            proof {
                assert(rest.skip(1) =~= input@.skip(in_byte + 1));
                assert(rest[0] == input@[in_byte as int]);
            }

            if self.esc_seq_len > 0 {
                match input[in_byte] {
                    ESC_END => {
                        output[out_byte] = END;
                    },
                    ESC_ESC => {
                        output[out_byte] = ESC;
                    },
                    _ => {
                        proof {
                            assert(output@ =~= done + old(output)@.skip(out_byte as int));
                        }
                        self.esc_sequence_restore(esc_seq, esc_seq_len);
                        return Err(Error::BadEscapeSequenceDecode);
                    },
                }
                proof {
                    let byte = output@[out_byte as int];
                    lemma_written_one(before, old(output)@, out_byte as int, byte);
                    lemma_after_twice(
                        stream_trace(false, rest.skip(1), (room - 1) as nat),
                        1,
                        seq![byte],
                        in_byte as nat,
                        done,
                    );
                }
                out_byte += 1;
                self.esc_sequence_empty();
            } else {
                match input[in_byte] {
                    ESC => {
                        self.esc_sequence_push(ESC);
                        proof {
                            held = true;
                            assert(old(self).escape_buffer().update(0, ESC).update(0, ESC) =~= old(
                                self,
                            ).escape_buffer().update(0, ESC));
                            lemma_after_twice(
                                stream_trace(true, rest.skip(1), room),
                                1,
                                Seq::empty(),
                                in_byte as nat,
                                done,
                            );
                        }
                    },
                    END => {
                        in_byte += 1;
                        end = true;
                        break;
                    },
                    _ => {
                        output[out_byte] = input[in_byte];
                        proof {
                            let byte = input@[in_byte as int];
                            lemma_written_one(before, old(output)@, out_byte as int, byte);
                            lemma_after_twice(
                                stream_trace(false, rest.skip(1), (room - 1) as nat),
                                1,
                                seq![byte],
                                in_byte as nat,
                                done,
                            );
                        }
                        out_byte += 1;
                    },
                }
            }
            in_byte += 1;
        }

        proof {
            assert(output@ =~= output@.take(out_byte as int) + old(output)@.skip(out_byte as int));
        }
        Ok((&input[in_byte..input.len()], &output[0..out_byte], end))
    }
}

} // verus!
