//! The SLIP encoder: payload chunks in, wire bytes out.

use vstd::prelude::*;
use crate::error::Error;
use crate::wire::{END, ESC, ESC_END, ESC_ESC, escaped, stuffed, lemma_stuffed_push};

verus! {

/// SLIP encoder context: one for each packet.
pub struct Encoder {
    /// Whether the frame end that opens the packet has been written.
    header_written: bool,
}

impl Clone for Encoder {
    /// A second context that stands where this one stands.
    fn clone(&self) -> (copy: Self)
        ensures
            copy == *self,
    {
        Encoder { header_written: self.header_written }
    }
}

/// The result of an encode operation: the bytes read and the bytes written.
pub struct EncodeTotals {
    /// Number of bytes that were read from the input buffer.
    pub read: usize,
    /// Number of bytes that were written to the output buffer.
    pub written: usize,
}

/// The header that an encode call puts before the payload: the frame end,
/// unless an earlier call on the same context has written it.
pub open spec fn header(header_written: bool) -> Seq<u8> {
    if header_written {
        Seq::empty()
    } else {
        seq![END]
    }
}

/// What encode calls that read the whole of `payload` write: the header,
/// where it is still owed, and the payload, stuffed.
pub open spec fn encoded(header_written: bool, payload: Seq<u8>) -> Seq<u8> {
    header(header_written) + stuffed(payload)
}

impl Encoder {
    /// Whether the header of the current packet has been written.
    pub closed spec fn header_written(&self) -> bool {
        self.header_written
    }

    /// Create a new context for SLIP encoding.
    pub fn new() -> (encoder: Self)
        ensures
            !encoder.header_written(),
    {
        Encoder { header_written: false }
    }

    /// Encode a buffer into a SLIP stream and return the number of input bytes
    /// read and output bytes written.
    ///
    /// The first call on a context writes the frame end first. Then every input
    /// byte is written in its escaped form, as long as the whole form fits. The
    /// call stops at the first byte whose form does not fit; that byte is not
    /// read, and the caller goes on from there with more room.
    pub fn encode(&mut self, input: &[u8], output: &mut [u8]) -> (result: Result<EncodeTotals, Error>)
        ensures
            final(output)@.len() == old(output)@.len(),
            result is Err <==> !old(self).header_written() && old(output)@.len() == 0,
            match result {
                Ok(totals) => {
                    let read = totals.read as int;
                    let written = totals.written as int;
                    &&& final(self).header_written()
                    &&& read <= input@.len()
                    &&& written <= old(output)@.len()
                    &&& final(output)@.take(written) == encoded(old(self).header_written(), input@.take(read))
                    &&& final(output)@.skip(written) == old(output)@.skip(written)
                    &&& read < input@.len() ==> written + escaped(input@[read]).len() > old(output)@.len()
                },
                Err(error) => {
                    &&& error == Error::NoOutputSpaceForHeader
                    &&& *final(self) == *old(self)
                    &&& final(output)@ == old(output)@
                },
            },
    {
        let mut out_byte: usize = 0;
        if !self.header_written {
            if output.len() < 1 {
                return Err(Error::NoOutputSpaceForHeader);
            }
            output[out_byte] = END;
            out_byte = 1;
            self.header_written = true;
        }
        let ghost head = header(old(self).header_written());
        assert(output@.take(out_byte as int) =~= head);
        assert(input@.take(0) =~= Seq::<u8>::empty());

        let mut in_byte: usize = 0;
        while in_byte < input.len()
            invariant
                in_byte <= input@.len(),
                out_byte <= output@.len(),
                output@.len() == old(output)@.len(),
                self.header_written(),
                head == header(old(self).header_written()),
                output@.take(out_byte as int) == head + stuffed(input@.take(in_byte as int)),
                output@.skip(out_byte as int) == old(output)@.skip(out_byte as int),
            ensures
                in_byte < input@.len() ==> out_byte + escaped(input@[in_byte as int]).len() > output@.len(),
            decreases input@.len() - in_byte,
        {
            let byte = input[in_byte];
            let ghost before = output@;
            match byte {
                ESC => {
                    if output.len() - out_byte < 2 {
                        break;
                    }
                    output[out_byte] = ESC;
                    output[out_byte + 1] = ESC_ESC;
                    out_byte += 2;
                },
                END => {
                    if output.len() - out_byte < 2 {
                        break;
                    }
                    output[out_byte] = ESC;
                    output[out_byte + 1] = ESC_END;
                    out_byte += 2;
                },
                _ => {
                    if output.len() - out_byte < 1 {
                        break;
                    }
                    output[out_byte] = byte;
                    out_byte += 1;
                },
            }
            proof {
                let done = input@.take(in_byte as int);
                lemma_stuffed_push(done, byte);
                assert(input@.take(in_byte + 1) =~= done.push(byte));
                let start = out_byte - escaped(byte).len();
                assert(output@.take(out_byte as int) =~= before.take(start) + escaped(byte));
                assert(output@.skip(out_byte as int) =~= before.skip(start).skip(escaped(byte).len() as int));
                assert(old(output)@.skip(out_byte as int) =~= old(output)@.skip(start).skip(escaped(byte).len() as int));
            }
            in_byte += 1;
        }

        Ok(EncodeTotals { read: in_byte, written: out_byte })
    }

    /// Finish encoding the current packet and return the number of output
    /// bytes written: the one frame end that closes the packet.
    pub fn finish(self, output: &mut [u8]) -> (result: Result<EncodeTotals, Error>)
        ensures
            result is Err <==> old(output)@.len() == 0,
            match result {
                Ok(totals) => {
                    &&& totals.read == 0
                    &&& totals.written == 1
                    &&& final(output)@ == old(output)@.update(0, END)
                },
                Err(error) => {
                    &&& error == Error::NoOutputSpaceForEndByte
                    &&& final(output)@ == old(output)@
                },
            },
    {
        if output.len() < 1 {
            return Err(Error::NoOutputSpaceForEndByte);
        }
        output[0] = END;

        Ok(EncodeTotals { read: 0, written: 1 })
    }
}

impl core::ops::AddAssign for EncodeTotals {
    /// Adds the counts of a later call to the running totals.
    fn add_assign(&mut self, other: EncodeTotals)
        requires
            old(self).read + other.read <= usize::MAX,
            old(self).written + other.written <= usize::MAX,
        ensures
            final(self).read == old(self).read + other.read,
            final(self).written == old(self).written + other.written,
    {
        *self = EncodeTotals {
            read: self.read + other.read,
            written: self.written + other.written,
        };
    }
}

} // verus!
