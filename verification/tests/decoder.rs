use serial_line_ip::wire::{END, ESC, ESC_END, ESC_ESC};
use serial_line_ip::{Decoder, Encoder, Error};

#[test]
fn empty_decode() {
    const INPUT: [u8; 2] = [0xc0, 0xc0];
    let mut output: [u8; 32] = [0; 32];

    let mut slip = Decoder::new();
    let res = slip.decode(&INPUT, &mut output).unwrap();
    assert_eq!(INPUT.len(), res.0);
    assert_eq!(&[0; 0], res.1);
    assert_eq!(true, res.2);
}

#[test]
fn simple_decode() {
    const INPUT: [u8; 7] = [0xc0, 0x01, 0x02, 0x03, 0x04, 0x05, 0xc0];
    const DATA: [u8; 5] = [0x01, 0x02, 0x03, 0x04, 0x05];
    let mut output: [u8; 32] = [0; 32];

    let mut slip = Decoder::new();
    let res = slip.decode(&INPUT, &mut output).unwrap();
    assert_eq!(INPUT.len(), res.0);
    assert_eq!(&DATA, res.1);
    assert_eq!(true, res.2);
}

/// Ensure that [ESC, ESC_END] -> [END]
#[test]
fn decode_esc_then_esc_end_sequence() {
    const INPUT: [u8; 6] = [0xc0, 0x01, 0xdb, 0xdc, 0x03, 0xc0];
    const DATA: [u8; 3] = [0x01, 0xc0, 0x03];
    let mut output: [u8; 200] = [0; 200];

    let mut slip = Decoder::new();
    let res = slip.decode(&INPUT, &mut output).unwrap();
    assert_eq!(INPUT.len(), res.0);
    assert_eq!(&DATA, res.1);
    assert_eq!(true, res.2);
}

/// Ensure that [ESC, ESC_ESC] -> [ESC]
#[test]
fn decode_esc_then_esc_esc_sequence() {
    const INPUT: [u8; 6] = [0xc0, 0x01, 0xdb, 0xdd, 0x03, 0xc0];
    const DATA: [u8; 3] = [0x01, 0xdb, 0x03];
    let mut output: [u8; 200] = [0; 200];

    let mut slip = Decoder::new();
    let res = slip.decode(&INPUT, &mut output).unwrap();
    assert_eq!(INPUT.len(), res.0);
    assert_eq!(&DATA, res.1);
    assert_eq!(true, res.2);
}

#[test]
fn multi_part_decode() {
    const INPUT_1: [u8; 6] = [0xc0, 0x01, 0x02, 0x03, 0x04, 0x05];
    const INPUT_2: [u8; 6] = [0x05, 0x06, 0x07, 0x08, 0x09, 0xc0];
    const DATA_1: [u8; 5] = [0x01, 0x02, 0x03, 0x04, 0x05];
    const DATA_2: [u8; 5] = [0x05, 0x06, 0x07, 0x08, 0x09];
    let mut output: [u8; 200] = [0; 200];

    let mut slip = Decoder::new();
    let mut offset = 0;
    {
        let res = slip.decode(&INPUT_1, &mut output[offset..]).unwrap();
        assert_eq!(INPUT_1.len(), res.0);
        assert_eq!(&DATA_1, res.1);
        assert_eq!(false, res.2);
        offset += res.1.len();
    }
    {
        let res = slip.decode(&INPUT_2, &mut output[offset..]).unwrap();
        assert_eq!(INPUT_2.len(), res.0);
        assert_eq!(&DATA_2, res.1);
        assert_eq!(true, res.2);
        offset += res.1.len();
    }
    assert_eq!(10, offset);
}

/// Encodes a whole packet into a fresh buffer that is large enough.
fn packet(payload: &[u8]) -> Vec<u8> {
    let mut output = vec![0u8; 2 * payload.len() + 2];
    let mut slip = Encoder::new();
    let mut totals = slip.encode(payload, &mut output).unwrap();
    totals += slip.finish(&mut output[totals.written..]).unwrap();
    output.truncate(totals.written);
    output
}

#[test]
fn round_trip_of_every_byte_value() {
    let payload: Vec<u8> = (0..=255u8).collect();
    let wire = packet(&payload);
    assert_eq!(1 + 256 + 2 + 1, wire.len());

    let mut output = [0u8; 300];
    let mut slip = Decoder::new();
    let (consumed, decoded, end) = slip.decode(&wire, &mut output).unwrap();
    assert_eq!(wire.len(), consumed);
    assert_eq!(&payload[..], decoded);
    assert!(end);
}

#[test]
fn round_trip_of_the_empty_payload() {
    let wire = packet(&[]);
    assert_eq!(vec![END, END], wire);
    let mut output = [0u8; 1];
    let mut slip = Decoder::new();
    let (consumed, decoded, end) = slip.decode(&wire, &mut output).unwrap();
    assert_eq!(2, consumed);
    assert!(decoded.is_empty());
    assert!(end);
}

#[test]
fn round_trip_of_reserved_bytes_only() {
    for payload in [[END; 6], [ESC; 6]] {
        let wire = packet(&payload);
        assert_eq!(14, wire.len());
        let mut output = [0u8; 7];
        let mut slip = Decoder::new();
        let (consumed, decoded, end) = slip.decode(&wire, &mut output).unwrap();
        assert_eq!(14, consumed);
        assert_eq!(&payload, decoded);
        assert!(end);
    }
}

#[test]
fn decode_plain_packet() {
    let mut output = [0u8; 16];
    let mut slip = Decoder::new();
    let (consumed, decoded, end) = slip
        .decode(&[0xC0, 0x01, 0x02, 0x03, 0x04, 0x05, 0xC0], &mut output)
        .unwrap();
    assert_eq!(7, consumed);
    assert_eq!(&[0x01, 0x02, 0x03, 0x04, 0x05], decoded);
    assert!(end);
}

#[test]
fn decode_of_empty_input_without_header_fails() {
    let mut output = [0u8; 4];
    let mut slip = Decoder::new();
    assert!(matches!(
        slip.decode(&[], &mut output),
        Err(Error::BadHeaderDecode)
    ));
    // Nothing was taken: the header is still awaited, and then found.
    let (consumed, decoded, end) = slip.decode(&[END, 0x05], &mut output).unwrap();
    assert_eq!(2, consumed);
    assert_eq!(&[0x05], decoded);
    assert!(!end);
}

#[test]
fn decode_of_wrong_header_fails() {
    let mut output = [0xEEu8; 4];
    let mut slip = Decoder::new();
    assert!(matches!(
        slip.decode(&[0x01, END], &mut output),
        Err(Error::BadHeaderDecode)
    ));
    assert_eq!([0xEE; 4], output);
}

#[test]
fn decode_of_bad_escape_sequence_fails() {
    let mut output = [0u8; 4];
    let mut slip = Decoder::new();
    assert!(matches!(
        slip.decode(&[END, ESC, 0x99], &mut output),
        Err(Error::BadEscapeSequenceDecode)
    ));
}

#[test]
fn failed_call_leaves_the_output_written_so_far() {
    let mut output = [0xEEu8; 4];
    let mut slip = Decoder::new();
    assert!(matches!(
        slip.decode(&[END, 0x07, ESC, ESC], &mut output),
        Err(Error::BadEscapeSequenceDecode)
    ));
    assert_eq!([0x07, 0xEE, 0xEE, 0xEE], output);
}

#[test]
fn failed_first_call_takes_no_header() {
    let mut output = [0u8; 4];
    let mut slip = Decoder::new();
    assert!(matches!(
        slip.decode(&[END, ESC, 0x99], &mut output),
        Err(Error::BadEscapeSequenceDecode)
    ));
    // The decoder is as new: it awaits the header, and no escape is open.
    assert!(matches!(
        slip.decode(&[ESC_ESC, END], &mut output),
        Err(Error::BadHeaderDecode)
    ));
    let (consumed, decoded, end) = slip.decode(&[END, ESC_ESC, END], &mut output).unwrap();
    assert_eq!(3, consumed);
    assert_eq!(&[ESC_ESC], decoded);
    assert!(end);
}

#[test]
fn failed_call_in_the_stream_opens_no_escape() {
    let mut output = [0u8; 4];
    let mut slip = Decoder::new();
    slip.decode(&[END, 0x01], &mut output).unwrap();
    assert!(matches!(
        slip.decode(&[ESC, 0x99], &mut output),
        Err(Error::BadEscapeSequenceDecode)
    ));
    // No escape is open: the next byte is taken as it is.
    let (consumed, decoded, end) = slip.decode(&[ESC_END, END], &mut output).unwrap();
    assert_eq!(2, consumed);
    assert_eq!(&[ESC_END], decoded);
    assert!(end);
}

#[test]
fn failed_call_keeps_an_escape_that_was_open() {
    let mut output = [0u8; 4];
    let mut slip = Decoder::new();
    slip.decode(&[END, ESC], &mut output).unwrap();
    assert!(matches!(
        slip.decode(&[0x99], &mut output),
        Err(Error::BadEscapeSequenceDecode)
    ));
    // The escape is still open: a byte that resolves it is taken.
    let (consumed, decoded, end) = slip.decode(&[ESC_END, END], &mut output).unwrap();
    assert_eq!(2, consumed);
    assert_eq!(&[END], decoded);
    assert!(end);
}

#[test]
fn failed_call_closes_no_escape_that_was_open() {
    let mut output = [0u8; 4];
    let mut slip = Decoder::new();
    slip.decode(&[END, ESC], &mut output).unwrap();
    // The open escape is resolved, a second one is not.
    assert!(matches!(
        slip.decode(&[ESC_ESC, ESC, 0x00], &mut output),
        Err(Error::BadEscapeSequenceDecode)
    ));
    assert_eq!(ESC, output[0]);
    let (consumed, decoded, end) = slip.decode(&[ESC_END, END], &mut output).unwrap();
    assert_eq!(2, consumed);
    assert_eq!(&[END], decoded);
    assert!(end);
}

#[test]
fn escape_sequence_split_between_calls() {
    let mut output = [0u8; 8];
    let mut slip = Decoder::new();
    let (consumed, decoded, end) = slip.decode(&[END, 0x01, ESC], &mut output).unwrap();
    assert_eq!(3, consumed);
    assert_eq!(&[0x01], decoded);
    assert!(!end);

    let (consumed, decoded, end) = slip.decode(&[ESC_END, 0x02, END], &mut output[1..]).unwrap();
    assert_eq!(3, consumed);
    assert_eq!(&[END, 0x02], decoded);
    assert!(end);
    assert_eq!(&[0x01, END, 0x02], &output[..3]);
}

#[test]
fn header_alone_in_a_call() {
    let mut output = [0u8; 8];
    let mut slip = Decoder::new();
    let (consumed, decoded, end) = slip.decode(&[END], &mut output).unwrap();
    assert_eq!(1, consumed);
    assert!(decoded.is_empty());
    assert!(!end);

    let (consumed, decoded, end) = slip.decode(&[0x01, END], &mut output).unwrap();
    assert_eq!(2, consumed);
    assert_eq!(&[0x01], decoded);
    assert!(end);
}

/// Decodes `wire` in the chunks that `cuts` gives, into one buffer.
fn decode_in_chunks(wire: &[u8], cuts: &[usize]) -> (Vec<u8>, usize, bool) {
    let mut output = [0u8; 64];
    let mut slip = Decoder::new();
    let mut offset = 0;
    let mut taken = 0;
    let mut ended = false;
    let mut from = 0;
    let mut edges = cuts.to_vec();
    edges.push(wire.len());
    for to in edges {
        let (consumed, decoded, end) = slip.decode(&wire[from..to], &mut output[offset..]).unwrap();
        assert_eq!(to - from, consumed);
        offset += decoded.len();
        taken += consumed;
        ended = end;
        from = to;
    }
    (output[..offset].to_vec(), taken, ended)
}

#[test]
fn chunked_decode_equals_whole_decode() {
    let payload = [0x01, ESC, END, 0x02, END, END, 0x03, ESC, 0x04];
    let wire = packet(&payload);
    let (whole, taken, ended) = decode_in_chunks(&wire, &[]);
    assert_eq!(&payload[..], &whole[..]);
    assert_eq!(wire.len(), taken);
    assert!(ended);

    // Every cut in two, the one behind the header and those inside the
    // escape sequences among them; the first chunk holds the header.
    for first in 1..wire.len() {
        assert_eq!((whole.clone(), taken, ended), decode_in_chunks(&wire, &[first]));
        for second in first..wire.len() {
            assert_eq!(
                (whole.clone(), taken, ended),
                decode_in_chunks(&wire, &[first, second])
            );
        }
    }
}

#[test]
fn decode_byte_by_byte() {
    let payload = [ESC, END, 0x00, ESC_END, ESC_ESC];
    let wire = packet(&payload);
    let cuts: Vec<usize> = (1..wire.len()).collect();
    assert_eq!(
        (payload.to_vec(), wire.len(), true),
        decode_in_chunks(&wire, &cuts)
    );
}

#[test]
fn decode_stops_when_the_output_is_full() {
    let wire = [END, 0x01, 0x02, ESC, ESC_END, 0x04, END];
    let mut output = [0xEEu8; 8];
    let mut slip = Decoder::new();
    let (consumed, decoded, end) = slip.decode(&wire, &mut output[..2]).unwrap();
    assert_eq!(3, consumed);
    assert_eq!(&[0x01, 0x02], decoded);
    assert!(!end);
    assert_eq!([0x01, 0x02, 0xEE, 0xEE, 0xEE, 0xEE, 0xEE, 0xEE], output);

    // The caller goes on with what was not consumed and with new room.
    let (consumed, decoded, end) = slip.decode(&wire[3..], &mut output[2..]).unwrap();
    assert_eq!(4, consumed);
    assert_eq!(&[END, 0x04], decoded);
    assert!(end);
}

#[test]
fn decode_with_room_for_the_payload_only_leaves_the_frame_end() {
    let wire = [END, 0x01, 0x02, END];
    let mut output = [0u8; 2];
    let mut slip = Decoder::new();
    let (consumed, decoded, end) = slip.decode(&wire, &mut output).unwrap();
    assert_eq!(3, consumed);
    assert_eq!(&[0x01, 0x02], decoded);
    assert!(!end);

    let (consumed, decoded, end) = slip.decode(&wire[3..], &mut output).unwrap();
    assert_eq!(1, consumed);
    assert!(decoded.is_empty());
    assert!(end);
}

#[test]
fn decode_into_no_room_takes_the_header_only() {
    let mut output: [u8; 0] = [];
    let mut slip = Decoder::new();
    let (consumed, decoded, end) = slip.decode(&[END, 0x01, END], &mut output).unwrap();
    assert_eq!(1, consumed);
    assert!(decoded.is_empty());
    assert!(!end);
}

#[test]
fn decode_with_pending_escape_and_full_output_waits() {
    let mut output = [0u8; 1];
    let mut slip = Decoder::new();
    let (consumed, decoded, end) = slip.decode(&[END, 0x01, ESC, ESC_END], &mut output).unwrap();
    assert_eq!(2, consumed);
    assert_eq!(&[0x01], decoded);
    assert!(!end);
}

#[test]
fn decode_reads_nothing_behind_the_frame_end() {
    let mut output = [0xEEu8; 8];
    let mut slip = Decoder::new();
    let (consumed, decoded, end) = slip
        .decode(&[END, 0x01, END, 0x02, 0x03], &mut output)
        .unwrap();
    assert_eq!(3, consumed);
    assert_eq!(&[0x01], decoded);
    assert!(end);
    assert_eq!(0xEE, output[1]);
}

#[test]
fn header_is_asked_for_once_in_a_context() {
    let mut output = [0u8; 8];
    let mut slip = Decoder::new();
    let (consumed, _, end) = slip.decode(&[END, 0x01, END], &mut output).unwrap();
    assert_eq!((3, true), (consumed, end));

    // The context stays in the stream: a packet without a leading frame end
    // is decoded, and a leading frame end closes an empty packet.
    let (consumed, decoded, end) = slip.decode(&[0x02, 0x03, END], &mut output).unwrap();
    assert_eq!(3, consumed);
    assert_eq!(&[0x02, 0x03], decoded);
    assert!(end);

    let (consumed, decoded, end) = slip.decode(&[END, 0x04, END], &mut output).unwrap();
    assert_eq!(1, consumed);
    assert!(decoded.is_empty());
    assert!(end);
}

#[test]
fn escaped_markers_outside_an_escape_sequence_are_plain() {
    let mut output = [0u8; 4];
    let mut slip = Decoder::new();
    let (consumed, decoded, end) = slip
        .decode(&[END, ESC_END, ESC_ESC, END], &mut output)
        .unwrap();
    assert_eq!(4, consumed);
    assert_eq!(&[ESC_END, ESC_ESC], decoded);
    assert!(end);
}
