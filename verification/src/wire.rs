//! The wire format: the four reserved bytes and the byte-stuffing rule.

use vstd::prelude::*;

verus! {

/// Frame end.
pub const END: u8 = 0xC0;

/// Frame escape.
pub const ESC: u8 = 0xDB;

/// Transposed frame end.
pub const ESC_END: u8 = 0xDC;

/// Transposed frame escape.
pub const ESC_ESC: u8 = 0xDD;

/// What one payload byte becomes on the wire.
pub open spec fn escaped(byte: u8) -> Seq<u8> {
    if byte == ESC {
        seq![ESC, ESC_ESC]
    } else if byte == END {
        seq![ESC, ESC_END]
    } else {
        seq![byte]
    }
}

/// What a payload becomes on the wire, without the frame ends around it.
pub open spec fn stuffed(payload: Seq<u8>) -> Seq<u8>
    decreases payload.len(),
{
    if payload.len() == 0 {
        Seq::empty()
    } else {
        stuffed(payload.drop_last()) + escaped(payload.last())
    }
}

/// A whole packet on the wire: the payload, stuffed, between two frame ends.
pub open spec fn frame(payload: Seq<u8>) -> Seq<u8> {
    seq![END] + stuffed(payload) + seq![END]
}

/// Stuffing a payload that grew by one byte appends that byte's escape.
pub proof fn lemma_stuffed_push(payload: Seq<u8>, byte: u8)
    ensures
        stuffed(payload.push(byte)) == stuffed(payload) + escaped(byte),
{
    assert(payload.push(byte).drop_last() =~= payload);
}

/// A payload of one byte is stuffed into that byte's escape.
pub proof fn lemma_stuffed_single(byte: u8)
    ensures
        stuffed(seq![byte]) == escaped(byte),
{
    lemma_stuffed_push(Seq::empty(), byte);
    assert(Seq::<u8>::empty().push(byte) =~= seq![byte]);
    assert(stuffed(Seq::empty()) + escaped(byte) =~= escaped(byte));
}

/// Stuffing goes byte by byte: a payload in two parts is stuffed into the
/// two parts, stuffed, one after the other.
pub proof fn lemma_stuffed_concat(first: Seq<u8>, second: Seq<u8>)
    ensures
        stuffed(first + second) == stuffed(first) + stuffed(second),
    decreases second.len(),
{
    if second.len() == 0 {
        assert(first + second =~= first);
        assert(stuffed(first) + stuffed(second) =~= stuffed(first));
    } else {
        let init = second.drop_last();
        lemma_stuffed_concat(first, init);
        assert((first + second).drop_last() =~= first + init);
        assert((stuffed(first) + stuffed(init)) + escaped(second.last()) =~= stuffed(first) + (stuffed(init)
            + escaped(second.last())));
    }
}

/// A stuffed payload is never shorter than the payload and never longer than
/// twice the payload. A payload of frame ends and escape markers only takes
/// exactly two bytes on the wire for each of its bytes; a payload without
/// any is stuffed into itself.
pub proof fn lemma_stuffed_len(payload: Seq<u8>)
    ensures
        payload.len() <= stuffed(payload).len() <= 2 * payload.len(),
        (forall|i: int| 0 <= i < payload.len() ==> payload[i] == END || payload[i] == ESC)
            ==> stuffed(payload).len() == 2 * payload.len(),
        (forall|i: int| 0 <= i < payload.len() ==> payload[i] != END && payload[i] != ESC)
            ==> stuffed(payload) == payload,
    decreases payload.len(),
{
    if payload.len() > 0 {
        let init = payload.drop_last();
        lemma_stuffed_len(init);
        if forall|i: int| 0 <= i < payload.len() ==> payload[i] != END && payload[i] != ESC {
            assert(stuffed(init) == init);
            assert(init + seq![payload.last()] =~= payload);
        }
    }
}

/// A longer part of a payload takes more bytes on the wire than a shorter
/// part of it.
pub proof fn lemma_stuffed_prefix_grows(payload: Seq<u8>, shorter: int, longer: int)
    requires
        0 <= shorter < longer <= payload.len(),
    ensures
        stuffed(payload.take(shorter)).len() < stuffed(payload.take(longer)).len(),
    decreases longer - shorter,
{
    let init = payload.take(longer - 1);
    assert(payload.take(longer) =~= init.push(payload[longer - 1]));
    lemma_stuffed_push(init, payload[longer - 1]);
    if shorter < longer - 1 {
        lemma_stuffed_prefix_grows(payload, shorter, longer - 1);
    }
}

/// No frame end stands in a stuffed payload: a frame end on the wire always
/// is a packet's edge.
pub proof fn lemma_stuffed_has_no_end(payload: Seq<u8>, i: int)
    requires
        0 <= i < stuffed(payload).len(),
    ensures
        stuffed(payload)[i] != END,
    decreases payload.len(),
{
    if payload.len() > 0 {
        let init = payload.drop_last();
        if i < stuffed(init).len() {
            lemma_stuffed_has_no_end(init, i);
        }
    }
}

} // verus!
