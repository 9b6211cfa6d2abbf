//! Splitting an ITCH 5.0 byte stream into records. Each record is a one-byte
//! type tag followed by a payload whose length the tag alone determines.
use crate::trade::{decode_trade, TradeView};
use vstd::prelude::*;

verus! {

/// The tag of a trade (non-cross) execution message.
pub const TRADE_TAG: u8 = 0x50;

/// Payload length, tag byte excluded, of each message type; unknown tags have
/// an empty payload.
pub open spec fn msg_len(tag: u8) -> nat {
    match tag {
        0x53 => 11,  // S
        0x52 => 38,  // R
        0x48 => 24,  // H
        0x59 => 19,  // Y
        0x4c => 25,  // L
        0x56 => 34,  // V
        0x57 => 11,  // W
        0x4b => 27,  // K
        0x4a => 34,  // J
        0x68 => 20,  // h
        0x41 => 35,  // A
        0x46 => 39,  // F
        0x45 => 30,  // E
        0x43 => 35,  // C
        0x58 => 22,  // X
        0x44 => 18,  // D
        0x55 => 34,  // U
        0x50 => 43,  // P
        0x51 => 39,  // Q
        0x42 => 18,  // B
        0x49 => 49,  // I
        0x4e => 19,  // N
        _ => 0,
    }
}

/// The payload length of a message type.
pub fn msg_size(msg_type: u8) -> (r: usize)
    ensures
        r == msg_len(msg_type),
{
    match msg_type {
        0x53 => 11,  // S
        0x52 => 38,  // R
        0x48 => 24,  // H
        0x59 => 19,  // Y
        0x4c => 25,  // L
        0x56 => 34,  // V
        0x57 => 11,  // W
        0x4b => 27,  // K
        0x4a => 34,  // J
        0x68 => 20,  // h
        0x41 => 35,  // A
        0x46 => 39,  // F
        0x45 => 30,  // E
        0x43 => 35,  // C
        0x58 => 22,  // X
        0x44 => 18,  // D
        0x55 => 34,  // U
        0x50 => 43,  // P
        0x51 => 39,  // Q
        0x42 => 18,  // B
        0x49 => 49,  // I
        0x4e => 19,  // N
        _ => 0,
    }
}

/// True when `data` holds its first record whole.
pub open spec fn first_record_whole(data: Seq<u8>) -> bool {
    data.len() > 0 && 1 + msg_len(data[0]) <= data.len()
}

/// What follows the first record of `data`.
pub open spec fn after_first(data: Seq<u8>) -> Seq<u8> {
    data.subrange(1 + msg_len(data[0]) as int, data.len() as int)
}

/// Length of the longest prefix of `data` made of whole records.
pub open spec fn framed_len(data: Seq<u8>) -> nat
    decreases data.len(),
{
    if first_record_whole(data) {
        1 + msg_len(data[0]) + framed_len(after_first(data))
    } else {
        0
    }
}

/// The whole records at the front never take more than the input.
pub proof fn lemma_framed_len_bound(data: Seq<u8>)
    ensures
        framed_len(data) <= data.len(),
    decreases data.len(),
{
    if first_record_whole(data) {
        lemma_framed_len_bound(after_first(data));
    }
}

/// True when no whole record of `data` is a trade.
pub open spec fn no_trade_records(data: Seq<u8>) -> bool
    decreases data.len(),
{
    first_record_whole(data) ==> data[0] != TRADE_TAG && no_trade_records(after_first(data))
}

/// Records that carry no trade contribute no trade.
pub proof fn lemma_no_trade_records(data: Seq<u8>)
    requires
        no_trade_records(data),
    ensures
        frame_trades(data) =~= Seq::<TradeView>::empty(),
    decreases data.len(),
{
    if first_record_whole(data) {
        lemma_no_trade_records(after_first(data));
    }
}

/// True when `data` splits into whole records with nothing left over.
pub open spec fn frames_whole(data: Seq<u8>) -> bool {
    framed_len(data) == data.len()
}

/// The trades that the whole records at the front of `data` carry, in order.
pub open spec fn frame_trades(data: Seq<u8>) -> Seq<TradeView>
    decreases data.len(),
{
    if first_record_whole(data) {
        let here = if data[0] == TRADE_TAG {
            seq![decode_trade(data.subrange(1, 1 + msg_len(data[0]) as int))]
        } else {
            Seq::empty()
        };
        here + frame_trades(after_first(data))
    } else {
        Seq::empty()
    }
}

/// A record's place in the stream: its tag, and its payload
/// `data[start..start + len]`.
#[derive(Clone, Copy, Debug, PartialEq, Eq)]
pub struct Record {
    pub tag: u8,
    pub start: usize,
    pub len: usize,
}

/// The stream ended inside a record.
#[derive(Clone, Copy, Debug, PartialEq, Eq)]
pub struct Truncated {
    /// Where the unfinished record starts.
    pub at: usize,
}

/// The record at `pos` in `data`: `Ok(None)` at the clean end of the input,
/// `Err` where the payload the tag calls for runs past the end.
pub fn next_record(data: &[u8], pos: usize) -> (r: Result<Option<Record>, Truncated>)
    requires
        pos <= data@.len(),
    ensures
        pos == data@.len() <==> r == Ok::<Option<Record>, Truncated>(None),
        r is Err <==> (pos < data@.len() && !first_record_whole(data@.subrange(pos as int, data@.len() as int))),
        r is Err ==> r->Err_0.at == pos,
        r matches Ok(Some(rec)) ==> {
            &&& first_record_whole(data@.subrange(pos as int, data@.len() as int))
            &&& rec.tag == data@[pos as int]
            &&& rec.start == pos + 1
            &&& rec.len == msg_len(rec.tag)
            &&& rec.start + rec.len <= data@.len()
        },
{
    if pos == data.len() {
        return Ok(None);
    }
    let tag = data[pos];
    let len = msg_size(tag);
    if len >= data.len() - pos {
        return Err(Truncated { at: pos });
    }
    Ok(Some(Record { tag, start: pos + 1, len }))
}

} // verus!
