//! The fields of a trade execution message that the aggregation needs.
use crate::bytes::{
    be_bytes, be_u32_bytes, be_u48_bytes, be_value, lemma_be_bytes_of_value, lemma_be_value_bound,
    lemma_be_value_of_bytes, pow256, read_be_u32, read_be_u48,
};
use vstd::prelude::*;
use vstd::slice::slice_subrange;

verus! {

/// Nanoseconds in an hour.
pub const NS_PER_HOUR: u64 = 3_600_000_000_000;

/// One past the largest 48-bit timestamp.
pub const TIMESTAMP_LIMIT: u64 = 0x1_0000_0000_0000;

/// Bytes of a trade payload that the decoder reads.
pub const TRADE_FIELDS_END: usize = 35;

/// The hour of day that a timestamp in nanoseconds since midnight falls in;
/// not clamped to 23.
pub open spec fn hour_of(timestamp: nat) -> nat {
    timestamp / (NS_PER_HOUR as nat)
}

/// A decoded trade, mathematically.
pub struct TradeView {
    pub timestamp: nat,
    pub shares: nat,
    pub stock: Seq<u8>,
    pub price: nat,
}

/// The trade that a trade payload `p` encodes: timestamp at bytes 4..10,
/// shares at 19..23, stock at 23..31, price at 31..35, all big-endian.
pub open spec fn decode_trade(p: Seq<u8>) -> TradeView {
    TradeView {
        timestamp: be_value(p.subrange(4, 10)),
        shares: be_value(p.subrange(19, 23)),
        stock: p.subrange(23, 31),
        price: be_value(p.subrange(31, 35)),
    }
}

/// `p` with the four decoded fields of `t` written over their places.
pub open spec fn with_trade_fields(p: Seq<u8>, t: TradeView) -> Seq<u8> {
    p.subrange(0, 4) + be_bytes(t.timestamp, 6) + p.subrange(10, 19) + be_bytes(t.shares, 4)
        + t.stock + be_bytes(t.price, 4) + p.subrange(35, p.len() as int)
}

/// The retained fields of a trade execution message.
#[derive(Clone, Copy, Debug, PartialEq, Eq)]
pub struct Trade {
    /// Hour of day of `timestamp`.
    pub hour: u8,
    /// Nanoseconds since midnight (48 bits on the wire).
    pub timestamp: u64,
    /// Number of shares traded.
    pub shares: u32,
    /// Ticker, space-padded ASCII.
    pub stock: [u8; 8],
    /// Price times 10,000.
    pub price: u32,
}

impl Trade {
    pub open spec fn view(&self) -> TradeView {
        TradeView {
            timestamp: self.timestamp as nat,
            shares: self.shares as nat,
            stock: self.stock@,
            price: self.price as nat,
        }
    }

    /// The timestamp fits in 48 bits and `hour` is its hour.
    pub open spec fn wf(&self) -> bool {
        &&& self.timestamp < TIMESTAMP_LIMIT
        &&& self.hour == hour_of(self.timestamp as nat)
    }
}

/// The hour of a 6-byte big-endian timestamp in nanoseconds since midnight.
pub fn get_hour(timestamp: &[u8; 6]) -> (r: u8)
    ensures
        r == hour_of(be_value(timestamp@)),
{
    let ns = read_be_u48(timestamp.as_slice());
    proof {
        lemma_be_value_bound(timestamp@);
        reveal_with_fuel(pow256, 7);
    }
    (ns / NS_PER_HOUR) as u8
}

/// Decodes the trade fields of a trade execution payload.
pub fn parse_trade(msg: &[u8]) -> (r: Trade)
    requires
        msg@.len() >= TRADE_FIELDS_END,
    ensures
        r@ == decode_trade(msg@),
        r.wf(),
{
    let ts_bytes = slice_subrange(msg, 4, 10);
    let timestamp = read_be_u48(ts_bytes);
    let mut ts: [u8; 6] = [0u8; 6];
    let mut i: usize = 0;
    while i < 6
        invariant
            i <= 6,
            msg@.len() >= TRADE_FIELDS_END,
            ts_bytes@ == msg@.subrange(4, 10),
            forall|j: int| 0 <= j < i ==> ts@[j] == ts_bytes@[j],
        decreases 6 - i,
    {
        ts[i] = ts_bytes[i];
        i = i + 1;
    }
    assert(ts@ =~= ts_bytes@);
    let hour = get_hour(&ts);
    let shares = read_be_u32(slice_subrange(msg, 19, 23));
    let mut stock: [u8; 8] = [0u8; 8];
    let mut k: usize = 0;
    while k < 8
        invariant
            k <= 8,
            msg@.len() >= TRADE_FIELDS_END,
            forall|j: int| 0 <= j < k ==> stock@[j] == msg@[23 + j],
        decreases 8 - k,
    {
        stock[k] = msg[23 + k];
        k = k + 1;
    }
    assert(stock@ =~= msg@.subrange(23, 31));
    let price = read_be_u32(slice_subrange(msg, 31, 35));
    proof {
        lemma_be_value_bound(ts_bytes@);
        reveal_with_fuel(pow256, 7);
    }
    Trade { hour, timestamp, shares, stock, price }
}

/// Copies `src` into `buf` from position `at` on.
fn put_bytes(buf: &mut Vec<u8>, at: usize, src: &[u8])
    requires
        at + src@.len() <= old(buf)@.len(),
    ensures
        final(buf)@ == old(buf)@.subrange(0, at as int) + src@ + old(buf)@.subrange(
            at + src@.len(),
            old(buf)@.len() as int,
        ),
{
    let n: usize = buf.len();
    let mut i: usize = 0;
    while i < src.len()
        invariant
            n == old(buf)@.len(),
            at + src@.len() <= old(buf)@.len(),
            i <= src@.len(),
            buf@.len() == old(buf)@.len(),
            forall|j: int| 0 <= j < at || at + i <= j < buf@.len() ==> buf@[j] == old(buf)@[j],
            forall|j: int| 0 <= j < i ==> buf@[at + j] == src@[j],
        decreases src@.len() - i,
    {
        buf.set(at + i, src[i]);
        i = i + 1;
    }
    assert(buf@ =~= old(buf)@.subrange(0, at as int) + src@ + old(buf)@.subrange(
        at + src@.len(),
        old(buf)@.len() as int,
    ));
}

/// Writes the timestamp, shares, stock and price of `t` into a trade payload,
/// leaving the other bytes as they are.
pub fn write_trade_fields(payload: &mut Vec<u8>, t: &Trade)
    requires
        old(payload)@.len() >= TRADE_FIELDS_END,
        t.wf(),
    ensures
        final(payload)@ == with_trade_fields(old(payload)@, t@),
{
    let ts = be_u48_bytes(t.timestamp);
    put_bytes(payload, 4, ts.as_slice());
    let shares = be_u32_bytes(t.shares);
    put_bytes(payload, 19, shares.as_slice());
    put_bytes(payload, 23, t.stock.as_slice());
    let price = be_u32_bytes(t.price);
    put_bytes(payload, 31, price.as_slice());
    proof {
        reveal_with_fuel(pow256, 7);
        lemma_be_value_of_bytes(t.timestamp as nat, 6);
        lemma_be_value_of_bytes(t.shares as nat, 4);
        lemma_be_value_of_bytes(t.price as nat, 4);
    }
    assert(payload@ =~= with_trade_fields(old(payload)@, t@));
}

/// Decoding a trade payload and writing the decoded fields back over it
/// gives the payload unchanged.
pub proof fn lemma_decode_then_encode(p: Seq<u8>)
    requires
        p.len() >= TRADE_FIELDS_END,
    ensures
        with_trade_fields(p, decode_trade(p)) == p,
{
    lemma_be_bytes_of_value(p.subrange(4, 10));
    lemma_be_bytes_of_value(p.subrange(19, 23));
    lemma_be_bytes_of_value(p.subrange(31, 35));
    assert(with_trade_fields(p, decode_trade(p)) =~= p);
}

/// Writing a trade's fields into a payload and decoding it gives the trade back.
pub proof fn lemma_encode_then_decode(p: Seq<u8>, t: Trade)
    requires
        p.len() >= TRADE_FIELDS_END,
        t.wf(),
    ensures
        decode_trade(with_trade_fields(p, t@)) == t@,
{
    reveal_with_fuel(pow256, 7);
    lemma_be_value_of_bytes(t.timestamp as nat, 6);
    lemma_be_value_of_bytes(t.shares as nat, 4);
    lemma_be_value_of_bytes(t.price as nat, 4);
    let q = with_trade_fields(p, t@);
    assert(q.subrange(4, 10) =~= be_bytes(t.timestamp as nat, 6));
    assert(q.subrange(19, 23) =~= be_bytes(t.shares as nat, 4));
    assert(q.subrange(23, 31) =~= t.stock@);
    assert(q.subrange(31, 35) =~= be_bytes(t.price as nat, 4));
}

} // verus!
