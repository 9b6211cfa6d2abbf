//! Exact per-(hour, ticker) sums of price times shares and of shares, kept in
//! a table sorted by key.
use crate::bytes::{
    be_value, lemma_be_bytes_of_value, lemma_be_value_bound, lemma_be_value_lex, lex_lt, pow256,
    read_be_u64,
};
use crate::framing::{
    after_first, first_record_whole, frame_trades, framed_len, frames_whole, lemma_framed_len_bound,
    lemma_no_trade_records, msg_len, next_record, no_trade_records, TRADE_TAG,
};
use crate::trade::{decode_trade, hour_of, parse_trade, Trade, TradeView, TIMESTAMP_LIMIT};
use vstd::prelude::*;
use vstd::slice::{slice_subrange, slice_to_vec};

verus! {

/// 2 to the 64th.
pub const RANK_HOUR_UNIT: u128 = 0x1_0000_0000_0000_0000;

/// The largest value of a `u128`.
pub const SUM_MAX: u128 = 0xffff_ffff_ffff_ffff_ffff_ffff_ffff_ffff;

/// Whether a trade falls in the bucket of `hour` and the 8-byte `stock`.
pub open spec fn in_bucket(t: TradeView, hour: nat, stock: Seq<u8>) -> bool {
    hour_of(t.timestamp) == hour && t.stock == stock
}

/// Sum of price times shares over the trades of `ts` in a bucket.
pub open spec fn notional(ts: Seq<TradeView>, hour: nat, stock: Seq<u8>) -> nat
    decreases ts.len(),
{
    if ts.len() == 0 {
        0
    } else {
        let t = ts.last();
        notional(ts.drop_last(), hour, stock) + if in_bucket(t, hour, stock) {
            t.price * t.shares
        } else {
            0nat
        }
    }
}

/// Sum of shares over the trades of `ts` in a bucket.
pub open spec fn volume(ts: Seq<TradeView>, hour: nat, stock: Seq<u8>) -> nat
    decreases ts.len(),
{
    if ts.len() == 0 {
        0
    } else {
        let t = ts.last();
        volume(ts.drop_last(), hour, stock) + if in_bucket(t, hour, stock) {
            t.shares
        } else {
            0nat
        }
    }
}

/// Whether some trade of `ts` falls in a bucket.
pub open spec fn has_trade(ts: Seq<TradeView>, hour: nat, stock: Seq<u8>) -> bool {
    exists|k: int| 0 <= k < ts.len() && in_bucket(#[trigger] ts[k], hour, stock)
}

/// Both sums of every bucket fit in a `u128`.
pub open spec fn sums_fit(ts: Seq<TradeView>) -> bool {
    forall|hour: nat, stock: Seq<u8>|
        #![trigger notional(ts, hour, stock)]
        #![trigger volume(ts, hour, stock)]
        notional(ts, hour, stock) <= SUM_MAX && volume(ts, hour, stock) <= SUM_MAX
}

/// A trade as the wire format can carry it.
pub open spec fn valid_trade(t: TradeView) -> bool {
    &&& t.timestamp < TIMESTAMP_LIMIT
    &&& t.shares <= u32::MAX
    &&& t.price <= u32::MAX
    &&& t.stock.len() == 8
}

/// Where a bucket stands in the order of output: by hour, then by the eight
/// ticker bytes read as a big-endian number (see `lemma_rows_ordered`).
pub open spec fn key_rank(hour: nat, stock: Seq<u8>) -> nat {
    hour * (RANK_HOUR_UNIT as nat) + be_value(stock)
}

/// Distinct keys have distinct ranks.
pub proof fn lemma_key_rank_injective(h1: nat, s1: Seq<u8>, h2: nat, s2: Seq<u8>)
    requires
        s1.len() == 8,
        s2.len() == 8,
        key_rank(h1, s1) == key_rank(h2, s2),
    ensures
        h1 == h2,
        s1 == s2,
{
    reveal_with_fuel(pow256, 9);
    lemma_be_value_bound(s1);
    lemma_be_value_bound(s2);
    let v1 = be_value(s1);
    let v2 = be_value(s2);
    let u = RANK_HOUR_UNIT as nat;
    assert(h1 == h2 && v1 == v2) by (nonlinear_arith)
        requires
            h1 * u + v1 == h2 * u + v2,
            v1 < u,
            v2 < u,
            u > 0,
    ;
    lemma_be_bytes_of_value(s1);
    lemma_be_bytes_of_value(s2);
}

/// What one more trade does to a bucket's sums and to whether it is seen.
pub proof fn lemma_sums_push(ts: Seq<TradeView>, t: TradeView, hour: nat, stock: Seq<u8>)
    ensures
        notional(ts.push(t), hour, stock) == notional(ts, hour, stock) + if in_bucket(t, hour, stock) {
            t.price * t.shares
        } else {
            0nat
        },
        volume(ts.push(t), hour, stock) == volume(ts, hour, stock) + if in_bucket(t, hour, stock) {
            t.shares
        } else {
            0nat
        },
        has_trade(ts.push(t), hour, stock) == (has_trade(ts, hour, stock) || in_bucket(t, hour, stock)),
{
    assert(ts.push(t).drop_last() =~= ts);
    if has_trade(ts, hour, stock) {
        let k = choose|k: int| 0 <= k < ts.len() && in_bucket(#[trigger] ts[k], hour, stock);
        assert(ts.push(t)[k] == ts[k]);
    }
    if in_bucket(t, hour, stock) {
        assert(ts.push(t)[ts.len() as int] == t);
    }
    if has_trade(ts.push(t), hour, stock) && !in_bucket(t, hour, stock) {
        let k = choose|k: int| 0 <= k < ts.len() + 1 && in_bucket(#[trigger] ts.push(t)[k], hour, stock);
        assert(k < ts.len());
        assert(ts[k] == ts.push(t)[k]);
    }
}

/// A bucket that no trade falls in has both sums zero.
pub proof fn lemma_empty_bucket(ts: Seq<TradeView>, hour: nat, stock: Seq<u8>)
    requires
        !has_trade(ts, hour, stock),
    ensures
        notional(ts, hour, stock) == 0,
        volume(ts, hour, stock) == 0,
    decreases ts.len(),
{
    if ts.len() > 0 {
        lemma_sums_push(ts.drop_last(), ts.last(), hour, stock);
        assert(ts.drop_last().push(ts.last()) =~= ts);
        lemma_empty_bucket(ts.drop_last(), hour, stock);
    }
}

/// The sums over two runs of trades one after the other add up.
pub proof fn lemma_sums_append(a: Seq<TradeView>, b: Seq<TradeView>, hour: nat, stock: Seq<u8>)
    ensures
        notional(a + b, hour, stock) == notional(a, hour, stock) + notional(b, hour, stock),
        volume(a + b, hour, stock) == volume(a, hour, stock) + volume(b, hour, stock),
    decreases b.len(),
{
    if b.len() == 0 {
        assert(a + b =~= a);
    } else {
        let b0 = b.drop_last();
        lemma_sums_append(a, b0, hour, stock);
        assert((a + b0).push(b.last()) =~= a + b);
        assert(b0.push(b.last()) =~= b);
        lemma_sums_push(a + b0, b.last(), hour, stock);
        lemma_sums_push(b0, b.last(), hour, stock);
    }
}

/// The bytes that pad a ticker on the right: space, tab, line feed,
/// vertical tab, form feed and carriage return.
pub open spec fn is_padding(b: u8) -> bool {
    b == 0x20 || (0x09 <= b && b <= 0x0d)
}

/// `s` without its trailing padding.
pub open spec fn trim_padding(s: Seq<u8>) -> Seq<u8>
    decreases s.len(),
{
    if s.len() > 0 && is_padding(s.last()) {
        trim_padding(s.drop_last())
    } else {
        s
    }
}

/// The text of a ticker: its bytes without the trailing padding.
pub fn trim_ticker(stock: &[u8; 8]) -> (r: Vec<u8>)
    ensures
        r@ == trim_padding(stock@),
{
    let mut n: usize = 8;
    assert(stock@.subrange(0, 8) =~= stock@);
    while n > 0 && (stock[n - 1] == 0x20 || (0x09 <= stock[n - 1] && stock[n - 1] <= 0x0d))
        invariant
            n <= 8,
            trim_padding(stock@.subrange(0, n as int)) == trim_padding(stock@),
        decreases n,
    {
        assert(stock@.subrange(0, n as int).drop_last() =~= stock@.subrange(0, n - 1));
        n = n - 1;
    }
    assert(stock@.subrange(0, 8) =~= stock@);
    slice_to_vec(slice_subrange(stock.as_slice(), 0, n))
}

/// One output row: a bucket's key, its ticker text and its exact sums. The
/// VWAP of the row is `cum_price_qty / cum_qty / 10_000`.
#[derive(Clone, Debug, PartialEq, Eq)]
pub struct VwapRow {
    pub hour: u8,
    /// The ticker field as it stands on the wire.
    pub ticker: [u8; 8],
    /// The ticker without its trailing padding.
    pub stock: Vec<u8>,
    /// Sum of price times shares; price is in units of 1/10,000.
    pub cum_price_qty: u128,
    /// Sum of shares.
    pub cum_qty: u128,
}

/// `rows` has one row per bucket that the trades of `ts` fall in, strictly in
/// key order, each with the bucket's exact sums and its trimmed ticker.
pub open spec fn rows_describe(rows: Seq<VwapRow>, ts: Seq<TradeView>) -> bool {
    &&& forall|i: int|
        0 <= i < rows.len() ==> {
            let w = #[trigger] rows[i];
            &&& w.cum_price_qty == notional(ts, w.hour as nat, w.ticker@)
            &&& w.cum_qty == volume(ts, w.hour as nat, w.ticker@)
            &&& has_trade(ts, w.hour as nat, w.ticker@)
            &&& w.stock@ == trim_padding(w.ticker@)
        }
    &&& forall|i: int, j: int|
        0 <= i < j < rows.len() ==> key_rank(rows[i].hour as nat, rows[i].ticker@) < key_rank(
            rows[j].hour as nat,
            rows[j].ticker@,
        )
    &&& forall|k: int| 0 <= k < ts.len() ==> has_row(rows, #[trigger] ts[k])
}

/// Some row of `rows` is the bucket of trade `t`.
pub open spec fn has_row(rows: Seq<VwapRow>, t: TradeView) -> bool {
    exists|i: int|
        0 <= i < rows.len() && rows[i].hour == hour_of(t.timestamp) && rows[i].ticker@ == t.stock
}

/// One bucket's running sums, under the rank of its key.
struct Slot {
    rank: u128,
    hour: u8,
    stock: [u8; 8],
    cum_price_qty: u128,
    cum_qty: u128,
}

/// The aggregation table: one slot per (hour, ticker) seen, in key order.
pub struct VwapTable {
    slots: Vec<Slot>,
    trades: Ghost<Seq<TradeView>>,
}

impl VwapTable {
    /// The trades fed so far, in order.
    pub closed spec fn view(&self) -> Seq<TradeView> {
        self.trades@
    }

    pub closed spec fn wf(&self) -> bool {
        let ts = self.trades@;
        let s = self.slots@;
        &&& forall|k: int| 0 <= k < ts.len() ==> valid_trade(#[trigger] ts[k])
        &&& forall|i: int, j: int| 0 <= i < j < s.len() ==> s[i].rank < s[j].rank
        &&& forall|i: int|
            0 <= i < s.len() ==> {
                let b = #[trigger] s[i];
                &&& b.rank == key_rank(b.hour as nat, b.stock@)
                &&& b.cum_price_qty == notional(ts, b.hour as nat, b.stock@)
                &&& b.cum_qty == volume(ts, b.hour as nat, b.stock@)
                &&& has_trade(ts, b.hour as nat, b.stock@)
            }
        &&& forall|k: int|
            #![trigger ts[k]]
            0 <= k < ts.len() ==> exists|i: int|
                #![trigger s[i]]
                0 <= i < s.len() && s[i].hour == hour_of(ts[k].timestamp) && s[i].stock@ == ts[k].stock
    }

    /// An empty table.
    pub fn new() -> (r: VwapTable)
        ensures
            r.wf(),
            r@ == Seq::<TradeView>::empty(),
    {
        VwapTable { slots: Vec::new(), trades: Ghost(Seq::empty()) }
    }

    /// First slot whose rank is at least `rank`.
    fn find_slot(&self, rank: u128) -> (r: usize)
        requires
            self.wf(),
        ensures
            r <= self.slots@.len(),
            forall|j: int| 0 <= j < r ==> self.slots@[j].rank < rank,
            forall|j: int| r <= j < self.slots@.len() ==> self.slots@[j].rank >= rank,
    {
        let mut lo: usize = 0;
        let mut hi: usize = self.slots.len();
        while lo < hi
            invariant
                self.wf(),
                lo <= hi <= self.slots@.len(),
                forall|j: int| 0 <= j < lo ==> self.slots@[j].rank < rank,
                forall|j: int| hi <= j < self.slots@.len() ==> self.slots@[j].rank >= rank,
            decreases hi - lo,
        {
            let mid = lo + (hi - lo) / 2;
            if self.slots[mid].rank < rank {
                lo = mid + 1;
            } else {
                hi = mid;
            }
        }
        lo
    }

    /// Counts one trade in its bucket, creating the bucket if needed. Fails,
    /// and leaves the table as it was, where a sum of that bucket would no
    /// longer fit in a `u128`.
    #[verifier::rlimit(40)]
    pub fn add_trade(&mut self, t: &Trade) -> (r: Result<(), VwapError>)
        requires
            old(self).wf(),
            t.wf(),
        ensures
            final(self).wf(),
            r is Ok ==> final(self)@ == old(self)@.push(t@),
            r is Err ==> final(self)@ == old(self)@ && r == Err::<(), VwapError>(VwapError::Overflow),
            r is Err <==> (notional(old(self)@.push(t@), t.hour as nat, t.stock@) > SUM_MAX
                || volume(old(self)@.push(t@), t.hour as nat, t.stock@) > SUM_MAX),
    {
        let ghost ts = self.trades@;
        let ghost ts2 = ts.push(t@);
        let ticker = read_be_u64(t.stock.as_slice());
        let rank: u128 = (t.hour as u128) * RANK_HOUR_UNIT + ticker as u128;
        assert((t.price as u128) * (t.shares as u128) <= 0xffff_ffff_ffff_ffff_ffff_ffff) by (nonlinear_arith)
            requires
                t.price <= 0xffff_ffff,
                t.shares <= 0xffff_ffff,
        ;
        let pq: u128 = (t.price as u128) * (t.shares as u128);
        let i = self.find_slot(rank);
        proof {
            lemma_sums_push(ts, t@, t.hour as nat, t.stock@);
            assert(in_bucket(t@, t.hour as nat, t.stock@));
        }
        if i < self.slots.len() && self.slots[i].rank == rank {
            let old_pq = self.slots[i].cum_price_qty;
            let old_q = self.slots[i].cum_qty;
            proof {
                lemma_key_rank_injective(
                    self.slots@[i as int].hour as nat,
                    self.slots@[i as int].stock@,
                    t.hour as nat,
                    t.stock@,
                );
            }
            if pq > SUM_MAX - old_pq || t.shares as u128 > SUM_MAX - old_q {
                return Err(VwapError::Overflow);
            }
            let slot = Slot {
                rank,
                hour: t.hour,
                stock: t.stock,
                cum_price_qty: old_pq + pq,
                cum_qty: old_q + t.shares as u128,
            };
            self.slots.set(i, slot);
            self.trades = Ghost(ts2);
            proof {
                assert forall|j: int| 0 <= j < self.slots@.len() implies {
                    let b = #[trigger] self.slots@[j];
                    &&& b.rank == key_rank(b.hour as nat, b.stock@)
                    &&& b.cum_price_qty == notional(ts2, b.hour as nat, b.stock@)
                    &&& b.cum_qty == volume(ts2, b.hour as nat, b.stock@)
                    &&& has_trade(ts2, b.hour as nat, b.stock@)
                } by {
                    let b = self.slots@[j];
                    lemma_sums_push(ts, t@, b.hour as nat, b.stock@);
                    if j != i {
                        if in_bucket(t@, b.hour as nat, b.stock@) {
                            assert(b.rank == rank);
                            if j < i {
                                assert(self.slots@[j].rank < rank);
                            } else {
                                assert(old(self).slots@[i as int].rank < b.rank);
                            }
                        }
                    }
                }
                assert forall|k: int|
                    #![trigger ts2[k]]
                    0 <= k < ts2.len() implies exists|m: int|
                    #![trigger self.slots@[m]]
                    0 <= m < self.slots@.len() && self.slots@[m].hour == hour_of(ts2[k].timestamp) && self.slots@[m].stock@ == ts2[k].stock by {
                    if k < ts.len() {
                        assert(ts2[k] == ts[k]);
                        let m = choose|m: int|
                            #![trigger old(self).slots@[m]]
                            0 <= m < old(self).slots@.len() && old(self).slots@[m].hour == hour_of(ts[k].timestamp) && old(self).slots@[m].stock@ == ts[k].stock;
                        assert(self.slots@[m].hour == old(self).slots@[m].hour);
                    } else {
                        assert(ts2[k] == t@);
                        assert(self.slots@[i as int].hour == t.hour);
                    }
                }
            }
            Ok(())
        } else {
            proof {
                if has_trade(ts, t.hour as nat, t.stock@) {
                    let k = choose|k: int|
                        0 <= k < ts.len() && in_bucket(#[trigger] ts[k], t.hour as nat, t.stock@);
                    let m = choose|m: int|
                        #![trigger self.slots@[m]]
                        0 <= m < self.slots@.len() && self.slots@[m].hour == hour_of(ts[k].timestamp) && self.slots@[m].stock@ == ts[k].stock;
                    assert(self.slots@[m].rank == rank);
                    assert(false);
                }
                lemma_empty_bucket(ts, t.hour as nat, t.stock@);
            }
            let slot = Slot {
                rank,
                hour: t.hour,
                stock: t.stock,
                cum_price_qty: pq,
                cum_qty: t.shares as u128,
            };
            self.slots.insert(i, slot);
            self.trades = Ghost(ts2);
            proof {
                let os = old(self).slots@;
                let s = self.slots@;
                assert forall|a: int, b: int| 0 <= a < b < s.len() implies s[a].rank < s[b].rank by {
                    if b < i {
                        assert(s[a] == os[a] && s[b] == os[b]);
                    } else if b == i {
                        assert(s[a] == os[a]);
                    } else if a < i {
                        assert(s[a] == os[a] && s[b] == os[b - 1]);
                    } else if a == i {
                        assert(s[b] == os[b - 1]);
                    } else {
                        assert(s[a] == os[a - 1] && s[b] == os[b - 1]);
                    }
                }
                assert forall|j: int| 0 <= j < s.len() implies {
                    let b = #[trigger] s[j];
                    &&& b.rank == key_rank(b.hour as nat, b.stock@)
                    &&& b.cum_price_qty == notional(ts2, b.hour as nat, b.stock@)
                    &&& b.cum_qty == volume(ts2, b.hour as nat, b.stock@)
                    &&& has_trade(ts2, b.hour as nat, b.stock@)
                } by {
                    let b = s[j];
                    lemma_sums_push(ts, t@, b.hour as nat, b.stock@);
                    if j != i {
                        let oj = if j < i { j } else { j - 1 };
                        assert(b == os[oj]);
                        if in_bucket(t@, b.hour as nat, b.stock@) {
                            assert(b.rank == rank);
                        }
                    }
                }
                assert forall|k: int|
                    #![trigger ts2[k]]
                    0 <= k < ts2.len() implies exists|m: int|
                    #![trigger s[m]]
                    0 <= m < s.len() && s[m].hour == hour_of(ts2[k].timestamp)
                        && s[m].stock@ == ts2[k].stock by {
                    if k < ts.len() {
                        assert(ts2[k] == ts[k]);
                        let m = choose|m: int|
                            #![trigger os[m]]
                            0 <= m < os.len() && os[m].hour == hour_of(ts[k].timestamp)
                                && os[m].stock@ == ts[k].stock;
                        let m2 = if m < i { m } else { m + 1 };
                        assert(s[m2] == os[m]);
                    } else {
                        assert(ts2[k] == t@);
                        assert(s[i as int].hour == t.hour);
                    }
                }
            }
            Ok(())
        }
    }

    /// Every bucket's sums fit, as the table holds them in `u128`s.
    pub proof fn lemma_table_fits(&self)
        requires
            self.wf(),
        ensures
            sums_fit(self@),
    {
        let ts = self@;
        assert forall|hour: nat, stock: Seq<u8>|
            #![trigger notional(ts, hour, stock)]
            #![trigger volume(ts, hour, stock)]
            notional(ts, hour, stock) <= SUM_MAX && volume(ts, hour, stock) <= SUM_MAX by {
            if has_trade(ts, hour, stock) {
                let k = choose|k: int| 0 <= k < ts.len() && in_bucket(#[trigger] ts[k], hour, stock);
                let m = choose|m: int|
                    #![trigger self.slots@[m]]
                    0 <= m < self.slots@.len() && self.slots@[m].hour == hour_of(ts[k].timestamp) && self.slots@[m].stock@ == ts[k].stock;
                assert(self.slots@[m].cum_qty == volume(ts, hour, stock));
                assert(self.slots@[m].cum_price_qty == notional(ts, hour, stock));
                assert(self.slots@[m].cum_price_qty <= SUM_MAX);
            } else {
                lemma_empty_bucket(ts, hour, stock);
            }
        }
    }

    /// Feeds the whole records at the front of `data` and returns how many
    /// bytes they take; what follows them is an unfinished record, or nothing.
    /// Fails where a bucket's sums would no longer fit in a `u128`.
    pub fn feed(&mut self, data: &[u8]) -> (r: Result<usize, VwapError>)
        requires
            old(self).wf(),
        ensures
            final(self).wf(),
            r is Ok ==> r->Ok_0 == framed_len(data@) && final(self)@ == old(self)@ + frame_trades(
                data@,
            ),
            r is Err ==> r == Err::<usize, VwapError>(VwapError::Overflow),
            r is Err <==> !sums_fit(old(self)@ + frame_trades(data@)),
    {
        let ghost ts0 = self@;
        let n: usize = data.len();
        let mut pos: usize = 0;
        proof {
            assert(data@.subrange(0, data@.len() as int) =~= data@);
            assert(ts0 + frame_trades(data@) =~= self@ + frame_trades(data@));
        }
        loop
            invariant
                self.wf(),
                ts0 == old(self)@,
                n == data@.len(),
                pos <= data@.len(),
                framed_len(data@) == pos + framed_len(data@.subrange(pos as int, data@.len() as int)),
                ts0 + frame_trades(data@) == self@ + frame_trades(
                    data@.subrange(pos as int, data@.len() as int),
                ),
            ensures
                self.wf(),
                ts0 == old(self)@,
                pos <= data@.len(),
                framed_len(data@) == pos,
                ts0 + frame_trades(data@) == self@,
            decreases data@.len() - pos,
        {
            let ghost rest = data@.subrange(pos as int, data@.len() as int);
            match next_record(data, pos) {
                Ok(Some(rec)) => {
                    assert(rest.len() == data@.len() - pos);
                    assert(rest[0] == data@[pos as int]);
                    let end = rec.start + rec.len;
                    let ghost after = data@.subrange(end as int, data@.len() as int);
                    proof {
                        assert(after_first(rest) =~= after);
                        assert(rest.subrange(1, 1 + msg_len(rest[0]) as int) =~= data@.subrange(
                            rec.start as int,
                            end as int,
                        ));
                    }
                    if rec.tag == TRADE_TAG {
                        let payload = slice_subrange(data, rec.start, end);
                        let t = parse_trade(payload);
                        let ghost before = self@;
                        match self.add_trade(&t) {
                            Ok(()) => {
                                proof {
                                    assert(frame_trades(rest) =~= seq![t@] + frame_trades(after));
                                    assert(before + frame_trades(rest) =~= self@ + frame_trades(
                                        after,
                                    ));
                                }
                            },
                            Err(e) => {
                                proof {
                                    assert(frame_trades(rest) =~= seq![t@] + frame_trades(after));
                                    let whole = ts0 + frame_trades(data@);
                                    assert(whole =~= before.push(t@) + frame_trades(after));
                                    lemma_sums_append(
                                        before.push(t@),
                                        frame_trades(after),
                                        t.hour as nat,
                                        t.stock@,
                                    );
                                    assert(!sums_fit(whole)) by {
                                        if sums_fit(whole) {
                                            assert(notional(whole, t.hour as nat, t.stock@) <= SUM_MAX
                                                && volume(whole, t.hour as nat, t.stock@) <= SUM_MAX);
                                        }
                                    }
                                }
                                assert(!sums_fit(old(self)@ + frame_trades(data@)));
                                return Err(e);
                            },
                        }
                    } else {
                        proof {
                            assert(frame_trades(rest) =~= frame_trades(after));
                        }
                    }
                    pos = end;
                },
                Ok(None) => {
                    break ;
                },
                Err(_) => {
                    break ;
                },
            }
        }
        proof {
            let rest = data@.subrange(pos as int, data@.len() as int);
            assert(!first_record_whole(rest));
            assert(frame_trades(rest) =~= Seq::<TradeView>::empty());
            assert(self@ + frame_trades(rest) =~= self@);
            self.lemma_table_fits();
        }
        Ok(pos)
    }

    /// The rows of the table, in key order.
    pub fn finish(&self) -> (r: Vec<VwapRow>)
        requires
            self.wf(),
        ensures
            rows_describe(r@, self@),
    {
        let mut rows: Vec<VwapRow> = Vec::new();
        let mut i: usize = 0;
        while i < self.slots.len()
            invariant
                self.wf(),
                i <= self.slots@.len(),
                rows@.len() == i,
                forall|j: int|
                    0 <= j < i ==> {
                        let w = #[trigger] rows@[j];
                        let b = self.slots@[j];
                        &&& w.hour == b.hour
                        &&& w.ticker@ == b.stock@
                        &&& w.cum_price_qty == b.cum_price_qty
                        &&& w.cum_qty == b.cum_qty
                        &&& w.stock@ == trim_padding(b.stock@)
                    },
            decreases self.slots@.len() - i,
        {
            let b = &self.slots[i];
            let stock = trim_ticker(&b.stock);
            rows.push(
                VwapRow {
                    hour: b.hour,
                    ticker: b.stock,
                    stock,
                    cum_price_qty: b.cum_price_qty,
                    cum_qty: b.cum_qty,
                },
            );
            i = i + 1;
        }
        proof {
            let ts = self@;
            assert forall|i: int| 0 <= i < rows@.len() implies {
                let w = #[trigger] rows@[i];
                &&& w.cum_price_qty == notional(ts, w.hour as nat, w.ticker@)
                &&& w.cum_qty == volume(ts, w.hour as nat, w.ticker@)
                &&& has_trade(ts, w.hour as nat, w.ticker@)
                &&& w.stock@ == trim_padding(w.ticker@)
            } by {
                let b = self.slots@[i];
                assert(rows@[i].ticker@ == b.stock@);
            }
            assert forall|i: int, j: int| 0 <= i < j < rows@.len() implies key_rank(
                rows@[i].hour as nat,
                rows@[i].ticker@,
            ) < key_rank(rows@[j].hour as nat, rows@[j].ticker@) by {
                assert(rows@[i].ticker@ == self.slots@[i].stock@);
                assert(rows@[j].ticker@ == self.slots@[j].stock@);
                assert(self.slots@[i].rank < self.slots@[j].rank);
            }
            assert forall|k: int| 0 <= k < ts.len() implies has_row(rows@, #[trigger] ts[k]) by {
                let m = choose|m: int|
                    #![trigger self.slots@[m]]
                    0 <= m < self.slots@.len() && self.slots@[m].hour == hour_of(ts[k].timestamp)
                        && self.slots@[m].stock@ == ts[k].stock;
                assert(rows@[m].hour == self.slots@[m].hour);
                assert(rows@[m].ticker@ == self.slots@[m].stock@);
            }
            assert(rows_describe(rows@, self@));
        }
        rows
    }
}

/// Why aggregation failed.
#[derive(Clone, Copy, Debug, PartialEq, Eq)]
pub enum VwapError {
    /// The input ended inside a record that starts at this offset.
    Truncated { at: usize },
    /// A bucket's sum would not fit in a `u128`.
    Overflow,
}

} // verus!

verus! {

/// The VWAP rows of a whole input: every record must be complete, and every
/// bucket's sums must fit in a `u128`.
pub fn vwap_rows(data: &[u8]) -> (r: Result<Vec<VwapRow>, VwapError>)
    ensures
        r == Err::<Vec<VwapRow>, VwapError>(VwapError::Overflow) <==> !sums_fit(frame_trades(data@)),
        r is Err && r->Err_0 is Truncated <==> (sums_fit(frame_trades(data@)) && !frames_whole(data@)),
        r is Err && r->Err_0 is Truncated ==> r->Err_0->Truncated_at == framed_len(data@),
        r is Ok ==> rows_describe(r->Ok_0@, frame_trades(data@)),
{
    let mut table = VwapTable::new();
    let ghost empty = table@;
    proof {
        assert(empty + frame_trades(data@) =~= frame_trades(data@));
    }
    let consumed = match table.feed(data) {
        Ok(n) => n,
        Err(e) => {
            return Err(e);
        },
    };
    if consumed < data.len() {
        return Err(VwapError::Truncated { at: consumed });
    }
    proof {
        table.lemma_table_fits();
        lemma_framed_len_bound(data@);
    }
    Ok(table.finish())
}

} // verus!

verus! {

/// The sums of a bucket do not depend on the order in which its trades come:
/// two runs that hold the same trades, each as often, give the same sums.
pub proof fn lemma_sums_permutation(
    ts1: Seq<TradeView>,
    ts2: Seq<TradeView>,
    hour: nat,
    stock: Seq<u8>,
)
    requires
        ts1.to_multiset() =~= ts2.to_multiset(),
    ensures
        notional(ts1, hour, stock) == notional(ts2, hour, stock),
        volume(ts1, hour, stock) == volume(ts2, hour, stock),
    decreases ts1.len(),
{
    broadcast use vstd::seq_lib::group_to_multiset_ensures;

    if ts1.len() == 0 {
        assert(ts2.to_multiset().len() == ts1.to_multiset().len());
        assert(ts2.len() == 0);
        assert(ts2 =~= ts1);
    } else {
        let x = ts1.last();
        let rest1 = ts1.drop_last();
        assert(rest1.push(x) =~= ts1);
        assert(ts1.to_multiset().count(x) > 0);
        assert(ts2.contains(x));
        let i = choose|i: int| 0 <= i < ts2.len() && ts2[i] == x;
        let rest2 = ts2.remove(i);
        assert(rest1.to_multiset() =~= ts1.to_multiset().remove(x));
        assert(rest2.to_multiset() =~= ts2.to_multiset().remove(x));
        lemma_sums_permutation(rest1, rest2, hour, stock);
        lemma_sums_push(rest1, x, hour, stock);
        let front = ts2.subrange(0, i);
        let back = ts2.subrange(i + 1, ts2.len() as int);
        assert(rest2 =~= front + back);
        assert(ts2 =~= front.push(x) + back);
        lemma_sums_append(front, back, hour, stock);
        lemma_sums_append(front.push(x), back, hour, stock);
        lemma_sums_push(front, x, hour, stock);
    }
}

/// A stream whose records carry no trade gives an empty table and no rows.
pub proof fn lemma_no_trades_no_rows(data: Seq<u8>, rows: Seq<VwapRow>)
    requires
        no_trade_records(data),
        rows_describe(rows, frame_trades(data)),
    ensures
        frame_trades(data).len() == 0,
        rows.len() == 0,
{
    lemma_no_trade_records(data);
    if rows.len() > 0 {
        assert(has_trade(frame_trades(data), rows[0].hour as nat, rows[0].ticker@));
    }
}

} // verus!

verus! {

/// Rows that describe a run of trades come strictly by hour, then by ticker
/// bytes in lexicographic order; so no two rows share an (hour, ticker) pair.
pub proof fn lemma_rows_ordered(rows: Seq<VwapRow>, ts: Seq<TradeView>, i: int, j: int)
    requires
        rows_describe(rows, ts),
        0 <= i < j < rows.len(),
    ensures
        rows[i].hour < rows[j].hour || (rows[i].hour == rows[j].hour && lex_lt(
            rows[i].ticker@,
            rows[j].ticker@,
        )),
        rows[i].hour != rows[j].hour || rows[i].ticker@ != rows[j].ticker@,
{
    let a = rows[i].ticker@;
    let b = rows[j].ticker@;
    reveal_with_fuel(pow256, 9);
    lemma_be_value_bound(a);
    lemma_be_value_bound(b);
    lemma_be_value_lex(a, b);
    let u = RANK_HOUR_UNIT as int;
    let h1 = rows[i].hour as int;
    let h2 = rows[j].hour as int;
    let v1 = be_value(a) as int;
    let v2 = be_value(b) as int;
    assert(h1 < h2 || (h1 == h2 && v1 < v2)) by (nonlinear_arith)
        requires
            h1 * u + v1 < h2 * u + v2,
            0 <= v1 < u,
            0 <= v2 < u,
            0 <= h1,
            0 <= h2,
    ;
}

} // verus!
