use itch_vwap::{
    get_hour, msg_size, next_record, parse_trade, trim_ticker, vwap_rows, write_trade_fields,
    Record, Trade, Truncated, VwapError, VwapRow, VwapTable, NS_PER_HOUR, TRADE_TAG,
};

/// A trade execution message, tag included, with the given fields and a
/// distinctive filler in the fields that the decoder skips.
fn trade_msg(timestamp: u64, shares: u32, stock: &[u8; 8], price: u32) -> Vec<u8> {
    let mut m = vec![b'P'];
    m.extend_from_slice(&[0x12, 0x34, 0x56, 0x78]);
    m.extend_from_slice(&timestamp.to_be_bytes()[2..]);
    m.extend_from_slice(&[0xab; 8]);
    m.push(b'B');
    m.extend_from_slice(&shares.to_be_bytes());
    m.extend_from_slice(stock);
    m.extend_from_slice(&price.to_be_bytes());
    m.extend_from_slice(&[0xcd; 8]);
    assert_eq!(m.len(), 44);
    m
}

fn other_msg(tag: u8) -> Vec<u8> {
    let mut m = vec![tag];
    m.extend(std::iter::repeat(b'P').take(msg_size(tag)));
    m
}

fn vwap_of(row: &VwapRow) -> f64 {
    (row.cum_price_qty as f64) / (row.cum_qty as f64) / 10_000.0
}

#[test]
fn msg_size_table() {
    assert_eq!(msg_size(b'P'), 43);
    assert_eq!(msg_size(b'S'), 11);
    assert_eq!(msg_size(b'I'), 49);
    assert_eq!(msg_size(b'h'), 20);
    assert_eq!(msg_size(b'Z'), 0);
    assert_eq!(TRADE_TAG, b'P');
}

#[test]
fn get_hour_of_timestamps() {
    let one_hour: [u8; 6] = [0x03, 0x46, 0x30, 0xb8, 0xa0, 0x00];
    assert_eq!(get_hour(&one_hour), 1);
    assert_eq!(get_hour(&[0; 6]), 0);
    let ts: u64 = 13 * NS_PER_HOUR + 59 * 60 * 1_000_000_000;
    let b = ts.to_be_bytes();
    assert_eq!(get_hour(&[b[2], b[3], b[4], b[5], b[6], b[7]]), 13);
    // Past midnight is passed through, not clamped.
    assert_eq!(get_hour(&[0xff; 6]), 78);
}

#[test]
fn parse_trade_fields() {
    let m = trade_msg(3_600_000_000_000, 100, b"AAPL    ", 1_500_000);
    let t = parse_trade(&m[1..]);
    assert_eq!(
        t,
        Trade {
            hour: 1,
            timestamp: 3_600_000_000_000,
            shares: 100,
            stock: *b"AAPL    ",
            price: 1_500_000
        }
    );
}

#[test]
fn decode_then_encode_keeps_payload() {
    let m = trade_msg(0x0123_4567_89ab, 0xdead_beef, b"MSFT    ", 0x0102_0304);
    let mut payload = m[1..].to_vec();
    let t = parse_trade(&payload);
    write_trade_fields(&mut payload, &t);
    assert_eq!(payload, m[1..].to_vec());
}

#[test]
fn encode_then_decode_gives_trade() {
    let t = Trade {
        hour: 10,
        timestamp: 10 * NS_PER_HOUR + 17,
        shares: 250,
        stock: *b"GOOG    ",
        price: 27_500_000,
    };
    let mut payload = vec![0u8; 43];
    write_trade_fields(&mut payload, &t);
    assert_eq!(&payload[4..10], &t.timestamp.to_be_bytes()[2..]);
    assert_eq!(&payload[19..23], &250u32.to_be_bytes());
    assert_eq!(&payload[31..35], &27_500_000u32.to_be_bytes());
    assert_eq!(parse_trade(&payload), t);
}

#[test]
fn next_record_steps() {
    let mut data = other_msg(b'S');
    data.extend(trade_msg(0, 1, b"A       ", 1));
    assert_eq!(next_record(&data, 0), Ok(Some(Record { tag: b'S', start: 1, len: 11 })));
    assert_eq!(next_record(&data, 12), Ok(Some(Record { tag: b'P', start: 13, len: 43 })));
    assert_eq!(next_record(&data, data.len()), Ok(None));
    assert_eq!(next_record(&data[..20], 12), Err(Truncated { at: 12 }));
}

#[test]
fn trim_ticker_strips_trailing_padding() {
    assert_eq!(trim_ticker(b"AAPL    "), b"AAPL".to_vec());
    assert_eq!(trim_ticker(b" A B\t \r "), b" A B".to_vec());
    assert_eq!(trim_ticker(b"ABCDEFGH"), b"ABCDEFGH".to_vec());
    assert_eq!(trim_ticker(b"        "), Vec::<u8>::new());
}

#[test]
fn one_trade_one_row() {
    let data = trade_msg(3_600_000_000_000, 100, b"AAPL    ", 1_500_000);
    let rows = vwap_rows(&data).unwrap();
    assert_eq!(rows.len(), 1);
    assert_eq!(rows[0].hour, 1);
    assert_eq!(rows[0].stock, b"AAPL".to_vec());
    assert_eq!(rows[0].ticker, *b"AAPL    ");
    assert_eq!(rows[0].cum_price_qty, 150_000_000);
    assert_eq!(rows[0].cum_qty, 100);
    assert_eq!(vwap_of(&rows[0]), 150.0);
}

#[test]
fn two_trades_weighted() {
    let mut data = trade_msg(5 * NS_PER_HOUR, 100, b"IBM     ", 1_000_000);
    data.extend(trade_msg(5 * NS_PER_HOUR + 1, 300, b"IBM     ", 2_000_000));
    let rows = vwap_rows(&data).unwrap();
    assert_eq!(rows.len(), 1);
    assert_eq!(rows[0].cum_price_qty, 100 * 1_000_000 + 300 * 2_000_000);
    assert_eq!(rows[0].cum_qty, 400);
    assert_eq!(vwap_of(&rows[0]), 175.0);
}

#[test]
fn non_trade_stream_gives_no_rows() {
    let mut data = Vec::new();
    for tag in [b'S', b'R', b'H', b'A', b'F', b'E', b'C', b'X', b'D', b'U', b'Q', b'I', b'N'] {
        data.extend(other_msg(tag));
    }
    assert_eq!(vwap_rows(&data), Ok(Vec::new()));
    assert_eq!(vwap_rows(&[]), Ok(Vec::new()));
}

#[test]
fn truncated_input_fails() {
    let mut data = other_msg(b'S');
    data.extend(trade_msg(0, 1, b"A       ", 1));
    data.truncate(data.len() - 1);
    assert_eq!(vwap_rows(&data), Err(VwapError::Truncated { at: 12 }));
    assert_eq!(vwap_rows(&[b'P']), Err(VwapError::Truncated { at: 0 }));
}

#[test]
fn unknown_tag_skips_one_byte() {
    let mut data = vec![b'Z'];
    data.extend(trade_msg(0, 7, b"X       ", 3));
    let rows = vwap_rows(&data).unwrap();
    assert_eq!(rows.len(), 1);
    assert_eq!(rows[0].cum_qty, 7);
}

#[test]
fn order_of_trades_does_not_matter() {
    let a = trade_msg(2 * NS_PER_HOUR, 10, b"AMD     ", 800_000);
    let b = trade_msg(2 * NS_PER_HOUR + 5, 20, b"AMD     ", 900_000);
    let c = trade_msg(2 * NS_PER_HOUR + 9, 30, b"AMD     ", 700_000);
    let forward: Vec<u8> = [a.clone(), b.clone(), c.clone()].concat();
    let backward: Vec<u8> = [c, a, b].concat();
    let r1 = vwap_rows(&forward).unwrap();
    let r2 = vwap_rows(&backward).unwrap();
    assert_eq!(r1, r2);
    assert_eq!(r1[0].cum_price_qty, 10 * 800_000 + 20 * 900_000 + 30 * 700_000);
}

#[test]
fn rows_sorted_by_hour_then_ticker() {
    let mut data = Vec::new();
    data.extend(trade_msg(3 * NS_PER_HOUR, 1, b"ZZ      ", 1));
    data.extend(trade_msg(1 * NS_PER_HOUR, 1, b"MSFT    ", 1));
    data.extend(trade_msg(3 * NS_PER_HOUR, 1, b"AB      ", 1));
    data.extend(trade_msg(1 * NS_PER_HOUR, 1, b"AAPL    ", 1));
    data.extend(trade_msg(3 * NS_PER_HOUR, 1, b"ABC     ", 1));
    data.extend(trade_msg(1 * NS_PER_HOUR, 2, b"MSFT    ", 1));
    let rows = vwap_rows(&data).unwrap();
    let keys: Vec<(u8, Vec<u8>)> = rows.iter().map(|r| (r.hour, r.stock.clone())).collect();
    assert_eq!(
        keys,
        vec![
            (1, b"AAPL".to_vec()),
            (1, b"MSFT".to_vec()),
            (3, b"AB".to_vec()),
            (3, b"ABC".to_vec()),
            (3, b"ZZ".to_vec()),
        ]
    );
    assert_eq!(rows[1].cum_qty, 3);
}

#[test]
fn feed_in_chunks_matches_whole() {
    let mut data = Vec::new();
    data.extend(other_msg(b'A'));
    data.extend(trade_msg(4 * NS_PER_HOUR, 5, b"NVDA    ", 1_234_500));
    data.extend(other_msg(b'E'));
    data.extend(trade_msg(9 * NS_PER_HOUR, 6, b"NVDA    ", 1_111_100));
    let whole = vwap_rows(&data).unwrap();

    let mut table = VwapTable::new();
    let mut carry: Vec<u8> = Vec::new();
    for chunk in data.chunks(7) {
        carry.extend_from_slice(chunk);
        let n = table.feed(&carry).unwrap();
        carry.drain(..n);
    }
    assert!(carry.is_empty());
    assert_eq!(table.finish(), whole);
    assert_eq!(whole.len(), 2);
}

#[test]
fn feed_leaves_partial_record() {
    let data = trade_msg(0, 1, b"A       ", 1);
    let mut table = VwapTable::new();
    assert_eq!(table.feed(&data[..30]), Ok(0));
    assert_eq!(table.finish(), Vec::new());
}
