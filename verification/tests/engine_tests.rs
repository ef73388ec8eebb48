use pnl_core::decimal::Decimal;
use pnl_core::errors::CoreError;
use pnl_core::intervals::{interval_start, summarise_interval, summarise_trades, IntervalSpec};
use pnl_core::matching::{build_entries, Entry};
use pnl_core::timestamp::Timestamp;
use pnl_core::trades::{normalize_trades, Side, Trade, TradeInput};

fn dec(m: i128, s: u32) -> Decimal {
    Decimal::new(m, s).unwrap()
}

fn ts(us: i64) -> Timestamp {
    Timestamp::from_micros(us).unwrap()
}

fn trade_input(us: i64, side: &str, price: &str, size: &str, post_only: bool) -> TradeInput {
    TradeInput {
        timestamp_us: us,
        side: side.to_string(),
        price: price.to_string(),
        size: size.to_string(),
        post_only,
    }
}

fn trade(us: i64, side: Side, price: Decimal, size: Decimal, post_only: bool) -> Trade {
    Trade { timestamp: ts(us), side, price, size, post_only }
}

fn window(key: &str, delta: Option<i64>) -> IntervalSpec {
    IntervalSpec { key: key.to_string(), label: key.to_string(), delta_seconds: delta }
}

#[test]
fn fifo_three_buys_one_sell() {
    // buys of size 1 at 10, 20, 30, then a sell of size 2 at 100:
    // realizes (100-10) + (100-20) = 170 and leaves one lot of 30
    let trades = vec![
        trade(1, Side::Buy, dec(10, 0), dec(1, 0), false),
        trade(2, Side::Buy, dec(20, 0), dec(1, 0), false),
        trade(3, Side::Buy, dec(30, 0), dec(1, 0), false),
        trade(4, Side::Sell, dec(100, 0), dec(2, 0), false),
    ];
    let entries = build_entries(&trades, dec(0, 0), dec(0, 0)).unwrap();
    assert_eq!(entries.len(), 4);
    assert_eq!(entries[0].realized_profit, dec(0, 0));
    assert_eq!(entries[1].realized_profit, dec(0, 0));
    assert_eq!(entries[2].realized_profit, dec(0, 0));
    assert_eq!(entries[3].realized_profit, dec(170, 0));
    // the surviving lot is size 1 at price 30: a further sell of size 1
    // at 50 realizes exactly 50 - 30 = 20 against it
    let mut extended = trades;
    extended.push(trade(5, Side::Sell, dec(50, 0), dec(1, 0), false));
    let entries2 = build_entries(&extended, dec(0, 0), dec(0, 0)).unwrap();
    assert_eq!(entries2[4].realized_profit, dec(20, 0));
}

#[test]
fn round_trip_realizes_price_difference() {
    // buy 2 at 10, sell 2 at 15: profit 2 x (15 - 10) = 10
    let trades = vec![
        trade(1, Side::Buy, dec(10, 0), dec(2, 0), false),
        trade(2, Side::Sell, dec(15, 0), dec(2, 0), false),
    ];
    let entries = build_entries(&trades, dec(0, 0), dec(0, 0)).unwrap();
    assert_eq!(entries[1].realized_profit, dec(10, 0));
}

#[test]
fn short_then_cover() {
    // sell first, buy back cheaper: profit on the buy side
    let trades = vec![
        trade(1, Side::Sell, dec(20, 0), dec(3, 0), false),
        trade(2, Side::Buy, dec(12, 0), dec(3, 0), false),
    ];
    let entries = build_entries(&trades, dec(0, 0), dec(0, 0)).unwrap();
    assert_eq!(entries[1].realized_profit, dec(24, 0));
}

#[test]
fn maker_taker_split() {
    // post-only books maker volume and the maker fee rate
    let trades = vec![trade(1, Side::Buy, dec(10, 0), dec(2, 0), true)];
    let entries = build_entries(&trades, dec(1, 2), dec(5, 2)).unwrap();
    assert_eq!(entries[0].maker_volume, dec(20, 0));
    assert_eq!(entries[0].taker_volume, dec(0, 0));
    assert_eq!(entries[0].fee, dec(2, 1));
    // the same trade not post-only books taker volume and the taker rate
    let trades2 = vec![trade(1, Side::Buy, dec(10, 0), dec(2, 0), false)];
    let entries2 = build_entries(&trades2, dec(1, 2), dec(5, 2)).unwrap();
    assert_eq!(entries2[0].maker_volume, dec(0, 0));
    assert_eq!(entries2[0].taker_volume, dec(20, 0));
    assert_eq!(entries2[0].fee, dec(1, 0));
}

#[test]
fn normalizer_filters_and_sorts() {
    let raw = vec![
        trade_input(5, "sell", "15", "2", false),
        trade_input(1, "BUY", "10", "2", false),
        trade_input(2, "BUY", "-1", "2", false),
        trade_input(3, "BUY", "10", "0", false),
        trade_input(-10, "BUY", "10", "1", false),
    ];
    let out = normalize_trades(&raw, ts(0)).unwrap();
    assert_eq!(out.len(), 2);
    assert_eq!(out[0].timestamp.micros, 1);
    assert_eq!(out[0].side, Side::Buy);
    assert_eq!(out[1].timestamp.micros, 5);
    assert_eq!(out[1].side, Side::Sell);
}

#[test]
fn normalizer_structural_errors() {
    let bad_side = vec![trade_input(1, "HOLD", "10", "1", false)];
    assert_eq!(normalize_trades(&bad_side, ts(0)).unwrap_err(), CoreError::UnknownSide);
    let bad_price = vec![trade_input(1, "BUY", "ten", "1", false)];
    assert_eq!(normalize_trades(&bad_price, ts(0)).unwrap_err(), CoreError::InvalidDecimal);
    let bad_ts = vec![trade_input(i64::MAX, "BUY", "10", "1", false)];
    assert_eq!(normalize_trades(&bad_ts, ts(0)).unwrap_err(), CoreError::TimestampOutOfRange);
}

#[test]
fn side_is_structural_even_for_discarded_trades() {
    // a pre-cutoff trade with an unknown side still aborts the call
    let pre_cutoff = vec![trade_input(-5, "HOLD", "10", "1", false)];
    assert_eq!(normalize_trades(&pre_cutoff, ts(0)).unwrap_err(), CoreError::UnknownSide);
    // the side is checked before the timestamp conversion
    let both_bad = vec![trade_input(i64::MAX, "HOLD", "10", "1", false)];
    assert_eq!(normalize_trades(&both_bad, ts(0)).unwrap_err(), CoreError::UnknownSide);
    // a non-positive size is discarded before the side is looked at
    let skipped_first = vec![trade_input(1, "HOLD", "10", "0", false)];
    assert!(normalize_trades(&skipped_first, ts(0)).unwrap().is_empty());
}

#[test]
fn stable_sort_keeps_tied_order() {
    let raw = vec![
        trade_input(1, "BUY", "10", "1", false),
        trade_input(1, "SELL", "11", "1", false),
    ];
    let out = normalize_trades(&raw, ts(0)).unwrap();
    assert_eq!(out[0].side, Side::Buy);
    assert_eq!(out[1].side, Side::Sell);
}

#[test]
fn wide_window_clamps_to_cutoff() {
    // a window longer than now - cutoff starts exactly at the cutoff
    let now = ts(10_000_000);
    let cutoff = ts(4_000_000);
    let wide = interval_start(now, Some(1_000_000), cutoff);
    let all = interval_start(now, None, cutoff);
    assert_eq!(wide, all);
    assert_eq!(all.micros, 4_000_000);
    // a negative length behaves as zero
    assert_eq!(interval_start(now, Some(-5), cutoff).micros, 10_000_000);
    // a short window starts inside the span
    assert_eq!(interval_start(now, Some(2), cutoff).micros, 8_000_000);
}

fn entry(us: i64, profit: Decimal, fee: Decimal) -> Entry {
    Entry {
        timestamp: ts(us),
        realized_profit: profit,
        maker_volume: dec(0, 0),
        taker_volume: dec(0, 0),
        fee,
    }
}

#[test]
fn interval_sums_only_entries_at_or_after_start() {
    let entries = vec![
        entry(1, dec(5, 0), dec(1, 0)),
        entry(2, dec(7, 0), dec(2, 0)),
        entry(3, dec(11, 0), dec(4, 0)),
    ];
    let m = summarise_interval(&entries, ts(2)).unwrap();
    assert_eq!(m.profit_before_fees, dec(18, 0));
    assert_eq!(m.fee_total, dec(6, 0));
    assert_eq!(m.profit_after_fees, dec(12, 0));
    let all = summarise_interval(&entries, ts(0)).unwrap();
    assert_eq!(all.profit_before_fees, dec(23, 0));
}

#[test]
fn summary_call_end_to_end() {
    let raw = vec![
        trade_input(1_000_000, "BUY", "10", "1", false),
        trade_input(2_000_000, "BUY", "20", "1", false),
        trade_input(3_000_000, "BUY", "30", "1", false),
        trade_input(4_000_000, "SELL", "100", "2", false),
    ];
    let windows = vec![window("all", None), window("recent", Some(2))];
    let s = summarise_trades(&raw, &windows, 5_000_000, 0, "0", "0").unwrap();
    assert_eq!(s.intervals.len(), 2);
    assert_eq!(s.intervals[0].key, "all");
    assert_eq!(s.intervals[0].metrics.profit_before_fees, dec(170, 0));
    assert_eq!(s.intervals[0].metrics.taker_volume, dec(260, 0));
    // the short window starts at 3s and only sees the last two trades
    assert_eq!(s.intervals[1].metrics.profit_before_fees, dec(170, 0));
    assert_eq!(s.intervals[1].metrics.taker_volume, dec(230, 0));
    // grand totals come from the "all" window
    assert_eq!(s.total_profit_before_fees, dec(170, 0));
    assert_eq!(s.total_profit_after_fees, dec(170, 0));
}

#[test]
fn summary_call_fee_accounting() {
    let raw = vec![trade_input(1_000_000, "BUY", "10", "2", true)];
    let windows = vec![window("all", None)];
    let s = summarise_trades(&raw, &windows, 5_000_000, 0, "0.01", "0.05").unwrap();
    assert_eq!(s.intervals[0].metrics.maker_volume, dec(20, 0));
    assert_eq!(s.intervals[0].metrics.fee_total, dec(2, 1));
    assert_eq!(s.total_profit_after_fees, dec(-2, 1));
}

#[test]
fn summary_of_empty_batch_is_zero() {
    let windows = vec![window("all", None), window("hour", Some(3600))];
    let s = summarise_trades(&vec![], &windows, 1_000_000, 0, "0.01", "0.02").unwrap();
    assert_eq!(s.intervals.len(), 2);
    assert_eq!(s.intervals[0].metrics.profit_before_fees, dec(0, 0));
    assert_eq!(s.total_profit_before_fees, dec(0, 0));
    assert_eq!(s.total_profit_after_fees, dec(0, 0));
    // without an "all" window the grand totals stay zero
    let s2 = summarise_trades(&vec![], &vec![window("day", Some(1))], 1_000_000, 0, "0", "0")
        .unwrap();
    assert_eq!(s2.total_profit_before_fees, dec(0, 0));
}

#[test]
fn summary_call_rejects_bad_parameters() {
    let windows = vec![window("all", None)];
    match summarise_trades(&vec![], &windows, 0, 0, "x", "0") {
        Err(e) => assert_eq!(e, CoreError::InvalidDecimal),
        Ok(_) => panic!("a bad fee rate must be rejected"),
    }
    match summarise_trades(&vec![], &windows, i64::MAX, 0, "0", "0") {
        Err(e) => assert_eq!(e, CoreError::TimestampOutOfRange),
        Ok(_) => panic!("an out-of-range instant must be rejected"),
    }
}
