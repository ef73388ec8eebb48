use pnl_core::decimal::Decimal;
use pnl_core::fields::FieldVal;
use pnl_core::fills::RawFill;
use pnl_core::orders::{
    classify, process_orders, ConfigContainer, ConfigMap, OrderConfigType, RawOrder,
};
use pnl_core::timestamp::{parse_datetime_text, Timestamp};

fn dec(m: i128, s: u32) -> Decimal {
    Decimal::new(m, s).unwrap()
}

fn ts(us: i64) -> Timestamp {
    Timestamp::from_micros(us).unwrap()
}

fn text(s: &str) -> FieldVal {
    FieldVal::Text(s.to_string())
}

fn empty_config() -> ConfigMap {
    ConfigMap {
        base_size: FieldVal::Absent,
        base_order_size: FieldVal::Absent,
        limit_price: FieldVal::Absent,
        stop_price: FieldVal::Absent,
        stop_trigger_price: FieldVal::Absent,
        end_time: FieldVal::Absent,
        post_only: FieldVal::Absent,
    }
}

fn container(key: &str, cfg: ConfigMap) -> ConfigContainer {
    ConfigContainer { entries: vec![(key.to_string(), Some(cfg))] }
}

fn base_order(id: &str, key: &str, cfg: ConfigMap) -> RawOrder {
    RawOrder {
        order_id: Some(id.to_string()),
        status: None,
        legacy_status: None,
        client_order_id: None,
        side: None,
        completed_time: None,
        expire_time: None,
        submitted_time: None,
        created_time: None,
        order_placed_time: None,
        last_fill_time: None,
        average_filled_price: None,
        product_id: None,
        order_configuration: Some(container(key, cfg)),
    }
}

fn fill(id: &str, size: &str, price: &str, time: Option<&str>) -> RawFill {
    RawFill {
        order_id: Some(id.to_string()),
        trade_time: time.map(|t| t.to_string()),
        size: text(size),
        base_size: FieldVal::Absent,
        price: text(price),
        unit_price: FieldVal::Absent,
        average_price: FieldVal::Absent,
    }
}

#[test]
fn classifier_priority_and_unknown() {
    let o = base_order("a", "limit_limit_gtc", empty_config());
    assert_eq!(classify(&o).0, OrderConfigType::Limit);
    let o2 = base_order("a", "stop_limit_stop_limit_gtd", empty_config());
    assert_eq!(classify(&o2).0, OrderConfigType::StopLimit);
    let o3 = base_order("a", "trigger_bracket_gtd", empty_config());
    assert_eq!(classify(&o3).0, OrderConfigType::TriggerBracket);
    let o4 = base_order("a", "market_market_ioc", empty_config());
    assert_eq!(classify(&o4).0, OrderConfigType::Market);
    let o5 = base_order("a", "something_else", empty_config());
    assert_eq!(classify(&o5).0, OrderConfigType::Unknown);
}

#[test]
fn unclassifiable_order_dropped_from_both_outputs() {
    let mut o = base_order("a", "mystery_shape", empty_config());
    o.status = Some("OPEN".to_string());
    let (open, executed) = process_orders(&vec![o], &vec![], "DEFAULT", ts(0)).unwrap();
    assert!(open.is_empty());
    assert!(executed.is_empty());
}

#[test]
fn missing_id_dropped() {
    let mut o = base_order("", "limit_limit_gtc", empty_config());
    o.order_id = Some(String::new());
    let (open, executed) = process_orders(&vec![o], &vec![], "DEFAULT", ts(0)).unwrap();
    assert!(open.is_empty());
    assert!(executed.is_empty());
}

#[test]
fn open_order_lands_in_both_outputs() {
    let mut cfg = empty_config();
    cfg.limit_price = text("101.5");
    cfg.base_size = text("2");
    let mut o = base_order("o1", "limit_limit_gtc", cfg);
    o.status = Some("open".to_string());
    let (open, executed) = process_orders(&vec![o], &vec![], "DEFAULT", ts(7)).unwrap();
    assert_eq!(open.len(), 1);
    assert_eq!(executed.len(), 1);
    assert_eq!(open[0].order_id, "o1");
    assert_eq!(open[0].status, "OPEN");
    assert_eq!(open[0].limit_price, dec(1015, 1));
    assert_eq!(open[0].base_size, dec(2, 0));
    assert_eq!(executed[0].order_id, "o1");
    assert_eq!(executed[0].status, "OPEN");
}

#[test]
fn closed_order_only_executed() {
    let mut o = base_order("o2", "limit_limit_gtc", empty_config());
    o.status = Some("FILLED".to_string());
    let (open, executed) = process_orders(&vec![o], &vec![], "DEFAULT", ts(0)).unwrap();
    assert!(open.is_empty());
    assert_eq!(executed.len(), 1);
    assert_eq!(executed[0].status, "FILLED");
}

#[test]
fn status_defaults_to_new() {
    let o = base_order("o3", "limit_limit_gtc", empty_config());
    let (open, executed) = process_orders(&vec![o], &vec![], "DEFAULT", ts(0)).unwrap();
    assert!(open.is_empty());
    assert_eq!(executed[0].status, "NEW");
    assert_eq!(executed[0].side, "BUY");
    assert_eq!(executed[0].product_id, "DEFAULT");
}

#[test]
fn side_and_product_pass_through() {
    let mut o = base_order("o4", "limit_limit_gtc", empty_config());
    o.side = Some("sell".to_string());
    o.product_id = Some("BTC-USD".to_string());
    o.client_order_id = Some("c-9".to_string());
    let (_, executed) = process_orders(&vec![o], &vec![], "DEFAULT", ts(0)).unwrap();
    assert_eq!(executed[0].side, "SELL");
    assert_eq!(executed[0].product_id, "BTC-USD");
    assert_eq!(executed[0].client_order_id, "c-9");
}

#[test]
fn submitted_time_falls_back_to_earliest_fill() {
    let o = base_order("o5", "limit_limit_gtc", empty_config());
    let fills = vec![
        fill("o5", "1", "10", Some("2021-01-01T00:00:10Z")),
        fill("o5", "1", "10", Some("2021-01-01T00:00:05Z")),
    ];
    let (_, executed) = process_orders(&vec![o], &fills, "DEFAULT", ts(999)).unwrap();
    let five_past = parse_datetime_text("2021-01-01T00:00:05Z").unwrap();
    assert_eq!(executed[0].ts_submitted, five_past);
    assert!(!executed[0].ts_submitted_inferred);
}

#[test]
fn submitted_time_inferred_when_nothing_available() {
    let o = base_order("o6", "limit_limit_gtc", empty_config());
    let now = ts(123_456_789);
    let (_, executed) = process_orders(&vec![o], &vec![], "DEFAULT", now).unwrap();
    assert_eq!(executed[0].ts_submitted, now);
    assert!(executed[0].ts_submitted_inferred);
}

#[test]
fn submitted_time_prefers_order_fields() {
    let mut o = base_order("o7", "limit_limit_gtc", empty_config());
    o.submitted_time = Some("2021-06-01T12:00:00Z".to_string());
    let fills = vec![fill("o7", "1", "10", Some("2021-01-01T00:00:05Z"))];
    let (_, executed) = process_orders(&vec![o], &fills, "DEFAULT", ts(0)).unwrap();
    assert_eq!(
        executed[0].ts_submitted,
        parse_datetime_text("2021-06-01T12:00:00Z").unwrap()
    );
    assert!(!executed[0].ts_submitted_inferred);
}

#[test]
fn market_order_uses_weighted_average_fill_price() {
    let o = base_order("m1", "market_market_ioc", empty_config());
    let fills = vec![
        fill("m1", "1", "10", None),
        fill("m1", "3", "20", None),
    ];
    let (_, executed) = process_orders(&vec![o], &fills, "DEFAULT", ts(0)).unwrap();
    // (1 x 10 + 3 x 20) / 4 = 17.5
    assert_eq!(executed[0].limit_price, dec(175, 1));
    assert_eq!(executed[0].filled_size, Some(dec(4, 0)));
}

#[test]
fn market_order_falls_back_to_reported_average() {
    let mut o = base_order("m2", "market_market_gtc", empty_config());
    o.average_filled_price = Some(" 42.5 ".to_string());
    let (_, executed) = process_orders(&vec![o], &vec![], "DEFAULT", ts(0)).unwrap();
    assert_eq!(executed[0].limit_price, dec(425, 1));
    assert_eq!(executed[0].filled_size, None);
}

#[test]
fn fill_aliases_resolve() {
    let o = base_order("f1", "limit_limit_gtc", empty_config());
    let f = RawFill {
        order_id: Some("f1".to_string()),
        trade_time: None,
        size: FieldVal::Absent,
        base_size: text("2.5"),
        price: FieldVal::Absent,
        unit_price: text("4"),
        average_price: FieldVal::Absent,
    };
    let (_, executed) = process_orders(&vec![o], &vec![f], "DEFAULT", ts(0)).unwrap();
    assert_eq!(executed[0].filled_size, Some(dec(25, 1)));
}

#[test]
fn invalid_fills_are_dropped() {
    let o = base_order("f2", "limit_limit_gtc", empty_config());
    let fills = vec![
        fill("f2", "-1", "10", None),
        fill("f2", "junk", "10", None),
        fill("", "1", "10", None),
        fill("f2", "2", "0", None),
    ];
    let (_, executed) = process_orders(&vec![o], &fills, "DEFAULT", ts(0)).unwrap();
    assert_eq!(executed[0].filled_size, None);
}

#[test]
fn zero_base_size_falls_back_to_filled() {
    let mut cfg = empty_config();
    cfg.base_size = text("0");
    let o = base_order("b1", "limit_limit_gtc", cfg);
    let fills = vec![fill("b1", "3", "10", None)];
    let (_, executed) = process_orders(&vec![o], &fills, "DEFAULT", ts(0)).unwrap();
    assert_eq!(executed[0].base_size, dec(3, 0));
}

#[test]
fn stop_limit_and_bracket_prices() {
    let mut cfg = empty_config();
    cfg.limit_price = text("50");
    cfg.stop_price = text("45");
    let o = base_order("s1", "stop_limit_stop_limit_gtc", cfg);
    let (_, executed) = process_orders(&vec![o], &vec![], "DEFAULT", ts(0)).unwrap();
    assert_eq!(executed[0].limit_price, dec(50, 0));
    assert_eq!(executed[0].stop_price, Some(dec(45, 0)));

    let mut cfg2 = empty_config();
    cfg2.limit_price = text("50");
    cfg2.stop_trigger_price = text("47");
    cfg2.stop_price = text("45");
    let o2 = base_order("s2", "trigger_bracket_gtc", cfg2);
    let (_, executed2) = process_orders(&vec![o2], &vec![], "DEFAULT", ts(0)).unwrap();
    assert_eq!(executed2[0].stop_price, Some(dec(47, 0)));
}

#[test]
fn post_only_parsed_loosely() {
    let mut cfg = empty_config();
    cfg.post_only = text(" TRUE ");
    let o = base_order("p1", "limit_limit_gtc", cfg);
    let (_, executed) = process_orders(&vec![o], &vec![], "DEFAULT", ts(0)).unwrap();
    assert!(executed[0].post_only);
    let mut cfg2 = empty_config();
    cfg2.post_only = FieldVal::Flag(true);
    let o2 = base_order("p2", "market_market_ioc", cfg2);
    let (_, executed2) = process_orders(&vec![o2], &vec![], "DEFAULT", ts(0)).unwrap();
    // only limit orders carry the flag
    assert!(!executed2[0].post_only);
}

#[test]
fn completed_time_from_latest_fill() {
    let mut o = base_order("c1", "limit_limit_gtc", empty_config());
    o.status = Some("FILLED".to_string());
    let fills = vec![
        fill("c1", "1", "10", Some("2021-01-01T00:00:05Z")),
        fill("c1", "1", "10", Some("2021-01-01T00:00:03Z")),
    ];
    let (_, executed) = process_orders(&vec![o], &fills, "DEFAULT", ts(0)).unwrap();
    // the latest fill time, whatever the input order
    assert_eq!(
        executed[0].ts_filled,
        Some(parse_datetime_text("2021-01-01T00:00:05Z").unwrap())
    );
}

#[test]
fn end_time_chain_for_limit_orders() {
    let mut cfg = empty_config();
    cfg.end_time = text("2022-03-04T05:06:07Z");
    let o = base_order("e1", "limit_limit_gtc", cfg);
    let (_, executed) = process_orders(&vec![o], &vec![], "DEFAULT", ts(0)).unwrap();
    assert_eq!(
        executed[0].end_time,
        Some(parse_datetime_text("2022-03-04T05:06:07Z").unwrap())
    );
    let mut o2 = base_order("e2", "limit_limit_gtc", empty_config());
    o2.expire_time = Some("2022-05-06 07:08:09".to_string());
    let (_, executed2) = process_orders(&vec![o2], &vec![], "DEFAULT", ts(0)).unwrap();
    assert_eq!(
        executed2[0].end_time,
        Some(parse_datetime_text("2022-05-06 07:08:09").unwrap())
    );
}

#[test]
fn datetime_parsing_shapes() {
    assert_eq!(
        parse_datetime_text("2021-01-01T00:00:00Z").unwrap(),
        ts(1_609_459_200_000_000)
    );
    assert_eq!(
        parse_datetime_text("2021-01-01T00:00:00.5").unwrap(),
        ts(1_609_459_200_500_000)
    );
    assert_eq!(
        parse_datetime_text(" 2021-01-01 00:00:00 ").unwrap(),
        ts(1_609_459_200_000_000)
    );
    assert_eq!(
        parse_datetime_text("2021-01-01T01:00:00+01:00").unwrap(),
        ts(1_609_459_200_000_000)
    );
    assert!(parse_datetime_text("").is_none());
    assert!(parse_datetime_text("   ").is_none());
    assert!(parse_datetime_text("yesterday").is_none());
}

#[test]
fn timestamp_formatting() {
    let t = ts(1_609_459_200_123_456);
    assert_eq!(t.to_rfc3339_millis(), "2021-01-01T00:00:00.123Z");
    assert_eq!(ts(0).to_rfc3339_millis(), "1970-01-01T00:00:00.000Z");
}
