//! The order reconciler: classifying each raw order's configuration,
//! resolving its fields through the documented fallback chains, and
//! emitting canonical executed and open records.

use vstd::prelude::*;
use vstd::string::StrSliceExecFns;
use vstd::string::StringExecFns;
use crate::decimal::Decimal;
use crate::decimal_text::{spec_parse, parse_decimal};
use crate::errors::CoreError;
use crate::fields::{
    FieldVal, spec_dec_of_field, dec_of_field, spec_bool_of_field, bool_of_field,
    spec_time_of_field, time_of_field,
};
use crate::fills::{
    FillData, RawFill, spec_group_fills, spec_find_key, collect_fills, groups_wf,
    spec_sum_sizes, sum_sizes, spec_avg_price, average_fill_price, spec_min_time,
    min_fill_time, spec_max_time, max_fill_time,
};
use crate::text::{
    upper_val, eq_ignore_case, str_eq, str_eq_ignore_case, ascii_uppercase,
};
use crate::timestamp::{Timestamp, trimmed, trim_str, spec_parse_datetime, parse_datetime_text};
use crate::trades::{Side, side_of_text, parse_side};

verus! {

/// The named fields of one configuration variant.
#[derive(Clone, Debug)]
pub struct ConfigMap {
    pub base_size: FieldVal,
    pub base_order_size: FieldVal,
    pub limit_price: FieldVal,
    pub stop_price: FieldVal,
    pub stop_trigger_price: FieldVal,
    pub end_time: FieldVal,
    pub post_only: FieldVal,
}

/// A raw order configuration: the variant keys in input order, each with
/// its field map where the key held one.
pub struct ConfigContainer {
    pub entries: Vec<(String, Option<ConfigMap>)>,
}

/// The known configuration shapes.
#[derive(Clone, Copy, Debug, PartialEq, Eq, Structural)]
pub enum OrderConfigType {
    Limit,
    StopLimit,
    TriggerBracket,
    Market,
    Unknown,
}

/// A raw order as the boundary hands it over.
pub struct RawOrder {
    pub order_id: Option<String>,
    pub status: Option<String>,
    pub legacy_status: Option<String>,
    pub client_order_id: Option<String>,
    pub side: Option<String>,
    pub completed_time: Option<String>,
    pub expire_time: Option<String>,
    pub submitted_time: Option<String>,
    pub created_time: Option<String>,
    pub order_placed_time: Option<String>,
    pub last_fill_time: Option<String>,
    pub average_filled_price: Option<String>,
    pub product_id: Option<String>,
    pub order_configuration: Option<ConfigContainer>,
}

/// A canonical record of an order still open.
pub struct ProcessedOpenRecord {
    pub order_id: String,
    pub side: String,
    pub limit_price: Decimal,
    pub base_size: Decimal,
    pub status: String,
    pub client_order_id: String,
    pub end_time: Option<Timestamp>,
    pub product_id: String,
    pub stop_price: Option<Decimal>,
}

/// A canonical record of an order's lifecycle.
pub struct ProcessedExecutedRecord {
    pub order_id: String,
    pub ts_submitted: Timestamp,
    pub ts_submitted_inferred: bool,
    pub ts_filled: Option<Timestamp>,
    pub side: String,
    pub limit_price: Decimal,
    pub base_size: Decimal,
    pub status: String,
    pub filled_size: Option<Decimal>,
    pub client_order_id: String,
    pub end_time: Option<Timestamp>,
    pub product_id: String,
    pub stop_price: Option<Decimal>,
    pub post_only: bool,
}

/// The first slot of the container holding this key, where an entry
/// whose key matched but held no field map counts as absent.
pub open spec fn spec_slot(c: Seq<(String, Option<ConfigMap>)>, key: Seq<char>) -> Option<ConfigMap>
    decreases c.len(),
{
    if c.len() == 0 {
        None
    } else if c[0].0@ == key {
        c[0].1
    } else {
        spec_slot(c.drop_first(), key)
    }
}

/// The configuration's shape and field map: the first of the known
/// variant keys, in fixed priority order, that holds a field map;
/// `Unknown` when the configuration is missing or matches none.
pub open spec fn spec_classify(o: RawOrder) -> (OrderConfigType, Option<ConfigMap>) {
    match o.order_configuration {
        None => (OrderConfigType::Unknown, None),
        Some(cc) => {
            let c = cc.entries@;
            if spec_slot(c, "limit_limit_gtd"@) is Some {
                (OrderConfigType::Limit, spec_slot(c, "limit_limit_gtd"@))
            } else if spec_slot(c, "limit_limit_gtc"@) is Some {
                (OrderConfigType::Limit, spec_slot(c, "limit_limit_gtc"@))
            } else if spec_slot(c, "stop_limit_stop_limit_gtd"@) is Some {
                (OrderConfigType::StopLimit, spec_slot(c, "stop_limit_stop_limit_gtd"@))
            } else if spec_slot(c, "stop_limit_stop_limit_gtc"@) is Some {
                (OrderConfigType::StopLimit, spec_slot(c, "stop_limit_stop_limit_gtc"@))
            } else if spec_slot(c, "trigger_bracket_gtd"@) is Some {
                (OrderConfigType::TriggerBracket, spec_slot(c, "trigger_bracket_gtd"@))
            } else if spec_slot(c, "trigger_bracket_gtc"@) is Some {
                (OrderConfigType::TriggerBracket, spec_slot(c, "trigger_bracket_gtc"@))
            } else if spec_slot(c, "market_market_ioc"@) is Some {
                (OrderConfigType::Market, spec_slot(c, "market_market_ioc"@))
            } else if spec_slot(c, "market_market_gtc"@) is Some {
                (OrderConfigType::Market, spec_slot(c, "market_market_gtc"@))
            } else {
                (OrderConfigType::Unknown, None)
            }
        },
    }
}

/// Find a variant key's field map in the container.
fn slot<'a>(c: &'a Vec<(String, Option<ConfigMap>)>, key: &str) -> (r: Option<&'a ConfigMap>)
    ensures
        match r {
            Some(m) => spec_slot(c@, key@) == Some(*m),
            None => spec_slot(c@, key@) is None,
        },
{
    let mut i: usize = 0;
    proof {
        assert(c@.skip(0) =~= c@);
    }
    while i < c.len()
        invariant
            0 <= i <= c@.len(),
            spec_slot(c@, key@) == spec_slot(c@.skip(i as int), key@),
        decreases c@.len() - i,
    {
        proof {
            assert(c@.skip(i as int)[0] == c@[i as int]);
            assert(c@.skip(i as int).drop_first() =~= c@.skip(i as int + 1));
        }
        if str_eq(c[i].0.as_str(), key) {
            return match &c[i].1 {
                Some(m) => Some(m),
                None => None,
            };
        }
        i = i + 1;
    }
    proof {
        assert(c@.skip(c@.len() as int).len() == 0);
    }
    None
}

/// Classify an order's configuration.
pub fn classify<'a>(o: &'a RawOrder) -> (r: (OrderConfigType, Option<&'a ConfigMap>))
    ensures
        r.0 == spec_classify(*o).0,
        match r.1 {
            Some(m) => spec_classify(*o).1 == Some(*m),
            None => spec_classify(*o).1 is None,
        },
        r.1 is Some <==> spec_classify(*o).1 is Some,
        (r.0 == OrderConfigType::Unknown) <==> r.1 is None,
{
    let cc = match &o.order_configuration {
        Some(cc) => cc,
        None => {
            return (OrderConfigType::Unknown, None);
        },
    };
    if let Some(m) = slot(&cc.entries, "limit_limit_gtd") {
        return (OrderConfigType::Limit, Some(m));
    }
    if let Some(m) = slot(&cc.entries, "limit_limit_gtc") {
        return (OrderConfigType::Limit, Some(m));
    }
    if let Some(m) = slot(&cc.entries, "stop_limit_stop_limit_gtd") {
        return (OrderConfigType::StopLimit, Some(m));
    }
    if let Some(m) = slot(&cc.entries, "stop_limit_stop_limit_gtc") {
        return (OrderConfigType::StopLimit, Some(m));
    }
    if let Some(m) = slot(&cc.entries, "trigger_bracket_gtd") {
        return (OrderConfigType::TriggerBracket, Some(m));
    }
    if let Some(m) = slot(&cc.entries, "trigger_bracket_gtc") {
        return (OrderConfigType::TriggerBracket, Some(m));
    }
    if let Some(m) = slot(&cc.entries, "market_market_ioc") {
        return (OrderConfigType::Market, Some(m));
    }
    if let Some(m) = slot(&cc.entries, "market_market_gtc") {
        return (OrderConfigType::Market, Some(m));
    }
    (OrderConfigType::Unknown, None)
}

/// The order's id: present and non-empty, else the order is skipped.
pub open spec fn spec_order_id(o: RawOrder) -> Option<Seq<char>> {
    match o.order_id {
        Some(s) => if s@.len() > 0 {
            Some(s@)
        } else {
            None
        },
        None => None,
    }
}

/// Whether the reconciler emits records for this order: a non-empty id
/// and a classifiable configuration.
pub open spec fn spec_admitted(o: RawOrder) -> bool {
    spec_order_id(o) is Some && spec_classify(o).1 is Some
}

/// The raw status text: the primary field, else the legacy field.
pub open spec fn spec_status_src(o: RawOrder) -> Option<Seq<char>> {
    match o.status {
        Some(s) => Some(s@),
        None => match o.legacy_status {
            Some(s) => Some(s@),
            None => None,
        },
    }
}

/// Whether the order's status reads OPEN (its uppercased status text).
pub open spec fn spec_status_open(o: RawOrder) -> bool {
    match spec_status_src(o) {
        Some(t) => eq_ignore_case(t, "OPEN"@),
        None => false,
    }
}

/// The record's status text: the raw status uppercased, "NEW" when
/// absent.
pub open spec fn status_matches(o: RawOrder, s: Seq<char>) -> bool {
    match spec_status_src(o) {
        None => s == "NEW"@,
        Some(t) => s.len() == t.len() && (forall|i: int|
            0 <= i < t.len() ==> (s[i] as u32) == upper_val(t[i])),
    }
}

/// Whether the order's side reads SELL; anything else, absent or
/// unreadable, falls back to buy.
pub open spec fn spec_side_sell(o: RawOrder) -> bool {
    match o.side {
        Some(s) => side_of_text(s@) == Some(Side::Sell),
        None => false,
    }
}

/// An optional text field read as a timestamp.
pub open spec fn spec_text_time(f: Option<String>) -> Option<Timestamp> {
    match f {
        Some(s) => spec_parse_datetime(s@),
        None => None,
    }
}

/// The resolved completed time: for a non-open order its own
/// completed-time text, and where that is absent the latest fill time.
pub open spec fn spec_completed(o: RawOrder, gr: Option<Seq<FillData>>) -> Option<Timestamp> {
    let own = if !spec_status_open(o) {
        spec_text_time(o.completed_time)
    } else {
        None
    };
    match own {
        Some(t) => Some(t),
        None => match gr {
            Some(fs) => spec_max_time(fs),
            None => None,
        },
    }
}

/// The resolved submitted time and whether it was inferred: the first
/// of the submitted, created, order-placed and last-fill texts that
/// parses; else the earliest fill time; else the completed time; and as
/// a last resort the injected current instant, marked inferred.
pub open spec fn spec_submitted(
    o: RawOrder,
    gr: Option<Seq<FillData>>,
    completed: Option<Timestamp>,
    now: Timestamp,
) -> (Timestamp, bool) {
    if spec_text_time(o.submitted_time) is Some {
        (spec_text_time(o.submitted_time)->Some_0, false)
    } else if spec_text_time(o.created_time) is Some {
        (spec_text_time(o.created_time)->Some_0, false)
    } else if spec_text_time(o.order_placed_time) is Some {
        (spec_text_time(o.order_placed_time)->Some_0, false)
    } else if spec_text_time(o.last_fill_time) is Some {
        (spec_text_time(o.last_fill_time)->Some_0, false)
    } else if (match gr {
        Some(fs) => spec_min_time(fs) is Some,
        None => false,
    }) {
        (spec_min_time(gr->Some_0)->Some_0, false)
    } else if completed is Some {
        (completed->Some_0, false)
    } else {
        (now, true)
    }
}

/// Resolve an order's submitted time and inferred flag, by the rule of
/// [`spec_submitted`].
pub fn resolve_submitted_time(
    o: &RawOrder,
    fills: Option<&Vec<FillData>>,
    completed: Option<Timestamp>,
    now: Timestamp,
) -> (r: (Timestamp, bool))
    ensures
        r == spec_submitted(
            *o,
            match fills {
                Some(v) => Some(v@),
                None => None,
            },
            completed,
            now,
        ),
{
    match text_time(&o.submitted_time) {
        Some(t) => (t, false),
        None => match text_time(&o.created_time) {
            Some(t) => (t, false),
            None => match text_time(&o.order_placed_time) {
                Some(t) => (t, false),
                None => match text_time(&o.last_fill_time) {
                    Some(t) => (t, false),
                    None => {
                        let mt: Option<Timestamp> = match fills {
                            Some(fv) => min_fill_time(fv),
                            None => None,
                        };
                        match mt {
                            Some(t) => (t, false),
                            None => match completed {
                                Some(t) => (t, false),
                                None => (now, true),
                            },
                        }
                    },
                },
            },
        },
    }
}

/// The group of validated fills behind this order's id, if any.
pub open spec fn spec_group_for(fills: Seq<RawFill>, o: RawOrder) -> Option<Seq<FillData>> {
    match spec_order_id(o) {
        None => None,
        Some(id) => {
            let g = spec_group_fills(fills);
            let j = spec_find_key(g, id);
            if j >= 0 {
                Some(g[j].1)
            } else {
                None
            }
        },
    }
}

/// The resolved filled size: the sum of the group's sizes when positive.
pub open spec fn spec_filled(gr: Option<Seq<FillData>>) -> Option<Decimal>
    recommends
        gr matches Some(fs) ==> spec_sum_sizes(fs) is Some,
{
    match gr {
        None => None,
        Some(fs) => {
            let total = spec_sum_sizes(fs)->Some_0;
            if total.v() > 0 {
                Some(total)
            } else {
                None
            }
        },
    }
}

/// The resolved base size: the configuration's base-size field, else its
/// base-order-size alias, else zero; a zero base falls back to the
/// filled size when one is present.
pub open spec fn spec_base_size(cfg: ConfigMap, filled: Option<Decimal>) -> Decimal {
    let b = match spec_dec_of_field(cfg.base_size) {
        Some(d) => d,
        None => match spec_dec_of_field(cfg.base_order_size) {
            Some(d) => d,
            None => Decimal { mantissa: 0, scale: 0 },
        },
    };
    if b.v() == 0 && filled is Some {
        filled->Some_0
    } else {
        b
    }
}

/// The order's own reported average filled price.
pub open spec fn spec_order_avg(o: RawOrder) -> Option<Decimal> {
    match o.average_filled_price {
        Some(s) => spec_parse(trimmed(s@)),
        None => None,
    }
}

/// Whether computing this order's records would overflow a decimal sum:
/// only the filled-size and average-price sums can.
pub open spec fn spec_order_overflows(o: RawOrder, gr: Option<Seq<FillData>>) -> bool {
    spec_admitted(o) && (match gr {
        None => false,
        Some(fs) => spec_sum_sizes(fs) is None || (spec_classify(o).0 == OrderConfigType::Market
            && spec_avg_price(fs) is None),
    })
}

/// The shape-resolved price, stop, end time and post-only flag of one
/// order (assuming its sums do not overflow).
pub open spec fn spec_shape(
    o: RawOrder,
    gr: Option<Seq<FillData>>,
    completed: Option<Timestamp>,
    submitted: Timestamp,
) -> (Decimal, Option<Decimal>, Option<Timestamp>, bool) {
    let kind = spec_classify(o).0;
    let cfg = spec_classify(o).1->Some_0;
    let expire = spec_text_time(o.expire_time);
    let zero = Decimal { mantissa: 0, scale: 0 };
    if kind == OrderConfigType::Market {
        let av = match gr {
            Some(fs) => spec_avg_price(fs)->Some_0,
            None => None,
        };
        let limit = match av {
            Some(d) => d,
            None => match spec_order_avg(o) {
                Some(d) => d,
                None => zero,
            },
        };
        let end = match completed {
            Some(t) => Some(t),
            None => Some(submitted),
        };
        (limit, None, end, false)
    } else {
        let limit = match spec_dec_of_field(cfg.limit_price) {
            Some(d) => d,
            None => zero,
        };
        let end = match spec_time_of_field(cfg.end_time) {
            Some(t) => Some(t),
            None => match expire {
                Some(t) => Some(t),
                None => Some(submitted),
            },
        };
        if kind == OrderConfigType::TriggerBracket {
            let stop = match spec_dec_of_field(cfg.stop_trigger_price) {
                Some(d) => Some(d),
                None => spec_dec_of_field(cfg.stop_price),
            };
            (limit, stop, end, false)
        } else if kind == OrderConfigType::StopLimit {
            (limit, spec_dec_of_field(cfg.stop_price), end, false)
        } else {
            let post = match spec_bool_of_field(cfg.post_only) {
                Some(b) => b,
                None => false,
            };
            (limit, None, end, post)
        }
    }
}

/// The record's product id: the order's own when non-empty, else the
/// call's default.
pub open spec fn product_matches(o: RawOrder, dpid: Seq<char>, s: Seq<char>) -> bool {
    match o.product_id {
        Some(p) => if p@.len() > 0 {
            s == p@
        } else {
            s == dpid
        },
        None => s == dpid,
    }
}

/// The record's client order id: the order's own, else empty.
pub open spec fn client_matches(o: RawOrder, s: Seq<char>) -> bool {
    match o.client_order_id {
        Some(c) => s == c@,
        None => s.len() == 0,
    }
}

/// How an executed record reflects its order.
pub open spec fn matches_executed(
    o: RawOrder,
    gr: Option<Seq<FillData>>,
    now: Timestamp,
    dpid: Seq<char>,
    rec: ProcessedExecutedRecord,
) -> bool {
    let completed = spec_completed(o, gr);
    let (submitted, inferred) = spec_submitted(o, gr, completed, now);
    let filled = spec_filled(gr);
    let (limit, stop, end, post) = spec_shape(o, gr, completed, submitted);
    let kind = spec_classify(o).0;
    &&& Some(rec.order_id@) == spec_order_id(o)
    &&& rec.ts_submitted == submitted
    &&& rec.ts_submitted_inferred == inferred
    &&& rec.ts_filled == completed
    &&& rec.side@ == (if spec_side_sell(o) {
        "SELL"@
    } else {
        "BUY"@
    })
    &&& rec.limit_price == limit
    &&& rec.base_size == spec_base_size(spec_classify(o).1->Some_0, filled)
    &&& status_matches(o, rec.status@)
    &&& rec.filled_size == filled
    &&& client_matches(o, rec.client_order_id@)
    &&& rec.end_time == end
    &&& product_matches(o, dpid, rec.product_id@)
    &&& rec.stop_price == stop
    &&& rec.post_only == (kind == OrderConfigType::Limit && post)
}

/// How an open record reflects its order: the reduced projection of the
/// executed record.
pub open spec fn matches_open(
    o: RawOrder,
    gr: Option<Seq<FillData>>,
    now: Timestamp,
    dpid: Seq<char>,
    rec: ProcessedOpenRecord,
) -> bool {
    let completed = spec_completed(o, gr);
    let (submitted, inferred) = spec_submitted(o, gr, completed, now);
    let filled = spec_filled(gr);
    let (limit, stop, end, post) = spec_shape(o, gr, completed, submitted);
    &&& Some(rec.order_id@) == spec_order_id(o)
    &&& rec.side@ == (if spec_side_sell(o) {
        "SELL"@
    } else {
        "BUY"@
    })
    &&& rec.limit_price == limit
    &&& rec.base_size == spec_base_size(spec_classify(o).1->Some_0, filled)
    &&& status_matches(o, rec.status@)
    &&& client_matches(o, rec.client_order_id@)
    &&& rec.end_time == end
    &&& product_matches(o, dpid, rec.product_id@)
    &&& rec.stop_price == stop
}

/// Law: when none of the submitted, created, order-placed and last-fill
/// texts parses but a fill with a trade time exists, the resolved
/// submitted time is the earliest fill time and it is not inferred;
/// when nothing at all is available, the injected current instant is
/// used and marked inferred.
pub proof fn lemma_submitted_precedence(
    o: RawOrder,
    gr: Option<Seq<FillData>>,
    completed: Option<Timestamp>,
    now: Timestamp,
)
    requires
        spec_text_time(o.submitted_time) is None,
        spec_text_time(o.created_time) is None,
        spec_text_time(o.order_placed_time) is None,
        spec_text_time(o.last_fill_time) is None,
    ensures
        (gr matches Some(fs) && spec_min_time(fs) is Some) ==> spec_submitted(o, gr, completed, now)
            == (spec_min_time(gr->Some_0)->Some_0, false),
        ((match gr {
            Some(fs) => spec_min_time(fs) is None,
            None => true,
        }) && completed is None) ==> spec_submitted(o, gr, completed, now) == (now, true),
{
}

/// Law: the record streams only ever name admitted orders — those with
/// a non-empty id and a classifiable configuration — and the open
/// stream only the admitted orders whose status reads OPEN. An order
/// whose configuration matches no known shape is dropped from both.
pub proof fn lemma_idxs_sound(orders: Seq<RawOrder>)
    ensures
        forall|j: int|
            0 <= j < admitted_idxs(orders).len() ==> 0 <= #[trigger] admitted_idxs(orders)[j]
                < orders.len() && spec_admitted(orders[admitted_idxs(orders)[j]]),
        forall|j: int|
            0 <= j < open_idxs(orders).len() ==> 0 <= #[trigger] open_idxs(orders)[j]
                < orders.len() && spec_admitted(orders[open_idxs(orders)[j]]) && spec_status_open(
                orders[open_idxs(orders)[j]],
            ),
    decreases orders.len(),
{
    if orders.len() > 0 {
        lemma_idxs_sound(orders.drop_last());
        let rest = admitted_idxs(orders.drop_last());
        let resto = open_idxs(orders.drop_last());
        assert(forall|k: int| 0 <= k < orders.len() - 1 ==> orders.drop_last()[k] == orders[k]);
        assert forall|j: int| 0 <= j < admitted_idxs(orders).len() implies 0
            <= #[trigger] admitted_idxs(orders)[j] < orders.len() && spec_admitted(
            orders[admitted_idxs(orders)[j]],
        ) by {
            if j < rest.len() {
                assert(admitted_idxs(orders)[j] == rest[j]);
                assert(spec_admitted(orders.drop_last()[rest[j]]));
            }
        }
        assert forall|j: int| 0 <= j < open_idxs(orders).len() implies 0 <= #[trigger] open_idxs(
            orders,
        )[j] < orders.len() && spec_admitted(orders[open_idxs(orders)[j]]) && spec_status_open(
            orders[open_idxs(orders)[j]],
        ) by {
            if j < resto.len() {
                assert(open_idxs(orders)[j] == resto[j]);
                assert(spec_admitted(orders.drop_last()[resto[j]]));
                assert(spec_status_open(orders.drop_last()[resto[j]]));
            }
        }
    }
}

/// Law: every admitted order appears in the executed stream, exactly
/// once; it appears in the open stream exactly when its status reads
/// OPEN, so an OPEN order is in both streams and a non-OPEN order is
/// never among the open records.
pub proof fn lemma_streams_complete(orders: Seq<RawOrder>, k: int)
    requires
        0 <= k < orders.len(),
        spec_admitted(orders[k]),
    ensures
        exists|j: int| 0 <= j < admitted_idxs(orders).len() && #[trigger] admitted_idxs(orders)[j]
            == k,
        spec_status_open(orders[k]) ==> exists|j: int|
            0 <= j < open_idxs(orders).len() && #[trigger] open_idxs(orders)[j] == k,
        !spec_status_open(orders[k]) ==> forall|j: int|
            0 <= j < open_idxs(orders).len() ==> #[trigger] open_idxs(orders)[j] != k,
    decreases orders.len(),
{
    lemma_idxs_sound(orders);
    if k == orders.len() - 1 {
        if spec_admitted(orders.last()) {
            let j = admitted_idxs(orders).len() - 1;
            assert(admitted_idxs(orders)[j] == k);
        }
        if spec_admitted(orders.last()) && spec_status_open(orders.last()) {
            let j = open_idxs(orders).len() - 1;
            assert(open_idxs(orders)[j] == k);
        }
        if !spec_status_open(orders[k]) {
            lemma_idxs_sound(orders.drop_last());
            assert forall|j: int| 0 <= j < open_idxs(orders).len() implies #[trigger] open_idxs(
                orders,
            )[j] != k by {
                if j < open_idxs(orders.drop_last()).len() {
                    assert(open_idxs(orders)[j] == open_idxs(orders.drop_last())[j]);
                    assert(open_idxs(orders.drop_last())[j] < orders.len() - 1);
                }
            }
        }
    } else {
        assert(orders.drop_last()[k] == orders[k]);
        lemma_streams_complete(orders.drop_last(), k);
        lemma_idxs_sound(orders.drop_last());
        let ja = choose|j: int|
            0 <= j < admitted_idxs(orders.drop_last()).len() && #[trigger] admitted_idxs(
                orders.drop_last(),
            )[j] == k;
        assert(admitted_idxs(orders)[ja] == k);
        if spec_status_open(orders[k]) {
            let jo = choose|j: int|
                0 <= j < open_idxs(orders.drop_last()).len() && #[trigger] open_idxs(
                    orders.drop_last(),
                )[j] == k;
            assert(open_idxs(orders)[jo] == k);
        } else {
            assert forall|j: int| 0 <= j < open_idxs(orders).len() implies #[trigger] open_idxs(
                orders,
            )[j] != k by {
                if j < open_idxs(orders.drop_last()).len() {
                    assert(open_idxs(orders)[j] == open_idxs(orders.drop_last())[j]);
                }
            }
        }
    }
}

/// An optional text field read as a timestamp.
fn text_time(f: &Option<String>) -> (r: Option<Timestamp>)
    ensures
        r == spec_text_time(*f),
        r matches Some(t) ==> t.wf(),
{
    match f {
        Some(s) => parse_datetime_text(s.as_str()),
        None => None,
    }
}

/// The indexes of the orders that yield records, in order.
pub open spec fn admitted_idxs(orders: Seq<RawOrder>) -> Seq<int>
    decreases orders.len(),
{
    if orders.len() == 0 {
        Seq::empty()
    } else {
        let rest = admitted_idxs(orders.drop_last());
        if spec_admitted(orders.last()) {
            rest.push(orders.len() - 1)
        } else {
            rest
        }
    }
}

/// The indexes of the orders that yield open records, in order.
pub open spec fn open_idxs(orders: Seq<RawOrder>) -> Seq<int>
    decreases orders.len(),
{
    if orders.len() == 0 {
        Seq::empty()
    } else {
        let rest = open_idxs(orders.drop_last());
        if spec_admitted(orders.last()) && spec_status_open(orders.last()) {
            rest.push(orders.len() - 1)
        } else {
            rest
        }
    }
}

/// Reconcile raw orders with their fills. For every order with a
/// non-empty id and a classifiable configuration an executed record is
/// emitted, and an open record too exactly when its status reads OPEN;
/// every other order is dropped from both outputs. Fails only when a
/// decimal sum overflows.
#[verifier::rlimit(100)]
pub fn process_orders(
    orders: &Vec<RawOrder>,
    fills: &Vec<RawFill>,
    default_product_id: &str,
    now: Timestamp,
) -> (r: Result<(Vec<ProcessedOpenRecord>, Vec<ProcessedExecutedRecord>), CoreError>)
    requires
        now.wf(),
    ensures
        r matches Ok(p) ==> {
            &&& p.1@.len() == admitted_idxs(orders@).len()
            &&& (forall|k: int|
                0 <= k < p.1@.len() ==> matches_executed(
                    orders@[admitted_idxs(orders@)[k]],
                    spec_group_for(fills@, orders@[admitted_idxs(orders@)[k]]),
                    now,
                    default_product_id@,
                    #[trigger] p.1@[k],
                ))
            &&& p.0@.len() == open_idxs(orders@).len()
            &&& (forall|k: int|
                0 <= k < p.0@.len() ==> matches_open(
                    orders@[open_idxs(orders@)[k]],
                    spec_group_for(fills@, orders@[open_idxs(orders@)[k]]),
                    now,
                    default_product_id@,
                    #[trigger] p.0@[k],
                ))
            &&& (forall|k: int|
                0 <= k < orders@.len() ==> !spec_order_overflows(
                    #[trigger] orders@[k],
                    spec_group_for(fills@, orders@[k]),
                ))
        },
        r matches Err(e) ==> e == CoreError::Overflow && exists|k: int|
            0 <= k < orders@.len() && spec_order_overflows(
                #[trigger] orders@[k],
                spec_group_for(fills@, orders@[k]),
            ),
{
    let groups = collect_fills(fills);
    let ghost g = spec_group_fills(fills@);
    let mut open_records: Vec<ProcessedOpenRecord> = Vec::new();
    let mut executed_records: Vec<ProcessedExecutedRecord> = Vec::new();
    let mut i: usize = 0;
    proof {
        assert(orders@.take(0) =~= Seq::<RawOrder>::empty());
    }
    while i < orders.len()
        invariant
            0 <= i <= orders@.len(),
            now.wf(),
            g == spec_group_fills(fills@),
            groups@.len() == g.len(),
            forall|k: int|
                0 <= k < g.len() ==> (#[trigger] groups@[k]).0@ == g[k].0 && groups@[k].1@
                    == g[k].1,
            groups_wf(g),
            executed_records@.len() == admitted_idxs(orders@.take(i as int)).len(),
            forall|k: int|
                0 <= k < executed_records@.len() ==> matches_executed(
                    orders@[admitted_idxs(orders@.take(i as int))[k]],
                    spec_group_for(fills@, orders@[admitted_idxs(orders@.take(i as int))[k]]),
                    now,
                    default_product_id@,
                    #[trigger] executed_records@[k],
                ),
            open_records@.len() == open_idxs(orders@.take(i as int)).len(),
            forall|k: int|
                0 <= k < open_records@.len() ==> matches_open(
                    orders@[open_idxs(orders@.take(i as int))[k]],
                    spec_group_for(fills@, orders@[open_idxs(orders@.take(i as int))[k]]),
                    now,
                    default_product_id@,
                    #[trigger] open_records@[k],
                ),
            forall|k: int|
                0 <= k < i ==> !spec_order_overflows(
                    #[trigger] orders@[k],
                    spec_group_for(fills@, orders@[k]),
                ),
        decreases orders@.len() - i,
    {
        proof {
            assert(orders@.take(i as int + 1).drop_last() =~= orders@.take(i as int));
            assert(orders@.take(i as int + 1).last() == orders@[i as int]);
        }
        let o = &orders[i];
        let id_opt: Option<String> = match &o.order_id {
            Some(s) => if s.unicode_len() > 0 {
                Some(s.clone())
            } else {
                None
            },
            None => None,
        };
        let (kind, cfgopt) = classify(o);
        match (id_opt, cfgopt) {
            (Some(order_id), Some(cfg)) => {
                // locate the order's fill group
                let mut gj: usize = 0;
                let mut gfound = false;
                while gj < groups.len() && !gfound
                    invariant
                        0 <= gj <= groups@.len(),
                        groups@.len() == g.len(),
                        forall|k: int|
                            0 <= k < g.len() ==> (#[trigger] groups@[k]).0@ == g[k].0
                                && groups@[k].1@ == g[k].1,
                        gfound ==> gj < groups@.len() && groups@[gj as int].0@ == order_id@,
                        forall|k: int| 0 <= k < gj ==> (#[trigger] groups@[k]).0@ != order_id@,
                    decreases groups@.len() - gj + (if gfound {
                        0int
                    } else {
                        1int
                    }),
                {
                    if str_eq(groups[gj].0.as_str(), order_id.as_str()) {
                        gfound = true;
                    } else {
                        gj = gj + 1;
                    }
                }
                let ghost gr = spec_group_for(fills@, orders@[i as int]);
                proof {
                    assert(spec_order_id(orders@[i as int]) == Some(order_id@));
                    if gfound {
                        assert forall|k: int| 0 <= k < gj implies g[k].0 != order_id@ by {
                            assert(groups@[k].0@ == g[k].0);
                        }
                        crate::fills::lemma_find_key_at(g, order_id@, gj as int);
                        assert(gr == Some(g[gj as int].1));
                        assert(g[gj as int].1 == groups@[gj as int].1@);
                        assert forall|k: int| 0 <= k < groups@[gj as int].1@.len() implies (
                        #[trigger] groups@[gj as int].1@[k]).wf() by {
                            assert(g[gj as int].1[k].wf());
                        }
                    } else {
                        assert forall|k: int| 0 <= k < g.len() implies g[k].0 != order_id@ by {
                            assert(groups@[k].0@ == g[k].0);
                        }
                        crate::fills::lemma_find_key_none(g, order_id@);
                        assert(gr is None);
                    }
                }
                // filled size
                let filled: Option<Decimal> = if gfound {
                    let total = match sum_sizes(&groups[gj].1) {
                        Ok(t) => t,
                        Err(e) => {
                            proof {
                                assert(spec_order_overflows(orders@[i as int], gr));
                            }
                            return Err(CoreError::Overflow);
                        },
                    };
                    if total.is_positive() {
                        Some(total)
                    } else {
                        None
                    }
                } else {
                    None
                };
                // status
                let is_open: bool = match &o.status {
                    Some(s) => str_eq_ignore_case(s.as_str(), "OPEN"),
                    None => match &o.legacy_status {
                        Some(s) => str_eq_ignore_case(s.as_str(), "OPEN"),
                        None => false,
                    },
                };
                let status: String = match &o.status {
                    Some(s) => ascii_uppercase(s.as_str()),
                    None => match &o.legacy_status {
                        Some(s) => ascii_uppercase(s.as_str()),
                        None => String::from_str("NEW"),
                    },
                };
                // completed time
                let own_completed: Option<Timestamp> = if !is_open {
                    text_time(&o.completed_time)
                } else {
                    None
                };
                let completed: Option<Timestamp> = match own_completed {
                    Some(t) => Some(t),
                    None => if gfound {
                        max_fill_time(&groups[gj].1)
                    } else {
                        None
                    },
                };
                // submitted time
                let fills_ref: Option<&Vec<FillData>> = if gfound {
                    Some(&groups[gj].1)
                } else {
                    None
                };
                let (submitted, inferred) = resolve_submitted_time(o, fills_ref, completed, now);
                // base size
                let b: Decimal = match dec_of_field(&cfg.base_size) {
                    Some(d) => d,
                    None => match dec_of_field(&cfg.base_order_size) {
                        Some(d) => d,
                        None => Decimal::zero(),
                    },
                };
                let base_size: Decimal = if b.is_zero() {
                    match filled {
                        Some(f) => f,
                        None => b,
                    }
                } else {
                    b
                };
                // shape-specific resolution
                let order_avg: Option<Decimal> = match &o.average_filled_price {
                    Some(s) => parse_decimal(trim_str(s.as_str())),
                    None => None,
                };
                let expire = text_time(&o.expire_time);
                let (limit_price, stop_price, end_time, post_flag): (
                    Decimal,
                    Option<Decimal>,
                    Option<Timestamp>,
                    bool,
                ) = match kind {
                    OrderConfigType::Market => {
                        let av: Option<Decimal> = if gfound {
                            match average_fill_price(&groups[gj].1) {
                                Ok(a) => a,
                                Err(e) => {
                                    proof {
                                        assert(spec_order_overflows(orders@[i as int], gr));
                                    }
                                    return Err(CoreError::Overflow);
                                },
                            }
                        } else {
                            None
                        };
                        let limit = match av {
                            Some(d) => d,
                            None => match order_avg {
                                Some(d) => d,
                                None => Decimal::zero(),
                            },
                        };
                        let end = match completed {
                            Some(t) => Some(t),
                            None => Some(submitted),
                        };
                        (limit, None, end, false)
                    },
                    OrderConfigType::TriggerBracket => {
                        let limit = match dec_of_field(&cfg.limit_price) {
                            Some(d) => d,
                            None => Decimal::zero(),
                        };
                        let stop = match dec_of_field(&cfg.stop_trigger_price) {
                            Some(d) => Some(d),
                            None => dec_of_field(&cfg.stop_price),
                        };
                        let end = match time_of_field(&cfg.end_time) {
                            Some(t) => Some(t),
                            None => match expire {
                                Some(t) => Some(t),
                                None => Some(submitted),
                            },
                        };
                        (limit, stop, end, false)
                    },
                    OrderConfigType::StopLimit => {
                        let limit = match dec_of_field(&cfg.limit_price) {
                            Some(d) => d,
                            None => Decimal::zero(),
                        };
                        let stop = dec_of_field(&cfg.stop_price);
                        let end = match time_of_field(&cfg.end_time) {
                            Some(t) => Some(t),
                            None => match expire {
                                Some(t) => Some(t),
                                None => Some(submitted),
                            },
                        };
                        (limit, stop, end, false)
                    },
                    OrderConfigType::Limit => {
                        let limit = match dec_of_field(&cfg.limit_price) {
                            Some(d) => d,
                            None => Decimal::zero(),
                        };
                        let post = match bool_of_field(&cfg.post_only) {
                            Some(b2) => b2,
                            None => false,
                        };
                        let end = match time_of_field(&cfg.end_time) {
                            Some(t) => Some(t),
                            None => match expire {
                                Some(t) => Some(t),
                                None => Some(submitted),
                            },
                        };
                        (limit, None, end, post)
                    },
                    OrderConfigType::Unknown => {
                        proof {
                            assert(false);
                        }
                        (Decimal::zero(), None, None, false)
                    },
                };
                // side and pass-through texts
                let sell: bool = match &o.side {
                    Some(s) => match parse_side(s.as_str()) {
                        Some(Side::Sell) => true,
                        _ => false,
                    },
                    None => false,
                };
                let side_str = String::from_str(
                    if sell {
                        "SELL"
                    } else {
                        "BUY"
                    },
                );
                let client_order_id: String = match &o.client_order_id {
                    Some(s) => s.clone(),
                    None => String::new(),
                };
                let product_id: String = match &o.product_id {
                    Some(s) => if s.unicode_len() > 0 {
                        s.clone()
                    } else {
                        String::from_str(default_product_id)
                    },
                    None => String::from_str(default_product_id),
                };
                if is_open {
                    open_records.push(
                        ProcessedOpenRecord {
                            order_id: order_id.clone(),
                            side: side_str.clone(),
                            limit_price,
                            base_size,
                            status: status.clone(),
                            client_order_id: client_order_id.clone(),
                            end_time,
                            product_id: product_id.clone(),
                            stop_price,
                        },
                    );
                }
                executed_records.push(
                    ProcessedExecutedRecord {
                        order_id,
                        ts_submitted: submitted,
                        ts_submitted_inferred: inferred,
                        ts_filled: completed,
                        side: side_str,
                        limit_price,
                        base_size,
                        status,
                        filled_size: filled,
                        client_order_id,
                        end_time,
                        product_id,
                        stop_price,
                        post_only: matches!(kind, OrderConfigType::Limit) && post_flag,
                    },
                );
            },
            _ => {
                proof {
                    assert(!spec_admitted(orders@[i as int]));
                }
            },
        }
        i = i + 1;
    }
    proof {
        assert(orders@.take(orders@.len() as int) =~= orders@);
    }
    Ok((open_records, executed_records))
}

} // verus!
