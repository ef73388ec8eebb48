//! Trailing-window aggregation: summing profit entries over requested
//! intervals, and the whole profit-summary call.

use vstd::prelude::*;
use crate::decimal::{Decimal, spec_add, spec_sub};
use crate::decimal_text::{spec_parse, parse_decimal};
use crate::errors::CoreError;
use crate::matching::{Entry, build_entries, spec_build_entries};
use crate::text::str_eq;
use crate::timestamp::{Timestamp, TS_MIN_US, TS_MAX_US};
use crate::trades::{TradeInput, spec_collect_trades, spec_sort_by_time, normalize_trades};

verus! {

/// A requested trailing window: absent `delta_seconds` means the whole
/// span since the cutoff.
pub struct IntervalSpec {
    pub key: String,
    pub label: String,
    pub delta_seconds: Option<i64>,
}

/// The sums of one window.
#[derive(Clone, Copy, Debug, PartialEq, Eq, Structural)]
pub struct RawMetrics {
    pub profit_before_fees: Decimal,
    pub maker_volume: Decimal,
    pub taker_volume: Decimal,
    pub fee_total: Decimal,
    pub profit_after_fees: Decimal,
}

impl RawMetrics {
    /// Well-formed: every sum exact.
    pub open spec fn wf(self) -> bool {
        &&& self.profit_before_fees.wf()
        &&& self.maker_volume.wf()
        &&& self.taker_volume.wf()
        &&& self.fee_total.wf()
        &&& self.profit_after_fees.wf()
    }
}

/// One window of the summary, under its key and label.
pub struct IntervalMetrics {
    pub key: String,
    pub label: String,
    pub metrics: RawMetrics,
}

/// The whole summary: one record per requested window, and the
/// account-wide totals taken from the window whose key is "all".
pub struct Summary {
    pub intervals: Vec<IntervalMetrics>,
    pub total_profit_before_fees: Decimal,
    pub total_profit_after_fees: Decimal,
}

/// Where a window starts: at the cutoff when no length is given;
/// otherwise `max(deltaSeconds, 0)` seconds before `now`, but never
/// before the cutoff.
pub open spec fn spec_interval_start(now: int, delta: Option<i64>, cutoff: int) -> int {
    match delta {
        None => cutoff,
        Some(d) => {
            let dd: int = if d >= 0 {
                d as int
            } else {
                0
            };
            let s = now - dd * 1000000;
            if s < cutoff {
                cutoff
            } else {
                s
            }
        },
    }
}

/// Compute a window's start instant.
pub fn interval_start(now: Timestamp, delta: Option<i64>, cutoff: Timestamp) -> (r: Timestamp)
    requires
        now.wf(),
        cutoff.wf(),
    ensures
        r.wf(),
        r.micros as int == spec_interval_start(now.micros as int, delta, cutoff.micros as int),
{
    match delta {
        None => cutoff,
        Some(d) => {
            let dd: i64 = if d >= 0 {
                d
            } else {
                0
            };
            let s: i128 = now.micros as i128 - (dd as i128) * 1000000;
            if s < cutoff.micros as i128 {
                cutoff
            } else {
                Timestamp { micros: s as i64 }
            }
        },
    }
}

/// A window that reaches back at least to the cutoff starts exactly at
/// the cutoff: the same start as the all-time window.
pub proof fn lemma_wide_window_is_all_time(now: int, d: i64, cutoff: int)
    requires
        d >= 0,
        (d as int) * 1000000 >= now - cutoff,
    ensures
        spec_interval_start(now, Some(d), cutoff) == spec_interval_start(now, None, cutoff),
{
}

/// Folding the entries at or after `start` into the four sums, in entry
/// order; `None` when a sum overflows.
pub open spec fn spec_sum_entries(entries: Seq<Entry>, start: int) -> Option<
    (Decimal, Decimal, Decimal, Decimal),
>
    decreases entries.len(),
{
    if entries.len() == 0 {
        let zero = Decimal { mantissa: 0, scale: 0 };
        Some((zero, zero, zero, zero))
    } else {
        match spec_sum_entries(entries.drop_last(), start) {
            None => None,
            Some((pb, mv, tv, ft)) => {
                let e = entries.last();
                if e.timestamp.micros >= start {
                    match spec_add(pb, e.realized_profit) {
                        None => None,
                        Some(pb2) => match spec_add(mv, e.maker_volume) {
                            None => None,
                            Some(mv2) => match spec_add(tv, e.taker_volume) {
                                None => None,
                                Some(tv2) => match spec_add(ft, e.fee) {
                                    None => None,
                                    Some(ft2) => Some((pb2, mv2, tv2, ft2)),
                                },
                            },
                        },
                    }
                } else {
                    Some((pb, mv, tv, ft))
                }
            },
        }
    }
}

/// A window's metrics: the sums over the entries at or after `start`,
/// and profit after fees = profit before fees - fee total.
pub open spec fn spec_metrics(entries: Seq<Entry>, start: int) -> Option<RawMetrics> {
    match spec_sum_entries(entries, start) {
        None => None,
        Some((pb, mv, tv, ft)) => match spec_sub(pb, ft) {
            None => None,
            Some(pa) => Some(
                RawMetrics {
                    profit_before_fees: pb,
                    maker_volume: mv,
                    taker_volume: tv,
                    fee_total: ft,
                    profit_after_fees: pa,
                },
            ),
        },
    }
}

/// Sum the entries of one window. The sums run over exactly the entries
/// whose timestamp is at or after `start`; entries before it are
/// excluded.
pub fn summarise_interval(entries: &Vec<Entry>, start: Timestamp) -> (r: Result<
    RawMetrics,
    CoreError,
>)
    requires
        forall|i: int| 0 <= i < entries@.len() ==> #[trigger] entries@[i].wf(),
    ensures
        r matches Ok(m) ==> spec_metrics(entries@, start.micros as int) == Some(m) && m.wf(),
        r is Err ==> spec_metrics(entries@, start.micros as int) is None && r == Err::<
            RawMetrics,
            _,
        >(CoreError::Overflow),
{
    let zero = Decimal::zero();
    let mut pb = zero;
    let mut mv = zero;
    let mut tv = zero;
    let mut ft = zero;
    let mut i: usize = 0;
    proof {
        assert(entries@.take(0) =~= Seq::<Entry>::empty());
    }
    while i < entries.len()
        invariant
            0 <= i <= entries@.len(),
            forall|k: int| 0 <= k < entries@.len() ==> #[trigger] entries@[k].wf(),
            pb.wf(),
            mv.wf(),
            tv.wf(),
            ft.wf(),
            spec_sum_entries(entries@.take(i as int), start.micros as int) == Some(
                (pb, mv, tv, ft),
            ),
        decreases entries@.len() - i,
    {
        let e = entries[i];
        proof {
            assert(entries@[i as int].wf());
            assert(entries@.take(i as int + 1).drop_last() =~= entries@.take(i as int));
            assert(entries@.take(i as int + 1).last() == entries@[i as int]);
        }
        if e.timestamp.micros >= start.micros {
            pb = match pb.checked_add(e.realized_profit) {
                Some(x) => x,
                None => {
                    proof {
                        lemma_sum_none_persists(entries@, i as int + 1, start.micros as int);
                    }
                    return Err(CoreError::Overflow);
                },
            };
            mv = match mv.checked_add(e.maker_volume) {
                Some(x) => x,
                None => {
                    proof {
                        lemma_sum_none_persists(entries@, i as int + 1, start.micros as int);
                    }
                    return Err(CoreError::Overflow);
                },
            };
            tv = match tv.checked_add(e.taker_volume) {
                Some(x) => x,
                None => {
                    proof {
                        lemma_sum_none_persists(entries@, i as int + 1, start.micros as int);
                    }
                    return Err(CoreError::Overflow);
                },
            };
            ft = match ft.checked_add(e.fee) {
                Some(x) => x,
                None => {
                    proof {
                        lemma_sum_none_persists(entries@, i as int + 1, start.micros as int);
                    }
                    return Err(CoreError::Overflow);
                },
            };
        }
        i = i + 1;
    }
    proof {
        assert(entries@.take(entries@.len() as int) =~= entries@);
    }
    let pa = match pb.checked_sub(ft) {
        Some(x) => x,
        None => {
            return Err(CoreError::Overflow);
        },
    };
    Ok(
        RawMetrics {
            profit_before_fees: pb,
            maker_volume: mv,
            taker_volume: tv,
            fee_total: ft,
            profit_after_fees: pa,
        },
    )
}

/// Once a prefix of the entries fails to sum, the whole list does.
proof fn lemma_sum_none_persists(entries: Seq<Entry>, i: int, start: int)
    requires
        0 <= i <= entries.len(),
        spec_sum_entries(entries.take(i), start) is None,
    ensures
        spec_sum_entries(entries, start) is None,
    decreases entries.len() - i,
{
    if i == entries.len() {
        assert(entries.take(i) =~= entries);
    } else {
        assert(entries.take(i + 1).drop_last() =~= entries.take(i));
        lemma_sum_none_persists(entries, i + 1, start);
    }
}

/// The computed windows as views: key, label, metrics.
pub open spec fn spec_intervals_fold(
    entries: Seq<Entry>,
    specs: Seq<IntervalSpec>,
    now: int,
    cutoff: int,
) -> Option<Seq<(Seq<char>, Seq<char>, RawMetrics)>>
    decreases specs.len(),
{
    if specs.len() == 0 {
        Some(Seq::empty())
    } else {
        match spec_intervals_fold(entries, specs.drop_last(), now, cutoff) {
            None => None,
            Some(done) => {
                let sp = specs.last();
                match spec_metrics(entries, spec_interval_start(now, sp.delta_seconds, cutoff)) {
                    None => None,
                    Some(m) => Some(done.push((sp.key@, sp.label@, m))),
                }
            },
        }
    }
}

/// The account-wide totals: the profit before and after fees of the last
/// window whose key is "all", zeros when there is none.
pub open spec fn spec_totals(list: Seq<(Seq<char>, Seq<char>, RawMetrics)>) -> (Decimal, Decimal)
    decreases list.len(),
{
    if list.len() == 0 {
        (Decimal { mantissa: 0, scale: 0 }, Decimal { mantissa: 0, scale: 0 })
    } else if list.last().0 == "all"@ {
        (list.last().2.profit_before_fees, list.last().2.profit_after_fees)
    } else {
        spec_totals(list.drop_last())
    }
}

/// What the whole profit-summary call yields: the windows as views and
/// the totals, or the first structural failure, in the order the call
/// validates its inputs (maker fee, taker fee, now, cutoff, trades).
pub open spec fn spec_summarise(
    trades: Seq<TradeInput>,
    specs: Seq<IntervalSpec>,
    now_us: i64,
    cutoff_us: i64,
    maker_fee_rate: Seq<char>,
    taker_fee_rate: Seq<char>,
) -> Result<(Seq<(Seq<char>, Seq<char>, RawMetrics)>, Decimal, Decimal), CoreError> {
    match spec_parse(maker_fee_rate) {
        None => Err(CoreError::InvalidDecimal),
        Some(mf) => match spec_parse(taker_fee_rate) {
            None => Err(CoreError::InvalidDecimal),
            Some(tf) => if !(TS_MIN_US <= now_us <= TS_MAX_US) {
                Err(CoreError::TimestampOutOfRange)
            } else if !(TS_MIN_US <= cutoff_us <= TS_MAX_US) {
                Err(CoreError::TimestampOutOfRange)
            } else {
                match spec_collect_trades(trades, Timestamp { micros: cutoff_us }) {
                    Err(e) => Err(e),
                    Ok(ts) => match spec_build_entries(spec_sort_by_time(ts), mf, tf) {
                        None => Err(CoreError::Overflow),
                        Some((es, long, short)) => match spec_intervals_fold(
                            es,
                            specs,
                            now_us as int,
                            cutoff_us as int,
                        ) {
                            None => Err(CoreError::Overflow),
                            Some(list) => {
                                let (tb, ta) = spec_totals(list);
                                Ok((list, tb, ta))
                            },
                        },
                    },
                }
            },
        },
    }
}

/// The profit-summary call: validate the batch, match it, and sum each
/// requested window, as [`spec_summarise`] lays down.
pub fn summarise_trades(
    trades: &Vec<TradeInput>,
    intervals: &Vec<IntervalSpec>,
    now_timestamp_us: i64,
    cutoff_timestamp_us: i64,
    maker_fee_rate: &str,
    taker_fee_rate: &str,
) -> (r: Result<Summary, CoreError>)
    ensures
        r matches Err(e) ==> spec_summarise(
            trades@,
            intervals@,
            now_timestamp_us,
            cutoff_timestamp_us,
            maker_fee_rate@,
            taker_fee_rate@,
        ) == Err::<(Seq<(Seq<char>, Seq<char>, RawMetrics)>, Decimal, Decimal), _>(e),
        r matches Ok(s) ==> spec_summarise(
            trades@,
            intervals@,
            now_timestamp_us,
            cutoff_timestamp_us,
            maker_fee_rate@,
            taker_fee_rate@,
        ) matches Ok(out) && s.intervals@.len() == out.0.len() && (forall|k: int|
            0 <= k < out.0.len() ==> (#[trigger] s.intervals@[k]).key@ == out.0[k].0
                && s.intervals@[k].label@ == out.0[k].1 && s.intervals@[k].metrics == out.0[k].2)
            && s.total_profit_before_fees == out.1 && s.total_profit_after_fees == out.2,
{
    let maker_fee = match parse_decimal(maker_fee_rate) {
        Some(d) => d,
        None => {
            return Err(CoreError::InvalidDecimal);
        },
    };
    let taker_fee = match parse_decimal(taker_fee_rate) {
        Some(d) => d,
        None => {
            return Err(CoreError::InvalidDecimal);
        },
    };
    let now = match Timestamp::from_micros(now_timestamp_us) {
        Some(t) => t,
        None => {
            return Err(CoreError::TimestampOutOfRange);
        },
    };
    let cutoff = match Timestamp::from_micros(cutoff_timestamp_us) {
        Some(t) => t,
        None => {
            return Err(CoreError::TimestampOutOfRange);
        },
    };
    let sorted = match normalize_trades(trades, cutoff) {
        Ok(v) => v,
        Err(e) => {
            return Err(e);
        },
    };
    let entries = match build_entries(&sorted, maker_fee, taker_fee) {
        Ok(v) => v,
        Err(e) => {
            return Err(e);
        },
    };
    let ghost es = spec_build_entries(
        spec_sort_by_time(spec_collect_trades(trades@, cutoff)->Ok_0),
        maker_fee,
        taker_fee,
    )->Some_0.0;
    let mut out: Vec<IntervalMetrics> = Vec::new();
    let mut total_before = Decimal::zero();
    let mut total_after = Decimal::zero();
    let mut i: usize = 0;
    proof {
        assert(intervals@.take(0) =~= Seq::<IntervalSpec>::empty());
    }
    while i < intervals.len()
        invariant
            0 <= i <= intervals@.len(),
            now.wf(),
            cutoff.wf(),
            now.micros == now_timestamp_us,
            cutoff.micros == cutoff_timestamp_us,
            spec_parse(maker_fee_rate@) == Some(maker_fee),
            spec_parse(taker_fee_rate@) == Some(taker_fee),
            spec_collect_trades(trades@, cutoff) matches Ok(ts) && spec_build_entries(
                spec_sort_by_time(ts),
                maker_fee,
                taker_fee,
            ) matches Some(built) && built.0 == es,
            forall|k: int| 0 <= k < entries@.len() ==> #[trigger] entries@[k].wf(),
            entries@ == es,
            spec_intervals_fold(es, intervals@.take(i as int), now.micros as int, cutoff.micros as int)
                matches Some(done) && out@.len() == done.len() && (forall|k: int|
                0 <= k < done.len() ==> (#[trigger] out@[k]).key@ == done[k].0 && out@[k].label@
                    == done[k].1 && out@[k].metrics == done[k].2) && spec_totals(done) == (
            total_before,
            total_after,
            ),
        decreases intervals@.len() - i,
    {
        let ghost done = spec_intervals_fold(
            es,
            intervals@.take(i as int),
            now.micros as int,
            cutoff.micros as int,
        )->Some_0;
        proof {
            assert(intervals@.take(i as int + 1).drop_last() =~= intervals@.take(i as int));
            assert(intervals@.take(i as int + 1).last() == intervals@[i as int]);
        }
        let sp = &intervals[i];
        let start = interval_start(now, sp.delta_seconds, cutoff);
        let metrics = match summarise_interval(&entries, start) {
            Ok(m) => m,
            Err(e) => {
                proof {
                    lemma_fold_none_persists(
                        es,
                        intervals@,
                        i as int + 1,
                        now.micros as int,
                        cutoff.micros as int,
                    );
                }
                return Err(e);
            },
        };
        let rec = IntervalMetrics { key: clone_string(&sp.key), label: clone_string(&sp.label), metrics };
        if str_eq(sp.key.as_str(), "all") {
            total_before = metrics.profit_before_fees;
            total_after = metrics.profit_after_fees;
        }
        out.push(rec);
        proof {
            let done2 = done.push((intervals@[i as int].key@, intervals@[i as int].label@, metrics));
            assert(done2.drop_last() =~= done);
            assert(spec_totals(done2) == (total_before, total_after));
        }
        i = i + 1;
    }
    proof {
        assert(intervals@.take(intervals@.len() as int) =~= intervals@);
    }
    Ok(
        Summary {
            intervals: out,
            total_profit_before_fees: total_before,
            total_profit_after_fees: total_after,
        },
    )
}

/// Clone a string.
fn clone_string(s: &String) -> (r: String)
    ensures
        r@ == s@,
{
    s.clone()
}

/// Once one window fails to sum, the whole fold fails.
proof fn lemma_fold_none_persists(
    entries: Seq<Entry>,
    specs: Seq<IntervalSpec>,
    i: int,
    now: int,
    cutoff: int,
)
    requires
        0 <= i <= specs.len(),
        spec_intervals_fold(entries, specs.take(i), now, cutoff) is None,
    ensures
        spec_intervals_fold(entries, specs, now, cutoff) is None,
    decreases specs.len() - i,
{
    if i == specs.len() {
        assert(specs.take(i) =~= specs);
    } else {
        assert(specs.take(i + 1).drop_last() =~= specs.take(i));
        lemma_fold_none_persists(entries, specs, i + 1, now, cutoff);
    }
}

} // verus!
