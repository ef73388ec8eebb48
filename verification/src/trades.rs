//! Trades: the raw input records of the profit engine, their validation,
//! and the stable sort by timestamp that precedes lot matching.

use vstd::prelude::*;
use crate::decimal::Decimal;
use crate::decimal_text::{spec_parse, parse_decimal};
use crate::errors::CoreError;
use crate::text::{eq_ignore_case, str_eq_ignore_case};
use crate::timestamp::{Timestamp, TS_MIN_US, TS_MAX_US};

verus! {

/// Which side of the book a trade took.
#[derive(Clone, Copy, Debug, PartialEq, Eq, Structural)]
pub enum Side {
    Buy,
    Sell,
}

/// The side denoted by the text: "BUY" or "SELL" in any ASCII case.
pub open spec fn side_of_text(s: Seq<char>) -> Option<Side> {
    if eq_ignore_case(s, "BUY"@) {
        Some(Side::Buy)
    } else if eq_ignore_case(s, "SELL"@) {
        Some(Side::Sell)
    } else {
        None
    }
}

/// Parse a side, case-insensitively.
pub fn parse_side(s: &str) -> (r: Option<Side>)
    ensures
        r == side_of_text(s@),
{
    if str_eq_ignore_case(s, "BUY") {
        Some(Side::Buy)
    } else if str_eq_ignore_case(s, "SELL") {
        Some(Side::Sell)
    } else {
        None
    }
}

/// A raw trade as handed in by the caller.
pub struct TradeInput {
    pub timestamp_us: i64,
    pub side: String,
    pub price: String,
    pub size: String,
    pub post_only: bool,
}

/// A validated trade.
#[derive(Clone, Copy, Debug, PartialEq, Eq, Structural)]
pub struct Trade {
    pub timestamp: Timestamp,
    pub side: Side,
    pub price: Decimal,
    pub size: Decimal,
    pub post_only: bool,
}

impl Trade {
    /// Well-formed: valid timestamp and strictly positive exact price
    /// and size.
    pub open spec fn wf(self) -> bool {
        &&& self.timestamp.wf()
        &&& self.price.wf()
        &&& self.size.wf()
        &&& self.price.v() > 0
        &&& self.size.v() > 0
    }
}

/// What validating one raw trade yields: the trade, `None` when the
/// record is skipped (non-positive price or size, or before the cutoff),
/// or a structural error (malformed price or size text, unknown side,
/// timestamp out of range). The side is structural, not venue noise: an
/// unknown side aborts the call even when the trade would afterwards be
/// discarded as pre-cutoff.
pub open spec fn spec_parse_trade(t: TradeInput, cutoff: Timestamp) -> Result<
    Option<Trade>,
    CoreError,
> {
    match spec_parse(t.price@) {
        None => Err(CoreError::InvalidDecimal),
        Some(price) => match spec_parse(t.size@) {
            None => Err(CoreError::InvalidDecimal),
            Some(size) => if size.v() <= 0 || price.v() <= 0 {
                Ok(None)
            } else {
                match side_of_text(t.side@) {
                    None => Err(CoreError::UnknownSide),
                    Some(side) => if !(TS_MIN_US <= t.timestamp_us <= TS_MAX_US) {
                        Err(CoreError::TimestampOutOfRange)
                    } else if t.timestamp_us < cutoff.micros {
                        Ok(None)
                    } else {
                        Ok(
                            Some(
                                Trade {
                                    timestamp: Timestamp { micros: t.timestamp_us },
                                    side,
                                    price,
                                    size,
                                    post_only: t.post_only,
                                },
                            ),
                        )
                    },
                }
            },
        },
    }
}

/// Validate one raw trade, by the rule of [`spec_parse_trade`].
pub fn parse_trade(t: &TradeInput, cutoff: Timestamp) -> (r: Result<Option<Trade>, CoreError>)
    requires
        cutoff.wf(),
    ensures
        r == spec_parse_trade(*t, cutoff),
        r matches Ok(Some(tr)) ==> tr.wf(),
{
    let price = match parse_decimal(t.price.as_str()) {
        Some(p) => p,
        None => {
            return Err(CoreError::InvalidDecimal);
        },
    };
    let size = match parse_decimal(t.size.as_str()) {
        Some(s) => s,
        None => {
            return Err(CoreError::InvalidDecimal);
        },
    };
    if !size.is_positive() || !price.is_positive() {
        return Ok(None);
    }
    let side = match parse_side(t.side.as_str()) {
        Some(s) => s,
        None => {
            return Err(CoreError::UnknownSide);
        },
    };
    let timestamp = match Timestamp::from_micros(t.timestamp_us) {
        Some(ts) => ts,
        None => {
            return Err(CoreError::TimestampOutOfRange);
        },
    };
    if timestamp.micros < cutoff.micros {
        return Ok(None);
    }
    Ok(Some(Trade { timestamp, side, price, size, post_only: t.post_only }))
}

/// What validating a whole batch yields: the surviving trades in input
/// order, or the first structural error.
pub open spec fn spec_collect_trades(ts: Seq<TradeInput>, cutoff: Timestamp) -> Result<
    Seq<Trade>,
    CoreError,
>
    decreases ts.len(),
{
    if ts.len() == 0 {
        Ok(Seq::empty())
    } else {
        match spec_parse_trade(ts[0], cutoff) {
            Err(e) => Err(e),
            Ok(head) => match spec_collect_trades(ts.drop_first(), cutoff) {
                Err(e) => Err(e),
                Ok(rest) => match head {
                    Some(tr) => Ok(seq![tr] + rest),
                    None => Ok(rest),
                },
            },
        }
    }
}

/// Stable insertion of a trade into a sequence sorted by timestamp: the
/// trade goes after every element at or before its instant.
pub open spec fn spec_insert_by_time(t: Trade, s: Seq<Trade>) -> Seq<Trade>
    decreases s.len(),
{
    if s.len() == 0 {
        seq![t]
    } else if s.last().timestamp.micros <= t.timestamp.micros {
        s.push(t)
    } else {
        spec_insert_by_time(t, s.drop_last()).push(s.last())
    }
}

/// Stable sort by timestamp: inserting each trade, in input order, after
/// the trades at or before its instant.
pub open spec fn spec_sort_by_time(s: Seq<Trade>) -> Seq<Trade>
    decreases s.len(),
{
    if s.len() == 0 {
        Seq::empty()
    } else {
        spec_insert_by_time(s.last(), spec_sort_by_time(s.drop_last()))
    }
}

/// Inserting at the position where everything later is strictly after
/// the trade, and everything earlier is at or before it, is exactly the
/// stable insertion.
proof fn lemma_insert_at(s: Seq<Trade>, t: Trade, j: int)
    requires
        0 <= j <= s.len(),
        forall|k: int| j <= k < s.len() ==> s[k].timestamp.micros > t.timestamp.micros,
        j > 0 ==> s[j - 1].timestamp.micros <= t.timestamp.micros,
    ensures
        spec_insert_by_time(t, s) == s.insert(j, t),
    decreases s.len(),
{
    if s.len() == 0 {
        assert(spec_insert_by_time(t, s) =~= s.insert(0, t));
    } else if j == s.len() {
        assert(spec_insert_by_time(t, s) =~= s.insert(j, t));
    } else {
        assert(s.last().timestamp.micros > t.timestamp.micros);
        lemma_insert_at(s.drop_last(), t, j);
        assert(spec_insert_by_time(t, s.drop_last()).push(s.last()) =~= s.drop_last().insert(
            j,
            t,
        ).push(s.last()));
        assert(s.drop_last().insert(j, t).push(s.last()) =~= s.insert(j, t));
    }
}

/// Sort trades ascending by timestamp, keeping the input order of trades
/// at the same instant.
pub fn sort_trades_by_time(input: Vec<Trade>) -> (r: Vec<Trade>)
    requires
        forall|i: int| 0 <= i < input@.len() ==> #[trigger] input@[i].wf(),
    ensures
        r@ == spec_sort_by_time(input@),
        forall|i: int| 0 <= i < r@.len() ==> #[trigger] r@[i].wf(),
        forall|i: int, j: int|
            0 <= i <= j < r@.len() ==> r@[i].timestamp.micros <= r@[j].timestamp.micros,
{
    let mut out: Vec<Trade> = Vec::new();
    let mut i: usize = 0;
    proof {
        assert(input@.take(0) =~= Seq::<Trade>::empty());
    }
    while i < input.len()
        invariant
            0 <= i <= input@.len(),
            out@ == spec_sort_by_time(input@.take(i as int)),
            forall|k: int| 0 <= k < input@.len() ==> #[trigger] input@[k].wf(),
            forall|k: int| 0 <= k < out@.len() ==> #[trigger] out@[k].wf(),
            forall|p: int, q: int|
                0 <= p <= q < out@.len() ==> out@[p].timestamp.micros <= out@[q].timestamp.micros,
        decreases input@.len() - i,
    {
        let t = input[i];
        let mut j: usize = out.len();
        while j > 0 && out[j - 1].timestamp.micros > t.timestamp.micros
            invariant
                0 <= j <= out@.len(),
                forall|k: int|
                    j <= k < out@.len() ==> #[trigger] out@[k].timestamp.micros
                        > t.timestamp.micros,
            decreases j,
        {
            j = j - 1;
        }
        proof {
            lemma_insert_at(out@, t, j as int);
            assert(input@.take(i as int + 1).drop_last() =~= input@.take(i as int));
            assert(input@.take(i as int + 1).last() == input@[i as int]);
        }
        out.insert(j, t);
        i = i + 1;
    }
    proof {
        assert(input@.take(input@.len() as int) =~= input@);
    }
    out
}

/// Validate a raw batch and sort the survivors by time: the trade list
/// the matching engine consumes.
pub fn normalize_trades(ts: &Vec<TradeInput>, cutoff: Timestamp) -> (r: Result<
    Vec<Trade>,
    CoreError,
>)
    requires
        cutoff.wf(),
    ensures
        r matches Ok(v) ==> spec_collect_trades(ts@, cutoff) matches Ok(c) && v@
            == spec_sort_by_time(c),
        r matches Err(e) ==> spec_collect_trades(ts@, cutoff) == Err::<Seq<Trade>, _>(e),
        r matches Ok(v) ==> (forall|i: int| 0 <= i < v@.len() ==> #[trigger] v@[i].wf()) && (
        forall|i: int, j: int|
            0 <= i <= j < v@.len() ==> v@[i].timestamp.micros <= v@[j].timestamp.micros),
{
    let mut collected: Vec<Trade> = Vec::new();
    let mut i: usize = 0;
    proof {
        assert(ts@.skip(0) =~= ts@);
        if spec_collect_trades(ts@, cutoff) is Ok {
            let c = spec_collect_trades(ts@, cutoff)->Ok_0;
            assert(Seq::<Trade>::empty() + c =~= c);
        }
    }
    while i < ts.len()
        invariant
            0 <= i <= ts@.len(),
            cutoff.wf(),
            spec_collect_trades(ts@, cutoff) matches Ok(c) ==> spec_collect_trades(
                ts@.skip(i as int),
                cutoff,
            ) matches Ok(rest) && c == collected@ + rest,
            spec_collect_trades(ts@, cutoff) is Err ==> spec_collect_trades(
                ts@.skip(i as int),
                cutoff,
            ) == spec_collect_trades(ts@, cutoff),
            forall|k: int| 0 <= k < collected@.len() ==> #[trigger] collected@[k].wf(),
        decreases ts@.len() - i,
    {
        proof {
            assert(ts@.skip(i as int)[0] == ts@[i as int]);
            assert(ts@.skip(i as int).drop_first() =~= ts@.skip(i as int + 1));
        }
        match parse_trade(&ts[i], cutoff) {
            Err(e) => {
                return Err(e);
            },
            Ok(Some(tr)) => {
                collected.push(tr);
            },
            Ok(None) => {},
        }
        i = i + 1;
    }
    proof {
        assert(ts@.skip(ts@.len() as int) =~= Seq::<TradeInput>::empty());
        if spec_collect_trades(ts@, cutoff) is Ok {
            let c = spec_collect_trades(ts@, cutoff)->Ok_0;
            assert(c == collected@ + Seq::<Trade>::empty());
            assert(c =~= collected@);
        }
    }
    Ok(sort_trades_by_time(collected))
}

} // verus!
