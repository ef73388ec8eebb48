//! The FIFO matching engine: consumes trades in chronological order,
//! closes the oldest opposite-side lots first, and emits one profit
//! entry per trade.

use vstd::prelude::*;
use crate::decimal::{
    Decimal, spec_add, spec_sub, spec_mul, tdiv, pow10, MAX_SCALE, lemma_spec_add_v,
    lemma_spec_sub_v, lemma_spec_mul_v, lemma_spec_normalize,
};
use crate::errors::CoreError;
use crate::timestamp::Timestamp;
use crate::trades::{Side, Trade};

verus! {

/// An unmatched quantity of a prior trade at a fixed price, awaiting an
/// offsetting trade.
#[derive(Clone, Copy, Debug, PartialEq, Eq, Structural)]
pub struct Lot {
    pub price: Decimal,
    pub size: Decimal,
}

impl Lot {
    /// Well-formed: exact price, and a strictly positive exact size.
    pub open spec fn wf(self) -> bool {
        &&& self.price.wf()
        &&& self.size.wf()
        &&& self.size.v() > 0
    }
}

/// The per-trade output of the engine.
#[derive(Clone, Copy, Debug, PartialEq, Eq, Structural)]
pub struct Entry {
    pub timestamp: Timestamp,
    pub realized_profit: Decimal,
    pub maker_volume: Decimal,
    pub taker_volume: Decimal,
    pub fee: Decimal,
}

impl Entry {
    /// Well-formed: every field exact, the timestamp valid.
    pub open spec fn wf(self) -> bool {
        &&& self.timestamp.wf()
        &&& self.realized_profit.wf()
        &&& self.maker_volume.wf()
        &&& self.taker_volume.wf()
        &&& self.fee.wf()
    }
}

/// All lots of a queue are well-formed.
pub open spec fn lots_wf(q: Seq<Lot>) -> bool {
    forall|i: int| 0 <= i < q.len() ==> #[trigger] q[i].wf()
}

/// Matching one trade's remaining size against the front of the opposite
/// queue until the size or the queue is exhausted. For a buy the profit
/// of a match is (lot price - trade price) x matched size; for a sell it
/// is (trade price - lot price) x matched size. Yields the accumulated
/// realized profit, the unmatched remainder, and the surviving queue;
/// `None` when a decimal computation overflows.
pub open spec fn spec_match_queue(
    price: Decimal,
    remaining: Decimal,
    realized: Decimal,
    queue: Seq<Lot>,
    buy: bool,
) -> Option<(Decimal, Decimal, Seq<Lot>)>
    decreases queue.len(),
{
    if remaining.v() <= 0 || queue.len() == 0 {
        Some((realized, remaining, queue))
    } else {
        let front = queue[0];
        let matched = if remaining.v() <= front.size.v() {
            remaining
        } else {
            front.size
        };
        let diff = if buy {
            spec_sub(front.price, price)
        } else {
            spec_sub(price, front.price)
        };
        match diff {
            None => None,
            Some(d) => match spec_mul(d, matched) {
                None => None,
                Some(gain) => match spec_add(realized, gain) {
                    None => None,
                    Some(realized2) => match spec_sub(front.size, matched) {
                        None => None,
                        Some(front2) => match spec_sub(remaining, matched) {
                            None => None,
                            Some(remaining2) => if front2.v() <= 0 {
                                spec_match_queue(price, remaining2, realized2, queue.drop_first(), buy)
                            } else {
                                Some(
                                    (
                                        realized2,
                                        remaining2,
                                        queue.drop_first().insert(
                                            0,
                                            Lot { price: front.price, size: front2 },
                                        ),
                                    ),
                                )
                            },
                        },
                    },
                },
            },
        }
    }
}

/// Processing one trade: match against the opposite queue, open a new
/// lot from any remainder, and emit the trade's entry. The notional is
/// price x size; a post-only trade counts it as maker volume and pays
/// the maker fee rate, any other counts it as taker volume and pays the
/// taker rate.
pub open spec fn spec_trade_step(
    t: Trade,
    long: Seq<Lot>,
    short: Seq<Lot>,
    maker_fee: Decimal,
    taker_fee: Decimal,
) -> Option<(Entry, Seq<Lot>, Seq<Lot>)> {
    let zero = Decimal { mantissa: 0, scale: 0 };
    let opposite = if t.side == Side::Buy {
        short
    } else {
        long
    };
    match spec_match_queue(t.price, t.size, zero, opposite, t.side == Side::Buy) {
        None => None,
        Some((realized, rem, opposite2)) => {
            let new_lot = Lot { price: t.price, size: rem };
            let long2 = if t.side == Side::Buy {
                if rem.v() > 0 {
                    long.push(new_lot)
                } else {
                    long
                }
            } else {
                long
            };
            let short2 = if t.side == Side::Sell {
                if rem.v() > 0 {
                    short.push(new_lot)
                } else {
                    short
                }
            } else {
                short
            };
            let long3 = if t.side == Side::Buy {
                long2
            } else {
                opposite2
            };
            let short3 = if t.side == Side::Buy {
                opposite2
            } else {
                short2
            };
            match spec_mul(t.price, t.size) {
                None => None,
                Some(notional) => match spec_mul(
                    notional,
                    if t.post_only {
                        maker_fee
                    } else {
                        taker_fee
                    },
                ) {
                    None => None,
                    Some(fee) => Some(
                        (
                            Entry {
                                timestamp: t.timestamp,
                                realized_profit: realized,
                                maker_volume: if t.post_only {
                                    notional
                                } else {
                                    zero
                                },
                                taker_volume: if t.post_only {
                                    zero
                                } else {
                                    notional
                                },
                                fee,
                            },
                            long3,
                            short3,
                        ),
                    ),
                },
            }
        },
    }
}

/// Processing a whole trade sequence from empty queues: the entries in
/// trade order and the final long and short queues; `None` when a
/// decimal computation overflows.
pub open spec fn spec_build_entries(
    trades: Seq<Trade>,
    maker_fee: Decimal,
    taker_fee: Decimal,
) -> Option<(Seq<Entry>, Seq<Lot>, Seq<Lot>)>
    decreases trades.len(),
{
    if trades.len() == 0 {
        Some((Seq::empty(), Seq::empty(), Seq::empty()))
    } else {
        match spec_build_entries(trades.drop_last(), maker_fee, taker_fee) {
            None => None,
            Some((es, long, short)) => match spec_trade_step(
                trades.last(),
                long,
                short,
                maker_fee,
                taker_fee,
            ) {
                None => None,
                Some((e, long2, short2)) => Some((es.push(e), long2, short2)),
            },
        }
    }
}

/// Run the FIFO matching engine over time-ordered trades. Returns the
/// per-trade entries, or an overflow error exactly when the specified
/// computation overflows.
pub fn build_entries(trades: &Vec<Trade>, maker_fee: Decimal, taker_fee: Decimal) -> (r: Result<
    Vec<Entry>,
    CoreError,
>)
    requires
        forall|i: int| 0 <= i < trades@.len() ==> #[trigger] trades@[i].wf(),
        maker_fee.wf(),
        taker_fee.wf(),
    ensures
        r matches Ok(es) ==> spec_build_entries(trades@, maker_fee, taker_fee) matches Some(out)
            && es@ == out.0,
        r is Err ==> spec_build_entries(trades@, maker_fee, taker_fee) is None && r == Err::<
            Vec<Entry>,
            _,
        >(CoreError::Overflow),
        r matches Ok(es) ==> forall|i: int| 0 <= i < es@.len() ==> #[trigger] es@[i].wf(),
        r matches Ok(es) ==> es@.len() == trades@.len(),
{
    let mut long: Vec<Lot> = Vec::new();
    let mut short: Vec<Lot> = Vec::new();
    let mut entries: Vec<Entry> = Vec::new();
    let mut i: usize = 0;
    proof {
        assert(trades@.take(0) =~= Seq::<Trade>::empty());
    }
    while i < trades.len()
        invariant
            0 <= i <= trades@.len(),
            forall|k: int| 0 <= k < trades@.len() ==> #[trigger] trades@[k].wf(),
            maker_fee.wf(),
            taker_fee.wf(),
            spec_build_entries(trades@.take(i as int), maker_fee, taker_fee) == Some(
                (entries@, long@, short@),
            ),
            lots_wf(long@),
            lots_wf(short@),
            forall|k: int| 0 <= k < entries@.len() ==> #[trigger] entries@[k].wf(),
            entries@.len() == i,
        decreases trades@.len() - i,
    {
        let t = trades[i];
        let is_buy = matches!(t.side, Side::Buy);
        let zero = Decimal::zero();
        let mut realized = zero;
        let mut remaining = t.size;
        let ghost long0 = long@;
        let ghost short0 = short@;
        let ghost opposite0 = if is_buy { short@ } else { long@ };
        proof {
            assert(trades@.take(i as int + 1).drop_last() =~= trades@.take(i as int));
            assert(trades@.take(i as int + 1).last() == trades@[i as int]);
            assert(trades@[i as int].wf());
            assert(zero.mantissa == 0 && zero.scale == 0);
            assert(zero == (Decimal { mantissa: 0, scale: 0 }));
        }
        loop
            invariant
                0 <= i < trades@.len(),
                t == trades@[i as int],
                trades@.take(i as int + 1).drop_last() == trades@.take(i as int),
                trades@.take(i as int + 1).last() == t,
                forall|k: int| 0 <= k < trades@.len() ==> #[trigger] trades@[k].wf(),
                maker_fee.wf(),
                taker_fee.wf(),
                is_buy == (t.side == Side::Buy),
                zero == (Decimal { mantissa: 0, scale: 0 }),
                spec_build_entries(trades@.take(i as int), maker_fee, taker_fee) == Some(
                    (entries@, long0, short0),
                ),
                entries@.len() == i,
                forall|k: int| 0 <= k < entries@.len() ==> #[trigger] entries@[k].wf(),
                opposite0 == (if is_buy { short0 } else { long0 }),
                is_buy ==> long@ == long0,
                !is_buy ==> short@ == short0,
                t.wf(),
                realized.wf(),
                remaining.wf(),
                lots_wf(long@),
                lots_wf(short@),
                spec_match_queue(t.price, t.size, zero, opposite0, is_buy) == spec_match_queue(
                    t.price,
                    remaining,
                    realized,
                    if is_buy { short@ } else { long@ },
                    is_buy,
                ),
            ensures
                0 <= i < trades@.len(),
                t == trades@[i as int],
                trades@.take(i as int + 1).drop_last() == trades@.take(i as int),
                trades@.take(i as int + 1).last() == t,
                forall|k: int| 0 <= k < trades@.len() ==> #[trigger] trades@[k].wf(),
                maker_fee.wf(),
                taker_fee.wf(),
                is_buy == (t.side == Side::Buy),
                zero == (Decimal { mantissa: 0, scale: 0 }),
                spec_build_entries(trades@.take(i as int), maker_fee, taker_fee) == Some(
                    (entries@, long0, short0),
                ),
                entries@.len() == i,
                forall|k: int| 0 <= k < entries@.len() ==> #[trigger] entries@[k].wf(),
                opposite0 == (if is_buy { short0 } else { long0 }),
                is_buy ==> long@ == long0,
                !is_buy ==> short@ == short0,
                t.wf(),
                realized.wf(),
                remaining.wf(),
                lots_wf(long@),
                lots_wf(short@),
                spec_match_queue(t.price, t.size, zero, opposite0, is_buy) == Some(
                    (realized, remaining, if is_buy { short@ } else { long@ }),
                ),
            decreases (if is_buy {
                short@.len()
            } else {
                long@.len()
            }), (if remaining.v() <= 0 {
                0int
            } else {
                1int
            }),
        {
            if !remaining.is_positive() {
                break;
            }
            let empty = if is_buy {
                short.len() == 0
            } else {
                long.len() == 0
            };
            if empty {
                break;
            }
            let ghost queue0 = if is_buy { short@ } else { long@ };
            let front = if is_buy {
                short[0]
            } else {
                long[0]
            };
            proof {
                if is_buy {
                    assert(short@[0].wf());
                } else {
                    assert(long@[0].wf());
                }
            }
            let matched = if remaining.le(&front.size) {
                remaining
            } else {
                front.size
            };
            let diff = if is_buy {
                front.price.checked_sub(t.price)
            } else {
                t.price.checked_sub(front.price)
            };
            let d = match diff {
                Some(d) => d,
                None => {
                    proof {
                        lemma_build_none_persists(trades@, i as int + 1, maker_fee, taker_fee);
                    }
                    return Err(CoreError::Overflow);
                },
            };
            let gain = match d.checked_mul(matched) {
                Some(g) => g,
                None => {
                    proof {
                        lemma_build_none_persists(trades@, i as int + 1, maker_fee, taker_fee);
                    }
                    return Err(CoreError::Overflow);
                },
            };
            let realized2 = match realized.checked_add(gain) {
                Some(x) => x,
                None => {
                    proof {
                        lemma_build_none_persists(trades@, i as int + 1, maker_fee, taker_fee);
                    }
                    return Err(CoreError::Overflow);
                },
            };
            let front2 = match front.size.checked_sub(matched) {
                Some(x) => x,
                None => {
                    proof {
                        lemma_build_none_persists(trades@, i as int + 1, maker_fee, taker_fee);
                    }
                    return Err(CoreError::Overflow);
                },
            };
            let remaining2 = match remaining.checked_sub(matched) {
                Some(x) => x,
                None => {
                    proof {
                        lemma_build_none_persists(trades@, i as int + 1, maker_fee, taker_fee);
                    }
                    return Err(CoreError::Overflow);
                },
            };
            if is_buy {
                short.remove(0);
            } else {
                long.remove(0);
            }
            proof {
                assert((if is_buy { short@ } else { long@ }) =~= queue0.drop_first());
            }
            if front2.is_positive() {
                let updated = Lot { price: front.price, size: front2 };
                if is_buy {
                    short.insert(0, updated);
                } else {
                    long.insert(0, updated);
                }
                proof {
                    assert((if is_buy { short@ } else { long@ }) =~= queue0.drop_first().insert(
                        0,
                        updated,
                    ));
                }
            }
            realized = realized2;
            remaining = remaining2;
        }
        if remaining.is_positive() {
            let new_lot = Lot { price: t.price, size: remaining };
            if is_buy {
                long.push(new_lot);
            } else {
                short.push(new_lot);
            }
        }
        let notional = match t.price.checked_mul(t.size) {
            Some(n) => n,
            None => {
                proof {
                    lemma_build_none_persists(trades@, i as int + 1, maker_fee, taker_fee);
                }
                return Err(CoreError::Overflow);
            },
        };
        let rate = if t.post_only {
            maker_fee
        } else {
            taker_fee
        };
        let fee = match notional.checked_mul(rate) {
            Some(f) => f,
            None => {
                proof {
                    lemma_build_none_persists(trades@, i as int + 1, maker_fee, taker_fee);
                }
                return Err(CoreError::Overflow);
            },
        };
        let entry = Entry {
            timestamp: t.timestamp,
            realized_profit: realized,
            maker_volume: if t.post_only {
                notional
            } else {
                zero
            },
            taker_volume: if t.post_only {
                zero
            } else {
                notional
            },
            fee,
        };
        entries.push(entry);
        i = i + 1;
    }
    proof {
        assert(trades@.take(trades@.len() as int) =~= trades@);
    }
    Ok(entries)
}

/// Law: a trade's entry books its whole notional on exactly one side.
/// A post-only trade of size S at price P has makerVolume = S x P,
/// takerVolume = 0 and fee = makerVolume x makerFeeRate; any other trade
/// has the symmetric taker values. (Each product is truncated at
/// MAX_SCALE fractional digits; within the scale bound it is exact.)
pub proof fn lemma_entry_volumes(
    t: Trade,
    long: Seq<Lot>,
    short: Seq<Lot>,
    maker_fee: Decimal,
    taker_fee: Decimal,
)
    requires
        t.wf(),
        maker_fee.wf(),
        taker_fee.wf(),
        spec_trade_step(t, long, short, maker_fee, taker_fee) is Some,
    ensures
        ({
            let e = spec_trade_step(t, long, short, maker_fee, taker_fee)->Some_0.0;
            let notional_v = tdiv(t.price.v() * t.size.v(), pow10(MAX_SCALE as nat));
            &&& t.post_only ==> e.taker_volume.v() == 0 && e.maker_volume.v() == notional_v
                && e.fee.v() == tdiv(e.maker_volume.v() * maker_fee.v(), pow10(MAX_SCALE as nat))
            &&& !t.post_only ==> e.maker_volume.v() == 0 && e.taker_volume.v() == notional_v
                && e.fee.v() == tdiv(e.taker_volume.v() * taker_fee.v(), pow10(MAX_SCALE as nat))
            &&& t.price.scale + t.size.scale <= MAX_SCALE ==> (if t.post_only {
                e.maker_volume
            } else {
                e.taker_volume
            }).v() * pow10(MAX_SCALE as nat) == t.price.v() * t.size.v()
            &&& (t.post_only && t.price.scale + t.size.scale + maker_fee.scale <= MAX_SCALE)
                ==> e.fee.v() * pow10(MAX_SCALE as nat) == e.maker_volume.v() * maker_fee.v()
            &&& (!t.post_only && t.price.scale + t.size.scale + taker_fee.scale <= MAX_SCALE)
                ==> e.fee.v() * pow10(MAX_SCALE as nat) == e.taker_volume.v() * taker_fee.v()
        }),
{
    let zero = Decimal { mantissa: 0, scale: 0 };
    proof_zero_value(zero);
    let notional = spec_mul(t.price, t.size)->Some_0;
    lemma_spec_mul_v(t.price, t.size);
    let rate = if t.post_only {
        maker_fee
    } else {
        taker_fee
    };
    let s2 = t.price.scale + t.size.scale;
    if s2 <= MAX_SCALE {
        // the notional's canonical scale cannot exceed the sum of the
        // factors' scales, so the fee product stays within the cap
        lemma_spec_normalize(t.price.mantissa * t.size.mantissa, s2 as nat);
        assert(notional.scale <= s2);
    }
    lemma_spec_mul_v(notional, rate);
}

/// Law: a buy of size S followed by a sell of the same size, with no
/// prior inventory, realizes S x (P2 - P1) in total and leaves both
/// queues empty. (The product is truncated at MAX_SCALE fractional
/// digits.)
pub proof fn lemma_round_trip(buy: Trade, sell: Trade, maker_fee: Decimal, taker_fee: Decimal)
    requires
        buy.wf(),
        sell.wf(),
        maker_fee.wf(),
        taker_fee.wf(),
        buy.side == Side::Buy,
        sell.side == Side::Sell,
        sell.size == buy.size,
        buy.price.v() < sell.price.v(),
        spec_build_entries(seq![buy, sell], maker_fee, taker_fee) is Some,
    ensures
        ({
            let (es, long, short) = spec_build_entries(seq![buy, sell], maker_fee, taker_fee)->Some_0;
            &&& es.len() == 2
            &&& long.len() == 0
            &&& short.len() == 0
            &&& es[0].realized_profit.v() == 0
            &&& es[1].realized_profit.v() == tdiv(
                (sell.price.v() - buy.price.v()) * buy.size.v(),
                pow10(MAX_SCALE as nat),
            )
            &&& (if buy.price.scale >= sell.price.scale {
                buy.price.scale
            } else {
                sell.price.scale
            }) + buy.size.scale <= MAX_SCALE ==> es[1].realized_profit.v() * pow10(
                MAX_SCALE as nat,
            ) == (sell.price.v() - buy.price.v()) * buy.size.v()
        }),
{
    let zero = Decimal { mantissa: 0, scale: 0 };
    proof_zero_value(zero);
    let trades = seq![buy, sell];
    assert(trades.drop_last() =~= seq![buy]);
    assert(trades.last() == sell);
    assert(seq![buy].drop_last() =~= Seq::<Trade>::empty());
    assert(seq![buy].last() == buy);
    assert(spec_build_entries(Seq::<Trade>::empty(), maker_fee, taker_fee) == Some(
        (Seq::<Entry>::empty(), Seq::<Lot>::empty(), Seq::<Lot>::empty()),
    ));
    // first step: the buy against empty queues opens one long lot
    let step1 = spec_trade_step(buy, Seq::<Lot>::empty(), Seq::<Lot>::empty(), maker_fee, taker_fee);
    assert(spec_match_queue(buy.price, buy.size, zero, Seq::<Lot>::empty(), true) == Some(
        (zero, buy.size, Seq::<Lot>::empty()),
    ));
    assert(spec_build_entries(seq![buy], maker_fee, taker_fee) is Some);
    assert(step1 is Some);
    let (e0, long1, short1) = step1->Some_0;
    let lot = Lot { price: buy.price, size: buy.size };
    assert(long1 =~= seq![lot]);
    assert(short1 =~= Seq::<Lot>::empty());
    assert(e0.realized_profit == zero);
    // second step: the sell closes the lot exactly
    let step2 = spec_trade_step(sell, long1, short1, maker_fee, taker_fee);
    assert(step2 is Some);
    assert(seq![lot][0] == lot);
    let diff = spec_sub(sell.price, buy.price)->Some_0;
    lemma_spec_sub_v(sell.price, buy.price);
    let tmax: u32 = if sell.price.scale >= buy.price.scale {
        sell.price.scale
    } else {
        buy.price.scale
    };
    if tmax + buy.size.scale <= MAX_SCALE {
        // the difference's canonical scale is at most the larger operand
        // scale, so the profit product stays within the cap
        lemma_spec_normalize(
            sell.price.at_scale(tmax as nat) + buy.price.spec_neg().at_scale(tmax as nat),
            tmax as nat,
        );
        assert(diff.scale <= tmax);
    }
    let gain = spec_mul(diff, sell.size)->Some_0;
    lemma_spec_mul_v(diff, sell.size);
    let realized2 = spec_add(zero, gain)->Some_0;
    lemma_spec_add_v(zero, gain);
    let front2 = spec_sub(buy.size, sell.size)->Some_0;
    lemma_spec_sub_v(buy.size, sell.size);
    assert(front2.v() == 0);
    let remaining2 = spec_sub(sell.size, sell.size)->Some_0;
    lemma_spec_sub_v(sell.size, sell.size);
    assert(remaining2.v() == 0);
    assert(seq![lot].drop_first() =~= Seq::<Lot>::empty());
    assert(spec_match_queue(sell.price, remaining2, realized2, Seq::<Lot>::empty(), false) == Some(
        (realized2, remaining2, Seq::<Lot>::empty()),
    ));
    assert(spec_match_queue(sell.price, sell.size, zero, seq![lot], false) == Some(
        (realized2, remaining2, Seq::<Lot>::empty()),
    ));
    let (e1, long2, short2) = step2->Some_0;
    assert(long2 =~= Seq::<Lot>::empty());
    assert(short2 =~= Seq::<Lot>::empty());
    assert(e1.realized_profit == realized2);
    assert(realized2.v() == gain.v());
    let (es, longf, shortf) = spec_build_entries(trades, maker_fee, taker_fee)->Some_0;
    assert(es =~= Seq::<Entry>::empty().push(e0).push(e1));
    assert(es[0] == e0);
    assert(es[1] == e1);
}

/// The zero decimal's value is zero.
proof fn proof_zero_value(zero: Decimal)
    requires
        zero == (Decimal { mantissa: 0, scale: 0 }),
    ensures
        zero.v() == 0,
{
    vstd::arithmetic::mul::lemma_mul_by_zero_is_zero(pow10((MAX_SCALE - zero.scale) as nat));
}

/// Once the engine's run has overflowed on a prefix, the whole run
/// overflows.
proof fn lemma_build_none_persists(trades: Seq<Trade>, i: int, maker_fee: Decimal, taker_fee: Decimal)
    requires
        0 <= i <= trades.len(),
        spec_build_entries(trades.take(i), maker_fee, taker_fee) is None,
    ensures
        spec_build_entries(trades, maker_fee, taker_fee) is None,
    decreases trades.len() - i,
{
    if i == trades.len() {
        assert(trades.take(i) =~= trades);
    } else {
        assert(trades.take(i + 1).drop_last() =~= trades.take(i));
        lemma_build_none_persists(trades, i + 1, maker_fee, taker_fee);
    }
}

} // verus!
