//! The fill aggregator: validating raw fills, grouping them by order id
//! in first-seen order, and the per-order derived values (total filled
//! size, size-weighted average price, earliest and latest fill times).

use vstd::prelude::*;
use crate::decimal::{Decimal, spec_add, spec_mul, spec_div};
use crate::errors::CoreError;
use crate::fields::{FieldVal, spec_dec_of_field, dec_of_field};
use crate::text::str_eq;
use crate::timestamp::{Timestamp, spec_parse_datetime, parse_datetime_text};

verus! {

/// One validated fill: positive size and price, and the fill's trade
/// time where its text parses.
#[derive(Clone, Copy, Debug, PartialEq, Eq, Structural)]
pub struct FillData {
    pub size: Decimal,
    pub price: Decimal,
    pub trade_time: Option<Timestamp>,
}

impl FillData {
    /// Well-formed: exact positive size and price, valid time if any.
    pub open spec fn wf(self) -> bool {
        &&& self.size.wf()
        &&& self.size.v() > 0
        &&& self.price.wf()
        &&& self.price.v() > 0
        &&& (self.trade_time matches Some(t) ==> t.wf())
    }
}

/// A raw fill as the boundary hands it over.
pub struct RawFill {
    pub order_id: Option<String>,
    pub trade_time: Option<String>,
    pub size: FieldVal,
    pub base_size: FieldVal,
    pub price: FieldVal,
    pub unit_price: FieldVal,
    pub average_price: FieldVal,
}

/// The order id a fill belongs to: present and non-empty, else the fill
/// is dropped.
pub open spec fn spec_fill_id(f: RawFill) -> Option<Seq<char>> {
    match f.order_id {
        Some(s) => if s@.len() > 0 {
            Some(s@)
        } else {
            None
        },
        None => None,
    }
}

/// The fill's validated data: size from the size field, else its base
/// alias; price from the price field, else the unit then average
/// aliases; dropped unless both resolve to positive decimals.
pub open spec fn spec_fill_data(f: RawFill) -> Option<FillData> {
    let size = match spec_dec_of_field(f.size) {
        Some(d) => Some(d),
        None => spec_dec_of_field(f.base_size),
    };
    let price = match spec_dec_of_field(f.price) {
        Some(d) => Some(d),
        None => match spec_dec_of_field(f.unit_price) {
            Some(d) => Some(d),
            None => spec_dec_of_field(f.average_price),
        },
    };
    match (size, price) {
        (Some(sz), Some(pr)) => if sz.v() <= 0 || pr.v() <= 0 {
            None
        } else {
            Some(
                FillData {
                    size: sz,
                    price: pr,
                    trade_time: match f.trade_time {
                        Some(t) => spec_parse_datetime(t@),
                        None => None,
                    },
                },
            )
        },
        _ => None,
    }
}

/// The index of the group holding this key, or -1.
pub open spec fn spec_find_key(g: Seq<(Seq<char>, Seq<FillData>)>, key: Seq<char>) -> int
    decreases g.len(),
{
    if g.len() == 0 {
        -1
    } else if g[0].0 == key {
        0
    } else {
        let r = spec_find_key(g.drop_first(), key);
        if r < 0 {
            -1
        } else {
            r + 1
        }
    }
}

/// Where the key sits, given a witness position.
pub proof fn lemma_find_key_at(g: Seq<(Seq<char>, Seq<FillData>)>, key: Seq<char>, j: int)
    requires
        0 <= j < g.len(),
        g[j].0 == key,
        forall|k: int| 0 <= k < j ==> g[k].0 != key,
    ensures
        spec_find_key(g, key) == j,
    decreases g.len(),
{
    if j > 0 {
        lemma_find_key_at(g.drop_first(), key, j - 1);
    }
}

/// A key held by no group is not found.
pub proof fn lemma_find_key_none(g: Seq<(Seq<char>, Seq<FillData>)>, key: Seq<char>)
    requires
        forall|k: int| 0 <= k < g.len() ==> g[k].0 != key,
    ensures
        spec_find_key(g, key) == -1,
    decreases g.len(),
{
    if g.len() > 0 {
        lemma_find_key_none(g.drop_first(), key);
    }
}

/// The found index names the key.
pub proof fn lemma_find_key_sound(g: Seq<(Seq<char>, Seq<FillData>)>, key: Seq<char>)
    ensures
        spec_find_key(g, key) >= 0 ==> spec_find_key(g, key) < g.len() && g[spec_find_key(
            g,
            key,
        )].0 == key,
    decreases g.len(),
{
    if g.len() > 0 && g[0].0 != key {
        lemma_find_key_sound(g.drop_first(), key);
    }
}

/// Grouping the valid fills by order id: groups appear in first-seen
/// order, and each group's fills keep input order.
pub open spec fn spec_group_fills(fills: Seq<RawFill>) -> Seq<(Seq<char>, Seq<FillData>)>
    decreases fills.len(),
{
    if fills.len() == 0 {
        Seq::empty()
    } else {
        let g = spec_group_fills(fills.drop_last());
        let f = fills.last();
        match spec_fill_id(f) {
            None => g,
            Some(id) => match spec_fill_data(f) {
                None => g,
                Some(fd) => {
                    let j = spec_find_key(g, id);
                    if j >= 0 {
                        g.update(j, (id, g[j].1.push(fd)))
                    } else {
                        g.push((id, seq![fd]))
                    }
                },
            },
        }
    }
}

/// All groups hold only well-formed fills.
pub open spec fn groups_wf(g: Seq<(Seq<char>, Seq<FillData>)>) -> bool {
    forall|i: int, j: int|
        0 <= i < g.len() && 0 <= j < g[i].1.len() ==> (#[trigger] g[i].1[j]).wf()
}

/// Validate one fill.
pub fn parse_fill(f: &RawFill) -> (r: Option<(String, FillData)>)
    ensures
        r is Some <==> (spec_fill_id(*f) is Some && spec_fill_data(*f) is Some),
        r matches Some(p) ==> Some(p.0@) == spec_fill_id(*f) && Some(p.1) == spec_fill_data(*f)
            && p.1.wf(),
{
    let id = match &f.order_id {
        Some(s) => {
            if s.unicode_len() == 0 {
                return None;
            }
            s.clone()
        },
        None => {
            return None;
        },
    };
    let size = match dec_of_field(&f.size) {
        Some(d) => Some(d),
        None => dec_of_field(&f.base_size),
    };
    let price = match dec_of_field(&f.price) {
        Some(d) => Some(d),
        None => match dec_of_field(&f.unit_price) {
            Some(d) => Some(d),
            None => dec_of_field(&f.average_price),
        },
    };
    let (sz, pr) = match (size, price) {
        (Some(sz), Some(pr)) => (sz, pr),
        _ => {
            return None;
        },
    };
    if !sz.is_positive() || !pr.is_positive() {
        return None;
    }
    let tt = match &f.trade_time {
        Some(t) => parse_datetime_text(t.as_str()),
        None => None,
    };
    Some((id, FillData { size: sz, price: pr, trade_time: tt }))
}

/// Group the valid fills by order id, as [`spec_group_fills`] lays down.
pub fn collect_fills(fills: &Vec<RawFill>) -> (r: Vec<(String, Vec<FillData>)>)
    ensures
        r@.len() == spec_group_fills(fills@).len(),
        forall|i: int|
            0 <= i < r@.len() ==> (#[trigger] r@[i]).0@ == spec_group_fills(fills@)[i].0 && r@[i].1@
                == spec_group_fills(fills@)[i].1,
        groups_wf(spec_group_fills(fills@)),
{
    let mut groups: Vec<(String, Vec<FillData>)> = Vec::new();
    let mut i: usize = 0;
    proof {
        assert(fills@.take(0) =~= Seq::<RawFill>::empty());
    }
    while i < fills.len()
        invariant
            0 <= i <= fills@.len(),
            groups@.len() == spec_group_fills(fills@.take(i as int)).len(),
            forall|k: int|
                0 <= k < groups@.len() ==> (#[trigger] groups@[k]).0@ == spec_group_fills(
                    fills@.take(i as int),
                )[k].0 && groups@[k].1@ == spec_group_fills(fills@.take(i as int))[k].1,
            groups_wf(spec_group_fills(fills@.take(i as int))),
        decreases fills@.len() - i,
    {
        let ghost gprev = spec_group_fills(fills@.take(i as int));
        proof {
            assert(fills@.take(i as int + 1).drop_last() =~= fills@.take(i as int));
            assert(fills@.take(i as int + 1).last() == fills@[i as int]);
        }
        match parse_fill(&fills[i]) {
            None => {},
            Some((id, fd)) => {
                let mut j: usize = 0;
                let mut found = false;
                while j < groups.len() && !found
                    invariant
                        0 <= j <= groups@.len(),
                        groups@.len() == gprev.len(),
                        forall|k: int|
                            0 <= k < groups@.len() ==> (#[trigger] groups@[k]).0@ == gprev[k].0
                                && groups@[k].1@ == gprev[k].1,
                        found ==> j < groups@.len() && groups@[j as int].0@ == id@,
                        forall|k: int| 0 <= k < j ==> (#[trigger] groups@[k]).0@ != id@,
                    decreases groups@.len() - j + (if found {
                        0int
                    } else {
                        1int
                    }),
                {
                    if str_eq(groups[j].0.as_str(), id.as_str()) {
                        found = true;
                    } else {
                        j = j + 1;
                    }
                }
                proof {
                    if found {
                        assert forall|k: int| 0 <= k < j implies gprev[k].0 != id@ by {
                            assert(groups@[k].0@ == gprev[k].0);
                        }
                        lemma_find_key_at(gprev, id@, j as int);
                    } else {
                        assert forall|k: int| 0 <= k < gprev.len() implies gprev[k].0 != id@ by {
                            assert(groups@[k].0@ == gprev[k].0);
                        }
                        lemma_find_key_none(gprev, id@);
                    }
                }
                if found {
                    let mut slot = groups.remove(j);
                    slot.1.push(fd);
                    groups.insert(j, slot);
                    proof {
                        let gnew = gprev.update(j as int, (id@, gprev[j as int].1.push(fd)));
                        assert forall|k: int| 0 <= k < groups@.len() implies (#[trigger] groups@[k]).0@
                            == gnew[k].0 && groups@[k].1@ == gnew[k].1 by {
                            assert(groups@ =~= groups@);
                        }
                    }
                } else {
                    let mut single: Vec<FillData> = Vec::new();
                    single.push(fd);
                    groups.push((id, single));
                    proof {
                        assert(single@ =~= seq![fd]);
                    }
                }
            },
        }
        i = i + 1;
    }
    proof {
        assert(fills@.take(fills@.len() as int) =~= fills@);
    }
    groups
}

/// The sum of the group's fill sizes, in order; `None` on overflow.
pub open spec fn spec_sum_sizes(fs: Seq<FillData>) -> Option<Decimal>
    decreases fs.len(),
{
    if fs.len() == 0 {
        Some(Decimal { mantissa: 0, scale: 0 })
    } else {
        match spec_sum_sizes(fs.drop_last()) {
            None => None,
            Some(acc) => spec_add(acc, fs.last().size),
        }
    }
}

/// Sum the group's fill sizes.
pub fn sum_sizes(fs: &Vec<FillData>) -> (r: Result<Decimal, CoreError>)
    requires
        forall|i: int| 0 <= i < fs@.len() ==> (#[trigger] fs@[i]).wf(),
    ensures
        r matches Ok(d) ==> spec_sum_sizes(fs@) == Some(d) && d.wf(),
        r is Err ==> spec_sum_sizes(fs@) is None && r == Err::<Decimal, _>(CoreError::Overflow),
{
    let mut acc = Decimal::zero();
    let mut i: usize = 0;
    proof {
        assert(fs@.take(0) =~= Seq::<FillData>::empty());
    }
    while i < fs.len()
        invariant
            0 <= i <= fs@.len(),
            forall|k: int| 0 <= k < fs@.len() ==> (#[trigger] fs@[k]).wf(),
            acc.wf(),
            spec_sum_sizes(fs@.take(i as int)) == Some(acc),
        decreases fs@.len() - i,
    {
        proof {
            assert(fs@.take(i as int + 1).drop_last() =~= fs@.take(i as int));
            assert(fs@.take(i as int + 1).last() == fs@[i as int]);
            assert(fs@[i as int].wf());
        }
        acc = match acc.checked_add(fs[i].size) {
            Some(x) => x,
            None => {
                proof {
                    lemma_sum_sizes_none(fs@, i as int + 1);
                }
                return Err(CoreError::Overflow);
            },
        };
        i = i + 1;
    }
    proof {
        assert(fs@.take(fs@.len() as int) =~= fs@);
    }
    Ok(acc)
}

/// Once a prefix of the sizes fails to sum, the whole group does.
proof fn lemma_sum_sizes_none(fs: Seq<FillData>, i: int)
    requires
        0 <= i <= fs.len(),
        spec_sum_sizes(fs.take(i)) is None,
    ensures
        spec_sum_sizes(fs) is None,
    decreases fs.len() - i,
{
    if i == fs.len() {
        assert(fs.take(i) =~= fs);
    } else {
        assert(fs.take(i + 1).drop_last() =~= fs.take(i));
        lemma_sum_sizes_none(fs, i + 1);
    }
}

/// The running sums of the average-price computation: total size and
/// total size x price, in order; `None` on overflow.
pub open spec fn spec_avg_sums(fs: Seq<FillData>) -> Option<(Decimal, Decimal)>
    decreases fs.len(),
{
    if fs.len() == 0 {
        Some((Decimal { mantissa: 0, scale: 0 }, Decimal { mantissa: 0, scale: 0 }))
    } else {
        match spec_avg_sums(fs.drop_last()) {
            None => None,
            Some((ts, tv)) => {
                let f = fs.last();
                match spec_add(ts, f.size) {
                    None => None,
                    Some(ts2) => match spec_mul(f.size, f.price) {
                        None => None,
                        Some(v) => match spec_add(tv, v) {
                            None => None,
                            Some(tv2) => Some((ts2, tv2)),
                        },
                    },
                }
            },
        }
    }
}

/// The size-weighted average fill price: sum(size x price) / sum(size)
/// over the group, absent when either sum is not positive; the outer
/// `None` marks overflow.
pub open spec fn spec_avg_price(fs: Seq<FillData>) -> Option<Option<Decimal>> {
    match spec_avg_sums(fs) {
        None => None,
        Some((ts, tv)) => if ts.v() > 0 && tv.v() > 0 {
            match spec_div(tv, ts) {
                None => None,
                Some(d) => Some(Some(d)),
            }
        } else {
            Some(None)
        },
    }
}

/// Compute the group's size-weighted average fill price.
pub fn average_fill_price(fs: &Vec<FillData>) -> (r: Result<Option<Decimal>, CoreError>)
    requires
        forall|i: int| 0 <= i < fs@.len() ==> (#[trigger] fs@[i]).wf(),
    ensures
        r matches Ok(o) ==> spec_avg_price(fs@) == Some(o) && (o matches Some(d) ==> d.wf()),
        r is Err ==> spec_avg_price(fs@) is None && r == Err::<Option<Decimal>, _>(
            CoreError::Overflow,
        ),
{
    let mut ts = Decimal::zero();
    let mut tv = Decimal::zero();
    let mut i: usize = 0;
    proof {
        assert(fs@.take(0) =~= Seq::<FillData>::empty());
    }
    while i < fs.len()
        invariant
            0 <= i <= fs@.len(),
            forall|k: int| 0 <= k < fs@.len() ==> (#[trigger] fs@[k]).wf(),
            ts.wf(),
            tv.wf(),
            spec_avg_sums(fs@.take(i as int)) == Some((ts, tv)),
        decreases fs@.len() - i,
    {
        proof {
            assert(fs@.take(i as int + 1).drop_last() =~= fs@.take(i as int));
            assert(fs@.take(i as int + 1).last() == fs@[i as int]);
            assert(fs@[i as int].wf());
        }
        let f = fs[i];
        ts = match ts.checked_add(f.size) {
            Some(x) => x,
            None => {
                proof {
                    lemma_avg_sums_none(fs@, i as int + 1);
                }
                return Err(CoreError::Overflow);
            },
        };
        let v = match f.size.checked_mul(f.price) {
            Some(x) => x,
            None => {
                proof {
                    lemma_avg_sums_none(fs@, i as int + 1);
                }
                return Err(CoreError::Overflow);
            },
        };
        tv = match tv.checked_add(v) {
            Some(x) => x,
            None => {
                proof {
                    lemma_avg_sums_none(fs@, i as int + 1);
                }
                return Err(CoreError::Overflow);
            },
        };
        i = i + 1;
    }
    proof {
        assert(fs@.take(fs@.len() as int) =~= fs@);
    }
    if ts.is_positive() && tv.is_positive() {
        match tv.checked_div(ts) {
            Some(d) => Ok(Some(d)),
            None => Err(CoreError::Overflow),
        }
    } else {
        Ok(None)
    }
}

/// Once a prefix fails to sum, the whole group does.
proof fn lemma_avg_sums_none(fs: Seq<FillData>, i: int)
    requires
        0 <= i <= fs.len(),
        spec_avg_sums(fs.take(i)) is None,
    ensures
        spec_avg_sums(fs) is None,
    decreases fs.len() - i,
{
    if i == fs.len() {
        assert(fs.take(i) =~= fs);
    } else {
        assert(fs.take(i + 1).drop_last() =~= fs.take(i));
        lemma_avg_sums_none(fs, i + 1);
    }
}

/// The smallest present fill time of the group.
pub open spec fn spec_min_time(fs: Seq<FillData>) -> Option<Timestamp>
    decreases fs.len(),
{
    if fs.len() == 0 {
        None
    } else {
        let rest = spec_min_time(fs.drop_last());
        match fs.last().trade_time {
            None => rest,
            Some(t) => match rest {
                None => Some(t),
                Some(m) => if t.micros < m.micros {
                    Some(t)
                } else {
                    Some(m)
                },
            },
        }
    }
}

/// The largest present fill time of the group.
pub open spec fn spec_max_time(fs: Seq<FillData>) -> Option<Timestamp>
    decreases fs.len(),
{
    if fs.len() == 0 {
        None
    } else {
        let rest = spec_max_time(fs.drop_last());
        match fs.last().trade_time {
            None => rest,
            Some(t) => match rest {
                None => Some(t),
                Some(m) => if t.micros > m.micros {
                    Some(t)
                } else {
                    Some(m)
                },
            },
        }
    }
}

/// The earliest fill time of the group.
pub fn min_fill_time(fs: &Vec<FillData>) -> (r: Option<Timestamp>)
    ensures
        r == spec_min_time(fs@),
{
    let mut best: Option<Timestamp> = None;
    let mut i: usize = 0;
    proof {
        assert(fs@.take(0) =~= Seq::<FillData>::empty());
    }
    while i < fs.len()
        invariant
            0 <= i <= fs@.len(),
            best == spec_min_time(fs@.take(i as int)),
        decreases fs@.len() - i,
    {
        proof {
            assert(fs@.take(i as int + 1).drop_last() =~= fs@.take(i as int));
            assert(fs@.take(i as int + 1).last() == fs@[i as int]);
        }
        match fs[i].trade_time {
            None => {},
            Some(t) => {
                best = match best {
                    None => Some(t),
                    Some(m) => if t.micros < m.micros {
                        Some(t)
                    } else {
                        Some(m)
                    },
                };
            },
        }
        i = i + 1;
    }
    proof {
        assert(fs@.take(fs@.len() as int) =~= fs@);
    }
    best
}

/// The latest fill time of the group.
pub fn max_fill_time(fs: &Vec<FillData>) -> (r: Option<Timestamp>)
    ensures
        r == spec_max_time(fs@),
{
    let mut best: Option<Timestamp> = None;
    let mut i: usize = 0;
    proof {
        assert(fs@.take(0) =~= Seq::<FillData>::empty());
    }
    while i < fs.len()
        invariant
            0 <= i <= fs@.len(),
            best == spec_max_time(fs@.take(i as int)),
        decreases fs@.len() - i,
    {
        proof {
            assert(fs@.take(i as int + 1).drop_last() =~= fs@.take(i as int));
            assert(fs@.take(i as int + 1).last() == fs@[i as int]);
        }
        match fs[i].trade_time {
            None => {},
            Some(t) => {
                best = match best {
                    None => Some(t),
                    Some(m) => if t.micros > m.micros {
                        Some(t)
                    } else {
                        Some(m)
                    },
                };
            },
        }
        i = i + 1;
    }
    proof {
        assert(fs@.take(fs@.len() as int) =~= fs@);
    }
    best
}

} // verus!
