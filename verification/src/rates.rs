//! The exchange-rate table: a sparse date-to-rate mapping for one currency
//! pair, the identity variant for a pair of equal currencies, and the
//! backward walk that answers "rate as of this date".

use vstd::prelude::*;
use crate::date::{Date, lemma_pred_valid, lemma_pred_greatest};
use crate::decimal::{Decimal, spec_one};

verus! {

/// One quoted rate: 1 unit of `symbol` = `rate` units of the base currency.
#[derive(Debug)]
pub struct SymbolRate {
    pub symbol: String,
    pub rate: Decimal,
}

/// The rates quoted on one day, a sparse row of symbol to rate.
#[derive(Debug)]
pub struct DayRates {
    pub date: Date,
    pub rates: Vec<SymbolRate>,
}

/// A sparse date-to-rates mapping built from one fetch. Dates need not be
/// contiguous: a missing date is answered by the backward walk, never an
/// error.
#[derive(Debug)]
pub struct ConversionRate {
    pub rates: Vec<DayRates>,
}

/// The rate source for one asset: the identity when the asset's currency
/// is the base currency itself, else a fetched conversion table.
#[derive(Debug)]
pub enum Rates {
    /// The two currencies are equal: every date has rate one.
    Equal,
    /// A fetched table, consulted for one symbol.
    Conversion { symbol: String, rate: ConversionRate },
}

/// The first rate for `symbol` in a day's row, if any.
pub open spec fn spec_row_lookup(rows: Seq<SymbolRate>, symbol: Seq<char>) -> Option<Decimal>
    decreases rows.len(),
{
    if rows.len() == 0 {
        None
    } else if rows[0].symbol@ == symbol {
        Some(rows[0].rate)
    } else {
        spec_row_lookup(rows.drop_first(), symbol)
    }
}

/// The exact lookup of `(date, symbol)`: the first row of that date
/// decides; absence is `None`, never an error.
pub open spec fn spec_table_lookup(days: Seq<DayRates>, date: Date, symbol: Seq<char>) -> Option<
    Decimal,
>
    decreases days.len(),
{
    if days.len() == 0 {
        None
    } else if days[0].date == date {
        spec_row_lookup(days[0].rates@, symbol)
    } else {
        spec_table_lookup(days.drop_first(), date, symbol)
    }
}

/// Every `(date, rate)` pair of the table that quotes `symbol`, in table
/// order.
pub open spec fn spec_all_pairs(days: Seq<DayRates>, symbol: Seq<char>) -> Seq<(Date, Decimal)>
    decreases days.len(),
{
    if days.len() == 0 {
        Seq::empty()
    } else {
        let rest = spec_all_pairs(days.drop_last(), symbol);
        match spec_row_lookup(days.last().rates@, symbol) {
            Some(r) => rest.push((days.last().date, r)),
            None => rest,
        }
    }
}

fn row_lookup(rows: &Vec<SymbolRate>, symbol: &String) -> (r: Option<Decimal>)
    ensures
        r == spec_row_lookup(rows@, symbol@),
{
    let mut i: usize = 0;
    proof {
        assert(rows@.skip(0) =~= rows@);
    }
    while i < rows.len()
        invariant
            i <= rows@.len(),
            spec_row_lookup(rows@, symbol@) == spec_row_lookup(rows@.skip(i as int), symbol@),
        decreases rows@.len() - i,
    {
        proof {
            assert(rows@.skip(i as int).drop_first() =~= rows@.skip(i + 1));
            assert(rows@.skip(i as int)[0] == rows@[i as int]);
        }
        if rows[i].symbol == *symbol {
            return Some(rows[i].rate);
        }
        i = i + 1;
    }
    proof {
        assert(rows@.skip(i as int) =~= Seq::<SymbolRate>::empty());
    }
    None
}

fn table_lookup(days: &Vec<DayRates>, date: Date, symbol: &String) -> (r: Option<Decimal>)
    ensures
        r == spec_table_lookup(days@, date, symbol@),
{
    let mut i: usize = 0;
    proof {
        assert(days@.skip(0) =~= days@);
    }
    while i < days.len()
        invariant
            i <= days@.len(),
            spec_table_lookup(days@, date, symbol@) == spec_table_lookup(
                days@.skip(i as int),
                date,
                symbol@,
            ),
        decreases days@.len() - i,
    {
        proof {
            assert(days@.skip(i as int).drop_first() =~= days@.skip(i + 1));
            assert(days@.skip(i as int)[0] == days@[i as int]);
        }
        if days[i].date == date {
            return row_lookup(&days[i].rates, symbol);
        }
        i = i + 1;
    }
    proof {
        assert(days@.skip(i as int) =~= Seq::<DayRates>::empty());
    }
    None
}

impl Rates {
    /// A well-formed table holds only well-formed calendar dates.
    pub open spec fn wf(&self) -> bool {
        match self {
            Rates::Equal => true,
            Rates::Conversion { symbol, rate } => forall|k: int|
                0 <= k < rate.rates@.len() ==> ((#[trigger] rate.rates@[k]).date).valid(),
        }
    }

    /// The rate on exactly `date`: one for the identity variant, the exact
    /// sparse lookup otherwise. The table itself never searches backward.
    pub open spec fn spec_rate_at(&self, date: Date) -> Option<Decimal> {
        match self {
            Rates::Equal => Some(spec_one()),
            Rates::Conversion { symbol, rate } => spec_table_lookup(rate.rates@, date, symbol@),
        }
    }

    /// Exact lookup of the rate on `date`; absence is `None`, not a failure.
    pub fn rate_at(&self, date: Date) -> (r: Option<Decimal>)
        ensures
            r == self.spec_rate_at(date),
    {
        match self {
            Rates::Equal => Some(Decimal::one()),
            Rates::Conversion { symbol, rate } => table_lookup(&rate.rates, date, symbol),
        }
    }

    /// Every dated rate this table quotes, in table order.
    pub open spec fn spec_all(&self) -> Seq<(Date, Decimal)> {
        match self {
            Rates::Equal => Seq::empty(),
            Rates::Conversion { symbol, rate } => spec_all_pairs(rate.rates@, symbol@),
        }
    }

    /// Collect every dated rate of the table.
    pub fn all(&self) -> (r: Vec<(Date, Decimal)>)
        ensures
            r@ == self.spec_all(),
    {
        match self {
            Rates::Equal => Vec::new(),
            Rates::Conversion { symbol, rate } => {
                let days = &rate.rates;
                let mut r: Vec<(Date, Decimal)> = Vec::new();
                let mut i: usize = 0;
                proof {
                    assert(days@.take(0) =~= Seq::<DayRates>::empty());
                }
                while i < days.len()
                    invariant
                        i <= days@.len(),
                        r@ == spec_all_pairs(days@.take(i as int), symbol@),
                    decreases days@.len() - i,
                {
                    proof {
                        assert(days@.take(i + 1).drop_last() =~= days@.take(i as int));
                        assert(days@.take(i + 1).last() == days@[i as int]);
                    }
                    match row_lookup(&days[i].rates, symbol) {
                        Some(rate_i) => {
                            r.push((days[i].date, rate_i));
                        },
                        None => {},
                    }
                    i = i + 1;
                }
                proof {
                    assert(days@.take(i as int) =~= days@);
                }
                r
            },
        }
    }

    /// The rate as of `date`: the exact rate if the table has one, else
    /// the rate of the nearest earlier date, walking one day at a time,
    /// bounded below by `floor`. `None` when the walk exhausts the range.
    pub open spec fn spec_rate_as_of(&self, date: Date, floor: Date) -> Option<Decimal>
        decreases date.year, date.month, date.day,
    {
        if !floor.le(date) {
            None
        } else {
            match self.spec_rate_at(date) {
                Some(r) => Some(r),
                None => match date.spec_pred() {
                    Some(p) => self.spec_rate_as_of(p, floor),
                    None => None,
                },
            }
        }
    }

    /// Walk backward from `date` to the most recent date, not before
    /// `floor`, for which the table has a rate.
    pub fn rate_as_of(&self, date: Date, floor: Date) -> (r: Option<Decimal>)
        requires
            date.valid(),
        ensures
            r == self.spec_rate_as_of(date, floor),
    {
        let mut cur = date;
        loop
            invariant
                cur.valid(),
                self.spec_rate_as_of(date, floor) == self.spec_rate_as_of(cur, floor),
            decreases cur.year, cur.month, cur.day,
        {
            if !floor.le_date(&cur) {
                return None;
            }
            match self.rate_at(cur) {
                Some(r) => {
                    return Some(r);
                },
                None => {},
            }
            match cur.pred() {
                Some(p) => {
                    proof {
                        lemma_pred_valid(cur);
                    }
                    cur = p;
                },
                None => {
                    return None;
                },
            }
        }
    }
}

/// Whether converting `symbol` into the base currency needs a fetched
/// table at all: for the base currency itself the identity table serves,
/// and no external fetch happens.
pub fn needs_rate_fetch(symbol: &String, base_currency: &String) -> (r: bool)
    ensures
        r == (symbol@ != base_currency@),
{
    !(*symbol == *base_currency)
}

/// In a well-formed table every enumerated pair carries a valid date.
pub proof fn lemma_all_pairs_dates_valid(days: Seq<DayRates>, symbol: Seq<char>)
    requires
        forall|k: int| 0 <= k < days.len() ==> ((#[trigger] days[k]).date).valid(),
    ensures
        forall|j: int|
            0 <= j < spec_all_pairs(days, symbol).len() ==> ((#[trigger] spec_all_pairs(
                days,
                symbol,
            )[j]).0).valid(),
    decreases days.len(),
{
    if days.len() > 0 {
        let front = days.drop_last();
        assert(forall|k: int| 0 <= k < front.len() ==> ((#[trigger] front[k]).date).valid());
        lemma_all_pairs_dates_valid(front, symbol);
        let pairs = spec_all_pairs(days, symbol);
        let rest = spec_all_pairs(front, symbol);
        assert forall|j: int| 0 <= j < pairs.len() implies ((#[trigger] pairs[j]).0).valid() by {
            if j < rest.len() {
                assert(pairs[j] == rest[j]);
            } else {
                assert(pairs[j].0 == days.last().date);
            }
        }
    }
}

/// Identity-currency law: when the asset's currency is the base currency
/// itself, every date on or after the floor resolves to rate exactly one,
/// with no table at all.
pub proof fn lemma_identity_rate_as_of(t: &Rates, date: Date, floor: Date)
    requires
        t is Equal,
        floor.le(date),
    ensures
        t.spec_rate_as_of(date, floor) == Some(spec_one()),
{
}

/// Availability law: if any date within `[floor, date]` has a rate, the
/// backward walk finds one; a point with coverage on or before its date
/// is never skipped.
pub proof fn lemma_rate_as_of_available(t: &Rates, date: Date, floor: Date, q: Date)
    requires
        date.valid(),
        q.valid(),
        floor.le(q),
        q.le(date),
        t.spec_rate_at(q) is Some,
    ensures
        t.spec_rate_as_of(date, floor) is Some,
    decreases date.year, date.month, date.day,
{
    if t.spec_rate_at(date) is Some {
    } else {
        assert(q != date);
        assert(q.lt(date));
        let p = date.spec_pred()->Some_0;
        assert(date.spec_pred() is Some);
        lemma_pred_valid(date);
        lemma_pred_greatest(date, q);
        lemma_rate_as_of_available(t, p, floor, q);
    }
}

/// Backward-fill law: the rate used is the one of the most recent covered
/// date at or before the queried date, never an older one.
pub proof fn lemma_rate_as_of_backward_fill(t: &Rates, date: Date, floor: Date, hit: Date)
    requires
        date.valid(),
        hit.valid(),
        floor.le(hit),
        hit.le(date),
        t.spec_rate_at(hit) is Some,
        forall|q: Date| q.valid() && hit.lt(q) && q.le(date) ==> t.spec_rate_at(q) is None,
    ensures
        t.spec_rate_as_of(date, floor) == t.spec_rate_at(hit),
    decreases date.year, date.month, date.day,
{
    if hit == date {
    } else {
        assert(hit.lt(date));
        assert(t.spec_rate_at(date) is None);
        let p = date.spec_pred()->Some_0;
        assert(date.spec_pred() is Some);
        lemma_pred_valid(date);
        lemma_pred_greatest(date, hit);
        lemma_rate_as_of_backward_fill(t, p, floor, hit);
    }
}

} // verus!
