//! The series aligner: orders an asset's price series by date, resolves
//! each point's rate through the backward walk, converts, and keeps the
//! point's own date on the output record. A point whose date has no rate
//! anywhere in the window is skipped silently; malformed or unrepresentable
//! price text is a reported error.

use vstd::prelude::*;
use vstd::seq_lib::group_to_multiset_ensures;
use crate::date::Date;
use crate::decimal::{
    Decimal, OUT_SCALE, spec_convert, is_dec_text, dec_mantissa, dec_scale, parse_decimal,
    convert_price,
};
use crate::rates::Rates;
use crate::PriceError;

verus! {

/// One fetched price point: decimal price text and its (UTC) day.
#[derive(Debug)]
pub struct PricePoint {
    pub price_usd: String,
    pub date: Date,
}

impl PricePoint {
    pub open spec fn wf(self) -> bool {
        self.date.valid()
    }
}

/// One converted output record: the point's own date and the amount in
/// the base currency, at the fixed output precision. Commodity and
/// currency are per-asset constants, applied when the record is rendered.
#[derive(Debug, Clone, Copy)]
pub struct PriceRecord {
    pub date: Date,
    pub amount: Decimal,
}

impl PriceRecord {
    pub open spec fn wf(self) -> bool {
        self.date.valid() && self.amount.scale == OUT_SCALE
    }
}

pub open spec fn sorted_by_date<T>(s: Seq<T>, date_of: spec_fn(T) -> Date) -> bool {
    forall|i: int, j: int| 0 <= i < j < s.len() ==> (#[trigger] date_of(s[i])).le(
        #[trigger] date_of(s[j]),
    )
}

/// The price of the point, as the parse of its text reads it.
pub open spec fn spec_point_price(p: PricePoint) -> Decimal {
    Decimal {
        mantissa: dec_mantissa(p.price_usd@) as u128,
        scale: dec_scale(p.price_usd@) as u32,
    }
}

/// The aligned conversion of a price series, in series order: a point
/// with no rate on or before its date is skipped; price text that is not
/// decimal text is the parse error; an unrepresentable value or a zero
/// rate is the invalid-price error; otherwise the converted record keeps
/// the point's own date.
pub open spec fn spec_align(points: Seq<PricePoint>, rates: &Rates, floor: Date) -> Result<
    Seq<PriceRecord>,
    PriceError,
>
    decreases points.len(),
{
    if points.len() == 0 {
        Ok(Seq::empty())
    } else {
        let p = points[0];
        match rates.spec_rate_as_of(p.date, floor) {
            None => spec_align(points.drop_first(), rates, floor),
            Some(rate) => {
                if !is_dec_text(p.price_usd@) {
                    Err(PriceError::ParsePriceError)
                } else if dec_mantissa(p.price_usd@) > u128::MAX || dec_scale(p.price_usd@)
                    > u32::MAX {
                    Err(PriceError::InvalidPrice)
                } else {
                    match spec_convert(spec_point_price(p), rate) {
                        None => Err(PriceError::InvalidPrice),
                        Some(m) => match spec_align(points.drop_first(), rates, floor) {
                            Err(e) => Err(e),
                            Ok(t) => Ok(
                                seq![
                                    (PriceRecord {
                                        date: p.date,
                                        amount: Decimal { mantissa: m, scale: OUT_SCALE },
                                    }),
                                ] + t,
                            ),
                        },
                    }
                }
            },
        }
    }
}

/// The dates the aligner keeps: each point's own date, in order, for
/// exactly the points whose date resolves to a rate.
pub open spec fn spec_kept_dates(points: Seq<PricePoint>, rates: &Rates, floor: Date) -> Seq<Date>
    decreases points.len(),
{
    if points.len() == 0 {
        Seq::empty()
    } else {
        let rest = spec_kept_dates(points.drop_first(), rates, floor);
        match rates.spec_rate_as_of(points[0].date, floor) {
            Some(r) => seq![points[0].date] + rest,
            None => rest,
        }
    }
}

/// Order the series by date (the fetched series need not arrive sorted).
pub fn sort_points(points: Vec<PricePoint>) -> (r: Vec<PricePoint>)
    ensures
        sorted_by_date(r@, |p: PricePoint| p.date),
        r@.to_multiset() == points@.to_multiset(),
{
    broadcast use group_to_multiset_ensures;

    let ghost all = points@.to_multiset();
    let mut points = points;
    let mut r: Vec<PricePoint> = Vec::new();
    proof {
        assert(r@.to_multiset().add(points@.to_multiset()) =~= all);
    }
    while points.len() > 0
        invariant
            r@.to_multiset().add(points@.to_multiset()) == all,
            sorted_by_date(r@, |p: PricePoint| p.date),
            forall|i: int, j: int|
                0 <= i < r@.len() && 0 <= j < points@.len() ==> (#[trigger] r@[i]).date.le(
                    (#[trigger] points@[j]).date,
                ),
        decreases points.len(),
    {
        let m = min_date_index(&points);
        let ghost old_points = points@;
        let ghost old_r = r@;
        let p = points.remove(m);
        r.push(p);
        proof {
            old_points.to_multiset_ensures();
            old_r.to_multiset_ensures();
            assert(old_points.remove(m as int).to_multiset() =~= old_points.to_multiset().remove(
                p,
            ));
            assert(old_r.push(p).to_multiset() =~= old_r.to_multiset().insert(p));
            assert(old_points.to_multiset().count(p) > 0);
            assert(r@.to_multiset().add(points@.to_multiset()) =~= all);
        }
    }
    proof {
        assert(points@.to_multiset().len() == 0);
        assert(r@.to_multiset().add(points@.to_multiset()) =~= r@.to_multiset());
    }
    r
}

/// The index of an earliest-dated point.
fn min_date_index(points: &Vec<PricePoint>) -> (m: usize)
    requires
        points@.len() > 0,
    ensures
        0 <= m < points@.len(),
        forall|k: int| 0 <= k < points@.len() ==> points@[m as int].date.le(#[trigger] points@[k].date),
{
    let mut m: usize = 0;
    let mut i: usize = 1;
    while i < points.len()
        invariant
            0 <= m < i <= points@.len(),
            forall|k: int| 0 <= k < i ==> points@[m as int].date.le(#[trigger] points@[k].date),
        decreases points@.len() - i,
    {
        if points[i].date.lt_date(&points[m].date) {
            m = i;
        }
        i = i + 1;
    }
    m
}

/// Convert an ordered series against a rate table: the aligner proper.
pub fn convert_points(points: &Vec<PricePoint>, rates: &Rates, floor: Date) -> (r: Result<
    Vec<PriceRecord>,
    PriceError,
>)
    requires
        forall|k: int| 0 <= k < points@.len() ==> (#[trigger] points@[k]).wf(),
    ensures
        r is Ok <==> spec_align(points@, rates, floor) is Ok,
        r matches Ok(v) ==> v@ == spec_align(points@, rates, floor)->Ok_0 && (forall|j: int|
            0 <= j < v@.len() ==> (#[trigger] v@[j]).wf()),
        r matches Err(e) ==> e == spec_align(points@, rates, floor)->Err_0,
{
    let mut out: Vec<PriceRecord> = Vec::new();
    let mut i: usize = 0;
    proof {
        assert(points@.skip(0) =~= points@);
    }
    while i < points.len()
        invariant
            0 <= i <= points@.len(),
            forall|k: int| 0 <= k < points@.len() ==> (#[trigger] points@[k]).wf(),
            forall|j: int| 0 <= j < out@.len() ==> (#[trigger] out@[j]).wf(),
            spec_align(points@, rates, floor) == spec_append(
                out@,
                spec_align(points@.skip(i as int), rates, floor),
            ),
        decreases points@.len() - i,
    {
        proof {
            assert(points@.skip(i as int).drop_first() =~= points@.skip(i + 1));
            assert(points@.skip(i as int)[0] == points@[i as int]);
        }
        match rates.rate_as_of(points[i].date, floor) {
            None => {},
            Some(rate) => {
                let price = match parse_decimal(points[i].price_usd.as_str()) {
                    Ok(d) => d,
                    Err(e) => {
                        return Err(e);
                    },
                };
                let amount = match convert_price(&price, &rate) {
                    Ok(a) => a,
                    Err(e) => {
                        return Err(e);
                    },
                };
                let ghost out_before = out@;
                out.push(PriceRecord { date: points[i].date, amount });
                proof {
                    let rec = (PriceRecord {
                        date: points@[i as int].date,
                        amount: Decimal {
                            mantissa: spec_convert(
                                spec_point_price(points@[i as int]),
                                rate,
                            )->Some_0,
                            scale: OUT_SCALE,
                        },
                    });
                    assert(out@ =~= out_before.push(rec));
                    assert forall|t: Seq<PriceRecord>|
                        out_before + (seq![rec] + t) =~= out@ + t by {}
                }
            },
        }
        i = i + 1;
    }
    proof {
        assert(points@.skip(i as int) =~= Seq::<PricePoint>::empty());
        assert(out@ + Seq::<PriceRecord>::empty() =~= out@);
    }
    Ok(out)
}

/// Prefix records followed by the rest of an alignment: `Ok` results
/// concatenate, an error stands.
pub open spec fn spec_append(
    pre: Seq<PriceRecord>,
    rest: Result<Seq<PriceRecord>, PriceError>,
) -> Result<Seq<PriceRecord>, PriceError> {
    match rest {
        Ok(t) => Ok(pre + t),
        Err(e) => Err(e),
    }
}

/// The aligner's records carry exactly the kept dates: one record per
/// point whose date resolves to a rate, with the point's own date, in
/// order — never the fallback rate's date.
pub proof fn lemma_align_dates(points: Seq<PricePoint>, rates: &Rates, floor: Date)
    requires
        spec_align(points, rates, floor) is Ok,
    ensures
        spec_align(points, rates, floor)->Ok_0.len() == spec_kept_dates(points, rates, floor).len(),
        forall|j: int|
            0 <= j < spec_kept_dates(points, rates, floor).len() ==> #[trigger] spec_align(
                points,
                rates,
                floor,
            )->Ok_0[j].date == spec_kept_dates(points, rates, floor)[j],
    decreases points.len(),
{
    if points.len() == 0 {
    } else {
        match rates.spec_rate_as_of(points[0].date, floor) {
            None => {
                lemma_align_dates(points.drop_first(), rates, floor);
            },
            Some(rate) => {
                lemma_align_dates(points.drop_first(), rates, floor);
            },
        }
    }
}

/// A point whose date resolves to a rate is kept: its own date appears
/// among the kept dates.
pub proof fn lemma_kept_contains(points: Seq<PricePoint>, rates: &Rates, floor: Date, i: int)
    requires
        0 <= i < points.len(),
        rates.spec_rate_as_of(points[i].date, floor) is Some,
    ensures
        spec_kept_dates(points, rates, floor).contains(points[i].date),
    decreases points.len(),
{
    let kept = spec_kept_dates(points, rates, floor);
    let rest = spec_kept_dates(points.drop_first(), rates, floor);
    if i == 0 {
        assert(kept[0] == points[0].date);
    } else {
        lemma_kept_contains(points.drop_first(), rates, floor, i - 1);
        let j = choose|j: int| 0 <= j < rest.len() && rest[j] == points[i].date;
        match rates.spec_rate_as_of(points[0].date, floor) {
            Some(r) => {
                assert(kept[j + 1] == points[i].date);
            },
            None => {
                assert(kept[j] == points[i].date);
            },
        }
    }
}

/// A point whose date resolves to no rate leaves no trace: the alignment
/// equals that of the series without it, so it yields neither a record
/// nor an error.
pub proof fn lemma_skipped_point_immaterial(
    points: Seq<PricePoint>,
    rates: &Rates,
    floor: Date,
    i: int,
)
    requires
        0 <= i < points.len(),
        rates.spec_rate_as_of(points[i].date, floor) is None,
    ensures
        spec_align(points, rates, floor) == spec_align(points.remove(i), rates, floor),
    decreases points.len(),
{
    if i == 0 {
        assert(points.remove(0) =~= points.drop_first());
    } else {
        lemma_skipped_point_immaterial(points.drop_first(), rates, floor, i - 1);
        assert(points.remove(i).drop_first() =~= points.drop_first().remove(i - 1));
        assert(points.remove(i)[0] == points[0]);
    }
}

/// A point whose date resolves to a rate gets a record, and the record
/// carries the point's own date.
pub proof fn lemma_point_with_rate_has_record(
    points: Seq<PricePoint>,
    rates: &Rates,
    floor: Date,
    i: int,
)
    requires
        0 <= i < points.len(),
        rates.spec_rate_as_of(points[i].date, floor) is Some,
        spec_align(points, rates, floor) is Ok,
    ensures
        exists|j: int|
            0 <= j < spec_align(points, rates, floor)->Ok_0.len() && (#[trigger] spec_align(
                points,
                rates,
                floor,
            )->Ok_0[j]).date == points[i].date,
{
    lemma_kept_contains(points, rates, floor, i);
    lemma_align_dates(points, rates, floor);
    let kept = spec_kept_dates(points, rates, floor);
    let j = choose|j: int| 0 <= j < kept.len() && kept[j] == points[i].date;
    assert(spec_align(points, rates, floor)->Ok_0[j].date == points[i].date);
}

/// Ordering law on the records themselves: a strictly date-ascending
/// series aligns to records in strictly ascending date order, so each
/// kept date appears exactly once.
pub proof fn lemma_aligned_records_strictly_ascending(
    points: Seq<PricePoint>,
    rates: &Rates,
    floor: Date,
)
    requires
        forall|i: int, j: int|
            0 <= i < j < points.len() ==> ((#[trigger] points[i]).date).lt(
                ((#[trigger] points[j]).date),
            ),
        spec_align(points, rates, floor) is Ok,
    ensures
        forall|i: int, j: int|
            0 <= i < j < spec_align(points, rates, floor)->Ok_0.len() ==> ((#[trigger] spec_align(
                points,
                rates,
                floor,
            )->Ok_0[i]).date).lt(((#[trigger] spec_align(points, rates, floor)->Ok_0[j]).date)),
{
    lemma_align_dates(points, rates, floor);
    lemma_kept_dates_strictly_sorted(points, rates, floor);
}

/// Every kept date is bounded below by any bound on the points' dates.
proof fn lemma_kept_lower_bound(points: Seq<PricePoint>, rates: &Rates, floor: Date, d0: Date)
    requires
        forall|k: int| 0 <= k < points.len() ==> d0.lt(#[trigger] points[k].date),
    ensures
        forall|j: int|
            0 <= j < spec_kept_dates(points, rates, floor).len() ==> d0.lt(
                #[trigger] spec_kept_dates(points, rates, floor)[j],
            ),
    decreases points.len(),
{
    if points.len() > 0 {
        let kept = spec_kept_dates(points, rates, floor);
        let rest = spec_kept_dates(points.drop_first(), rates, floor);
        assert(forall|k: int|
            0 <= k < points.drop_first().len() ==> d0.lt(#[trigger] points.drop_first()[k].date));
        lemma_kept_lower_bound(points.drop_first(), rates, floor, d0);
        if rates.spec_rate_as_of(points[0].date, floor) is Some {
            assert forall|j: int| 0 <= j < kept.len() implies d0.lt(#[trigger] kept[j]) by {
                if j == 0 {
                    assert(kept[0] == points[0].date);
                } else {
                    assert(kept[j] == rest[j - 1]);
                }
            }
        }
    }
}

/// Ordering law: a strictly date-ascending series aligns to strictly
/// date-ascending records — the emitted file is strictly ascending, and
/// no date appears twice.
pub proof fn lemma_kept_dates_strictly_sorted(points: Seq<PricePoint>, rates: &Rates, floor: Date)
    requires
        forall|i: int, j: int|
            0 <= i < j < points.len() ==> (#[trigger] points[i].date).lt(
                #[trigger] points[j].date,
            ),
    ensures
        forall|i: int, j: int|
            0 <= i < j < spec_kept_dates(points, rates, floor).len() ==> (
            #[trigger] spec_kept_dates(points, rates, floor)[i]).lt(
                #[trigger] spec_kept_dates(points, rates, floor)[j],
            ),
    decreases points.len(),
{
    if points.len() > 0 {
        let tail = points.drop_first();
        let kept = spec_kept_dates(points, rates, floor);
        let rest = spec_kept_dates(tail, rates, floor);
        assert(forall|i: int, j: int|
            0 <= i < j < tail.len() ==> ((#[trigger] tail[i]).date).lt((#[trigger] tail[j]).date));
        lemma_kept_dates_strictly_sorted(tail, rates, floor);
        assert(forall|k: int| 0 <= k < tail.len() ==> points[0].date.lt((#[trigger] tail[k]).date));
        lemma_kept_lower_bound(tail, rates, floor, points[0].date);
        if rates.spec_rate_as_of(points[0].date, floor) is Some {
            assert forall|i: int, j: int| 0 <= i < j < kept.len() implies (
            #[trigger] kept[i]).lt(#[trigger] kept[j]) by {
                assert(kept[j] == rest[j - 1]);
                if i == 0 {
                    assert(kept[0] == points[0].date);
                } else {
                    assert(kept[i] == rest[i - 1]);
                }
            }
        }
    }
}

} // verus!
