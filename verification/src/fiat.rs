//! The fiat-currency pipeline: every dated rate the table quotes for the
//! currency becomes one price directive, dated as quoted, ordered by
//! date, with the amount the inverse of the rate — the price of one unit
//! of the currency in the base currency.

use vstd::prelude::*;
use vstd::seq_lib::group_to_multiset_ensures;
use crate::date::Date;
use crate::decimal::{Decimal, OUT_SCALE, spec_convert, spec_one, invert_rate};
use crate::rates::{Rates, lemma_all_pairs_dates_valid};
use crate::render::{spec_render_all, render_records};
use crate::series::{PriceRecord, spec_append};
use crate::PriceError;

verus! {

/// One configured fiat currency: its symbol and the output path its
/// records are written to.
#[derive(Debug)]
pub struct Config {
    pub symbol: String,
    pub path: String,
}

pub open spec fn pairs_sorted_by_date(s: Seq<(Date, Decimal)>) -> bool {
    forall|i: int, j: int| 0 <= i < j < s.len() ==> ((#[trigger] s[i]).0).le(((#[trigger] s[j]).0))
}

/// Inversion of a dated rate series, in order: each pair becomes a record
/// of the pair's own date and the inverse of its rate; a zero or
/// unrepresentable rate is the invalid-price error.
pub open spec fn spec_invert_pairs(pairs: Seq<(Date, Decimal)>) -> Result<
    Seq<PriceRecord>,
    PriceError,
>
    decreases pairs.len(),
{
    if pairs.len() == 0 {
        Ok(Seq::empty())
    } else {
        match spec_convert(spec_one(), pairs[0].1) {
            None => Err(PriceError::InvalidPrice),
            Some(m) => match spec_invert_pairs(pairs.drop_first()) {
                Err(e) => Err(e),
                Ok(t) => Ok(
                    seq![
                        (PriceRecord {
                            date: pairs[0].0,
                            amount: Decimal { mantissa: m, scale: OUT_SCALE },
                        }),
                    ] + t,
                ),
            },
        }
    }
}

/// Inverted records keep their pairs' dates, one for one, in order: a
/// date-sorted pair series yields a date-sorted output file.
pub proof fn lemma_invert_dates(pairs: Seq<(Date, Decimal)>)
    requires
        spec_invert_pairs(pairs) is Ok,
    ensures
        spec_invert_pairs(pairs)->Ok_0.len() == pairs.len(),
        forall|j: int|
            0 <= j < pairs.len() ==> (#[trigger] spec_invert_pairs(pairs)->Ok_0[j]).date == (
            pairs[j]).0,
    decreases pairs.len(),
{
    if pairs.len() > 0 {
        lemma_invert_dates(pairs.drop_first());
    }
}

/// Order a dated rate series by date.
pub fn sort_pairs(pairs: Vec<(Date, Decimal)>) -> (r: Vec<(Date, Decimal)>)
    ensures
        pairs_sorted_by_date(r@),
        r@.to_multiset() == pairs@.to_multiset(),
{
    broadcast use group_to_multiset_ensures;

    let ghost all = pairs@.to_multiset();
    let mut pairs = pairs;
    let mut r: Vec<(Date, Decimal)> = Vec::new();
    proof {
        assert(r@.to_multiset().add(pairs@.to_multiset()) =~= all);
    }
    while pairs.len() > 0
        invariant
            r@.to_multiset().add(pairs@.to_multiset()) == all,
            pairs_sorted_by_date(r@),
            forall|i: int, j: int|
                0 <= i < r@.len() && 0 <= j < pairs@.len() ==> ((#[trigger] r@[i]).0).le(
                    ((#[trigger] pairs@[j]).0),
                ),
        decreases pairs.len(),
    {
        let m = min_pair_index(&pairs);
        let ghost old_pairs = pairs@;
        let ghost old_r = r@;
        let p = pairs.remove(m);
        r.push(p);
        proof {
            old_pairs.to_multiset_ensures();
            old_r.to_multiset_ensures();
            assert(old_pairs.remove(m as int).to_multiset() =~= old_pairs.to_multiset().remove(p));
            assert(old_r.push(p).to_multiset() =~= old_r.to_multiset().insert(p));
            assert(old_pairs.to_multiset().count(p) > 0);
            assert(r@.to_multiset().add(pairs@.to_multiset()) =~= all);
        }
    }
    proof {
        assert(pairs@.to_multiset().len() == 0);
        assert(r@.to_multiset().add(pairs@.to_multiset()) =~= r@.to_multiset());
    }
    r
}

/// The index of an earliest-dated pair.
fn min_pair_index(pairs: &Vec<(Date, Decimal)>) -> (m: usize)
    requires
        pairs@.len() > 0,
    ensures
        0 <= m < pairs@.len(),
        forall|k: int| 0 <= k < pairs@.len() ==> ((pairs@[m as int]).0).le(((#[trigger] pairs@[k]).0)),
{
    let mut m: usize = 0;
    let mut i: usize = 1;
    while i < pairs.len()
        invariant
            0 <= m < i <= pairs@.len(),
            forall|k: int| 0 <= k < i ==> ((pairs@[m as int]).0).le(((#[trigger] pairs@[k]).0)),
        decreases pairs@.len() - i,
    {
        if pairs[i].0.lt_date(&pairs[m].0) {
            m = i;
        }
        i = i + 1;
    }
    m
}

/// The outcome owed for a fiat currency: the table's quoted pairs, in
/// some date-ordered rearrangement, inverted and rendered to exactly the
/// returned text — or the inversion's error as it stands.
pub open spec fn spec_fiat_outcome(
    sorted: Seq<(Date, Decimal)>,
    pairs: Seq<(Date, Decimal)>,
    symbol: Seq<char>,
    currency: Seq<char>,
    r: Result<String, PriceError>,
) -> bool {
    &&& pairs_sorted_by_date(sorted)
    &&& sorted.to_multiset() == pairs.to_multiset()
    &&& match spec_invert_pairs(sorted) {
        Ok(t) => r matches Ok(s) && s@ == spec_render_all(t, symbol, currency),
        Err(e) => r == Err::<String, PriceError>(e),
    }
}

/// The compute core of one fiat currency's run: enumerate the table's
/// dated rates, order them, invert each, and render the directives. An
/// identity table (symbol equal to the base currency) quotes nothing and
/// yields empty text.
pub fn generate_lines(rates: &Rates, symbol: &str, base_currency: &str) -> (r: Result<
    String,
    PriceError,
>)
    requires
        rates.wf(),
    ensures
        exists|sorted: Seq<(Date, Decimal)>|
            #[trigger] spec_fiat_outcome(sorted, rates.spec_all(), symbol@, base_currency@, r),
{
    broadcast use group_to_multiset_ensures;

    let pairs = rates.all();
    let ghost orig = pairs@;
    let sorted = sort_pairs(pairs);
    proof {
        match rates {
            Rates::Equal => {},
            Rates::Conversion { symbol: sym, rate } => {
                lemma_all_pairs_dates_valid(rate.rates@, sym@);
            },
        }
        assert forall|j: int| 0 <= j < sorted@.len() implies ((#[trigger] sorted@[j]).0).valid() by {
            assert(sorted@.contains(sorted@[j]));
            assert(sorted@.to_multiset().count(sorted@[j]) > 0);
            assert(orig.to_multiset().count(sorted@[j]) > 0);
            assert(orig.contains(sorted@[j]));
            let k = choose|k: int| 0 <= k < orig.len() && orig[k] == sorted@[j];
            assert((orig[k]).0.valid());
        }
    }
    let mut out: Vec<PriceRecord> = Vec::new();
    let mut i: usize = 0;
    proof {
        assert(sorted@.skip(0) =~= sorted@);
    }
    while i < sorted.len()
        invariant
            0 <= i <= sorted@.len(),
            pairs_sorted_by_date(sorted@),
            sorted@.to_multiset() == rates.spec_all().to_multiset(),
            forall|j: int| 0 <= j < sorted@.len() ==> ((#[trigger] sorted@[j]).0).valid(),
            forall|j: int| 0 <= j < out@.len() ==> (#[trigger] out@[j]).wf(),
            spec_invert_pairs(sorted@) == spec_append(
                out@,
                spec_invert_pairs(sorted@.skip(i as int)),
            ),
        decreases sorted@.len() - i,
    {
        proof {
            assert(sorted@.skip(i as int).drop_first() =~= sorted@.skip(i + 1));
            assert(sorted@.skip(i as int)[0] == sorted@[i as int]);
        }
        let (d, rate) = sorted[i];
        let amount = match invert_rate(&rate) {
            Ok(a) => a,
            Err(e) => {
                let r: Result<String, PriceError> = Err(e);
                proof {
                    assert(e == PriceError::InvalidPrice);
                    assert(spec_convert(spec_one(), sorted@[i as int].1) is None);
                    assert(spec_invert_pairs(sorted@.skip(i as int)) == Err::<
                        Seq<PriceRecord>,
                        PriceError,
                    >(PriceError::InvalidPrice));
                    assert(spec_invert_pairs(sorted@) == Err::<Seq<PriceRecord>, PriceError>(
                        PriceError::InvalidPrice,
                    ));
                    assert(spec_fiat_outcome(
                        sorted@,
                        rates.spec_all(),
                        symbol@,
                        base_currency@,
                        r,
                    ));
                }
                return r;
            },
        };
        let ghost out_before = out@;
        out.push(PriceRecord { date: d, amount });
        proof {
            let rec = (PriceRecord {
                date: sorted@[i as int].0,
                amount: Decimal {
                    mantissa: spec_convert(spec_one(), sorted@[i as int].1)->Some_0,
                    scale: OUT_SCALE,
                },
            });
            assert(out@ =~= out_before.push(rec));
            assert forall|t: Seq<PriceRecord>| out_before + (seq![rec] + t) =~= out@ + t by {}
        }
        i = i + 1;
    }
    proof {
        assert(sorted@.skip(i as int) =~= Seq::<(Date, Decimal)>::empty());
        assert(out@ + Seq::<PriceRecord>::empty() =~= out@);
    }
    let s = render_records(&out, symbol, base_currency);
    let r: Result<String, PriceError> = Ok(s);
    proof {
        assert(spec_fiat_outcome(sorted@, rates.spec_all(), symbol@, base_currency@, r));
    }
    r
}

} // verus!
