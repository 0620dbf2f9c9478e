//! The crypto-asset pipeline: from a fetched price history and a rate
//! table to the full text of one asset's ledger price file. Fetching the
//! history and writing the file are the caller's business; everything
//! between — ordering, rate fallback, conversion, rendering — is here.

use vstd::prelude::*;
use vstd::seq_lib::group_to_multiset_ensures;
use crate::date::Date;
use crate::rates::Rates;
use crate::render::spec_render_all;
use crate::series::{
    PricePoint, sort_points, sorted_by_date, spec_align, convert_points,
};
use crate::render::render_records;
use crate::PriceError;

verus! {

/// One configured crypto asset: its ledger ticker, its source identifier,
/// and the output path its records are written to.
#[derive(Debug)]
pub struct Config {
    pub ticker: String,
    pub id: String,
    pub path: String,
}

/// A fetched price history; a source with no data for the asset answers
/// with nothing, which is not an error.
#[derive(Debug)]
pub struct History {
    pub data: Option<Vec<PricePoint>>,
}

impl History {
    pub open spec fn wf(&self) -> bool {
        match self.data {
            Some(points) => forall|k: int|
                0 <= k < points@.len() ==> (#[trigger] points@[k]).wf(),
            None => true,
        }
    }

    /// The dates of the first and last point as received: the window the
    /// exchange-rate fetch must cover. `None` for an absent or empty
    /// history.
    pub fn date_range(&self) -> (r: Option<(Date, Date)>)
        ensures
            r is Some <==> (self.data matches Some(points) && points@.len() > 0),
            r matches Some(pair) ==> (self.data matches Some(points) && pair.0 == points@[0].date
                && pair.1 == points@[points@.len() - 1].date),
    {
        match &self.data {
            None => None,
            Some(points) => {
                if points.len() == 0 {
                    None
                } else {
                    Some((points[0].date, points[points.len() - 1].date))
                }
            },
        }
    }
}

/// The outcome owed for a history: some date-ordered rearrangement of its
/// points, aligned and converted, renders to exactly the returned text —
/// or the alignment's error is returned as it stands.
pub open spec fn spec_asset_outcome(
    sorted: Seq<PricePoint>,
    points: Seq<PricePoint>,
    rates: &Rates,
    floor: Date,
    ticker: Seq<char>,
    currency: Seq<char>,
    r: Result<String, PriceError>,
) -> bool {
    &&& sorted_by_date(sorted, |p: PricePoint| p.date)
    &&& sorted.to_multiset() == points.to_multiset()
    &&& match spec_align(sorted, rates, floor) {
        Ok(t) => r matches Ok(s) && s@ == spec_render_all(t, ticker, currency),
        Err(e) => r == Err::<String, PriceError>(e),
    }
}

/// The compute core of one crypto asset's run: order the fetched points
/// by date, resolve each point's rate backward from its own date (never
/// below `floor`), convert, and render the price directives. An absent
/// or empty history yields empty text, without error.
pub fn generate_lines(
    history: History,
    rates: &Rates,
    ticker: &str,
    base_currency: &str,
    floor: Date,
) -> (r: Result<String, PriceError>)
    requires
        history.wf(),
    ensures
        history.data is None ==> (r matches Ok(s) && s@ == Seq::<char>::empty()),
        history.data matches Some(points) ==> exists|sorted: Seq<PricePoint>|
            #[trigger] spec_asset_outcome(
                sorted,
                points@,
                rates,
                floor,
                ticker@,
                base_currency@,
                r,
            ),
{
    broadcast use group_to_multiset_ensures;

    match history.data {
        None => Ok(String::new()),
        Some(points) => {
            let ghost orig = points@;
            let sorted = sort_points(points);
            proof {
                assert forall|j: int| 0 <= j < sorted@.len() implies (
                #[trigger] sorted@[j]).wf() by {
                    assert(sorted@.contains(sorted@[j]));
                    assert(sorted@.to_multiset().count(sorted@[j]) > 0);
                    assert(orig.to_multiset().count(sorted@[j]) > 0);
                    assert(orig.contains(sorted@[j]));
                    let k = choose|k: int| 0 <= k < orig.len() && orig[k] == sorted@[j];
                    assert(orig[k].wf());
                }
            }
            let recs = match convert_points(&sorted, rates, floor) {
                Ok(v) => v,
                Err(e) => {
                    let r: Result<String, PriceError> = Err(e);
                    proof {
                        assert(spec_asset_outcome(
                            sorted@,
                            orig,
                            rates,
                            floor,
                            ticker@,
                            base_currency@,
                            r,
                        ));
                    }
                    return r;
                },
            };
            let s = render_records(&recs, ticker, base_currency);
            let r: Result<String, PriceError> = Ok(s);
            proof {
                assert(spec_asset_outcome(
                    sorted@,
                    orig,
                    rates,
                    floor,
                    ticker@,
                    base_currency@,
                    r,
                ));
            }
            r
        },
    }
}

} // verus!
