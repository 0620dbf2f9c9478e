//! Rendering of converted records as ledger price directives: one line
//! `YYYY-MM-DD price TICKER AMOUNT CURRENCY` per record, amounts as
//! fixed-point decimal text, in the order the records arrive.

use vstd::prelude::*;
use vstd::string::StringExecFns;
use crate::date::Date;
use crate::decimal::Decimal;
use crate::series::PriceRecord;

verus! {

pub open spec fn digit_char(d: int) -> char {
    if d == 0 {
        '0'
    } else if d == 1 {
        '1'
    } else if d == 2 {
        '2'
    } else if d == 3 {
        '3'
    } else if d == 4 {
        '4'
    } else if d == 5 {
        '5'
    } else if d == 6 {
        '6'
    } else if d == 7 {
        '7'
    } else if d == 8 {
        '8'
    } else {
        '9'
    }
}

/// The decimal digits of `n`, most significant first, no leading zeros.
pub open spec fn dec_digits(n: nat) -> Seq<char>
    decreases n,
{
    if n < 10 {
        seq![digit_char(n as int)]
    } else {
        dec_digits(n / 10).push(digit_char((n % 10) as int))
    }
}

/// Two-digit zero-padded rendering, for months, days and cent parts.
pub open spec fn pad2(n: nat) -> Seq<char> {
    if n < 10 {
        seq!['0'] + dec_digits(n)
    } else {
        dec_digits(n)
    }
}

/// Four-digit zero-padded rendering, for years.
pub open spec fn pad4(n: nat) -> Seq<char> {
    if n < 10 {
        seq!['0', '0', '0'] + dec_digits(n)
    } else if n < 100 {
        seq!['0', '0'] + dec_digits(n)
    } else if n < 1000 {
        seq!['0'] + dec_digits(n)
    } else {
        dec_digits(n)
    }
}

/// `YYYY-MM-DD`.
pub open spec fn spec_date_chars(d: Date) -> Seq<char> {
    pad4(d.year as nat) + seq!['-'] + pad2(d.month as nat) + seq!['-'] + pad2(d.day as nat)
}

/// A two-fractional-digit amount: integer digits, point, two cent digits.
pub open spec fn spec_amount_chars(a: Decimal) -> Seq<char>
    recommends
        a.scale == 2,
{
    dec_digits((a.mantissa / 100) as nat) + seq!['.'] + pad2((a.mantissa % 100) as nat)
}

/// One price directive line, newline included.
pub open spec fn spec_line_chars(rec: PriceRecord, ticker: Seq<char>, currency: Seq<char>) -> Seq<
    char,
> {
    spec_date_chars(rec.date) + seq![' ', 'p', 'r', 'i', 'c', 'e', ' '] + ticker + seq![' ']
        + spec_amount_chars(rec.amount) + seq![' '] + currency + seq!['\n']
}

/// A whole output file: the records' lines in order, nothing else — an
/// empty record sequence renders as empty text.
pub open spec fn spec_render_all(
    recs: Seq<PriceRecord>,
    ticker: Seq<char>,
    currency: Seq<char>,
) -> Seq<char>
    decreases recs.len(),
{
    if recs.len() == 0 {
        Seq::empty()
    } else {
        spec_render_all(recs.drop_last(), ticker, currency) + spec_line_chars(
            recs.last(),
            ticker,
            currency,
        )
    }
}

/// One decimal digit as text.
fn digit_str(d: u32) -> (r: &'static str)
    requires
        d < 10,
    ensures
        r@ == seq![digit_char(d as int)],
{
    proof {
        reveal_strlit("0");
        reveal_strlit("1");
        reveal_strlit("2");
        reveal_strlit("3");
        reveal_strlit("4");
        reveal_strlit("5");
        reveal_strlit("6");
        reveal_strlit("7");
        reveal_strlit("8");
        reveal_strlit("9");
    }
    if d == 0 {
        "0"
    } else if d == 1 {
        "1"
    } else if d == 2 {
        "2"
    } else if d == 3 {
        "3"
    } else if d == 4 {
        "4"
    } else if d == 5 {
        "5"
    } else if d == 6 {
        "6"
    } else if d == 7 {
        "7"
    } else if d == 8 {
        "8"
    } else {
        "9"
    }
}

/// Append the decimal digits of `n`.
fn append_digits(out: &mut String, n: u128)
    ensures
        final(out)@ == old(out)@ + dec_digits(n as nat),
    decreases n,
{
    if n >= 10 {
        append_digits(out, n / 10);
        out.append(digit_str((n % 10) as u32));
        proof {
            assert(dec_digits(n as nat) =~= dec_digits((n as nat) / 10) + seq![
                digit_char(((n as nat) % 10) as int),
            ]);
        }
    } else {
        out.append(digit_str(n as u32));
    }
}

/// Append `n` zero-padded to two digits.
fn append_pad2(out: &mut String, n: u32)
    requires
        n < 100,
    ensures
        final(out)@ == old(out)@ + pad2(n as nat),
{
    if n < 10 {
        proof {
            reveal_strlit("0");
        }
        out.append("0");
    }
    append_digits(out, n as u128);
}

/// Append `n` zero-padded to four digits.
fn append_pad4(out: &mut String, n: u32)
    ensures
        final(out)@ == old(out)@ + pad4(n as nat),
{
    proof {
        reveal_strlit("0");
        reveal_strlit("00");
        reveal_strlit("000");
    }
    if n < 10 {
        out.append("000");
        proof {
            assert("000"@ =~= seq!['0', '0', '0']);
        }
    } else if n < 100 {
        out.append("00");
        proof {
            assert("00"@ =~= seq!['0', '0']);
        }
    } else if n < 1000 {
        out.append("0");
    }
    append_digits(out, n as u128);
    proof {
        assert(final(out)@ =~= old(out)@ + pad4(n as nat));
    }
}

/// Append `YYYY-MM-DD`.
fn append_date(out: &mut String, d: &Date)
    requires
        d.valid(),
    ensures
        final(out)@ == old(out)@ + spec_date_chars(*d),
{
    proof {
        reveal_strlit("-");
    }
    append_pad4(out, d.year);
    out.append("-");
    append_pad2(out, d.month);
    out.append("-");
    append_pad2(out, d.day);
    proof {
        assert(final(out)@ =~= old(out)@ + spec_date_chars(*d));
    }
}

/// Append the amount as fixed-point decimal text, two fractional digits.
fn append_amount(out: &mut String, a: &Decimal)
    requires
        a.scale == 2,
    ensures
        final(out)@ == old(out)@ + spec_amount_chars(*a),
{
    proof {
        reveal_strlit(".");
    }
    append_digits(out, a.mantissa / 100);
    out.append(".");
    append_pad2(out, (a.mantissa % 100) as u32);
    proof {
        assert(final(out)@ =~= old(out)@ + spec_amount_chars(*a));
    }
}

/// Render the records, already in emission order, as the full text of one
/// asset's output file.
pub fn render_records(recs: &Vec<PriceRecord>, ticker: &str, currency: &str) -> (r: String)
    requires
        forall|j: int| 0 <= j < recs@.len() ==> (#[trigger] recs@[j]).wf(),
    ensures
        r@ == spec_render_all(recs@, ticker@, currency@),
{
    proof {
        reveal_strlit(" price ");
        reveal_strlit(" ");
        reveal_strlit("\n");
    }
    let mut out = String::new();
    let mut i: usize = 0;
    proof {
        assert(recs@.take(0) =~= Seq::<PriceRecord>::empty());
    }
    while i < recs.len()
        invariant
            0 <= i <= recs@.len(),
            forall|j: int| 0 <= j < recs@.len() ==> (#[trigger] recs@[j]).wf(),
            out@ == spec_render_all(recs@.take(i as int), ticker@, currency@),
        decreases recs@.len() - i,
    {
        proof {
            reveal_strlit(" price ");
            reveal_strlit(" ");
            reveal_strlit("\n");
            assert(recs@.take(i + 1).drop_last() =~= recs@.take(i as int));
            assert(recs@.take(i + 1).last() == recs@[i as int]);
            assert(" price "@ =~= seq![' ', 'p', 'r', 'i', 'c', 'e', ' ']);
            assert(" "@ =~= seq![' ']);
            assert("\n"@ =~= seq!['\n']);
        }
        let ghost before = out@;
        append_date(&mut out, &recs[i].date);
        out.append(" price ");
        out.append(ticker);
        out.append(" ");
        append_amount(&mut out, &recs[i].amount);
        out.append(" ");
        out.append(currency);
        out.append("\n");
        proof {
            assert(out@ =~= before + spec_line_chars(recs@[i as int], ticker@, currency@));
        }
        i = i + 1;
    }
    proof {
        assert(recs@.take(i as int) =~= recs@);
    }
    out
}

} // verus!
