use beancount_prices::PriceError;
use beancount_prices::coincap::{self, History};
use beancount_prices::date::Date;
use beancount_prices::decimal::{Decimal, convert_price, invert_rate, parse_decimal};
use beancount_prices::fiat;
use beancount_prices::rates::{ConversionRate, DayRates, Rates, SymbolRate, needs_rate_fetch};
use beancount_prices::series::PricePoint;

fn d(year: u32, month: u32, day: u32) -> Date {
    Date::new(year, month, day).unwrap()
}

fn dec(mantissa: u128, scale: u32) -> Decimal {
    Decimal { mantissa, scale }
}

fn eur_table(days: Vec<(Date, u128, u32)>) -> Rates {
    Rates::Conversion {
        symbol: String::from("EUR"),
        rate: ConversionRate {
            rates: days
                .into_iter()
                .map(|(date, mantissa, scale)| DayRates {
                    date,
                    rates: vec![SymbolRate {
                        symbol: String::from("EUR"),
                        rate: dec(mantissa, scale),
                    }],
                })
                .collect(),
        },
    }
}

fn point(date: Date, text: &str) -> PricePoint {
    PricePoint {
        price_usd: String::from(text),
        date,
    }
}

#[test]
fn end_to_end_example() {
    // Price series (2024-01-01, "100.0"), (2024-01-03, "102.0"); the only
    // rate is 0.9 on 2024-01-01; the second point backward-fills to it.
    let history = History {
        data: Some(vec![
            point(d(2024, 1, 1), "100.0"),
            point(d(2024, 1, 3), "102.0"),
        ]),
    };
    let rates = eur_table(vec![(d(2024, 1, 1), 9, 1)]);
    let out = coincap::generate_lines(history, &rates, "BTC", "EUR", d(2023, 12, 1)).unwrap();
    assert_eq!(
        out,
        "2024-01-01 price BTC 111.11 EUR\n2024-01-03 price BTC 113.33 EUR\n"
    );
}

#[test]
fn record_kept_with_original_date() {
    // The point's own date is written, never the rate's lookup date.
    let history = History {
        data: Some(vec![point(d(2024, 3, 10), "1.0")]),
    };
    let rates = eur_table(vec![(d(2024, 3, 1), 1, 0)]);
    let out = coincap::generate_lines(history, &rates, "BTC", "EUR", d(2024, 1, 1)).unwrap();
    assert_eq!(out, "2024-03-10 price BTC 1.00 EUR\n");
}

#[test]
fn point_without_any_rate_is_skipped_silently() {
    // The only rate lies after the point's date: the walk backward finds
    // nothing, the point is skipped, and that is no error.
    let history = History {
        data: Some(vec![point(d(2024, 1, 1), "100.0")]),
    };
    let rates = eur_table(vec![(d(2024, 1, 5), 9, 1)]);
    let out = coincap::generate_lines(history, &rates, "BTC", "EUR", d(2023, 12, 1)).unwrap();
    assert_eq!(out, "");
}

#[test]
fn backward_fill_uses_most_recent_rate() {
    // Rates on D-5 and D-2 only, price on D: the D-2 rate (0.5) is used,
    // not the older D-5 rate (0.2).
    let rates = eur_table(vec![(d(2024, 1, 5), 2, 1), (d(2024, 1, 8), 5, 1)]);
    assert_eq!(
        rates.rate_as_of(d(2024, 1, 10), d(2024, 1, 1)),
        Some(dec(5, 1))
    );
    let history = History {
        data: Some(vec![point(d(2024, 1, 10), "1.0")]),
    };
    let out = coincap::generate_lines(history, &rates, "BTC", "EUR", d(2024, 1, 1)).unwrap();
    assert_eq!(out, "2024-01-10 price BTC 2.00 EUR\n");
}

#[test]
fn identity_currency_converts_at_one() {
    // Symbol equals the base currency: no fetch is needed and every
    // point converts with rate exactly one.
    assert!(!needs_rate_fetch(
        &String::from("EUR"),
        &String::from("EUR")
    ));
    assert!(needs_rate_fetch(&String::from("USD"), &String::from("EUR")));
    let rates = Rates::Equal;
    assert_eq!(rates.rate_at(d(2024, 7, 7)), Some(dec(1, 0)));
    let history = History {
        data: Some(vec![point(d(2024, 7, 7), "123.45")]),
    };
    let out = coincap::generate_lines(history, &rates, "ETH", "USD", d(2024, 1, 1)).unwrap();
    assert_eq!(out, "2024-07-07 price ETH 123.45 USD\n");
}

#[test]
fn fiat_inverse_formula() {
    // Rate 0.5 (1 base = 0.5 target) prices one target unit at 2.00.
    assert_eq!(invert_rate(&dec(5, 1)), Ok(dec(200, 2)));
    let rates = eur_table(vec![(d(2024, 1, 1), 5, 1)]);
    let out = fiat::generate_lines(&rates, "EUR", "CHF").unwrap();
    assert_eq!(out, "2024-01-01 price EUR 2.00 CHF\n");
}

#[test]
fn out_of_order_series_is_emitted_ascending() {
    let history = History {
        data: Some(vec![
            point(d(2024, 1, 3), "102.0"),
            point(d(2024, 1, 1), "100.0"),
        ]),
    };
    let rates = eur_table(vec![(d(2024, 1, 1), 9, 1)]);
    let out = coincap::generate_lines(history, &rates, "BTC", "EUR", d(2023, 12, 1)).unwrap();
    assert_eq!(
        out,
        "2024-01-01 price BTC 111.11 EUR\n2024-01-03 price BTC 113.33 EUR\n"
    );
}

#[test]
fn out_of_order_rate_table_is_emitted_ascending() {
    let rates = eur_table(vec![
        (d(2024, 2, 2), 5, 1),
        (d(2024, 1, 1), 2, 1),
        (d(2024, 1, 15), 4, 1),
    ]);
    let out = fiat::generate_lines(&rates, "EUR", "CHF").unwrap();
    assert_eq!(
        out,
        "2024-01-01 price EUR 5.00 CHF\n2024-01-15 price EUR 2.50 CHF\n2024-02-02 price EUR 2.00 CHF\n"
    );
}

#[test]
fn malformed_price_text_is_a_parse_error() {
    assert_eq!(parse_decimal("abc"), Err(PriceError::ParsePriceError));
    let history = History {
        data: Some(vec![point(d(2024, 1, 1), "abc")]),
    };
    let rates = eur_table(vec![(d(2024, 1, 1), 9, 1)]);
    let out = coincap::generate_lines(history, &rates, "BTC", "EUR", d(2023, 12, 1));
    assert_eq!(out, Err(PriceError::ParsePriceError));
}

#[test]
fn empty_history_renders_empty_text() {
    let rates = eur_table(vec![(d(2024, 1, 1), 9, 1)]);
    let none = History { data: None };
    assert_eq!(
        coincap::generate_lines(none, &rates, "BTC", "EUR", d(2023, 12, 1)),
        Ok(String::new())
    );
    let empty = History {
        data: Some(Vec::new()),
    };
    assert_eq!(
        coincap::generate_lines(empty, &rates, "BTC", "EUR", d(2023, 12, 1)),
        Ok(String::new())
    );
}

#[test]
fn parse_decimal_accepts_decimal_text() {
    assert_eq!(parse_decimal("100.0"), Ok(dec(1000, 1)));
    assert_eq!(parse_decimal("0.9"), Ok(dec(9, 1)));
    assert_eq!(parse_decimal("42"), Ok(dec(42, 0)));
    assert_eq!(parse_decimal(".5"), Ok(dec(5, 1)));
    assert_eq!(parse_decimal("7."), Ok(dec(7, 0)));
    assert_eq!(parse_decimal("000.250"), Ok(dec(250, 3)));
}

#[test]
fn parse_decimal_rejects_non_decimal_text() {
    assert_eq!(parse_decimal(""), Err(PriceError::ParsePriceError));
    assert_eq!(parse_decimal("."), Err(PriceError::ParsePriceError));
    assert_eq!(parse_decimal("1.2.3"), Err(PriceError::ParsePriceError));
    assert_eq!(parse_decimal("-5"), Err(PriceError::ParsePriceError));
    assert_eq!(parse_decimal("1e3"), Err(PriceError::ParsePriceError));
    assert_eq!(parse_decimal("12 "), Err(PriceError::ParsePriceError));
}

#[test]
fn unrepresentable_value_is_invalid_price() {
    // Forty digits exceed what the mantissa can hold.
    let long = "1".repeat(40);
    assert_eq!(parse_decimal(&long), Err(PriceError::InvalidPrice));
}

#[test]
fn zero_rate_is_invalid_price() {
    assert_eq!(
        convert_price(&dec(1000, 1), &dec(0, 0)),
        Err(PriceError::InvalidPrice)
    );
    assert_eq!(invert_rate(&dec(0, 2)), Err(PriceError::InvalidPrice));
    let rates = eur_table(vec![(d(2024, 1, 1), 0, 0)]);
    let out = fiat::generate_lines(&rates, "EUR", "CHF");
    assert_eq!(out, Err(PriceError::InvalidPrice));
}

#[test]
fn conversion_truncates_to_two_digits() {
    // 100.0 / 0.9 = 111.111... -> 111.11; 1 / 3 -> 0.33.
    assert_eq!(convert_price(&dec(1000, 1), &dec(9, 1)), Ok(dec(11111, 2)));
    assert_eq!(convert_price(&dec(1, 0), &dec(3, 0)), Ok(dec(33, 2)));
}

#[test]
fn date_validity_and_predecessor() {
    assert!(Date::new(2023, 2, 29).is_none());
    assert!(Date::new(2024, 2, 29).is_some());
    assert!(Date::new(2024, 0, 1).is_none());
    assert!(Date::new(2024, 13, 1).is_none());
    assert_eq!(d(2024, 3, 1).pred(), Some(d(2024, 2, 29)));
    assert_eq!(d(2023, 3, 1).pred(), Some(d(2023, 2, 28)));
    assert_eq!(d(2024, 1, 1).pred(), Some(d(2023, 12, 31)));
    assert_eq!(d(1, 1, 1).pred(), None);
}

#[test]
fn date_range_of_history() {
    let history = History {
        data: Some(vec![
            point(d(2024, 1, 2), "1.0"),
            point(d(2024, 1, 5), "2.0"),
            point(d(2024, 1, 9), "3.0"),
        ]),
    };
    assert_eq!(history.date_range(), Some((d(2024, 1, 2), d(2024, 1, 9))));
    assert_eq!(History { data: None }.date_range(), None);
    assert_eq!(
        History {
            data: Some(Vec::new())
        }
        .date_range(),
        None
    );
}

#[test]
fn rate_lookup_is_exact_and_symbol_aware() {
    let rates = Rates::Conversion {
        symbol: String::from("EUR"),
        rate: ConversionRate {
            rates: vec![DayRates {
                date: d(2024, 1, 1),
                rates: vec![
                    SymbolRate {
                        symbol: String::from("GBP"),
                        rate: dec(8, 1),
                    },
                    SymbolRate {
                        symbol: String::from("EUR"),
                        rate: dec(9, 1),
                    },
                ],
            }],
        },
    };
    assert_eq!(rates.rate_at(d(2024, 1, 1)), Some(dec(9, 1)));
    assert_eq!(rates.rate_at(d(2024, 1, 2)), None);
    let all = rates.all();
    assert_eq!(all, vec![(d(2024, 1, 1), dec(9, 1))]);
}

#[test]
fn search_stops_at_floor() {
    // A rate below the floor is out of the window: the walk must not
    // reach it.
    let rates = eur_table(vec![(d(2023, 12, 31), 9, 1)]);
    assert_eq!(rates.rate_as_of(d(2024, 1, 10), d(2024, 1, 1)), None);
    assert_eq!(
        rates.rate_as_of(d(2024, 1, 10), d(2023, 12, 31)),
        Some(dec(9, 1))
    );
}

#[test]
fn fiat_identity_yields_empty_file() {
    // A fiat symbol equal to the base currency quotes nothing: the output
    // file is empty and that is no error.
    let out = fiat::generate_lines(&Rates::Equal, "EUR", "EUR").unwrap();
    assert_eq!(out, "");
}

#[test]
fn duplicate_date_first_row_wins() {
    let rates = eur_table(vec![(d(2024, 1, 1), 9, 1), (d(2024, 1, 1), 5, 1)]);
    assert_eq!(rates.rate_at(d(2024, 1, 1)), Some(dec(9, 1)));
}

#[test]
fn large_year_renders_padded() {
    let history = History {
        data: Some(vec![point(d(987, 6, 5), "1.0")]),
    };
    let rates = Rates::Equal;
    let out = coincap::generate_lines(history, &rates, "X", "USD", d(1, 1, 1)).unwrap();
    assert_eq!(out, "0987-06-05 price X 1.00 USD\n");
}
