use venmo_bank_statement_csv_corrector::amount::{
    clean_numeric_text, coerce_cell, fill_absent, parse_amount, row_amount, Decimal,
};

fn cell(s: &str) -> Option<String> {
    Some(s.to_string())
}

#[test]
fn clean_drops_currency_and_spaces() {
    assert_eq!(clean_numeric_text("$12.50 "), "12.50");
    assert_eq!(clean_numeric_text("- $1,250.00"), "-1250.00");
    assert_eq!(clean_numeric_text("+ $3.00"), "3.00");
    assert_eq!(clean_numeric_text("USD"), "");
    assert_eq!(clean_numeric_text(""), "");
}

#[test]
fn clean_keeps_only_ascii_digits() {
    assert_eq!(clean_numeric_text("½1٣²"), "1");
}

#[test]
fn clean_is_idempotent() {
    for text in ["$12.50 ", "- $1,250.00", "abc", "", "1.2.3", "€ 7,5"] {
        let once = clean_numeric_text(text);
        let twice = clean_numeric_text(&once);
        assert_eq!(once, twice);
    }
    assert_eq!(clean_numeric_text("$12.50 "), "12.50");
    assert_eq!(clean_numeric_text("12.50"), "12.50");
}

#[test]
fn parse_reads_plain_numbers() {
    assert_eq!(parse_amount("12.50"), Some(Decimal { mantissa: 1250, scale: 2 }));
    assert_eq!(parse_amount("-0.5"), Some(Decimal { mantissa: -5, scale: 1 }));
    assert_eq!(parse_amount("5."), Some(Decimal { mantissa: 5, scale: 0 }));
    assert_eq!(parse_amount(".5"), Some(Decimal { mantissa: 5, scale: 1 }));
    assert_eq!(parse_amount("007"), Some(Decimal { mantissa: 7, scale: 0 }));
    assert_eq!(
        parse_amount("999999999999999999"),
        Some(Decimal { mantissa: 999_999_999_999_999_999, scale: 0 })
    );
}

#[test]
fn parse_rejects_what_is_no_number() {
    assert_eq!(parse_amount(""), None);
    assert_eq!(parse_amount("-"), None);
    assert_eq!(parse_amount("."), None);
    assert_eq!(parse_amount("-."), None);
    assert_eq!(parse_amount("1.2.3"), None);
    assert_eq!(parse_amount("5-"), None);
    assert_eq!(parse_amount("--5"), None);
    assert_eq!(parse_amount("1e5"), None);
}

#[test]
fn parse_keeps_eighteen_significant_digits() {
    assert_eq!(
        parse_amount("1234567890123456789"),
        Some(Decimal { mantissa: 123_456_789_012_345_678, scale: -1 })
    );
    assert_eq!(
        parse_amount("1.23456789012345678999"),
        Some(Decimal { mantissa: 123_456_789_012_345_678, scale: 17 })
    );
    assert_eq!(
        parse_amount("-0000000000000000000000012.5"),
        Some(Decimal { mantissa: -125, scale: 1 })
    );
    assert_eq!(
        parse_amount("1000000000000000000000000"),
        Some(Decimal { mantissa: 100_000_000_000_000_000, scale: -7 })
    );
}

#[test]
fn long_amounts_are_read_by_value() {
    let r = row_amount(&cell("1000000000000000000"), &cell("1"), &None, &None);
    assert_eq!(r.to_text(), "1000000000000000001");
    let r = row_amount(&cell("$123456789012345678901"), &None, &None, &None);
    assert!(!r.is_zero());
    assert_eq!(r.to_text(), "123456789012345678000");
    let r = row_amount(&cell("1000000000000000000000"), &cell("0.5"), &None, &None);
    assert_eq!(r.to_text(), "1000000000000000000000.5");
    let r = row_amount(&cell("1000000000000000000000000"), &cell("0.000000000005"), &None, &None);
    assert_eq!(r.to_text(), "1000000000000000000000000.00000000000");
}

#[test]
fn null_cell_stays_absent_then_fills_to_zero() {
    assert_eq!(coerce_cell(&None), None);
    assert_eq!(coerce_cell(&cell("")), None);
    assert_eq!(coerce_cell(&cell("$")), None);
    assert_eq!(coerce_cell(&cell("$1.2.3")), None);
    assert_eq!(coerce_cell(&cell("$4.25")), Some(Decimal { mantissa: 425, scale: 2 }));
    assert_eq!(fill_absent(None), Decimal { mantissa: 0, scale: 0 });
    assert_eq!(
        fill_absent(Some(Decimal { mantissa: 3, scale: 1 })),
        Decimal { mantissa: 3, scale: 1 }
    );
}

#[test]
fn amounts_add_up_exactly() {
    let r = row_amount(&cell("$10.00"), &cell(""), &cell("$0.50"), &cell("-$1.00"));
    assert_eq!(r, Decimal { mantissa: 950, scale: 2 });
    assert_eq!(r.to_text(), "9.50");
    let r = row_amount(&cell("$10.00"), &None, &cell("$0.50"), &cell("-$1.00"));
    assert_eq!(r.to_text(), "9.50");
}

#[test]
fn amounts_net_to_zero() {
    let r = row_amount(&cell("$5.00"), &cell(""), &cell(""), &cell("-$5.00"));
    assert!(r.is_zero());
    let r = row_amount(&cell("$0.01"), &None, &None, &None);
    assert!(!r.is_zero());
    assert_eq!(r.to_text(), "0.01");
}

#[test]
fn amounts_align_to_the_largest_scale() {
    let r = row_amount(&cell("1"), &cell("0.5"), &cell("0.25"), &cell("-0.125"));
    assert_eq!(r, Decimal { mantissa: 1625, scale: 3 });
    assert_eq!(r.to_text(), "1.625");
}

#[test]
fn plain_decimal_cells_sum_arithmetically() {
    let r = row_amount(&cell("12.34"), &cell("1.5"), &cell("0.66"), &cell("-4"));
    assert_eq!(r.to_text(), "10.50");
    let sum = 12.34f64 + 1.5 + 0.66 - 4.0;
    let shown: f64 = r.to_text().parse().unwrap();
    assert!((shown - sum).abs() < 1e-9);
}

#[test]
fn decimal_text_forms() {
    assert_eq!(Decimal { mantissa: 0, scale: 0 }.to_text(), "0");
    assert_eq!(Decimal { mantissa: 0, scale: 2 }.to_text(), "0.00");
    assert_eq!(Decimal { mantissa: -5, scale: 1 }.to_text(), "-0.5");
    assert_eq!(Decimal { mantissa: 7, scale: 3 }.to_text(), "0.007");
    assert_eq!(Decimal { mantissa: 12345, scale: 2 }.to_text(), "123.45");
    assert_eq!(Decimal { mantissa: -2050, scale: 0 }.to_text(), "-2050");
    assert_eq!(Decimal { mantissa: 5, scale: -2 }.to_text(), "500");
    assert_eq!(Decimal { mantissa: -5, scale: -1 }.to_text(), "-50");
    assert_eq!(Decimal { mantissa: 0, scale: -3 }.to_text(), "0");
    assert_eq!(
        Decimal { mantissa: i128::MIN, scale: 0 }.to_text(),
        "-170141183460469231731687303715884105728"
    );
}

#[test]
fn amounts_are_exact_decimals() {
    // Exact decimals: 16777217 has no 32-bit float of its own.
    let r = row_amount(&cell("0.1"), &cell("0.2"), &None, &None);
    assert_eq!(r.to_text(), "0.3");
    let r = row_amount(&cell("16777216"), &cell("1"), &None, &None);
    assert_eq!(r.to_text(), "16777217");
}
