use venmo_bank_statement_csv_corrector::amount::Decimal;
use venmo_bank_statement_csv_corrector::table::{CorrectedTable, RawColumn, RawTable};
use venmo_bank_statement_csv_corrector::transform::{locate_columns, transform, TransformError};

const HEADERS: [&str; 8] = [
    "ID",
    "Datetime",
    "Amount (total)",
    "Amount (tip)",
    "Amount (tax)",
    "Amount (fee)",
    "From",
    "Note",
];

fn cell(s: &str) -> Option<String> {
    if s.is_empty() {
        None
    } else {
        Some(s.to_string())
    }
}

/// A table with the given headers whose rows are given cell by cell
/// (an empty cell is null).
fn table(headers: &[&str], rows: &[[&str; 8]]) -> RawTable {
    let columns = headers
        .iter()
        .enumerate()
        .map(|(k, h)| RawColumn {
            name: h.to_string(),
            cells: rows.iter().map(|r| cell(r[k])).collect(),
        })
        .collect();
    RawTable::from_columns(columns).unwrap()
}

fn amounts(t: &CorrectedTable) -> Vec<String> {
    t.rows.iter().map(|r| r.amount.to_text()).collect()
}

#[test]
fn end_to_end_row() {
    let raw = table(
        &HEADERS,
        &[["abc123", "2024-01-15T10:00:00", "$20.00", "", "$1.00", "-$0.50", "Alice", "lunch"]],
    );
    let t = transform(&raw).unwrap_or_else(|e| panic!("{}", e.message()));
    assert_eq!(t.rows.len(), 1);
    let row = &t.rows[0];
    assert_eq!(row.reference.as_deref(), Some("abc123"));
    assert_eq!(row.date, "2024/01/15");
    assert_eq!(row.amount, Decimal { mantissa: 2050, scale: 2 });
    assert_eq!(row.amount.to_text(), "20.50");
    assert_eq!(row.payee.as_deref(), Some("Alice"));
    assert_eq!(row.description.as_deref(), Some("lunch"));
}

#[test]
fn aggregation_of_the_four_components() {
    let raw = table(
        &HEADERS,
        &[["a", "2024-01-15", "$10.00", "", "$0.50", "-$1.00", "Bo", "x"]],
    );
    let t = transform(&raw).unwrap_or_else(|e| panic!("{}", e.message()));
    assert_eq!(amounts(&t), vec!["9.50".to_string()]);
}

#[test]
fn zero_rows_are_dropped() {
    let raw = table(
        &HEADERS,
        &[
            ["a", "2024-01-15", "$5.00", "", "", "-$5.00", "Bo", "even"],
            ["b", "2024-01-16", "$0.01", "", "", "", "Cy", "cent"],
            ["c", "2024-01-17", "", "", "", "", "Di", "empty"],
        ],
    );
    let t = transform(&raw).unwrap_or_else(|e| panic!("{}", e.message()));
    assert_eq!(t.rows.len(), 1);
    assert_eq!(t.rows[0].reference.as_deref(), Some("b"));
    assert_eq!(amounts(&t), vec!["0.01".to_string()]);
}

#[test]
fn kept_rows_keep_their_order() {
    let raw = table(
        &HEADERS,
        &[
            ["r1", "2024-03-01", "$3.00", "", "", "", "A", ""],
            ["r2", "2024-02-01", "$1.00", "", "", "-$1.00", "B", ""],
            ["r3", "2024-01-01", "-$2.00", "", "", "", "C", ""],
            ["r4", "2023-12-01", "$0.00", "", "", "", "D", ""],
            ["r5", "2023-11-01", "$1.00", "", "", "", "E", ""],
        ],
    );
    let t = transform(&raw).unwrap_or_else(|e| panic!("{}", e.message()));
    let refs: Vec<&str> = t.rows.iter().map(|r| r.reference.as_deref().unwrap()).collect();
    assert_eq!(refs, vec!["r1", "r3", "r5"]);
    let dates: Vec<&str> = t.rows.iter().map(|r| r.date.as_str()).collect();
    assert_eq!(dates, vec!["2024/03/01", "2024/01/01", "2023/11/01"]);
    assert_eq!(amounts(&t), vec!["3.00", "-2.00", "1.00"]);
}

#[test]
fn clean_input_round_trips() {
    let raw = table(
        &HEADERS,
        &[["id", "2022-07-04", "12.34", "1.5", "0.66", "-4", "P", "n"]],
    );
    let t = transform(&raw).unwrap_or_else(|e| panic!("{}", e.message()));
    assert_eq!(t.rows[0].date, "2022/07/04");
    assert_eq!(amounts(&t), vec!["10.50".to_string()]);
}

#[test]
fn each_missing_column_is_named() {
    for missing in HEADERS {
        let headers: Vec<&str> = HEADERS.iter().map(|h| if *h == missing { "Other" } else { *h }).collect();
        let raw = table(&headers, &[["a", "2024-01-15", "$1.00", "", "", "", "B", "c"]]);
        match transform(&raw) {
            Err(TransformError::MissingColumn(name)) => assert_eq!(name, missing),
            _ => panic!("expected a missing column"),
        }
    }
}

#[test]
fn first_missing_column_in_order_is_named() {
    let headers = ["ID", "Datetime", "Amount (total)", "Amount (tip)", "X", "Amount (fee)", "Y", "Note"];
    let raw = table(&headers, &[["a", "2024-01-15", "$1.00", "", "", "", "B", "c"]]);
    match transform(&raw) {
        Err(TransformError::MissingColumn(name)) => assert_eq!(name, "Amount (tax)"),
        _ => panic!("expected a missing column"),
    }
}

#[test]
fn missing_column_wins_over_bad_date() {
    let headers = ["ID", "Datetime", "Amount (total)", "Amount (tip)", "Amount (tax)", "Amount (fee)", "From", "Memo"];
    let raw = table(&headers, &[["a", "not a date", "$1.00", "", "", "", "B", "c"]]);
    match transform(&raw) {
        Err(e) => assert_eq!(e.message(), "missing column: Note"),
        Ok(_) => panic!("expected a missing column"),
    }
}

#[test]
fn bad_date_fails_the_file() {
    let raw = table(
        &HEADERS,
        &[
            ["a", "2024-01-15", "$1.00", "", "", "", "B", "c"],
            ["b", "2024-15-01T10:00:00", "$1.00", "", "", "", "B", "c"],
            ["c", "garbage", "$1.00", "", "", "", "B", "c"],
        ],
    );
    match transform(&raw) {
        Err(TransformError::InvalidDate { column, value }) => {
            assert_eq!(column, "Datetime");
            assert_eq!(value, "2024-15-01");
        }
        _ => panic!("expected an invalid date"),
    }
}

#[test]
fn only_the_date_head_decides() {
    let one = table(&HEADERS, &[["a", "2024-01-15T10:00:00", "$1.00", "", "", "", "B", "c"]]);
    let two = table(&HEADERS, &[["a", "2024-01-15 whatever", "$1.00", "", "", "", "B", "c"]]);
    let t1 = transform(&one).unwrap_or_else(|e| panic!("{}", e.message()));
    let t2 = transform(&two).unwrap_or_else(|e| panic!("{}", e.message()));
    assert_eq!(t1.rows[0].date, t2.rows[0].date);
    assert_eq!(t1.rows[0].date, "2024/01/15");
}

#[test]
fn null_date_fails_the_file() {
    let raw = table(&HEADERS, &[["a", "", "$1.00", "", "", "", "B", "c"]]);
    match transform(&raw) {
        Err(e) => assert_eq!(e.message(), "column Datetime: not a YYYY-MM-DD date: "),
        Ok(_) => panic!("expected an invalid date"),
    }
}

#[test]
fn column_order_in_export_does_not_matter() {
    let headers = ["Note", "From", "Amount (fee)", "Amount (tax)", "Amount (tip)", "Amount (total)", "Datetime", "ID"];
    let raw = table(&headers, &[["lunch", "Alice", "-$0.50", "$1.00", "", "$20.00", "2024-01-15T10:00:00", "abc123"]]);
    let c = locate_columns(&raw).unwrap_or_else(|e| panic!("{}", e.message()));
    assert_eq!(c.id, 7);
    assert_eq!(c.note, 0);
    let t = transform(&raw).unwrap_or_else(|e| panic!("{}", e.message()));
    assert_eq!(t.rows[0].reference.as_deref(), Some("abc123"));
    assert_eq!(t.rows[0].amount.to_text(), "20.50");
    assert_eq!(t.rows[0].payee.as_deref(), Some("Alice"));
}

#[test]
fn empty_export_gives_no_rows() {
    let raw = table(&HEADERS, &[]);
    let t = transform(&raw).unwrap_or_else(|e| panic!("{}", e.message()));
    assert!(t.rows.is_empty());
}

#[test]
fn ragged_columns_are_refused() {
    let columns = vec![
        RawColumn { name: "ID".to_string(), cells: vec![cell("a")] },
        RawColumn { name: "Note".to_string(), cells: vec![] },
    ];
    assert!(RawTable::from_columns(columns).is_none());
}

#[test]
fn find_column_takes_the_first_of_a_name() {
    let columns = vec![
        RawColumn { name: "ID".to_string(), cells: vec![cell("a")] },
        RawColumn { name: "From".to_string(), cells: vec![cell("b")] },
        RawColumn { name: "ID".to_string(), cells: vec![cell("c")] },
    ];
    let raw = RawTable::from_columns(columns).unwrap();
    assert_eq!(raw.find_column("ID"), Some(0));
    assert_eq!(raw.find_column("From"), Some(1));
    assert_eq!(raw.find_column("Note"), None);
}
