use venmo_bank_statement_csv_corrector::date::{date_input_of, date_prefix_of, normalize_date_cell};

fn cell(s: &str) -> Option<String> {
    Some(s.to_string())
}

#[test]
fn timestamp_is_cut_to_its_date() {
    assert_eq!(date_prefix_of("2023-05-01T14:32:00Z"), "2023-05-01");
    assert_eq!(date_prefix_of("2023-05-01"), "2023-05-01");
    assert_eq!(date_prefix_of("2023-5-1"), "2023-5-1");
    assert_eq!(date_input_of(&None), "");
    assert_eq!(date_input_of(&cell("2023-05-01 09:00")), "2023-05-01");
}

#[test]
fn date_reads_only_first_ten_characters() {
    assert_eq!(normalize_date_cell(&cell("2023-05-01T14:32:00Z")), Some("2023/05/01".to_string()));
    assert_eq!(normalize_date_cell(&cell("2023-05-01")), Some("2023/05/01".to_string()));
    assert_eq!(normalize_date_cell(&cell("2023-05-01garbage")), Some("2023/05/01".to_string()));
}

#[test]
fn date_rejects_what_is_no_date() {
    assert_eq!(normalize_date_cell(&None), None);
    assert_eq!(normalize_date_cell(&cell("")), None);
    assert_eq!(normalize_date_cell(&cell("2023-13-01")), None);
    assert_eq!(normalize_date_cell(&cell("2023-02-30")), None);
    assert_eq!(normalize_date_cell(&cell("01/05/2023")), None);
}

#[test]
fn date_knows_leap_days() {
    assert_eq!(normalize_date_cell(&cell("2024-02-29T00:00:00")), Some("2024/02/29".to_string()));
    assert_eq!(normalize_date_cell(&cell("2023-02-29")), None);
}
