//! The whole correction of one export: the required columns, the dates, the
//! amounts, and the rows that are kept.
use vstd::prelude::*;

use crate::amount::{row_amount, row_amount_spec};
use crate::date::{
    date_input, date_input_of, lemma_date_reads_prefix, normalize_date_cell, normalized_date,
    DATE_PREFIX_LEN,
};
use crate::table::{cell_view, copy_cell, lemma_column_position, lemma_first_named_exists, CorrectedRow, CorrectedTable, RawTable, RowView};

verus! {

/// Why an export could not be corrected.
pub enum TransformError {
    /// The export has no column of this name.
    MissingColumn(String),
    /// In the named column, this text, the date part of a timestamp, is no
    /// `YYYY-MM-DD` date.
    InvalidDate { column: String, value: String },
}

impl TransformError {
    /// A message for the user that names the column or the value at fault.
    pub fn message(&self) -> (r: String)
        ensures
            match self {
                TransformError::MissingColumn(n) => r@ == "missing column: "@ + n@,
                TransformError::InvalidDate { column, value } => r@ == "column "@ + column@
                    + ": not a YYYY-MM-DD date: "@ + value@,
            },
    {
        match self {
            TransformError::MissingColumn(n) => {
                let mut m = String::from_str("missing column: ");
                m.append(n.as_str());
                m
            },
            TransformError::InvalidDate { column, value } => {
                let mut m = String::from_str("column ");
                m.append(column.as_str());
                m.append(": not a YYYY-MM-DD date: ");
                m.append(value.as_str());
                m
            },
        }
    }
}

/// The first of the required columns, in the order `ID`, `Datetime`,
/// `Amount (total)`, `Amount (tip)`, `Amount (tax)`, `Amount (fee)`, `From`,
/// `Note`, that the export lacks; `None` when it has them all.
pub open spec fn first_missing(raw: RawTable) -> Option<Seq<char>> {
    if !raw.has_column("ID"@) {
        Some("ID"@)
    } else if !raw.has_column("Datetime"@) {
        Some("Datetime"@)
    } else if !raw.has_column("Amount (total)"@) {
        Some("Amount (total)"@)
    } else if !raw.has_column("Amount (tip)"@) {
        Some("Amount (tip)"@)
    } else if !raw.has_column("Amount (tax)"@) {
        Some("Amount (tax)"@)
    } else if !raw.has_column("Amount (fee)"@) {
        Some("Amount (fee)"@)
    } else if !raw.has_column("From"@) {
        Some("From"@)
    } else if !raw.has_column("Note"@) {
        Some("Note"@)
    } else {
        None
    }
}

/// Where the required columns stand in an export.
pub struct ColumnIndex {
    pub id: usize,
    pub datetime: usize,
    pub total: usize,
    pub tip: usize,
    pub tax: usize,
    pub fee: usize,
    pub from: usize,
    pub note: usize,
}

impl ColumnIndex {
    /// Each position is that of the first column of its name in `raw`.
    pub open spec fn locates(&self, raw: RawTable) -> bool {
        &&& raw.is_first_named("ID"@, self.id as int)
        &&& raw.is_first_named("Datetime"@, self.datetime as int)
        &&& raw.is_first_named("Amount (total)"@, self.total as int)
        &&& raw.is_first_named("Amount (tip)"@, self.tip as int)
        &&& raw.is_first_named("Amount (tax)"@, self.tax as int)
        &&& raw.is_first_named("Amount (fee)"@, self.fee as int)
        &&& raw.is_first_named("From"@, self.from as int)
        &&& raw.is_first_named("Note"@, self.note as int)
    }
}

fn require_column(raw: &RawTable, name: &str) -> (r: Result<usize, TransformError>)
    ensures
        match r {
            Ok(i) => raw.is_first_named(name@, i as int) && raw.has_column(name@),
            Err(TransformError::MissingColumn(n)) => n@ == name@ && !raw.has_column(name@),
            Err(_) => false,
        },
{
    match raw.find_column(name) {
        Some(i) => {
            proof {
                lemma_column_position(raw, name@, i as int);
            }
            Ok(i)
        },
        None => Err(TransformError::MissingColumn(String::from_str(name))),
    }
}

/// Finds the required columns of an export, or names the first one missing
/// (see `first_missing`).
pub fn locate_columns(raw: &RawTable) -> (r: Result<ColumnIndex, TransformError>)
    ensures
        match r {
            Ok(c) => first_missing(*raw) is None && c.locates(*raw),
            Err(TransformError::MissingColumn(n)) => first_missing(*raw) == Some(n@),
            Err(_) => false,
        },
{
    let id = match require_column(raw, "ID") {
        Ok(i) => i,
        Err(e) => return Err(e),
    };
    let datetime = match require_column(raw, "Datetime") {
        Ok(i) => i,
        Err(e) => return Err(e),
    };
    let total = match require_column(raw, "Amount (total)") {
        Ok(i) => i,
        Err(e) => return Err(e),
    };
    let tip = match require_column(raw, "Amount (tip)") {
        Ok(i) => i,
        Err(e) => return Err(e),
    };
    let tax = match require_column(raw, "Amount (tax)") {
        Ok(i) => i,
        Err(e) => return Err(e),
    };
    let fee = match require_column(raw, "Amount (fee)") {
        Ok(i) => i,
        Err(e) => return Err(e),
    };
    let from = match require_column(raw, "From") {
        Ok(i) => i,
        Err(e) => return Err(e),
    };
    let note = match require_column(raw, "Note") {
        Ok(i) => i,
        Err(e) => return Err(e),
    };
    Ok(ColumnIndex { id, datetime, total, tip, tax, fee, from, note })
}

/// Every timestamp cell holds a date.
pub open spec fn dates_readable(cells: Seq<Option<String>>) -> bool {
    forall|i: int| 0 <= i < cells.len() ==> (#[trigger] normalized_date(cell_view(cells[i]))) is Some
}

/// `v` is the date text of the first timestamp cell that holds no date.
pub open spec fn first_unreadable_date(cells: Seq<Option<String>>, v: Seq<char>) -> bool {
    exists|i: int|
        0 <= i < cells.len() && (#[trigger] normalized_date(cell_view(cells[i]))) is None && (
        forall|j: int| 0 <= j < i ==> (#[trigger] normalized_date(cell_view(cells[j]))) is Some)
            && v == date_input(cell_view(cells[i]))
}

/// Normalises a whole timestamp column, or fails on its first cell that holds
/// no date, naming the `Datetime` column and the text that was read.
pub fn normalize_dates(cells: &Vec<Option<String>>) -> (r: Result<Vec<String>, TransformError>)
    ensures
        match r {
            Ok(ds) => dates_readable(cells@) && ds@.len() == cells@.len() && forall|i: int|
                0 <= i < cells@.len() ==> normalized_date(cell_view(cells@[i])) == Some(
                    #[trigger] ds@[i]@,
                ),
            Err(TransformError::InvalidDate { column, value }) => column@ == "Datetime"@
                && first_unreadable_date(cells@, value@),
            Err(_) => false,
        },
{
    let mut out: Vec<String> = Vec::new();
    let mut i: usize = 0;
    while i < cells.len()
        invariant
            i <= cells@.len(),
            out@.len() == i,
            forall|j: int| 0 <= j < i ==> normalized_date(cell_view(cells@[j])) == Some(
                #[trigger] out@[j]@,
            ),
            forall|j: int| 0 <= j < i ==> (#[trigger] normalized_date(cell_view(cells@[j]))) is Some,
        decreases cells@.len() - i,
    {
        match normalize_date_cell(&cells[i]) {
            Some(d) => {
                out.push(d);
            },
            None => {
                let value = date_input_of(&cells[i]);
                let column = String::from_str("Datetime");
                return Err(TransformError::InvalidDate { column, value });
            },
        }
        i = i + 1;
    }
    Ok(out)
}


/// A row is kept when its amount is not zero.
pub open spec fn keeps(row: RowView) -> bool {
    row.amount.mantissa != 0
}

/// The rows whose amount is not zero, in their order.
pub open spec fn kept_rows(rows: Seq<RowView>) -> Seq<RowView>
    decreases rows.len(),
{
    if rows.len() == 0 {
        rows
    } else if keeps(rows.last()) {
        kept_rows(rows.drop_last()).push(rows.last())
    } else {
        kept_rows(rows.drop_last())
    }
}

/// Row `i` of an export in the ledger's columns, with `date` as its date.
pub open spec fn projected_row(raw: RawTable, c: ColumnIndex, date: Seq<char>, i: int) -> RowView {
    RowView {
        reference: cell_view(raw.columns@[c.id as int].cells@[i]),
        date,
        amount: row_amount_spec(
            cell_view(raw.columns@[c.total as int].cells@[i]),
            cell_view(raw.columns@[c.tip as int].cells@[i]),
            cell_view(raw.columns@[c.tax as int].cells@[i]),
            cell_view(raw.columns@[c.fee as int].cells@[i]),
        ),
        payee: cell_view(raw.columns@[c.from as int].cells@[i]),
        description: cell_view(raw.columns@[c.note as int].cells@[i]),
    }
}

/// The positions of `c` are columns of `raw`.
pub open spec fn in_bounds(raw: RawTable, c: ColumnIndex) -> bool {
    let n = raw.columns@.len();
    c.id < n && c.datetime < n && c.total < n && c.tip < n && c.tax < n && c.fee < n && c.from
        < n && c.note < n
}

/// Builds the ledger rows of an export from its columns and its normalised
/// dates (one per row), and drops the rows whose amount is zero.
pub fn build_rows(raw: &RawTable, c: &ColumnIndex, dates: &Vec<String>) -> (r: CorrectedTable)
    requires
        raw.wf(),
        in_bounds(*raw, *c),
        dates@.len() == raw.row_count(),
    ensures
        r@ == kept_rows(
            Seq::new(raw.row_count(), |i: int| projected_row(*raw, *c, dates@[i]@, i)),
        ),
{
    let n = dates.len();
    let ghost all = Seq::new(raw.row_count(), |i: int| projected_row(*raw, *c, dates@[i]@, i));
    let mut rows: Vec<CorrectedRow> = Vec::new();
    let mut i: usize = 0;
    while i < n
        invariant
            raw.wf(),
            in_bounds(*raw, *c),
            n == dates@.len() == raw.row_count(),
            all == Seq::new(raw.row_count(), |i: int| projected_row(*raw, *c, dates@[i]@, i)),
            i <= n,
            rows@.map_values(|r: CorrectedRow| r@) == kept_rows(all.take(i as int)),
        decreases n - i,
    {
        assert(raw.columns@[c.total as int].cells@.len() == n);
        assert(raw.columns@[c.tip as int].cells@.len() == n);
        assert(raw.columns@[c.tax as int].cells@.len() == n);
        assert(raw.columns@[c.fee as int].cells@.len() == n);
        assert(raw.columns@[c.id as int].cells@.len() == n);
        assert(raw.columns@[c.from as int].cells@.len() == n);
        assert(raw.columns@[c.note as int].cells@.len() == n);
        let amount = row_amount(
            &raw.columns[c.total].cells[i],
            &raw.columns[c.tip].cells[i],
            &raw.columns[c.tax].cells[i],
            &raw.columns[c.fee].cells[i],
        );
        assert(all.take(i + 1).drop_last() =~= all.take(i as int));
        assert(all.take(i + 1).last() == all[i as int]);
        if !amount.is_zero() {
            let row = CorrectedRow {
                reference: copy_cell(&raw.columns[c.id].cells[i]),
                date: dates[i].clone(),
                amount,
                payee: copy_cell(&raw.columns[c.from].cells[i]),
                description: copy_cell(&raw.columns[c.note].cells[i]),
            };
            assert(row@ == all[i as int]);
            let ghost before = rows@;
            rows.push(row);
            assert(rows@.map_values(|r: CorrectedRow| r@) =~= before.map_values(
                |r: CorrectedRow| r@,
            ).push(row@));
        }
        i = i + 1;
    }
    assert(all.take(n as int) =~= all);
    CorrectedTable { rows }
}

/// Timestamp cell `i` of an export holds a date, and this is it.
pub open spec fn date_of_row(raw: RawTable, i: int) -> Seq<char> {
    normalized_date(cell_view(raw.column_cells("Datetime"@)[i])).unwrap()
}

/// Row `i` of an export as a ledger row, before the zero rows are dropped.
pub open spec fn ledger_row(raw: RawTable, i: int) -> RowView {
    RowView {
        reference: cell_view(raw.column_cells("ID"@)[i]),
        date: date_of_row(raw, i),
        amount: row_amount_spec(
            cell_view(raw.column_cells("Amount (total)"@)[i]),
            cell_view(raw.column_cells("Amount (tip)"@)[i]),
            cell_view(raw.column_cells("Amount (tax)"@)[i]),
            cell_view(raw.column_cells("Amount (fee)"@)[i]),
        ),
        payee: cell_view(raw.column_cells("From"@)[i]),
        description: cell_view(raw.column_cells("Note"@)[i]),
    }
}

/// Every row of an export as a ledger row, in order.
pub open spec fn ledger_rows(raw: RawTable) -> Seq<RowView> {
    Seq::new(raw.row_count(), |i: int| ledger_row(raw, i))
}

/// The corrected rows of an export: its ledger rows without those whose
/// amount is zero.
pub open spec fn corrected_rows(raw: RawTable) -> Seq<RowView> {
    kept_rows(ledger_rows(raw))
}

/// Corrects one export: finds the required columns (or names the first one
/// missing), reads every date (or names the first text that is none), adds
/// up the amounts, and keeps the rows whose amount is not zero, in order.
pub fn transform(raw: &RawTable) -> (r: Result<CorrectedTable, TransformError>)
    requires
        raw.wf(),
    ensures
        match r {
            Ok(t) => {
                &&& first_missing(*raw) is None
                &&& dates_readable(raw.column_cells("Datetime"@))
                &&& t@ == corrected_rows(*raw)
            },
            Err(TransformError::MissingColumn(n)) => first_missing(*raw) == Some(n@),
            Err(TransformError::InvalidDate { column, value }) => {
                &&& first_missing(*raw) is None
                &&& column@ == "Datetime"@
                &&& first_unreadable_date(raw.column_cells("Datetime"@), value@)
            },
        },
{
    let c = match locate_columns(raw) {
        Ok(c) => c,
        Err(e) => return Err(e),
    };
    proof {
        lemma_column_position(raw, "ID"@, c.id as int);
        lemma_column_position(raw, "Datetime"@, c.datetime as int);
        lemma_column_position(raw, "Amount (total)"@, c.total as int);
        lemma_column_position(raw, "Amount (tip)"@, c.tip as int);
        lemma_column_position(raw, "Amount (tax)"@, c.tax as int);
        lemma_column_position(raw, "Amount (fee)"@, c.fee as int);
        lemma_column_position(raw, "From"@, c.from as int);
        lemma_column_position(raw, "Note"@, c.note as int);
    }
    let dates = match normalize_dates(&raw.columns[c.datetime].cells) {
        Ok(d) => d,
        Err(e) => return Err(e),
    };
    assert(raw.columns@[c.datetime as int].cells@.len() == raw.row_count());
    let t = build_rows(raw, &c, &dates);
    assert(Seq::new(raw.row_count(), |i: int| projected_row(*raw, c, dates@[i]@, i))
        =~= ledger_rows(*raw));
    Ok(t)
}


/// One of the eight columns that every export must have.
pub open spec fn is_required(name: Seq<char>) -> bool {
    ||| name == "ID"@
    ||| name == "Datetime"@
    ||| name == "Amount (total)"@
    ||| name == "Amount (tip)"@
    ||| name == "Amount (tax)"@
    ||| name == "Amount (fee)"@
    ||| name == "From"@
    ||| name == "Note"@
}

/// An export that lacks a required column fails with a missing-column error:
/// it names a required column that the export lacks, and names exactly that
/// column when it is the only one missing.
pub proof fn lemma_missing_column_named(raw: RawTable, name: Seq<char>)
    requires
        is_required(name),
        !raw.has_column(name),
    ensures
        first_missing(raw) is Some,
        is_required(first_missing(raw).unwrap()),
        !raw.has_column(first_missing(raw).unwrap()),
        (forall|other: Seq<char>| is_required(other) && other != name ==> raw.has_column(other))
            ==> first_missing(raw) == Some(name),
{
    reveal_strlit("ID");
    reveal_strlit("Datetime");
    reveal_strlit("Amount (total)");
    reveal_strlit("Amount (tip)");
    reveal_strlit("Amount (tax)");
    reveal_strlit("Amount (fee)");
    reveal_strlit("From");
    reveal_strlit("Note");
    if forall|other: Seq<char>| is_required(other) && other != name ==> raw.has_column(other) {
        assert(is_required("ID"@));
        assert(is_required("Datetime"@));
        assert(is_required("Amount (total)"@));
        assert(is_required("Amount (tip)"@));
        assert(is_required("Amount (tax)"@));
        assert(is_required("Amount (fee)"@));
        assert(is_required("From"@));
        assert(is_required("Note"@));
        assert("ID"@.len() == 2 && "Datetime"@.len() == 8 && "Amount (total)"@.len() == 14);
        assert("Amount (tip)"@.len() == 12 && "Amount (tax)"@.len() == 12);
        assert("Amount (fee)"@.len() == 12 && "From"@.len() == 4 && "Note"@.len() == 4);
        assert("Amount (tip)"@[9] != "Amount (tax)"@[9]);
        assert("Amount (tip)"@[8] != "Amount (fee)"@[8]);
        assert("Amount (tax)"@[8] != "Amount (fee)"@[8]);
        assert("From"@[0] != "Note"@[0]);
    }
}

/// Dropping the zero rows keeps the others in their order: the rows kept
/// are, in order, the rows at strictly increasing positions `idx`, and every
/// row whose amount is not zero is among them.
pub proof fn lemma_kept_rows_in_order(rows: Seq<RowView>) -> (idx: Seq<int>)
    ensures
        idx.len() == kept_rows(rows).len(),
        forall|k: int|
            0 <= k < idx.len() ==> 0 <= #[trigger] idx[k] < rows.len() && kept_rows(rows)[k]
                == rows[idx[k]] && keeps(rows[idx[k]]),
        forall|k1: int, k2: int| 0 <= k1 < k2 < idx.len() ==> idx[k1] < idx[k2],
        forall|i: int|
            0 <= i < rows.len() && keeps(#[trigger] rows[i]) ==> exists|k: int|
                0 <= k < idx.len() && idx[k] == i,
    decreases rows.len(),
{
    if rows.len() == 0 {
        Seq::empty()
    } else {
        let front = rows.drop_last();
        let prev = lemma_kept_rows_in_order(front);
        let last = rows.len() - 1;
        assert forall|i: int| 0 <= i < last implies #[trigger] rows[i] == front[i] by {}
        if keeps(rows.last()) {
            let idx = prev.push(last);
            assert forall|i: int| 0 <= i < rows.len() && keeps(#[trigger] rows[i]) implies exists|
                k: int,
            | 0 <= k < idx.len() && idx[k] == i by {
                if i == last {
                    assert(idx[idx.len() - 1] == i);
                } else {
                    assert(keeps(front[i]));
                    let k = choose|k: int| 0 <= k < prev.len() && prev[k] == i;
                    assert(idx[k] == i);
                }
            }
            idx
        } else {
            assert forall|i: int| 0 <= i < rows.len() && keeps(#[trigger] rows[i]) implies exists|
                k: int,
            | 0 <= k < prev.len() && prev[k] == i by {
                assert(i != last);
                assert(keeps(front[i]));
            }
            prev
        }
    }
}

/// The corrected rows of an export are its ledger rows with a non-zero
/// amount, in the order in which they stand in the export.
pub proof fn lemma_row_order_kept(raw: RawTable) -> (idx: Seq<int>)
    ensures
        idx.len() == corrected_rows(raw).len(),
        forall|k: int|
            0 <= k < idx.len() ==> 0 <= #[trigger] idx[k] < raw.row_count()
                && corrected_rows(raw)[k] == ledger_row(raw, idx[k]) && keeps(
                ledger_row(raw, idx[k]),
            ),
        forall|k1: int, k2: int| 0 <= k1 < k2 < idx.len() ==> idx[k1] < idx[k2],
        forall|i: int|
            0 <= i < raw.row_count() && keeps(#[trigger] ledger_row(raw, i)) ==> exists|k: int|
                0 <= k < idx.len() && idx[k] == i,
{
    let rows = ledger_rows(raw);
    let idx = lemma_kept_rows_in_order(rows);
    assert forall|i: int| 0 <= i < raw.row_count() implies #[trigger] ledger_row(raw, i) == rows[i] by {}
    assert forall|i: int| 0 <= i < raw.row_count() && keeps(#[trigger] ledger_row(raw, i)) implies exists|k: int|
                0 <= k < idx.len() && idx[k] == i by {
        assert(keeps(rows[i]));
    }
    idx
}


/// Two timestamp cells that are both at least `DATE_PREFIX_LEN` long and
/// share their first `DATE_PREFIX_LEN` characters give the same date, and
/// the same text is read for them.
proof fn lemma_same_date_head(c1: Option<String>, c2: Option<String>)
    requires
        cell_view(c1) matches Some(d1) && d1.len() >= DATE_PREFIX_LEN,
        cell_view(c2) matches Some(d2) && d2.len() >= DATE_PREFIX_LEN,
        cell_view(c1)->0.take(DATE_PREFIX_LEN as int) == cell_view(c2)->0.take(
            DATE_PREFIX_LEN as int,
        ),
    ensures
        normalized_date(cell_view(c1)) == normalized_date(cell_view(c2)),
        date_input(cell_view(c1)) == date_input(cell_view(c2)),
{
    let d1 = cell_view(c1)->0;
    let d2 = cell_view(c2)->0;
    lemma_date_reads_prefix(d1);
    lemma_date_reads_prefix(d2);
    assert(d1.len() == DATE_PREFIX_LEN ==> d1.take(DATE_PREFIX_LEN as int) =~= d1);
    assert(d2.len() == DATE_PREFIX_LEN ==> d2.take(DATE_PREFIX_LEN as int) =~= d2);
}

/// Only the first `DATE_PREFIX_LEN` characters of a timestamp decide what
/// becomes of a file: two exports that agree on every required column but
/// for one `Datetime` cell, where both cells are at least that long and share
/// those first characters, lack the same columns, fail on the same date text
/// or on none, and give the same corrected rows.
pub proof fn lemma_file_reads_date_head(raw1: RawTable, raw2: RawTable, row: int)
    requires
        raw1.wf(),
        raw2.wf(),
        raw1.row_count() == raw2.row_count(),
        0 <= row < raw1.row_count(),
        forall|n: Seq<char>| is_required(n) ==> raw1.has_column(n) == raw2.has_column(n),
        forall|n: Seq<char>|
            is_required(n) && n != "Datetime"@ ==> raw1.column_cells(n) == raw2.column_cells(n),
        raw1.has_column("Datetime"@),
        raw1.column_cells("Datetime"@).len() == raw2.column_cells("Datetime"@).len(),
        forall|j: int|
            0 <= j < raw1.column_cells("Datetime"@).len() && j != row ==> #[trigger] cell_view(
                raw1.column_cells("Datetime"@)[j],
            ) == cell_view(raw2.column_cells("Datetime"@)[j]),
        cell_view(raw1.column_cells("Datetime"@)[row]) matches Some(d1) && d1.len()
            >= DATE_PREFIX_LEN,
        cell_view(raw2.column_cells("Datetime"@)[row]) matches Some(d2) && d2.len()
            >= DATE_PREFIX_LEN,
        cell_view(raw1.column_cells("Datetime"@)[row])->0.take(DATE_PREFIX_LEN as int)
            == cell_view(raw2.column_cells("Datetime"@)[row])->0.take(DATE_PREFIX_LEN as int),
    ensures
        first_missing(raw1) == first_missing(raw2),
        dates_readable(raw1.column_cells("Datetime"@)) == dates_readable(
            raw2.column_cells("Datetime"@),
        ),
        forall|v: Seq<char>|
            first_unreadable_date(raw1.column_cells("Datetime"@), v) == first_unreadable_date(
                raw2.column_cells("Datetime"@),
                v,
            ),
        corrected_rows(raw1) == corrected_rows(raw2),
{
    let c1 = raw1.column_cells("Datetime"@);
    let c2 = raw2.column_cells("Datetime"@);
    let w = choose|w: int| 0 <= w < raw1.columns@.len() && #[trigger] raw1.columns@[w].name@
        == "Datetime"@;
    lemma_first_named_exists(&raw1, "Datetime"@, w);
    assert(c1.len() == raw1.row_count());
    lemma_same_date_head(c1[row], c2[row]);
    assert forall|j: int| 0 <= j < c1.len() implies normalized_date(cell_view(c1[j]))
        == normalized_date(cell_view(c2[j])) && date_input(cell_view(c1[j])) == date_input(
        cell_view(c2[j]),
    ) by {
        if j != row {
            assert(cell_view(c1[j]) == cell_view(c2[j]));
        }
    }
    assert(is_required("ID"@));
    assert(is_required("Datetime"@));
    assert(is_required("Amount (total)"@));
    assert(is_required("Amount (tip)"@));
    assert(is_required("Amount (tax)"@));
    assert(is_required("Amount (fee)"@));
    assert(is_required("From"@));
    assert(is_required("Note"@));
    reveal_strlit("Datetime");
    reveal_strlit("ID");
    reveal_strlit("Amount (total)");
    reveal_strlit("Amount (tip)");
    reveal_strlit("Amount (tax)");
    reveal_strlit("Amount (fee)");
    reveal_strlit("From");
    reveal_strlit("Note");
    assert("Datetime"@.len() == 8 && "ID"@.len() == 2 && "Amount (total)"@.len() == 14);
    assert("Amount (tip)"@.len() == 12 && "Amount (tax)"@.len() == 12);
    assert("Amount (fee)"@.len() == 12 && "From"@.len() == 4 && "Note"@.len() == 4);
    assert(dates_readable(c1) == dates_readable(c2)) by {
        if dates_readable(c1) {
            assert forall|i: int| 0 <= i < c2.len() implies (#[trigger] normalized_date(
                cell_view(c2[i]),
            )) is Some by {
                assert(normalized_date(cell_view(c1[i])) is Some);
            }
        }
        if dates_readable(c2) {
            assert forall|i: int| 0 <= i < c1.len() implies (#[trigger] normalized_date(
                cell_view(c1[i]),
            )) is Some by {
                assert(normalized_date(cell_view(c2[i])) is Some);
            }
        }
    }
    assert forall|v: Seq<char>|
        first_unreadable_date(c1, v) == first_unreadable_date(c2, v) by {
        if first_unreadable_date(c1, v) {
            let i = choose|i: int|
                0 <= i < c1.len() && (#[trigger] normalized_date(cell_view(c1[i]))) is None && (
                forall|j: int| 0 <= j < i ==> (#[trigger] normalized_date(cell_view(c1[j]))) is Some)
                    && v == date_input(cell_view(c1[i]));
            assert(normalized_date(cell_view(c2[i])) is None);
            assert forall|j: int| 0 <= j < i implies (#[trigger] normalized_date(cell_view(c2[j])))
                is Some by {
                assert(normalized_date(cell_view(c1[j])) is Some);
            }
        }
        if first_unreadable_date(c2, v) {
            let i = choose|i: int|
                0 <= i < c2.len() && (#[trigger] normalized_date(cell_view(c2[i]))) is None && (
                forall|j: int| 0 <= j < i ==> (#[trigger] normalized_date(cell_view(c2[j]))) is Some)
                    && v == date_input(cell_view(c2[i]));
            assert(normalized_date(cell_view(c1[i])) is None);
            assert forall|j: int| 0 <= j < i implies (#[trigger] normalized_date(cell_view(c1[j])))
                is Some by {
                assert(normalized_date(cell_view(c2[j])) is Some);
            }
        }
    }
    assert forall|i: int| 0 <= i < raw1.row_count() implies #[trigger] ledger_row(raw1, i)
        == ledger_row(raw2, i) by {
        assert(normalized_date(cell_view(c1[i])) == normalized_date(cell_view(c2[i])));
    }
    assert(ledger_rows(raw1) =~= ledger_rows(raw2));
}

} // verus!
