//! The raw table read from an export and the corrected rows built from it.
use vstd::prelude::*;

use crate::amount::Decimal;

verus! {

/// What a cell holds: its text, or nothing where the export left it null.
pub open spec fn cell_view(cell: Option<String>) -> Option<Seq<char>> {
    match cell {
        Some(t) => Some(t@),
        None => None,
    }
}

/// A copy of a cell.
pub fn copy_cell(cell: &Option<String>) -> (r: Option<String>)
    ensures
        cell_view(r) == cell_view(*cell),
{
    match cell {
        Some(t) => Some(t.clone()),
        None => None,
    }
}

/// One named column of an export, top to bottom.
pub struct RawColumn {
    pub name: String,
    pub cells: Vec<Option<String>>,
}

/// An export as read: its columns, left to right, all of the same height.
pub struct RawTable {
    pub columns: Vec<RawColumn>,
}

impl RawTable {
    /// The number of rows: the height of the columns.
    pub open spec fn row_count(&self) -> nat {
        if self.columns@.len() == 0 {
            0
        } else {
            self.columns@[0].cells@.len()
        }
    }

    /// All columns have the same height.
    pub open spec fn wf(&self) -> bool {
        forall|i: int|
            0 <= i < self.columns@.len() ==> #[trigger] self.columns@[i].cells@.len()
                == self.row_count()
    }

    /// Whether a column is named `name`.
    pub open spec fn has_column(&self, name: Seq<char>) -> bool {
        exists|i: int| 0 <= i < self.columns@.len() && #[trigger] self.columns@[i].name@ == name
    }

    /// Column `i` is the first one named `name`.
    pub open spec fn is_first_named(&self, name: Seq<char>, i: int) -> bool {
        &&& 0 <= i < self.columns@.len()
        &&& self.columns@[i].name@ == name
        &&& forall|j: int| 0 <= j < i ==> #[trigger] self.columns@[j].name@ != name
    }

    /// The position of the first column named `name`, if there is one.
    pub open spec fn column_position(&self, name: Seq<char>) -> int {
        choose|i: int| self.is_first_named(name, i)
    }

    /// The cells of the first column named `name`.
    pub open spec fn column_cells(&self, name: Seq<char>) -> Seq<Option<String>> {
        self.columns@[self.column_position(name)].cells@
    }

    /// Builds a table from its columns; `None` when their heights differ.
    pub fn from_columns(columns: Vec<RawColumn>) -> (r: Option<RawTable>)
        ensures
            match r {
                Some(t) => t.columns@ == columns@ && t.wf(),
                None => !(RawTable { columns }).wf(),
            },
    {
        let t = RawTable { columns };
        if t.columns.len() == 0 {
            return Some(t);
        }
        let h = t.columns[0].cells.len();
        let mut i: usize = 0;
        while i < t.columns.len()
            invariant
                t == (RawTable { columns }),
                0 < t.columns@.len(),
                h == t.row_count(),
                i <= t.columns@.len(),
                forall|j: int| 0 <= j < i ==> #[trigger] t.columns@[j].cells@.len() == h,
            decreases t.columns@.len() - i,
        {
            if t.columns[i].cells.len() != h {
                assert(t.columns@[i as int].cells@.len() != t.row_count());
                return None;
            }
            i = i + 1;
        }
        Some(t)
    }

    /// The position of the first column named `name`, or `None` when no
    /// column has that name.
    pub fn find_column(&self, name: &str) -> (r: Option<usize>)
        ensures
            match r {
                Some(i) => self.is_first_named(name@, i as int),
                None => !self.has_column(name@),
            },
    {
        let wanted = String::from_str(name);
        let mut i: usize = 0;
        while i < self.columns.len()
            invariant
                wanted@ == name@,
                i <= self.columns@.len(),
                forall|j: int| 0 <= j < i ==> #[trigger] self.columns@[j].name@ != name@,
            decreases self.columns@.len() - i,
        {
            if self.columns[i].name == wanted {
                return Some(i);
            }
            i = i + 1;
        }
        None
    }
}

proof fn lemma_first_named_unique(t: &RawTable, name: Seq<char>, i: int, k: int)
    requires
        t.is_first_named(name, i),
        t.is_first_named(name, k),
    ensures
        i == k,
{
    if i < k {
        assert(t.columns@[i].name@ != name);
    } else if k < i {
        assert(t.columns@[k].name@ != name);
    }
}

/// Where some column is named `name`, a first one is: `column_position`
/// finds it.
pub proof fn lemma_first_named_exists(t: &RawTable, name: Seq<char>, i: int)
    requires
        0 <= i < t.columns@.len(),
        t.columns@[i].name@ == name,
    ensures
        t.is_first_named(name, t.column_position(name)),
    decreases i,
{
    if exists|j: int| 0 <= j < i && #[trigger] t.columns@[j].name@ == name {
        let j = choose|j: int| 0 <= j < i && #[trigger] t.columns@[j].name@ == name;
        lemma_first_named_exists(t, name, j);
    } else {
        assert(t.is_first_named(name, i));
    }
}

/// The first column named `name` stands at position `i`.
pub proof fn lemma_column_position(t: &RawTable, name: Seq<char>, i: int)
    requires
        t.is_first_named(name, i),
    ensures
        t.column_position(name) == i,
        t.has_column(name),
{
    lemma_first_named_unique(t, name, i, t.column_position(name));
}

/// A row of the ledger import.
pub struct CorrectedRow {
    pub reference: Option<String>,
    pub date: String,
    pub amount: Decimal,
    pub payee: Option<String>,
    pub description: Option<String>,
}

/// What a corrected row holds.
pub struct RowView {
    pub reference: Option<Seq<char>>,
    pub date: Seq<char>,
    pub amount: Decimal,
    pub payee: Option<Seq<char>>,
    pub description: Option<Seq<char>>,
}

impl View for CorrectedRow {
    type V = RowView;

    open spec fn view(&self) -> RowView {
        RowView {
            reference: cell_view(self.reference),
            date: self.date@,
            amount: self.amount,
            payee: cell_view(self.payee),
            description: cell_view(self.description),
        }
    }
}

/// The ledger import: `Reference`, `Date`, `Amount`, `Payee` and
/// `Description` for each row kept.
pub struct CorrectedTable {
    pub rows: Vec<CorrectedRow>,
}

impl View for CorrectedTable {
    type V = Seq<RowView>;

    open spec fn view(&self) -> Seq<RowView> {
        self.rows@.map_values(|r: CorrectedRow| r@)
    }
}

} // verus!
