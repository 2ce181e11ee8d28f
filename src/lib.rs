//! Turns the rows of a peer-to-peer payment export into ledger-import rows:
//! five columns, a `YYYY/MM/DD` date, one aggregated amount, and no row whose
//! amount nets to zero.
//!
//! - `table`: the raw export as named columns of text cells, and the rows of
//!   the ledger import.
//! - `amount`: cleaning a cell down to digits, `.` and `-`, reading it as a
//!   decimal of up to eighteen significant digits (absent when it is no
//!   number), and adding a row's four components.
//! - `date`: reading the `YYYY-MM-DD` head of a timestamp and writing it as
//!   `YYYY/MM/DD`.
//! - `transform`: the correction of one export, and the laws it obeys.
use vstd::prelude::*;

pub mod amount;
pub mod date;
pub mod table;
pub mod transform;
