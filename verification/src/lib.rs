//! Long-run comparison of a taxable brokerage account and a tax-deferred
//! insurance wrapper over historical index data.
//!
//! The library holds everything that is decided without arithmetic on reals:
//! how a source line splits into a date and a number, which observation
//! represents a calendar year, which years a table must cover, which
//! year-over-year steps a holding period consists of and at which of them a
//! horizon ends, and how results fall into groups. The caller supplies the
//! numeric type and carries out the arithmetic along the steps it is handed.

pub mod date;
pub mod line;
pub mod series;
pub mod table;
pub mod horizon;
pub mod report;
