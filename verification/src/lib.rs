//! Spreadsheet formulas over columns of cells, with proved contracts.
//!
//! - Values: [`number`] holds doubles as bits, [`arith`] adds, multiplies and divides them, [`decimal`]
//!   reads them from text; [`text`] compares and matches texts; [`cell`] is the value of a cell.
//! - Selection: [`criteria`] parses and applies criteria such as `">10"` or `"ab*"`; [`selection`] is
//!   the rows that they select and the numbers that stand there.
//! - Formulas on cells: [`aggregate`] reduces ranges, [`batch`] does so for many criteria at once, and
//!   [`lookup`] finds values; [`keys`], [`near`] and [`index`] are the tables by which rows are found.
//! - Formulas on columns: [`column`] is a column in the form in which it comes ([`arrow_text`] and
//!   [`raw_arrow`] for Arrow memory), [`masks`] and [`parallel`] select its rows, [`mixed`] and
//!   [`columnar`] are the formulas.
//! - Summaries: [`summary`] for numbers and [`categories`] for texts, with [`sort`] and [`tally`].
//! - [`error`] is what the formulas answer when they have no value.
//! - Laws: [`laws`] is what holds between the formulas, and [`text_laws`], [`number_laws`],
//!   [`criteria_laws`], [`selection_laws`], [`lookup_laws`], [`category_laws`], [`summary_laws`] and
//!   [`stream_laws`] are what holds of each part.

pub mod aggregate;
pub mod arith;
pub mod arrow_text;
pub mod batch;
pub(crate) mod big;
pub mod categories;
pub mod category_laws;
pub mod cell;
pub mod column;
pub mod columnar;
pub mod criteria;
pub mod criteria_laws;
pub mod decimal;
pub mod error;
pub mod index;
pub mod keys;
pub mod laws;
pub mod lookup;
pub mod lookup_laws;
pub mod masks;
pub mod mixed;
pub mod near;
pub mod number;
pub mod number_laws;
pub mod parallel;
pub mod raw_arrow;
pub mod selection;
pub mod selection_laws;
pub mod sort;
pub mod stream_laws;
pub mod summary;
pub mod summary_laws;
pub mod tally;
pub mod text;
pub mod text_laws;
