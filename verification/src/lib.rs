//! A small in-memory spreadsheet engine.
//!
//! A sheet is an append-only sequence of cells laid out row by row under a
//! fixed number of columns. A cell holds a text, a number or a formula over
//! two captured operand cells. The sheet renders itself as a text table in
//! one of two modes: raw, which shows the label of each formula, and solved,
//! which shows what each formula evaluates to.
//!
//! - [`address`]: from a position in the sheet to row, column letter and address.
//! - [`cell`]: cells, formulas and what a formula evaluates to.
//! - [`sheet`]: the sheet, lookup by address and the rendered table.
//! - [`number`], [`binary32`], [`rounding`], [`fixed`]: the numbers of the
//!   sheet, which are binary32 bit patterns computed on with integers, and
//!   their form with two decimals.
//! - [`text`]: decimal numerals and fields of a fixed width.
//! - [`laws`]: what holds of addresses, lookup and the two modes.

pub mod text;
pub mod address;
pub mod binary32;
pub mod rounding;
pub mod number;
pub mod fixed;
pub mod cell;
pub mod sheet;
pub mod laws;
