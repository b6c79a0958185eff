//! Cell addresses: a column letter and a row number, derived from a cell's
//! position in the sheet and the number of columns.

use vstd::prelude::*;
use crate::text::{decimal, push_decimal};

verus! {

/// The number of columns of every sheet.
pub const COLS: u64 = 8;

/// The 1-based row of the cell at `index`.
pub open spec fn row_of(index: nat, columns: nat) -> nat {
    index / columns + 1
}

/// The column letter of the cell at `index`: `'A'` for the first column.
pub open spec fn letter_of(index: nat, columns: nat) -> char {
    (65 + index % columns) as char
}

/// The address of the cell at `index`: its column letter, then its row in decimal.
pub open spec fn address_text(index: nat, columns: nat) -> Seq<char> {
    seq![letter_of(index, columns)] + decimal(row_of(index, columns))
}

/// Row, column letter and address of the cell at `index` in a sheet of
/// `columns` columns. Single letters name the columns, so there are at most
/// 26, and the row number has to fit the 64 bits that it is returned in.
pub fn address_of(index: u64, columns: u64) -> (r: (u64, char, String))
    requires
        1 <= columns <= 26,
        index < u64::MAX,
    ensures
        r.0 == row_of(index as nat, columns as nat),
        r.1 == letter_of(index as nat, columns as nat),
        r.2@ == address_text(index as nat, columns as nat),
{
    let row: u64 = index / columns + 1;
    let letter: char = ((65 + index % columns) as u8) as char;
    let mut text = String::new();
    text.push(letter);
    push_decimal(&mut text, row as u128);
    (row, letter, text)
}

/// Row, column letter and address of the cell at `index` in a sheet of [`COLS`] columns.
pub fn cell_name(index: i32) -> (r: (i32, char, String))
    requires
        0 <= index,
    ensures
        r.0 == row_of(index as nat, COLS as nat),
        r.1 == letter_of(index as nat, COLS as nat),
        r.2@ == address_text(index as nat, COLS as nat),
{
    let (row, letter, text) = address_of(index as u64, COLS);
    (row as i32, letter, text)
}

} // verus!
