//! What holds of addresses, of lookup and of the two modes, whatever the sheet.

use vstd::prelude::*;
use vstd::arithmetic::div_mod::lemma_fundamental_div_mod;
use crate::address::{COLS, address_text, letter_of, row_of};
use crate::cell::{
    CellView,
    Operator,
    operator_of,
    joined_text,
    pending_text,
    slot_text,
    solved_text,
};
use crate::binary32::Value;
use crate::fixed::{fixed2, hundredths};
use crate::sheet::{
    SheetMode,
    body_text,
    coordinate,
    entry_text,
    position_from,
    position_of,
};
use crate::text::{decimal, digit_char, pad_right};

verus! {

/// A decimal numeral has a digit, and two from ten on.
pub proof fn lemma_decimal_len(n: nat)
    ensures
        decimal(n).len() >= 1,
        n >= 10 ==> decimal(n).len() >= 2,
    decreases n,
{
    if n >= 10 {
        lemma_decimal_len(n / 10);
    }
}

/// Two numbers with the same decimal numeral are the same number.
pub proof fn lemma_decimal_injective(a: nat, b: nat)
    requires
        decimal(a) == decimal(b),
    ensures
        a == b,
    decreases a,
{
    lemma_decimal_len(a);
    lemma_decimal_len(b);
    if a < 10 && b < 10 {
        assert(decimal(a)[0] == digit_char(a as int));
        assert(decimal(b)[0] == digit_char(b as int));
    } else if a >= 10 && b >= 10 {
        let pa = decimal(a / 10);
        let pb = decimal(b / 10);
        assert(decimal(a).drop_last() =~= pa);
        assert(decimal(b).drop_last() =~= pb);
        assert(decimal(a).last() == digit_char((a % 10) as int));
        assert(decimal(b).last() == digit_char((b % 10) as int));
        lemma_decimal_injective(a / 10, b / 10);
    }
}

/// Addressing is a function: what it gives for a position and a number of
/// columns is fixed by these two alone, so computing an address twice gives
/// the same row, the same letter and the same text.
pub proof fn lemma_address_is_a_function(
    index: nat,
    columns: nat,
    first: (nat, char, Seq<char>),
    second: (nat, char, Seq<char>),
)
    requires
        first.0 == row_of(index, columns),
        first.1 == letter_of(index, columns),
        first.2 == address_text(index, columns),
        second.0 == row_of(index, columns),
        second.1 == letter_of(index, columns),
        second.2 == address_text(index, columns),
    ensures
        first == second,
{
}

/// No two positions of a sheet share an address.
pub proof fn lemma_address_injective(i: nat, j: nat, columns: nat)
    requires
        1 <= columns <= 26,
        address_text(i, columns) == address_text(j, columns),
    ensures
        i == j,
{
    let a = address_text(i, columns);
    let b = address_text(j, columns);
    assert(a[0] == letter_of(i, columns));
    assert(b[0] == letter_of(j, columns));
    assert(i % columns == j % columns);
    assert(a.subrange(1, a.len() as int) =~= decimal(row_of(i, columns)));
    assert(b.subrange(1, b.len() as int) =~= decimal(row_of(j, columns)));
    lemma_decimal_injective(row_of(i, columns), row_of(j, columns));
    lemma_fundamental_div_mod(i as int, columns as int);
    lemma_fundamental_div_mod(j as int, columns as int);
}

/// What a scan from `from` finds is the first position at or after `from`
/// with the address sought; it finds none only where there is none.
pub proof fn lemma_position_from(target: Seq<char>, from: nat, len: nat)
    ensures
        match position_from(target, from, len) {
            Some(i) => {
                &&& from <= i < len
                &&& address_text(i, COLS as nat) == target
                &&& forall|j: nat| from <= j < i ==> address_text(j, COLS as nat) != target
            },
            None => forall|j: nat| from <= j < len ==> address_text(j, COLS as nat) != target,
        },
    decreases len - from,
{
    if from < len && address_text(from, COLS as nat) != target {
        lemma_position_from(target, from + 1, len);
    }
}

/// Looking up the address of a position that the sheet has reached finds
/// that position.
pub proof fn lemma_lookup_finds_position(i: nat, len: nat)
    requires
        i < len,
    ensures
        position_of(address_text(i, COLS as nat), len) == Some(i),
{
    let target = address_text(i, COLS as nat);
    lemma_position_from(target, 0, len);
    match position_of(target, len) {
        Some(k) => {
            lemma_address_injective(k, i, COLS as nat);
        },
        None => {
            assert(address_text(i, COLS as nat) == target);
        },
    }
}

/// Lookup by column letter and row number: the cell sought is the one in
/// that column of that row, at position `(row - 1) * COLS + column`, and it
/// is found exactly if the sheet has come that far.
pub proof fn lemma_lookup_by_column_and_row(column: nat, row: int, len: nat)
    requires
        column < COLS,
        row >= 1,
    ensures
        position_of(coordinate(seq![letter_of(column, COLS as nat)], row), len) == if (row - 1)
            * COLS + column < len {
            Some(((row - 1) * COLS + column) as nat)
        } else {
            None
        },
{
    let p = ((row - 1) * COLS + column) as nat;
    let target = coordinate(seq![letter_of(column, COLS as nat)], row);
    assert(p % (COLS as nat) == column && p / (COLS as nat) == row - 1);
    assert(address_text(p, COLS as nat) == target);
    if p < len {
        lemma_lookup_finds_position(p, len);
    } else {
        lemma_position_from(target, 0, len);
        match position_of(target, len) {
            Some(k) => {
                lemma_address_injective(k, p, COLS as nat);
            },
            None => {},
        }
    }
}

/// The two modes differ on formulas only. A text and a number fill their
/// slot alike in both; a formula shows `= ` and its label while raw, and
/// what it evaluates to once solved. The same holds of a cell's whole entry
/// in the table.
pub proof fn lemma_mode_changes_formulas_only(cell: CellView, index: nat)
    ensures
        !(cell is Formula) ==> slot_text(cell, SheetMode::Raw) == slot_text(
            cell,
            SheetMode::Solved,
        ),
        !(cell is Formula) ==> entry_text(cell, index, SheetMode::Raw) == entry_text(
            cell,
            index,
            SheetMode::Solved,
        ),
        cell matches CellView::Formula(f) ==> {
            &&& slot_text(cell, SheetMode::Raw) == pad_right(seq!['=', ' '] + f.label, 8)
            &&& slot_text(cell, SheetMode::Solved) == solved_text(*f.a, *f.b, f.operator)
        },
{
}

/// A sheet without formulas has the same rows in both modes.
pub proof fn lemma_rows_without_formulas(cells: Seq<CellView>, upto: nat)
    requires
        upto <= cells.len(),
        forall|i: int| 0 <= i < upto ==> !(#[trigger] cells[i] is Formula),
    ensures
        body_text(cells, SheetMode::Raw, upto) == body_text(cells, SheetMode::Solved, upto),
    decreases upto,
{
    if upto > 0 {
        lemma_rows_without_formulas(cells, (upto - 1) as nat);
        lemma_mode_changes_formulas_only(cells[upto - 1], (upto - 1) as nat);
    }
}

/// The five tokens that name an operator.
pub proof fn lemma_operator_tokens()
    ensures
        operator_of(seq!['+']) == Some(Operator::Add),
        operator_of(seq!['-']) == Some(Operator::Subtract),
        operator_of(seq!['*']) == Some(Operator::Multiply),
        operator_of(seq!['/']) == Some(Operator::Divide),
        operator_of(seq!['/', '/']) == Some(Operator::Remainder),
{
    assert(seq!['+'][0] == '+' && seq!['-'][0] == '-' && seq!['*'][0] == '*' && seq!['/'][0]
        == '/');
    assert(seq!['/', '/'].len() == 2);
}

/// Product, quotient and remainder are of numbers only: with an operand that
/// is no number they give the hourglass.
pub proof fn lemma_numeric_operators_are_strict(a: CellView, b: CellView, operator: Seq<char>)
    requires
        operator_of(operator) == Some(Operator::Multiply) || operator_of(operator) == Some(
            Operator::Divide,
        ) || operator_of(operator) == Some(Operator::Remainder),
        !(a is Number && b is Number),
    ensures
        solved_text(a, b, operator) == pending_text(),
{
}

/// A number written with two decimals takes at least three characters.
pub proof fn lemma_number_display_len(v: Value)
    ensures
        fixed2(v).len() >= 3,
{
    if let Value::Finite { mantissa, exponent, .. } = v {
        lemma_decimal_len(hundredths(mantissa, exponent) / 100);
    }
}

/// Sum and difference are lenient: of a text and a number, or of two texts,
/// they give the two side by side, in this order, and no hourglass.
pub proof fn lemma_additive_operators_join(a: CellView, b: CellView, operator: Seq<char>)
    requires
        operator_of(operator) == Some(Operator::Add) || operator_of(operator) == Some(
            Operator::Subtract,
        ),
        a is Text || a is Number,
        b is Text || b is Number,
        !(a is Number && b is Number),
    ensures
        solved_text(a, b, operator) == joined_text(a, b),
        solved_text(a, b, operator) != pending_text(),
{
    // A number takes several characters, so the two side by side are one
    // character only where both are empty texts, and then it is the space.
    if let CellView::Number(v) = a {
        lemma_number_display_len(v);
    }
    if let CellView::Number(v) = b {
        lemma_number_display_len(v);
    }
    let t = joined_text(a, b);
    if t.len() == 1 {
        assert(t[0] == ' ');
        assert(pending_text()[0] == '\u{23f3}');
    }
}

/// An unknown operator token gives the hourglass, whatever the operands.
pub proof fn lemma_unknown_operator_is_pending(a: CellView, b: CellView, operator: Seq<char>)
    requires
        operator_of(operator) is None,
    ensures
        solved_text(a, b, operator) == pending_text(),
{
}

} // verus!
