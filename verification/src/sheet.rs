//! The sheet: cells in the order in which they were added, and a mode.

use vstd::prelude::*;
use crate::address::{COLS, address_text, address_of, letter_of, row_of};
use crate::cell::{Cell, CellView, Formula, solved_text, slot_text};
use crate::laws::{lemma_address_injective, lemma_position_from};
use crate::text::{
    decimal,
    decimal_int,
    pad_left,
    pad_right,
    push_decimal,
    push_left_justified,
    push_right_justified,
};

verus! {

/// How a sheet shows its formulas.
#[derive(Clone, Copy, Debug, PartialEq, Eq, Structural)]
pub enum SheetMode {
    /// By their labels.
    Raw,
    /// By what they evaluate to.
    Solved,
}

/// A sheet as a value of the model.
pub struct SheetView {
    pub cells: Seq<CellView>,
    pub mode: SheetMode,
}

/// An append-only sequence of cells, laid out row by row in [`COLS`] columns.
#[derive(Debug)]
pub struct Sheet {
    cells: Vec<Cell>,
    mode: SheetMode,
}

impl View for Sheet {
    type V = SheetView;

    closed spec fn view(&self) -> SheetView {
        SheetView { cells: Seq::new(self.cells@.len(), |i: int| self.cells@[i]@), mode: self.mode }
    }
}

/// The address that a column name and a row number spell.
pub open spec fn coordinate(column: Seq<char>, row: int) -> Seq<char> {
    column + decimal_int(row)
}

/// The first position from `from` on, below `len`, whose address is `target`.
pub open spec fn position_from(target: Seq<char>, from: nat, len: nat) -> Option<nat>
    decreases len - from,
{
    if from >= len {
        None
    } else if address_text(from, COLS as nat) == target {
        Some(from)
    } else {
        position_from(target, from + 1, len)
    }
}

/// The first position of a sheet of `len` cells whose address is `target`.
pub open spec fn position_of(target: Seq<char>, len: nat) -> Option<nat> {
    position_from(target, 0, len)
}

/// What separates two slots of a row.
pub open spec fn separator() -> Seq<char> {
    seq![' ', '|', ' ']
}

/// What opens the two lines of the head: a line break and an empty row label.
pub open spec fn margin() -> Seq<char> {
    seq!['\n', ' ', ' ', ' ', ' ', '|']
}

/// Eight dashes.
pub open spec fn dashes() -> Seq<char> {
    seq!['-', '-', '-', '-', '-', '-', '-', '-']
}

/// The column letters of the first `upto` columns, each in a slot.
pub open spec fn letters_text(upto: nat) -> Seq<char>
    decreases upto,
{
    if upto == 0 {
        Seq::<char>::empty()
    } else {
        letters_text((upto - 1) as nat) + pad_right(
            seq![letter_of((upto - 1) as nat, COLS as nat)],
            8,
        ) + separator()
    }
}

/// A rule under the first `upto` columns.
pub open spec fn rules_text(upto: nat) -> Seq<char>
    decreases upto,
{
    if upto == 0 {
        Seq::<char>::empty()
    } else {
        rules_text((upto - 1) as nat) + pad_right(dashes(), 8) + separator()
    }
}

/// The head of the table: a line of column letters and a rule under it.
pub open spec fn head_text() -> Seq<char> {
    margin() + letters_text(COLS as nat) + margin() + rules_text(COLS as nat)
}

/// What opens the row of the cell at `index`: a line break and the row
/// number, right-justified in three characters.
pub open spec fn row_label(index: nat) -> Seq<char> {
    seq!['\n'] + pad_left(decimal(row_of(index, COLS as nat)), 3) + seq![' ', '|']
}

/// What the cell at `index` adds to the table: the label of its row if it is
/// the first of the row, its slot and a separator.
pub open spec fn entry_text(cell: CellView, index: nat, mode: SheetMode) -> Seq<char> {
    (if index % (COLS as nat) == 0 {
        row_label(index)
    } else {
        Seq::<char>::empty()
    }) + slot_text(cell, mode) + separator()
}

/// The rows of the first `upto` cells.
pub open spec fn body_text(cells: Seq<CellView>, mode: SheetMode, upto: nat) -> Seq<char>
    decreases upto,
{
    if upto == 0 {
        Seq::<char>::empty()
    } else {
        body_text(cells, mode, (upto - 1) as nat) + entry_text(
            cells[upto - 1],
            (upto - 1) as nat,
            mode,
        )
    }
}

/// The whole table: the head, then the rows.
pub open spec fn render_text(sheet: SheetView) -> Seq<char> {
    head_text() + body_text(sheet.cells, sheet.mode, sheet.cells.len())
}

/// Appends the separator of two slots.
pub fn push_separator(out: &mut String)
    ensures
        final(out)@ == old(out)@ + separator(),
{
    out.push(' ');
    out.push('|');
    out.push(' ');
    assert(out@ == old(out)@ + separator());
}

/// Appends what opens a line of the head.
pub fn push_margin(out: &mut String)
    ensures
        final(out)@ == old(out)@ + margin(),
{
    out.push('\n');
    out.push(' ');
    out.push(' ');
    out.push(' ');
    out.push(' ');
    out.push('|');
    assert(out@ == old(out)@ + margin());
}

impl Clone for Sheet {
    /// A sheet with copies of the same cells, in the same mode.
    fn clone(&self) -> (copy: Sheet)
        ensures
            copy@ == self@,
    {
        let mut cells: Vec<Cell> = Vec::new();
        let n = self.cells.len();
        let mut i: usize = 0;
        while i < n
            invariant
                i <= n,
                n == self.cells@.len(),
                cells@.len() == i,
                forall|k: int| 0 <= k < i ==> cells@[k]@ == self.cells@[k]@,
            decreases n - i,
        {
            cells.push(self.cells[i].clone());
            i = i + 1;
        }
        let copy = Sheet { cells, mode: self.mode };
        assert(copy@.cells =~= self@.cells);
        copy
    }
}

impl Sheet {
    /// An empty sheet, raw.
    pub fn new() -> (sheet: Sheet)
        ensures
            sheet@.cells == Seq::<CellView>::empty(),
            sheet@.mode == SheetMode::Raw,
    {
        Sheet { cells: Vec::new(), mode: SheetMode::Raw }
    }

    /// Sets how the sheet shows its formulas. The cells stay as they are:
    /// nothing is evaluated until the sheet is rendered.
    pub fn set_mode(&mut self, mode: SheetMode)
        ensures
            final(self)@.cells == old(self)@.cells,
            final(self)@.mode == mode,
    {
        self.mode = mode;
    }

    /// Has the sheet show what its formulas evaluate to.
    pub fn solve(&mut self)
        ensures
            final(self)@.cells == old(self)@.cells,
            final(self)@.mode == SheetMode::Solved,
    {
        self.set_mode(SheetMode::Solved);
    }

    /// Adds a cell after the last one.
    pub fn append(&mut self, cell: Cell)
        ensures
            final(self)@.cells == old(self)@.cells.push(cell@),
            final(self)@.mode == old(self)@.mode,
    {
        self.cells.push(cell);
        assert(self@.cells =~= old(self)@.cells.push(cell@));
    }

    /// How the sheet shows its formulas.
    pub fn mode(&self) -> (mode: SheetMode)
        ensures
            mode == self@.mode,
    {
        self.mode
    }

    /// The number of cells.
    pub fn len(&self) -> (n: usize)
        ensures
            n == self@.cells.len(),
    {
        self.cells.len()
    }

    /// What the formula evaluates to. Its operands are the copies that it
    /// holds, so the cells of the sheet play no part.
    pub fn resolve_formula(&self, formula: &Formula) -> (text: String)
        ensures
            text@ == solved_text(*formula@.a, *formula@.b, formula@.operator),
    {
        Formula::solve(&*formula.a, &*formula.b, formula.operator.as_str())
    }

    /// A copy of the cell whose address is `column` followed by `row` in
    /// decimal, if the sheet has come that far. No two cells share an address,
    /// so there is one such cell at most.
    pub fn find_cell(&self, column: &str, row: i32) -> (found: Option<Cell>)
        ensures
            found is Some <==> exists|i: nat|
                i < self@.cells.len() && #[trigger] address_text(i, COLS as nat) == coordinate(
                    column@,
                    row as int,
                ),
            forall|i: nat|
                i < self@.cells.len() && #[trigger] address_text(i, COLS as nat) == coordinate(
                    column@,
                    row as int,
                ) ==> found is Some && found->0@ == self@.cells[i as int],
            match position_of(coordinate(column@, row as int), self@.cells.len()) {
                Some(i) => found is Some && found->0@ == self@.cells[i as int],
                None => found is None,
            },
    {
        let mut target: String = column.to_owned();
        if row < 0 {
            target.push('-');
            push_decimal(&mut target, (-(row as i64)) as u128);
        } else {
            push_decimal(&mut target, row as u128);
        }
        assert(target@ == coordinate(column@, row as int));
        let n = self.cells.len();
        let mut i: usize = 0;
        while i < n
            invariant
                i <= n,
                n == self.cells@.len(),
                target@ == coordinate(column@, row as int),
                position_of(target@, n as nat) == position_from(target@, i as nat, n as nat),
            decreases n - i,
        {
            let (_, _, name) = address_of(i as u64, COLS);
            if name == target {
                let copy = self.cells[i].clone();
                assert(self@.cells[i as int] == self.cells@[i as int]@);
                proof {
                    assert forall|k: nat|
                        k < n && #[trigger] address_text(k, COLS as nat) == target@ implies k
                        == i by {
                        lemma_address_injective(k, i as nat, COLS as nat);
                    }
                }
                return Some(copy);
            }
            i = i + 1;
        }
        proof {
            lemma_position_from(target@, 0, n as nat);
        }
        None
    }

    /// The head of the table.
    pub fn head(&self) -> (text: String)
        ensures
            text@ == head_text(),
    {
        let mut text = String::new();
        push_margin(&mut text);
        let mut j: u64 = 0;
        while j < COLS
            invariant
                j <= COLS,
                text@ == margin() + letters_text(j as nat),
            decreases COLS - j,
        {
            let (_, letter, _) = address_of(j, COLS);
            let mut name = String::new();
            name.push(letter);
            assert(name@ == seq![letter_of(j as nat, COLS as nat)]);
            push_left_justified(&mut text, name.as_str(), 8);
            push_separator(&mut text);
            j = j + 1;
        }
        push_margin(&mut text);
        let mut j: u64 = 0;
        while j < COLS
            invariant
                j <= COLS,
                text@ == margin() + letters_text(COLS as nat) + margin() + rules_text(j as nat),
            decreases COLS - j,
        {
            let mut rule = String::new();
            let mut k: usize = 0;
            while k < 8
                invariant
                    k <= 8,
                    rule@ == dashes().subrange(0, k as int),
                decreases 8 - k,
            {
                rule.push('-');
                k = k + 1;
            }
            assert(rule@ == dashes());
            push_left_justified(&mut text, rule.as_str(), 8);
            push_separator(&mut text);
            j = j + 1;
        }
        text
    }

    /// The whole table as text: the head, then the cells row by row, each row
    /// under its number.
    pub fn render(&self) -> (text: String)
        ensures
            text@ == render_text(self@),
    {
        let mut text = self.head();
        let n = self.cells.len();
        let mut i: usize = 0;
        while i < n
            invariant
                i <= n,
                n == self.cells@.len(),
                text@ == head_text() + body_text(self@.cells, self@.mode, i as nat),
            decreases n - i,
        {
            let ghost before = text@;
            if (i as u64) % COLS == 0 {
                text.push('\n');
                let mut number = String::new();
                push_decimal(&mut number, ((i as u64) / COLS + 1) as u128);
                push_right_justified(&mut text, number.as_str(), 3);
                text.push(' ');
                text.push('|');
                assert(text@ == before + row_label(i as nat));
            }
            let slot = self.cells[i].render_slot(self.mode, self);
            text.append(slot.as_str());
            push_separator(&mut text);
            assert(text@ == before + entry_text(self@.cells[i as int], i as nat, self@.mode));
            i = i + 1;
        }
        text
    }
}

} // verus!
