//! Cells and formulas.
//!
//! A cell is a text, a number, or a formula. A formula holds copies of its two
//! operand cells, taken when it was made, the token of its operator and a
//! label that is shown in place of a result while the sheet is raw.

use vstd::prelude::*;
use crate::binary32::Value;
use crate::number::{Number, is_zero, sum, difference, product, quotient, remainder};
use crate::fixed::{fixed2, fixed2_field};
use crate::text::{pad_right, push_left_justified};
use crate::sheet::{Sheet, SheetMode};

verus! {

/// The operators of a formula.
#[derive(Clone, Copy, Debug, PartialEq, Eq, Structural)]
pub enum Operator {
    Add,
    Subtract,
    Multiply,
    Divide,
    Remainder,
}

/// The operator that a token names: `+`, `-`, `*`, `/`, and `//` for the
/// remainder. Any other token names none.
pub open spec fn operator_of(token: Seq<char>) -> Option<Operator> {
    if token == seq!['+'] {
        Some(Operator::Add)
    } else if token == seq!['-'] {
        Some(Operator::Subtract)
    } else if token == seq!['*'] {
        Some(Operator::Multiply)
    } else if token == seq!['/'] {
        Some(Operator::Divide)
    } else if token == seq!['/', '/'] {
        Some(Operator::Remainder)
    } else {
        None
    }
}

impl Operator {
    /// Reads an operator token.
    pub fn parse(token: &str) -> (op: Option<Operator>)
        ensures
            op == operator_of(token@),
    {
        let n = token.unicode_len();
        if n == 1 {
            let c = token.get_char(0);
            assert(token@ == seq![c]);
            if c == '+' {
                Some(Operator::Add)
            } else if c == '-' {
                Some(Operator::Subtract)
            } else if c == '*' {
                Some(Operator::Multiply)
            } else if c == '/' {
                Some(Operator::Divide)
            } else {
                assert(seq!['+'][0] == '+' && seq!['-'][0] == '-' && seq!['*'][0] == '*'
                    && seq!['/'][0] == '/');
                None
            }
        } else if n == 2 {
            let c = token.get_char(0);
            let d = token.get_char(1);
            assert(token@ == seq![c, d]);
            if c == '/' && d == '/' {
                Some(Operator::Remainder)
            } else {
                assert(seq!['/', '/'][0] == '/' && seq!['/', '/'][1] == '/');
                None
            }
        } else {
            None
        }
    }
}

/// A cell as a value of the model.
pub enum CellView {
    Text(Seq<char>),
    Number(Value),
    Formula(FormulaView),
}

/// A formula as a value of the model.
pub struct FormulaView {
    pub a: Box<CellView>,
    pub b: Box<CellView>,
    pub operator: Seq<char>,
    pub label: Seq<char>,
}

/// A binary formula: an operator token, two captured operands and a label.
#[derive(Debug)]
pub struct Formula {
    pub a: Box<Cell>,
    pub b: Box<Cell>,
    pub operator: String,
    pub label: String,
}

/// One cell of a sheet.
#[derive(Debug)]
pub enum Cell {
    Text(String),
    Number(Number),
    Formula(Formula),
}

impl Cell {
    /// The cell as a value of the model.
    pub open spec fn model(&self) -> CellView
        decreases self,
    {
        match self {
            Cell::Text(s) => CellView::Text(s@),
            Cell::Number(n) => CellView::Number(n@),
            Cell::Formula(f) => CellView::Formula(
                FormulaView {
                    a: Box::new((*f.a).model()),
                    b: Box::new((*f.b).model()),
                    operator: f.operator@,
                    label: f.label@,
                },
            ),
        }
    }
}

impl View for Cell {
    type V = CellView;

    open spec fn view(&self) -> CellView {
        self.model()
    }
}

impl View for Formula {
    type V = FormulaView;

    open spec fn view(&self) -> FormulaView {
        FormulaView {
            a: Box::new((*self.a).model()),
            b: Box::new((*self.b).model()),
            operator: self.operator@,
            label: self.label@,
        }
    }
}

/// What stands for a result that this engine cannot compute: an hourglass.
pub open spec fn pending_text() -> Seq<char> {
    seq!['\u{23f3}']
}

/// What stands for a division by zero, in a field of eight characters.
pub open spec fn div_zero_text() -> Seq<char> {
    pad_right(seq!['D', 'I', 'V', '/', '0'], 8)
}

/// A cell as plain text: a text as it is, a number with two decimals, a
/// formula by its label.
pub open spec fn display_text(c: CellView) -> Seq<char> {
    match c {
        CellView::Text(s) => s,
        CellView::Number(v) => fixed2(v),
        CellView::Formula(f) => f.label,
    }
}

/// Two cells as plain text with a space between them.
pub open spec fn joined_text(a: CellView, b: CellView) -> Seq<char> {
    display_text(a) + seq![' '] + display_text(b)
}

/// The sum of two cells: of two numbers their sum, of texts and numbers mixed
/// the two side by side, of anything else nothing yet.
pub open spec fn sum_text(a: CellView, b: CellView) -> Seq<char> {
    match (a, b) {
        (CellView::Number(x), CellView::Number(y)) => fixed2_field(sum(x, y)),
        (CellView::Number(_), CellView::Text(_)) => joined_text(a, b),
        (CellView::Text(_), CellView::Number(_)) => joined_text(a, b),
        (CellView::Text(_), CellView::Text(_)) => joined_text(a, b),
        _ => pending_text(),
    }
}

/// The difference of two cells: of two numbers their difference, of texts and
/// numbers mixed the two side by side, of anything else nothing yet.
pub open spec fn sub_text(a: CellView, b: CellView) -> Seq<char> {
    match (a, b) {
        (CellView::Number(x), CellView::Number(y)) => fixed2_field(difference(x, y)),
        (CellView::Number(_), CellView::Text(_)) => joined_text(a, b),
        (CellView::Text(_), CellView::Number(_)) => joined_text(a, b),
        (CellView::Text(_), CellView::Text(_)) => joined_text(a, b),
        _ => pending_text(),
    }
}

/// The product of two cells: defined of two numbers only.
pub open spec fn mul_text(a: CellView, b: CellView) -> Seq<char> {
    match (a, b) {
        (CellView::Number(x), CellView::Number(y)) => fixed2_field(product(x, y)),
        _ => pending_text(),
    }
}

/// The quotient of two cells: defined of two numbers only, and by zero a
/// notice in place of a number.
pub open spec fn div_text(a: CellView, b: CellView) -> Seq<char> {
    match (a, b) {
        (CellView::Number(x), CellView::Number(y)) => if is_zero(y) {
            div_zero_text()
        } else {
            fixed2_field(quotient(x, y))
        },
        _ => pending_text(),
    }
}

/// The remainder of two cells: defined of two numbers only, and by zero a
/// notice in place of a number.
pub open spec fn rem_text(a: CellView, b: CellView) -> Seq<char> {
    match (a, b) {
        (CellView::Number(x), CellView::Number(y)) => if is_zero(y) {
            div_zero_text()
        } else {
            fixed2_field(remainder(x, y))
        },
        _ => pending_text(),
    }
}

/// What a formula over `a` and `b` evaluates to. A token that names no
/// operator gives nothing yet.
pub open spec fn solved_text(a: CellView, b: CellView, operator: Seq<char>) -> Seq<char> {
    match operator_of(operator) {
        Some(Operator::Add) => sum_text(a, b),
        Some(Operator::Subtract) => sub_text(a, b),
        Some(Operator::Multiply) => mul_text(a, b),
        Some(Operator::Divide) => div_text(a, b),
        Some(Operator::Remainder) => rem_text(a, b),
        None => pending_text(),
    }
}

/// The text of a cell in one slot of the table. Texts stand left-justified in
/// eight characters and numbers right-justified with two decimals. A formula
/// shows `= ` and its label while the sheet is raw, and what it evaluates to
/// once the sheet is solved.
pub open spec fn slot_text(c: CellView, mode: SheetMode) -> Seq<char> {
    match c {
        CellView::Text(s) => pad_right(s, 8),
        CellView::Number(v) => fixed2_field(v),
        CellView::Formula(f) => match mode {
            SheetMode::Raw => pad_right(seq!['=', ' '] + f.label, 8),
            SheetMode::Solved => solved_text(*f.a, *f.b, f.operator),
        },
    }
}

/// The hourglass that stands for a result that cannot be computed.
pub fn pending() -> (text: String)
    ensures
        text@ == pending_text(),
{
    let mut text = String::new();
    text.push('\u{23f3}');
    text
}

/// The notice of a division by zero.
pub fn div_zero() -> (text: String)
    ensures
        text@ == div_zero_text(),
{
    let mut word = String::new();
    word.push('D');
    word.push('I');
    word.push('V');
    word.push('/');
    word.push('0');
    assert(word@ == seq!['D', 'I', 'V', '/', '0']);
    let mut text = String::new();
    push_left_justified(&mut text, word.as_str(), 8);
    text
}

/// Two cells as plain text with a space between them.
pub fn joined(a: &Cell, b: &Cell) -> (text: String)
    ensures
        text@ == joined_text(a@, b@),
{
    let mut text = a.display();
    text.push(' ');
    let second = b.display();
    text.append(second.as_str());
    text
}

/// Adds two cells.
pub fn sum_cell(a: &Cell, b: &Cell) -> (text: String)
    ensures
        text@ == sum_text(a@, b@),
{
    match (a, b) {
        (Cell::Number(x), Cell::Number(y)) => x.plus(y).to_fixed2_field(),
        (Cell::Number(_), Cell::Text(_)) => joined(a, b),
        (Cell::Text(_), Cell::Number(_)) => joined(a, b),
        (Cell::Text(_), Cell::Text(_)) => joined(a, b),
        _ => pending(),
    }
}

/// Subtracts the second cell from the first.
pub fn sub_cell(a: &Cell, b: &Cell) -> (text: String)
    ensures
        text@ == sub_text(a@, b@),
{
    match (a, b) {
        (Cell::Number(x), Cell::Number(y)) => x.minus(y).to_fixed2_field(),
        (Cell::Number(_), Cell::Text(_)) => joined(a, b),
        (Cell::Text(_), Cell::Number(_)) => joined(a, b),
        (Cell::Text(_), Cell::Text(_)) => joined(a, b),
        _ => pending(),
    }
}

/// Multiplies two cells.
pub fn mul_cell(a: &Cell, b: &Cell) -> (text: String)
    ensures
        text@ == mul_text(a@, b@),
{
    match (a, b) {
        (Cell::Number(x), Cell::Number(y)) => x.times(y).to_fixed2_field(),
        _ => pending(),
    }
}

/// Divides the first cell by the second.
pub fn div_cell(a: &Cell, b: &Cell) -> (text: String)
    ensures
        text@ == div_text(a@, b@),
{
    match (a, b) {
        (Cell::Number(x), Cell::Number(y)) => {
            if y.is_zero() {
                div_zero()
            } else {
                x.divided_by(y).to_fixed2_field()
            }
        },
        _ => pending(),
    }
}

/// Takes the remainder of the first cell by the second.
pub fn rem_cell(a: &Cell, b: &Cell) -> (text: String)
    ensures
        text@ == rem_text(a@, b@),
{
    match (a, b) {
        (Cell::Number(x), Cell::Number(y)) => {
            if y.is_zero() {
                div_zero()
            } else {
                x.modulo(y).to_fixed2_field()
            }
        },
        _ => pending(),
    }
}

impl Formula {
    /// A formula over copies of two cells.
    pub fn from(a: Cell, operator: &str, b: Cell, label: String) -> (f: Formula)
        ensures
            f@ == (FormulaView {
                a: Box::new(a@),
                b: Box::new(b@),
                operator: operator@,
                label: label@,
            }),
    {
        Formula { a: Box::new(a), b: Box::new(b), operator: operator.to_owned(), label }
    }

    /// The label, which stands for the formula while the sheet is raw.
    pub fn raw(&self) -> (text: String)
        ensures
            text@ == self@.label,
    {
        self.label.clone()
    }

    /// Evaluates the operator named by `operator` on `a` and `b`.
    pub fn solve(a: &Cell, b: &Cell, operator: &str) -> (text: String)
        ensures
            text@ == solved_text(a@, b@, operator@),
    {
        match Operator::parse(operator) {
            Some(Operator::Add) => sum_cell(a, b),
            Some(Operator::Subtract) => sub_cell(a, b),
            Some(Operator::Multiply) => mul_cell(a, b),
            Some(Operator::Divide) => div_cell(a, b),
            Some(Operator::Remainder) => rem_cell(a, b),
            None => pending(),
        }
    }
}

impl Clone for Formula {
    fn clone(&self) -> (copy: Formula)
        ensures
            copy@ == self@,
        decreases self,
    {
        Formula {
            a: Box::new((&*self.a).clone()),
            b: Box::new((&*self.b).clone()),
            operator: self.operator.clone(),
            label: self.label.clone(),
        }
    }
}

impl Clone for Cell {
    fn clone(&self) -> (copy: Cell)
        ensures
            copy@ == self@,
        decreases self,
    {
        match self {
            Cell::Text(s) => Cell::Text(s.clone()),
            Cell::Number(n) => Cell::Number(*n),
            Cell::Formula(f) => Cell::Formula(f.clone()),
        }
    }
}

impl Cell {
    /// A text cell.
    pub fn make_text(s: &str) -> (c: Cell)
        ensures
            c@ == CellView::Text(s@),
    {
        Cell::Text(s.to_owned())
    }

    /// A number cell.
    pub fn make_number(n: Number) -> (c: Cell)
        ensures
            c@ == CellView::Number(n@),
    {
        Cell::Number(n)
    }

    /// A formula cell over copies of two cells.
    pub fn make_formula(a: Cell, operator: &str, b: Cell, label: String) -> (c: Cell)
        ensures
            c@ == CellView::Formula(
                FormulaView {
                    a: Box::new(a@),
                    b: Box::new(b@),
                    operator: operator@,
                    label: label@,
                },
            ),
    {
        Cell::Formula(Formula::from(a, operator, b, label))
    }

    /// The cell as plain text. A formula is not evaluated.
    pub fn display(&self) -> (text: String)
        ensures
            text@ == display_text(self@),
    {
        match self {
            Cell::Text(s) => s.clone(),
            Cell::Number(n) => n.to_fixed2(),
            Cell::Formula(f) => f.raw(),
        }
    }

    /// The text of the cell in one slot of the table. In a solved sheet a
    /// formula is handed to `resolver`, the sheet that owns the cell.
    pub fn render_slot(&self, mode: SheetMode, resolver: &Sheet) -> (text: String)
        ensures
            text@ == slot_text(self@, mode),
    {
        let mut text = String::new();
        match self {
            Cell::Text(s) => {
                push_left_justified(&mut text, s.as_str(), 8);
            },
            Cell::Number(n) => {
                text = n.to_fixed2_field();
            },
            Cell::Formula(f) => match mode {
                SheetMode::Raw => {
                    let mut shown = String::new();
                    shown.push('=');
                    shown.push(' ');
                    let label = f.raw();
                    shown.append(label.as_str());
                    assert(shown@ == seq!['=', ' '] + f@.label);
                    push_left_justified(&mut text, shown.as_str(), 8);
                },
                SheetMode::Solved => {
                    text = resolver.resolve_formula(f);
                },
            },
        }
        text
    }
}

} // verus!
