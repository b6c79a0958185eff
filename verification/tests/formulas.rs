use minisheet::cell::{
    div_cell, div_zero, joined, mul_cell, pending, rem_cell, sub_cell, sum_cell, Cell, Formula,
    Operator,
};
use minisheet::number::Number;
use minisheet::sheet::{Sheet, SheetMode};

fn num(x: f32) -> Cell {
    Cell::make_number(Number::from_bits(x.to_bits()))
}

fn text(s: &str) -> Cell {
    Cell::make_text(s)
}

fn formula() -> Cell {
    Cell::make_formula(num(1.0), "+", num(2.0), String::from("A1+B1"))
}

#[test]
fn six_by_three_is_two() {
    assert_eq!(Formula::solve(&num(6.0), &num(3.0), "/"), "    2.00");
}

#[test]
fn six_by_zero_is_a_notice() {
    assert_eq!(Formula::solve(&num(6.0), &num(0.0), "/"), "DIV/0   ");
    assert_eq!(Formula::solve(&num(6.0), &num(-0.0), "/"), "DIV/0   ");
    assert_eq!(Formula::solve(&num(0.0), &num(0.0), "/"), "DIV/0   ");
    assert_eq!(div_zero(), "DIV/0   ");
}

#[test]
fn seven_modulo_three_is_one() {
    assert_eq!(Formula::solve(&num(7.0), &num(3.0), "//"), "    1.00");
}

#[test]
fn remainder_by_zero_is_a_notice() {
    assert_eq!(Formula::solve(&num(7.0), &num(0.0), "//"), "DIV/0   ");
}

#[test]
fn text_times_number_is_pending() {
    assert_eq!(Formula::solve(&text("x"), &num(3.0), "*"), "\u{23f3}");
    assert_eq!(pending(), "⏳");
}

#[test]
fn number_plus_text_stands_side_by_side() {
    assert_eq!(Formula::solve(&num(3.0), &text("x"), "+"), "3.00 x");
}

#[test]
fn additive_operators_join_texts_and_numbers() {
    for op in ["+", "-"] {
        assert_eq!(Formula::solve(&num(3.0), &text("x"), op), "3.00 x");
        assert_eq!(Formula::solve(&text("x"), &num(3.0), op), "x 3.00");
        assert_eq!(Formula::solve(&text("x"), &text("y"), op), "x y");
        assert_eq!(Formula::solve(&text(""), &text(""), op), " ");
        assert_eq!(Formula::solve(&num(-1.5), &text("units"), op), "-1.50 units");
    }
    assert_eq!(joined(&text("a"), &num(0.125)), "a 0.12");
}

#[test]
fn strict_operators_take_numbers_only() {
    for op in ["*", "/", "//"] {
        assert_eq!(Formula::solve(&text("x"), &num(3.0), op), "⏳");
        assert_eq!(Formula::solve(&num(3.0), &text("x"), op), "⏳");
        assert_eq!(Formula::solve(&text("x"), &text("y"), op), "⏳");
        assert_eq!(Formula::solve(&formula(), &num(3.0), op), "⏳");
        assert_eq!(Formula::solve(&num(3.0), &formula(), op), "⏳");
    }
}

#[test]
fn a_formula_operand_is_pending() {
    for op in ["+", "-", "*", "/", "//"] {
        assert_eq!(Formula::solve(&formula(), &num(3.0), op), "⏳");
        assert_eq!(Formula::solve(&num(3.0), &formula(), op), "⏳");
        assert_eq!(Formula::solve(&formula(), &text("x"), op), "⏳");
        assert_eq!(Formula::solve(&text("x"), &formula(), op), "⏳");
        assert_eq!(Formula::solve(&formula(), &formula(), op), "⏳");
    }
}

#[test]
fn an_unknown_operator_is_pending() {
    for op in ["", "%", "^", "++", "/ /", "///", "add", " +", "÷"] {
        assert_eq!(Formula::solve(&num(6.0), &num(3.0), op), "⏳");
        assert_eq!(Formula::solve(&text("x"), &text("y"), op), "⏳");
        assert_eq!(Operator::parse(op), None);
    }
}

#[test]
fn operator_tokens() {
    assert_eq!(Operator::parse("+"), Some(Operator::Add));
    assert_eq!(Operator::parse("-"), Some(Operator::Subtract));
    assert_eq!(Operator::parse("*"), Some(Operator::Multiply));
    assert_eq!(Operator::parse("/"), Some(Operator::Divide));
    assert_eq!(Operator::parse("//"), Some(Operator::Remainder));
}

#[test]
fn numeric_results_fill_eight_characters() {
    assert_eq!(Formula::solve(&num(6.0), &num(3.0), "+"), "    9.00");
    assert_eq!(Formula::solve(&num(6.0), &num(3.0), "-"), "    3.00");
    assert_eq!(Formula::solve(&num(3.0), &num(6.0), "-"), "   -3.00");
    assert_eq!(Formula::solve(&num(6.0), &num(3.0), "*"), "   18.00");
    assert_eq!(Formula::solve(&num(1.0), &num(3.0), "/"), "    0.33");
    assert_eq!(Formula::solve(&num(2.0), &num(3.0), "/"), "    0.67");
    assert_eq!(Formula::solve(&num(-7.5), &num(2.0), "//"), "   -1.50");
    assert_eq!(Formula::solve(&num(1.0e6), &num(1.0e6), "*"), "999999995904.00");
    assert_eq!(sum_cell(&num(0.1), &num(0.2)), "    0.30");
    assert_eq!(sub_cell(&num(0.1), &num(0.2)), "   -0.10");
    assert_eq!(mul_cell(&num(0.1), &num(0.2)), "    0.02");
    assert_eq!(div_cell(&num(0.1), &num(0.2)), "    0.50");
    assert_eq!(rem_cell(&num(0.3), &num(0.2)), "    0.10");
}

#[test]
fn results_outside_the_numbers() {
    assert_eq!(Formula::solve(&num(f32::MAX), &num(f32::MAX), "+"), "     inf");
    assert_eq!(Formula::solve(&num(f32::MIN), &num(f32::MAX), "*"), "    -inf");
    assert_eq!(Formula::solve(&num(f32::INFINITY), &num(f32::INFINITY), "-"), "     NaN");
    assert_eq!(Formula::solve(&num(1.0), &num(f32::NAN), "/"), "     NaN");
    assert_eq!(Formula::solve(&num(f32::INFINITY), &num(2.0), "//"), "     NaN");
    assert_eq!(Formula::solve(&num(5.0), &num(f32::INFINITY), "//"), "    5.00");
}

#[test]
fn results_agree_with_the_machine() {
    let samples = [0.0f32, 1.0, -1.0, 0.5, 3.0, 6.0, 7.0, 22.0 / 7.0, 1.0e-3, 123456.78, -9.99];
    for &x in samples.iter() {
        for &y in samples.iter() {
            assert_eq!(Formula::solve(&num(x), &num(y), "+"), format!("{:8.2}", x + y));
            assert_eq!(Formula::solve(&num(x), &num(y), "-"), format!("{:8.2}", x - y));
            assert_eq!(Formula::solve(&num(x), &num(y), "*"), format!("{:8.2}", x * y));
            if y != 0.0 {
                assert_eq!(Formula::solve(&num(x), &num(y), "/"), format!("{:8.2}", x / y));
                assert_eq!(Formula::solve(&num(x), &num(y), "//"), format!("{:8.2}", x % y));
            } else {
                assert_eq!(Formula::solve(&num(x), &num(y), "/"), format!("{:8}", "DIV/0"));
                assert_eq!(Formula::solve(&num(x), &num(y), "//"), format!("{:8}", "DIV/0"));
            }
        }
    }
}

#[test]
fn display_never_evaluates() {
    assert_eq!(text("Row 1").display(), "Row 1");
    assert_eq!(num(3.0).display(), "3.00");
    assert_eq!(num(22.0 / 7.0).display(), "3.14");
    assert_eq!(formula().display(), "A1+B1");
    let f = Formula::from(num(1.0), "+", num(2.0), String::from("anything"));
    assert_eq!(f.raw(), "anything");
}

#[test]
fn a_slot_per_kind_of_cell() {
    let sheet = Sheet::new();
    for mode in [SheetMode::Raw, SheetMode::Solved] {
        assert_eq!(text("Row 1").render_slot(mode, &sheet), "Row 1   ");
        assert_eq!(text("").render_slot(mode, &sheet), "        ");
        assert_eq!(text("exactly8").render_slot(mode, &sheet), "exactly8");
        assert_eq!(text("longer than eight").render_slot(mode, &sheet), "longer than eight");
        assert_eq!(text("⏳⏳").render_slot(mode, &sheet), "⏳⏳      ");
        assert_eq!(num(3.0).render_slot(mode, &sheet), "    3.00");
        assert_eq!(num(-1234567.0).render_slot(mode, &sheet), "-1234567.00");
    }
    assert_eq!(formula().render_slot(SheetMode::Raw, &sheet), "= A1+B1 ");
    assert_eq!(formula().render_slot(SheetMode::Solved, &sheet), "    3.00");
    let long = Cell::make_formula(num(1.0), "+", num(2.0), String::from("SUM(A1:B9)"));
    assert_eq!(long.render_slot(SheetMode::Raw, &sheet), "= SUM(A1:B9)");
    let odd = Cell::make_formula(num(1.0), "?", num(2.0), String::from("x"));
    assert_eq!(odd.render_slot(SheetMode::Raw, &sheet), "= x     ");
    assert_eq!(odd.render_slot(SheetMode::Solved, &sheet), "⏳");
    let mixed = Cell::make_formula(num(3.0), "+", text("x"), String::from("x"));
    assert_eq!(mixed.render_slot(SheetMode::Solved, &sheet), "3.00 x");
    let by_zero = Cell::make_formula(num(3.0), "/", num(0.0), String::from("x"));
    assert_eq!(by_zero.render_slot(SheetMode::Solved, &sheet), "DIV/0   ");
}

#[test]
fn the_label_is_independent_of_the_operands() {
    let sheet = Sheet::new();
    let f = Cell::make_formula(num(3.0), "-", num(5.0), String::from("C1-B1"));
    assert_eq!(f.render_slot(SheetMode::Raw, &sheet), "= C1-B1 ");
    assert_eq!(f.render_slot(SheetMode::Solved, &sheet), "   -2.00");
}

#[test]
fn a_copy_is_the_same_cell() {
    let sheet = Sheet::new();
    let nested = Cell::make_formula(formula(), "*", text("t"), String::from("n"));
    for cell in [text("a"), num(2.5), formula(), nested] {
        let copy = cell.clone();
        assert_eq!(format!("{:?}", copy), format!("{:?}", cell));
        assert_eq!(copy.display(), cell.display());
        for mode in [SheetMode::Raw, SheetMode::Solved] {
            assert_eq!(copy.render_slot(mode, &sheet), cell.render_slot(mode, &sheet));
        }
    }
}

#[test]
fn text_slots_are_padded_by_characters() {
    let sheet = Sheet::new();
    for s in ["", "a", "Row 1", "exactly8", "nine long", "⏳", "żółw", "日本語", "a\tb", "é"] {
        assert_eq!(text(s).render_slot(SheetMode::Raw, &sheet), format!("{:8}", s));
        let labelled = Cell::make_formula(num(1.0), "+", num(1.0), String::from(s));
        assert_eq!(labelled.render_slot(SheetMode::Raw, &sheet), format!("= {:6}", s));
        assert_eq!(labelled.display(), s);
    }
}
