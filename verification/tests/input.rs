use equaline::board::Cell::{Number, Operator};
use equaline::board::Operator::{Add, Mul, Sub};
use equaline::board::{Board, Cell, Pos};
use equaline::input::{parse_cell, parse_number, parse_row};
use equaline::search::solve;

#[test]
fn parse_number_reads_digits() {
    assert_eq!(parse_number("0"), Some(0));
    assert_eq!(parse_number("7"), Some(7));
    assert_eq!(parse_number("81"), Some(81));
    assert_eq!(parse_number("1234567890"), Some(1234567890));
    assert_eq!(parse_number("0042"), Some(42));
}

#[test]
fn parse_number_reads_a_sign() {
    assert_eq!(parse_number("-5"), Some(-5));
    assert_eq!(parse_number("+5"), Some(5));
    assert_eq!(parse_number("-0"), Some(0));
    assert_eq!(parse_number("+0"), Some(0));
    assert_eq!(parse_number("-0012"), Some(-12));
}

#[test]
fn parse_number_reads_up_to_the_limits() {
    assert_eq!(parse_number("9223372036854775807"), Some(i64::MAX));
    assert_eq!(parse_number("+9223372036854775807"), Some(i64::MAX));
    assert_eq!(parse_number("-9223372036854775808"), Some(i64::MIN));
    assert_eq!(parse_number("-9223372036854775807"), Some(i64::MIN + 1));
    assert_eq!(
        parse_number("000000000000000000000009223372036854775807"),
        Some(i64::MAX)
    );
}

#[test]
fn parse_number_rejects_what_does_not_fit() {
    assert_eq!(parse_number("9223372036854775808"), None);
    assert_eq!(parse_number("-9223372036854775809"), None);
    assert_eq!(parse_number("10000000000000000000"), None);
    assert_eq!(parse_number("99999999999999999999999999"), None);
    assert_eq!(parse_number("-99999999999999999999999999"), None);
}

#[test]
fn parse_number_rejects_what_is_no_number() {
    assert_eq!(parse_number(""), None);
    assert_eq!(parse_number("+"), None);
    assert_eq!(parse_number("-"), None);
    assert_eq!(parse_number("*"), None);
    assert_eq!(parse_number("--1"), None);
    assert_eq!(parse_number("+-1"), None);
    assert_eq!(parse_number("1-"), None);
    assert_eq!(parse_number("1+2"), None);
    assert_eq!(parse_number("12a"), None);
    assert_eq!(parse_number("a12"), None);
    assert_eq!(parse_number("1.5"), None);
    assert_eq!(parse_number("1_000"), None);
    assert_eq!(parse_number(" 1"), None);
    assert_eq!(parse_number("1 "), None);
    assert_eq!(parse_number("0x10"), None);
    assert_eq!(parse_number("٣"), None);
    assert_eq!(parse_number("99999999999999999999999999x"), None);
}

#[test]
fn parse_number_agrees_with_the_standard_parser() {
    let words = [
        "0", "1", "-1", "+1", "", "+", "-", "007", "-007", "12x", "x12", "9223372036854775807",
        "9223372036854775808", "-9223372036854775808", "-9223372036854775809", "++1", "1e3", "٣",
        "１２", "-+1", "18446744073709551616", "00000000000000000000000000000001",
    ];
    for word in words {
        assert_eq!(parse_number(word), word.parse::<i64>().ok());
    }
    for value in -300i64..300 {
        assert_eq!(parse_number(&value.to_string()), Some(value));
    }
}

#[test]
fn parse_cell_reads_operators() {
    assert_eq!(parse_cell("+"), Some(Operator(Add)));
    assert_eq!(parse_cell("-"), Some(Operator(Sub)));
    assert_eq!(parse_cell("*"), Some(Operator(Mul)));
}

#[test]
fn parse_cell_reads_numbers() {
    assert_eq!(parse_cell("5"), Some(Number(5)));
    assert_eq!(parse_cell("-5"), Some(Number(-5)));
    assert_eq!(parse_cell("+5"), Some(Number(5)));
    assert_eq!(parse_cell("0"), Some(Number(0)));
    assert_eq!(parse_cell("9223372036854775807"), Some(Number(i64::MAX)));
}

#[test]
fn parse_cell_rejects_the_rest() {
    assert_eq!(parse_cell(""), None);
    assert_eq!(parse_cell("/"), None);
    assert_eq!(parse_cell("x"), None);
    assert_eq!(parse_cell("++"), None);
    assert_eq!(parse_cell("**"), None);
    assert_eq!(parse_cell("+*"), None);
    assert_eq!(parse_cell("3*"), None);
    assert_eq!(parse_cell("9223372036854775808"), None);
}

#[test]
fn parse_row_reads_the_cells_in_order() {
    assert_eq!(
        parse_row(&["1", "+", "3"]),
        vec![Number(1), Operator(Add), Number(3)]
    );
    assert_eq!(
        parse_row(&["-", "5", "+"]),
        vec![Operator(Sub), Number(5), Operator(Add)]
    );
    assert_eq!(
        parse_row(&["7", "*", "-9"]),
        vec![Number(7), Operator(Mul), Number(-9)]
    );
}

#[test]
fn parse_row_passes_over_other_words() {
    assert_eq!(
        parse_row(&["1", "plus", "+", "?", "3", "4.0", ""]),
        vec![Number(1), Operator(Add), Number(3)]
    );
    let none: Vec<Cell> = Vec::new();
    assert_eq!(parse_row(&["a", "b"]), none);
    assert_eq!(parse_row(&[]), none);
}

#[test]
fn parsed_board_is_solved_as_the_same_board_built_by_hand() {
    let lines = ["1 + 3", "- 5 +", "7 * 9"];
    let mut rows = Vec::new();
    for line in lines {
        let words: Vec<&str> = line.split_whitespace().collect();
        rows.push(parse_row(&words));
    }
    let board = Board::new(rows);
    let expected: Vec<Vec<Pos>> =
        vec![vec![(0, 0), (1, 0), (2, 0), (2, 1), (1, 1), (1, 2), (2, 2)]];
    assert_eq!(solve(&board, parse_number("81").unwrap()), expected);
}
