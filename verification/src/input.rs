//! Reading cells and numbers from the words of a text.

use vstd::prelude::*;
use vstd::string::StringSliceAdditionalSpecFns;
use crate::board::{Cell, Operator};

verus! {

/// Whether `byte` is one of the digits `0` to `9`.
pub open spec fn is_digit(byte: u8) -> bool {
    0x30 <= byte <= 0x39
}

/// Whether `word` holds digits only.
pub open spec fn all_digits(word: Seq<u8>) -> bool {
    forall|i: int| 0 <= i < word.len() ==> is_digit(#[trigger] word[i])
}

/// The number that a row of digits denotes in base ten.
pub open spec fn decimal(digits: Seq<u8>) -> int
    decreases digits.len(),
{
    if digits.len() == 0 {
        0
    } else {
        decimal(digits.drop_last()) * 10 + (digits.last() - 0x30)
    }
}

/// The number that `word` denotes: one sign at most, `+` or `-`, then one
/// digit at least and nothing but digits, and a value that an `i64` can
/// hold.
pub open spec fn number_of(word: Seq<u8>) -> Option<i64> {
    let signed = word.len() > 0 && (word[0] == 0x2b || word[0] == 0x2d);
    let digits = if signed {
        word.drop_first()
    } else {
        word
    };
    let value = if signed && word[0] == 0x2d {
        -decimal(digits)
    } else {
        decimal(digits)
    };
    if digits.len() > 0 && all_digits(digits) && i64::MIN <= value <= i64::MAX {
        Some(value as i64)
    } else {
        None
    }
}

/// The cell that `word` denotes: an operator for `+`, `-` and `*`, else a
/// number if the word denotes one.
pub open spec fn cell_of(word: Seq<u8>) -> Option<Cell> {
    if word == seq![0x2bu8] {
        Some(Cell::Operator(Operator::Add))
    } else if word == seq![0x2du8] {
        Some(Cell::Operator(Operator::Sub))
    } else if word == seq![0x2au8] {
        Some(Cell::Operator(Operator::Mul))
    } else {
        match number_of(word) {
            Some(x) => Some(Cell::Number(x)),
            None => None,
        }
    }
}

/// The cells that `words` denote, in their order; a word that denotes none
/// is passed over.
pub open spec fn cells_of(words: Seq<&str>) -> Seq<Cell>
    decreases words.len(),
{
    if words.len() == 0 {
        Seq::empty()
    } else {
        match cell_of(words.last().spec_bytes()) {
            Some(cell) => cells_of(words.drop_last()).push(cell),
            None => cells_of(words.drop_last()),
        }
    }
}

/// More digits do not make a number smaller.
proof fn lemma_decimal_grows(digits: Seq<u8>, n: int)
    requires
        all_digits(digits),
        0 <= n <= digits.len(),
    ensures
        0 <= decimal(digits.take(n)) <= decimal(digits),
    decreases digits.len() - n,
{
    if n == digits.len() {
        assert(digits.take(n) == digits);
        lemma_decimal_not_negative(digits);
    } else {
        lemma_decimal_grows(digits, n + 1);
        assert(digits.take(n + 1).drop_last() == digits.take(n));
        assert(is_digit(digits[n]));
        lemma_decimal_not_negative(digits.take(n));
    }
}

/// A row of digits denotes no number below zero.
proof fn lemma_decimal_not_negative(digits: Seq<u8>)
    requires
        all_digits(digits),
    ensures
        0 <= decimal(digits),
    decreases digits.len(),
{
    if digits.len() > 0 {
        assert(is_digit(digits.last()));
        lemma_decimal_not_negative(digits.drop_last());
    }
}

/// Reads a number in base ten.
pub fn parse_number(word: &str) -> (r: Option<i64>)
    ensures
        r == number_of(word.spec_bytes()),
{
    let bytes = word.as_bytes();
    let n = bytes.len();
    if n == 0 {
        return None;
    }
    let negative = bytes[0] == 0x2d;
    let start: usize = if bytes[0] == 0x2b || bytes[0] == 0x2d {
        1
    } else {
        0
    };
    let ghost digits = if start == 1 {
        bytes@.drop_first()
    } else {
        bytes@
    };
    if start == n {
        return None;
    }
    let mut acc: i64 = 0;
    let mut i: usize = start;
    while i < n
        invariant
            start <= i <= n,
            0 < n == bytes.len(),
            bytes@ == word.spec_bytes(),
            negative == (bytes@[0] == 0x2d),
            start == if bytes@[0] == 0x2b || bytes@[0] == 0x2d {
                1usize
            } else {
                0usize
            },
            digits == if start == 1 {
                bytes@.drop_first()
            } else {
                bytes@
            },
            all_digits(digits.take(i - start)),
            acc == if negative {
                -decimal(digits.take(i - start))
            } else {
                decimal(digits.take(i - start))
            },
        decreases n - i,
    {
        let byte = bytes[i];
        let ghost seen = digits.take(i - start);
        let ghost next = digits.take(i - start + 1);
        assert(digits[i - start] == byte);
        if byte < 0x30 || byte > 0x39 {
            return None;
        }
        proof {
            assert(next.drop_last() == seen);
            assert(next.last() == byte);
            assert forall|k: int| 0 <= k < next.len() implies is_digit(#[trigger] next[k]) by {
                if k < seen.len() {
                    assert(next[k] == seen[k]);
                }
            }
            if all_digits(digits) {
                lemma_decimal_grows(digits, i - start + 1);
            }
        }
        let digit: i64 = (byte - 0x30) as i64;
        let tenfold = match acc.checked_mul(10) {
            Some(v) => v,
            None => {
                return None;
            },
        };
        let sum = if negative {
            tenfold.checked_sub(digit)
        } else {
            tenfold.checked_add(digit)
        };
        acc = match sum {
            Some(v) => v,
            None => {
                return None;
            },
        };
        i += 1;
    }
    assert(digits.take(i - start) == digits);
    Some(acc)
}

/// Reads a cell: an operator from `+`, `-` or `*`, else a number.
pub fn parse_cell(word: &str) -> (r: Option<Cell>)
    ensures
        r == cell_of(word.spec_bytes()),
{
    let bytes = word.as_bytes();
    if bytes.len() == 1 && bytes[0] == 0x2b {
        assert(bytes@ == seq![0x2bu8]);
        Some(Cell::Operator(Operator::Add))
    } else if bytes.len() == 1 && bytes[0] == 0x2d {
        assert(bytes@ == seq![0x2du8]);
        Some(Cell::Operator(Operator::Sub))
    } else if bytes.len() == 1 && bytes[0] == 0x2a {
        assert(bytes@ == seq![0x2au8]);
        Some(Cell::Operator(Operator::Mul))
    } else {
        match parse_number(word) {
            Some(x) => Some(Cell::Number(x)),
            None => None,
        }
    }
}

/// Reads a row of cells from the words of a line. A word that is neither an
/// operator nor a number is passed over.
pub fn parse_row(words: &[&str]) -> (r: Vec<Cell>)
    ensures
        r@ == cells_of(words@),
{
    let mut row: Vec<Cell> = Vec::new();
    let mut i: usize = 0;
    while i < words.len()
        invariant
            i <= words.len(),
            row@ == cells_of(words@.take(i as int)),
        decreases words.len() - i,
    {
        assert(words@.take(i + 1).drop_last() == words@.take(i as int));
        if let Some(cell) = parse_cell(words[i]) {
            row.push(cell);
        }
        i += 1;
    }
    assert(words@.take(i as int) == words@);
    row
}

} // verus!
