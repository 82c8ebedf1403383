use rowops::fraction::Fraction;
use rowops::step::{decode, Operation, StepError};

fn frac(n: i64, d: i64) -> Fraction {
    Fraction::new(n, d).unwrap()
}

fn step(text: &str) -> Result<Operation, StepError> {
    decode(text.as_bytes())
}

#[test]
fn two_segments_are_a_swap() {
    assert_eq!(step("R\u{2081}R\u{2082}"), Ok(Operation::RowSwap(1, 2)));
    assert_eq!(step("R\u{2081} \u{2194} R\u{2082}"), Ok(Operation::RowSwap(1, 2)));
    assert_eq!(step("  R\u{2083}R\u{2081}\u{2080}\n"), Ok(Operation::RowSwap(3, 10)));
}

#[test]
fn a_swap_takes_one_character_of_the_first_segment() {
    assert_eq!(step("R\u{2081}\u{2082}R\u{2083}\u{2084}"), Ok(Operation::RowSwap(1, 34)));
    assert_eq!(step("RxR\u{2083}"), Ok(Operation::RowSwap(0, 3)));
    assert_eq!(step("R R\u{2083}"), Ok(Operation::RowSwap(0, 3)));
}

#[test]
fn a_first_segment_zero_is_dropped() {
    assert_eq!(step("0R\u{2081}R\u{2082}"), Ok(Operation::RowSwap(1, 2)));
    assert_eq!(step("0R1/2R\u{2081}R\u{2081}"), Ok(Operation::RowScale(frac(1, 2), 1)));
    assert_eq!(step("0"), Ok(Operation::NoOp));
    assert_eq!(step("0R\u{2081}"), Ok(Operation::NoOp));
    assert_eq!(step("0 R\u{2081}R\u{2082}"), Ok(Operation::RowScale(frac(0, 1), 2)));
    assert_eq!(step("00R\u{2081}R\u{2082}"), Ok(Operation::RowScale(frac(0, 1), 2)));
}

#[test]
fn three_segments_after_a_fraction_are_a_scale() {
    assert_eq!(step("1/2R\u{2081}\u{2192}R\u{2081}"), Ok(Operation::RowScale(frac(1, 2), 1)));
    assert_eq!(step("-3 R\u{2082} \u{2192} R\u{2082}"), Ok(Operation::RowScale(frac(-3, 1), 2)));
    assert_eq!(step(" 6 / 8 R\u{2085}R\u{2081}\u{2082}"), Ok(Operation::RowScale(frac(3, 4), 12)));
}

#[test]
fn three_segments_after_no_number_are_an_add_multiple() {
    assert_eq!(
        step("R\u{2082} + -2 R\u{2081} \u{2192} R\u{2082}"),
        Ok(Operation::RowAddMultiple(2, 1, frac(-2, 1)))
    );
    assert_eq!(
        step("R\u{2083} + 1/2 R\u{2081} \u{2192} R\u{2083}"),
        Ok(Operation::RowAddMultiple(3, 1, frac(1, 2)))
    );
    assert_eq!(
        step("R\u{2081} + R\u{2082} 5 \u{2192} R\u{2081}"),
        Ok(Operation::RowAddMultiple(1, 2, frac(5, 1)))
    );
}

#[test]
fn an_add_multiple_without_a_factor_has_the_factor_one() {
    assert_eq!(
        step("R\u{2081} + R\u{2082} \u{2192} R\u{2081}"),
        Ok(Operation::RowAddMultiple(1, 2, frac(1, 1)))
    );
}

#[test]
fn the_last_word_that_is_a_fraction_is_the_factor() {
    assert_eq!(
        step("R\u{2082} 3 R\u{2081} 5 R\u{2082}"),
        Ok(Operation::RowAddMultiple(2, 1, frac(5, 1)))
    );
    assert_eq!(
        step("R\u{2082} 3 4 R\u{2081} x R\u{2082} 7/2"),
        Ok(Operation::RowAddMultiple(2, 1, frac(7, 2)))
    );
    assert_eq!(
        step("R\u{2082} 3 4 R\u{2081} x R\u{2082} y"),
        Ok(Operation::RowAddMultiple(2, 1, frac(4, 1)))
    );
}

#[test]
fn a_first_word_that_is_a_fraction_is_a_factor_and_names_row_zero() {
    assert_eq!(
        step("Rx 9 R7 R\u{2082}"),
        Ok(Operation::RowAddMultiple(0, 0, frac(7, 1)))
    );
}

#[test]
fn white_space_of_any_kind_sets_words_apart() {
    assert_eq!(
        step("R\u{2082}\t+\n-2  R \u{2081}\u{2192}R\u{2082}"),
        Ok(Operation::RowAddMultiple(2, 1, frac(-2, 1)))
    );
}

#[test]
fn other_numbers_of_segments_mean_nothing() {
    assert_eq!(step(""), Ok(Operation::NoOp));
    assert_eq!(step("   "), Ok(Operation::NoOp));
    assert_eq!(step("R"), Ok(Operation::NoOp));
    assert_eq!(step("RRR"), Ok(Operation::NoOp));
    assert_eq!(step("R\u{2081}"), Ok(Operation::NoOp));
    assert_eq!(step("hello"), Ok(Operation::NoOp));
    assert_eq!(step("R\u{2081}R\u{2082}R\u{2083}R\u{2084}"), Ok(Operation::NoOp));
    assert_eq!(step("1/0R\u{2081}R\u{2082}R\u{2083}R\u{2084}"), Ok(Operation::NoOp));
    assert_eq!(step("aRbRcRdReRf"), Ok(Operation::NoOp));
}

#[test]
fn a_segment_without_a_word_names_no_row() {
    assert_eq!(step("R R\u{2081} R\u{2082}"), Ok(Operation::RowAddMultiple(1, 2, frac(1, 1))));
    assert_eq!(step("R\u{2081} R R\u{2082}"), Ok(Operation::RowAddMultiple(1, 2, frac(1, 1))));
}

#[test]
fn fewer_than_two_rows_are_a_malformed_step() {
    assert_eq!(step("R R R\u{2081}"), Err(StepError::MalformedStep));
    assert_eq!(step("R\tR R x"), Err(StepError::MalformedStep));
    assert_eq!(step("0R R \n R 5"), Err(StepError::MalformedStep));
}

#[test]
fn a_factor_over_zero_is_division_by_zero() {
    assert_eq!(step("1/0R\u{2081}R\u{2081}"), Err(StepError::DivisionByZero));
    assert_eq!(step("R\u{2082} 1/0 R\u{2081} R\u{2082}"), Err(StepError::DivisionByZero));
    assert_eq!(step("R\u{2082} 1/0 R\u{2081} 3 R\u{2082}"), Err(StepError::DivisionByZero));
    assert_eq!(step("R R 1/0 Rx"), Err(StepError::DivisionByZero));
}

#[test]
fn a_factor_that_does_not_fit_is_overflow() {
    assert_eq!(step("1/-9223372036854775808R\u{2081}R\u{2081}"), Err(StepError::Overflow));
    assert_eq!(
        step("R\u{2082} -9223372036854775808/-1 R\u{2081} R\u{2082}"),
        Err(StepError::Overflow)
    );
}

#[test]
fn a_row_that_does_not_fit_is_out_of_range() {
    let big = "\u{2089}".repeat(25);
    assert_eq!(step(&format!("R\u{2081}R{big}")), Err(StepError::RowIndexOutOfRange));
    assert_eq!(step(&format!("2R\u{2081}R{big}")), Err(StepError::RowIndexOutOfRange));
    assert_eq!(step(&format!("R{big} R\u{2081} R\u{2081}")), Err(StepError::RowIndexOutOfRange));
    assert_eq!(step(&format!("R\u{2081} R{big} R\u{2081}")), Err(StepError::RowIndexOutOfRange));
    assert_eq!(
        step(&format!("R\u{2081} R\u{2082} R{big}")),
        Ok(Operation::RowAddMultiple(1, 2, frac(1, 1)))
    );
}
