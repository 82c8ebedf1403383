use rowops::fraction::Fraction;
use rowops::matrix::Matrix;
use rowops::session::{apply, Session};
use rowops::step::{Operation, StepError};

fn frac(n: i64, d: i64) -> Fraction {
    Fraction::new(n, d).unwrap()
}

fn ints(rows: &[&[i64]]) -> Matrix {
    let rows: Vec<Vec<i64>> = rows.iter().map(|r| r.to_vec()).collect();
    Matrix::from_integers(&rows).unwrap()
}

fn texts(session: &Session, index: usize) -> Vec<Vec<String>> {
    session
        .format_matrix(index)
        .unwrap()
        .into_iter()
        .map(|row| row.into_iter().map(|t| String::from_utf8(t).unwrap()).collect())
        .collect()
}

#[test]
fn apply_swaps_rows_counted_from_one() {
    let m = ints(&[&[1, 2], &[3, 4]]);
    assert_eq!(apply(&Operation::RowSwap(1, 2), &m).unwrap(), ints(&[&[3, 4], &[1, 2]]));
    assert_eq!(apply(&Operation::RowSwap(2, 2), &m).unwrap(), m);
}

#[test]
fn apply_scales_a_row() {
    let m = ints(&[&[2, 4], &[3, 5]]);
    let r = apply(&Operation::RowScale(frac(1, 2), 1), &m).unwrap();
    assert_eq!(r, ints(&[&[1, 2], &[3, 5]]));
}

#[test]
fn apply_adds_a_multiple_of_a_row() {
    let m = ints(&[&[1, 1], &[2, 2]]);
    let r = apply(&Operation::RowAddMultiple(2, 1, frac(-2, 1)), &m).unwrap();
    assert_eq!(r, ints(&[&[1, 1], &[0, 0]]));
    let r = apply(&Operation::RowAddMultiple(1, 1, frac(1, 1)), &m).unwrap();
    assert_eq!(r, ints(&[&[2, 2], &[2, 2]]));
}

#[test]
fn apply_of_no_op_gives_the_same_matrix() {
    let m = ints(&[&[1, 2], &[3, 4]]);
    assert_eq!(apply(&Operation::NoOp, &m).unwrap(), m);
}

#[test]
fn apply_refuses_rows_that_the_matrix_does_not_have() {
    let m = ints(&[&[1, 2], &[3, 4]]);
    let out = Err(StepError::RowIndexOutOfRange);
    assert_eq!(apply(&Operation::RowSwap(1, 99), &m), out);
    assert_eq!(apply(&Operation::RowSwap(0, 1), &m), out);
    assert_eq!(apply(&Operation::RowSwap(3, 1), &m), out);
    assert_eq!(apply(&Operation::RowSwap(1, u64::MAX), &m), out);
    assert_eq!(apply(&Operation::RowScale(frac(2, 1), 0), &m), out);
    assert_eq!(apply(&Operation::RowScale(frac(2, 1), 3), &m), out);
    assert_eq!(apply(&Operation::RowAddMultiple(0, 1, frac(2, 1)), &m), out);
    assert_eq!(apply(&Operation::RowAddMultiple(1, 3, frac(2, 1)), &m), out);
}

#[test]
fn apply_refuses_entries_that_do_not_fit() {
    let m = ints(&[&[i64::MAX, 1], &[1, 1]]);
    assert_eq!(apply(&Operation::RowScale(frac(2, 1), 1), &m), Err(StepError::Overflow));
    assert_eq!(
        apply(&Operation::RowAddMultiple(1, 2, frac(1, 1)), &m),
        Err(StepError::Overflow)
    );
}

#[test]
fn applying_a_swap_twice_gives_the_matrix_back() {
    let m = ints(&[&[1, 2], &[3, 4], &[5, 6]]);
    for a in 1..=3 {
        for b in 1..=3 {
            let once = apply(&Operation::RowSwap(a, b), &m).unwrap();
            assert_eq!(apply(&Operation::RowSwap(a, b), &once).unwrap(), m);
        }
    }
}

#[test]
fn applying_a_scale_by_one_gives_the_same_matrix() {
    let rows = vec![vec![frac(1, 2), frac(-7, 3)], vec![frac(5, 1), frac(0, 1)]];
    let m = Matrix::from_rows(&rows).unwrap();
    for r in 1..=2 {
        assert_eq!(apply(&Operation::RowScale(frac(1, 1), r), &m).unwrap(), m);
    }
}

#[test]
fn a_new_session_holds_the_initial_matrix() {
    let s = Session::new(ints(&[&[1, 2], &[3, 4]]));
    assert_eq!(s.applied_steps(), 0);
    assert_eq!(s.latest(), &ints(&[&[1, 2], &[3, 4]]));
    assert_eq!(s.snapshot(0), Some(&ints(&[&[1, 2], &[3, 4]])));
    assert_eq!(s.snapshot(1), None);
    assert_eq!(s.step_text(0), Some(&b"0".to_vec()));
    assert_eq!(s.step_text(1), None);
    assert_eq!(texts(&s, 0), vec![vec!["1", "2"], vec!["3", "4"]]);
    assert!(s.format_matrix(1).is_none());
}

#[test]
fn a_swap_step_exchanges_the_rows() {
    let mut s = Session::new(ints(&[&[1, 2], &[3, 4]]));
    let text = "R\u{2081} \u{2194} R\u{2082}";
    assert_eq!(s.submit_step(text.as_bytes()), Ok(true));
    assert_eq!(s.applied_steps(), 1);
    assert_eq!(s.latest(), &ints(&[&[3, 4], &[1, 2]]));
    assert_eq!(s.snapshot(0), Some(&ints(&[&[1, 2], &[3, 4]])));
    assert_eq!(s.step_text(1), Some(&text.as_bytes().to_vec()));
    assert_eq!(texts(&s, 1), vec![vec!["3", "4"], vec!["1", "2"]]);
}

#[test]
fn a_scale_step_multiplies_the_row() {
    let mut s = Session::new(ints(&[&[2, 4], &[1, 1]]));
    assert_eq!(s.submit_step("1/2R\u{2081}\u{2192}R\u{2081}".as_bytes()), Ok(true));
    assert_eq!(s.latest(), &ints(&[&[1, 2], &[1, 1]]));
}

#[test]
fn an_add_multiple_step_clears_a_row() {
    let mut s = Session::new(ints(&[&[1, 1], &[2, 2]]));
    let text = "R\u{2082} + -2 R\u{2081} \u{2192} R\u{2082}";
    assert_eq!(s.submit_step(text.as_bytes()), Ok(true));
    assert_eq!(s.latest(), &ints(&[&[1, 1], &[0, 0]]));
    assert_eq!(texts(&s, 1), vec![vec!["1", "1"], vec!["0", "0"]]);
}

#[test]
fn a_step_that_means_nothing_appends_nothing() {
    let mut s = Session::new(ints(&[&[1, 2], &[3, 4]]));
    for text in ["", "R", "R\u{2081}", "hello", "R\u{2081}R\u{2082}R\u{2081}R\u{2082}"] {
        assert_eq!(s.submit_step(text.as_bytes()), Ok(false));
        assert_eq!(s.applied_steps(), 0);
        assert_eq!(s.latest(), &ints(&[&[1, 2], &[3, 4]]));
        assert_eq!(s.step_text(1), None);
    }
}

#[test]
fn a_step_out_of_range_leaves_the_session_as_it_was() {
    let mut s = Session::new(ints(&[&[1, 2], &[3, 4]]));
    assert_eq!(s.submit_step("R\u{2081}R\u{2082}".as_bytes()), Ok(true));
    let swap_99 = "R\u{2081}R\u{2089}\u{2089}";
    assert_eq!(s.submit_step(swap_99.as_bytes()), Err(StepError::RowIndexOutOfRange));
    assert_eq!(s.applied_steps(), 1);
    assert_eq!(s.latest(), &ints(&[&[3, 4], &[1, 2]]));
    assert_eq!(s.step_text(2), None);
    assert_eq!(s.snapshot(2), None);
    assert_eq!(
        s.submit_step("2R\u{2081}R\u{2083}".as_bytes()),
        Err(StepError::RowIndexOutOfRange)
    );
    assert_eq!(
        s.submit_step("R\u{2080} + R\u{2081} \u{2192} R\u{2080}".as_bytes()),
        Err(StepError::RowIndexOutOfRange)
    );
    assert_eq!(s.applied_steps(), 1);
}

#[test]
fn a_step_that_fails_otherwise_leaves_the_session_as_it_was() {
    let mut s = Session::new(ints(&[&[i64::MAX, 2], &[3, 4]]));
    assert_eq!(s.submit_step("2R\u{2081}R\u{2081}".as_bytes()), Err(StepError::Overflow));
    assert_eq!(s.submit_step("1/0R\u{2081}R\u{2081}".as_bytes()), Err(StepError::DivisionByZero));
    assert_eq!(s.submit_step("R R R\u{2081}".as_bytes()), Err(StepError::MalformedStep));
    assert_eq!(s.applied_steps(), 0);
    assert_eq!(s.latest(), &ints(&[&[i64::MAX, 2], &[3, 4]]));
}

#[test]
fn the_history_is_one_longer_than_the_steps_carried_out() {
    let mut s = Session::new(ints(&[&[1, 2], &[3, 4]]));
    let steps = [
        ("R\u{2081}R\u{2082}", true),
        ("nothing", false),
        ("1/3R\u{2081}R\u{2081}", true),
        ("R\u{2081}R\u{2087}", false),
        ("R\u{2082} + 3 R\u{2081} \u{2192} R\u{2082}", true),
        ("0R\u{2082}R\u{2081}", true),
    ];
    let mut carried_out = 0;
    for (text, ok) in steps {
        let r = s.submit_step(text.as_bytes());
        assert_eq!(r == Ok(true), ok);
        if ok {
            carried_out += 1;
        }
        assert_eq!(s.applied_steps(), carried_out);
        assert!(s.snapshot(carried_out).is_some());
        assert!(s.snapshot(carried_out + 1).is_none());
        assert!(s.step_text(carried_out).is_some());
        assert!(s.step_text(carried_out + 1).is_none());
    }
    assert_eq!(carried_out, 4);
    assert_eq!(texts(&s, 0), vec![vec!["1", "2"], vec!["3", "4"]]);
    assert_eq!(texts(&s, 1), vec![vec!["3", "4"], vec!["1", "2"]]);
    assert_eq!(texts(&s, 2), vec![vec!["1", "4/3"], vec!["1", "2"]]);
    assert_eq!(texts(&s, 3), vec![vec!["1", "4/3"], vec!["4", "6"]]);
    assert_eq!(texts(&s, 4), vec![vec!["4", "6"], vec!["1", "4/3"]]);
}

#[test]
fn the_record_keeps_the_text_as_it_was_handed_in() {
    let mut s = Session::new(ints(&[&[1, 2], &[3, 4]]));
    let text = "  0R\u{2081}R\u{2082} \n";
    assert_eq!(s.submit_step(text.as_bytes()), Ok(true));
    assert_eq!(s.step_text(1), Some(&text.as_bytes().to_vec()));
}

#[test]
fn reset_goes_back_to_the_initial_matrix() {
    let mut s = Session::new(ints(&[&[1, 2], &[3, 4]]));
    assert_eq!(s.submit_step("R\u{2081}R\u{2082}".as_bytes()), Ok(true));
    assert_eq!(s.submit_step("2R\u{2081}R\u{2081}".as_bytes()), Ok(true));
    assert_eq!(s.applied_steps(), 2);
    s.reset();
    assert_eq!(s.applied_steps(), 0);
    assert_eq!(s.latest(), &ints(&[&[1, 2], &[3, 4]]));
    assert_eq!(s.step_text(0), Some(&b"0".to_vec()));
    assert_eq!(s.step_text(1), None);
    assert_eq!(s.submit_step("R\u{2081}R\u{2082}".as_bytes()), Ok(true));
    assert_eq!(s.latest(), &ints(&[&[3, 4], &[1, 2]]));
}
