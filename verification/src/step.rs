//! The text of a step, read as an elementary row operation. A step is made
//! of segments, set apart by the row marker `R`; the number of segments and
//! the first of them tell which operation is meant.
use vstd::prelude::*;
use crate::fraction::{parsed, Fraction, FractionError};
use crate::glyph::{decode_index, first_char, index_of, leading_char};
use crate::text::{fields, split_fields, texts, trim, trimmed, Delimiter};

verus! {

/// Why a step was not carried out.
#[derive(Clone, Copy, Debug, PartialEq, Eq, Structural)]
pub enum StepError {
    /// A factor of the step has the denominator zero.
    DivisionByZero,
    /// A factor of the step, or an entry of the new row, does not fit in
    /// 64-bit components.
    Overflow,
    /// A row of the step is not a row of the matrix.
    RowIndexOutOfRange,
    /// The step names fewer rows than its operation needs.
    MalformedStep,
}

/// An elementary row operation. Rows are counted from 1.
#[derive(Clone, Copy, Debug, PartialEq, Eq, Structural)]
pub enum Operation {
    /// Exchange two rows.
    RowSwap(u64, u64),
    /// Multiply a row, the second component, by a factor.
    RowScale(Fraction, u64),
    /// To a target row, add a source row times a factor.
    RowAddMultiple(u64, u64, Fraction),
    /// Nothing.
    NoOp,
}

/// An operation with its factor as a pair of integers.
pub enum Step {
    /// Exchange two rows.
    RowSwap(u64, u64),
    /// Multiply a row, the second component, by a factor.
    RowScale((int, int), u64),
    /// To a target row, add a source row times a factor.
    RowAddMultiple(u64, u64, (int, int)),
    /// Nothing.
    NoOp,
}

impl View for Operation {
    type V = Step;

    open spec fn view(&self) -> Step {
        match *self {
            Operation::RowSwap(a, b) => Step::RowSwap(a, b),
            Operation::RowScale(f, t) => Step::RowScale(f@, t),
            Operation::RowAddMultiple(t, s, f) => Step::RowAddMultiple(t, s, f@),
            Operation::NoOp => Step::NoOp,
        }
    }
}

/// The byte of the row marker, `R`.
pub const ROW_MARKER: u8 = 82;

/// The segments of a step: the fields between the row markers of the text
/// without the white space around it, and without a first field `0`, which
/// stands for no row.
pub open spec fn segments(text: Seq<u8>) -> Seq<Seq<u8>> {
    let f = fields(trimmed(text), Delimiter::Byte(ROW_MARKER));
    if f.len() > 0 && f[0].len() == 1 && f[0][0] == 48 {
        f.skip(1)
    } else {
        f
    }
}

/// The error of a step whose factor could not be constructed.
pub open spec fn factor_error(e: FractionError) -> StepError {
    match e {
        FractionError::DivisionByZero => StepError::DivisionByZero,
        _ => StepError::Overflow,
    }
}

/// The factor that a scan of `tokens` from left to right ends with, coming
/// from `start`: each token that reads as a fraction takes the place of the
/// factor before it, and a token that is no number is passed over. A token
/// that is a number over zero, or one that does not fit, ends the scan with
/// its error.
pub open spec fn scan_factor(tokens: Seq<Seq<u8>>, start: (int, int)) -> Result<
    (int, int),
    StepError,
>
    decreases tokens.len(),
{
    if tokens.len() == 0 {
        Ok(start)
    } else {
        match scan_factor(tokens.drop_last(), start) {
            Err(e) => Err(e),
            Ok(f) => match parsed(tokens.last()) {
                Ok(g) => Ok(g),
                Err(FractionError::InvalidNumberFormat) => Ok(f),
                Err(e) => Err(factor_error(e)),
            },
        }
    }
}

/// The words of a segment: its fields between white space.
pub open spec fn words(segment: Seq<u8>) -> Seq<Seq<u8>> {
    fields(segment, Delimiter::Whitespace)
}

/// The row that a segment names: what its first word writes in subscript
/// digits, `None` where that does not fit in 64 bits. A segment without a
/// word names no row.
pub open spec fn named_row(segment: Seq<u8>) -> Seq<Option<u64>> {
    if words(segment).len() > 0 {
        seq![index_of(words(segment)[0])]
    } else {
        Seq::empty()
    }
}

/// What three segments mean when the first is no fraction: to the first row
/// named, add the second row named times the factor that a scan of all words
/// ends with, coming from 1.
pub open spec fn decoded_combination(s: Seq<Seq<u8>>) -> Result<Step, StepError> {
    let rows = named_row(s[0]) + named_row(s[1]) + named_row(s[2]);
    match scan_factor(words(s[0]) + words(s[1]) + words(s[2]), (1int, 1int)) {
        Err(e) => Err(e),
        Ok(f) => if rows.len() < 2 {
            Err(StepError::MalformedStep)
        } else {
            match (rows[0], rows[1]) {
                (Some(t), Some(s)) => Ok(Step::RowAddMultiple(t, s, f)),
                _ => Err(StepError::RowIndexOutOfRange),
            }
        },
    }
}

/// What a step means. Two segments exchange two rows: the first character
/// of the first segment and the whole second segment write them. Three
/// segments whose first reads as a fraction multiply the row that the third
/// writes by that fraction. Three segments whose first is no number add a
/// multiple of a row to a row. Any other number of segments means nothing.
pub open spec fn decoded(text: Seq<u8>) -> Result<Step, StepError> {
    let s = segments(text);
    if s.len() == 2 {
        match (index_of(first_char(s[0])), index_of(s[1])) {
            (Some(a), Some(b)) => Ok(Step::RowSwap(a, b)),
            _ => Err(StepError::RowIndexOutOfRange),
        }
    } else if s.len() == 3 {
        match parsed(s[0]) {
            Ok(f) => match index_of(s[2]) {
                Some(t) => Ok(Step::RowScale(f, t)),
                None => Err(StepError::RowIndexOutOfRange),
            },
            Err(FractionError::InvalidNumberFormat) => decoded_combination(s),
            Err(e) => Err(factor_error(e)),
        }
    } else {
        Ok(Step::NoOp)
    }
}

/// A result with the operation, if there is one, replaced by its view.
pub open spec fn step_outcome(r: Result<Operation, StepError>) -> Result<Step, StepError> {
    match r {
        Ok(op) => Ok(op@),
        Err(e) => Err(e),
    }
}

/// A scan over the words of one text and then over those of another is a
/// scan over all of them.
pub proof fn lemma_scan_factor_concat(a: Seq<Seq<u8>>, b: Seq<Seq<u8>>, start: (int, int))
    ensures
        scan_factor(a + b, start) == match scan_factor(a, start) {
            Err(e) => Err(e),
            Ok(f) => scan_factor(b, f),
        },
    decreases b.len(),
{
    if b.len() == 0 {
        assert(a + b =~= a);
    } else {
        lemma_scan_factor_concat(a, b.drop_last(), start);
        assert((a + b).drop_last() =~= a + b.drop_last());
        assert((a + b).last() == b.last());
    }
}

/// The error of a step whose factor could not be constructed.
fn factor_failure(e: FractionError) -> (r: StepError)
    ensures
        r == factor_error(e),
{
    match e {
        FractionError::DivisionByZero => StepError::DivisionByZero,
        _ => StepError::Overflow,
    }
}

/// Scans `tokens` for a factor, coming from `start`.
fn scan_tokens(tokens: &Vec<Vec<u8>>, start: Fraction) -> (r: Result<Fraction, StepError>)
    ensures
        match r {
            Ok(f) => scan_factor(texts(tokens@), start@) == Ok::<(int, int), StepError>(f@),
            Err(e) => scan_factor(texts(tokens@), start@) == Err::<(int, int), StepError>(e),
        },
{
    let n: usize = tokens.len();
    let mut factor: Fraction = start;
    let mut i: usize = 0;
    assert(texts(tokens@).take(0) =~= Seq::<Seq<u8>>::empty());
    while i < n
        invariant
            i <= n,
            n == tokens@.len(),
            scan_factor(texts(tokens@).take(i as int), start@) == Ok::<(int, int), StepError>(
                factor@,
            ),
        decreases n - i,
    {
        let ghost all = texts(tokens@);
        assert(all.take(i + 1).drop_last() =~= all.take(i as int));
        assert(all.take(i + 1).last() == tokens@[i as int]@);
        match Fraction::parse(tokens[i].as_slice()) {
            Ok(g) => {
                factor = g;
            },
            Err(FractionError::InvalidNumberFormat) => {},
            Err(e) => {
                proof {
                    lemma_scan_factor_fails(all, start@, i + 1);
                }
                return Err(factor_failure(e));
            },
        }
        i = i + 1;
    }
    assert(texts(tokens@).take(n as int) =~= texts(tokens@));
    Ok(factor)
}

/// A scan that fails on its first `k` tokens fails on all of them, with the
/// same error.
proof fn lemma_scan_factor_fails(tokens: Seq<Seq<u8>>, start: (int, int), k: int)
    requires
        0 <= k <= tokens.len(),
        scan_factor(tokens.take(k), start) is Err,
    ensures
        scan_factor(tokens, start) == scan_factor(tokens.take(k), start),
    decreases tokens.len() - k,
{
    if k == tokens.len() {
        assert(tokens.take(k) =~= tokens);
    } else {
        assert(tokens.drop_last().take(k) =~= tokens.take(k));
        lemma_scan_factor_fails(tokens.drop_last(), start, k);
    }
}

/// The words of a segment, and the row that it names.
fn read_segment(segment: &Vec<u8>) -> (r: (Vec<Vec<u8>>, Option<Option<u64>>))
    ensures
        texts(r.0@) == words(segment@),
        match r.1 {
            Some(row) => named_row(segment@) == seq![row],
            None => named_row(segment@) == Seq::<Option<u64>>::empty(),
        },
{
    let tokens: Vec<Vec<u8>> = split_fields(segment.as_slice(), Delimiter::Whitespace);
    if tokens.len() > 0 {
        assert(texts(tokens@)[0] == tokens@[0]@);
        let row: Option<u64> = decode_index(tokens[0].as_slice());
        assert(named_row(segment@) =~= seq![row]);
        (tokens, Some(row))
    } else {
        assert(texts(tokens@).len() == 0);
        (tokens, None)
    }
}

/// Reads three segments, the first of which is no fraction.
fn decode_combination(s0: &Vec<u8>, s1: &Vec<u8>, s2: &Vec<u8>) -> (r: Result<
    Operation,
    StepError,
>)
    ensures
        step_outcome(r) == decoded_combination(seq![s0@, s1@, s2@]),
{
    let ghost s = seq![s0@, s1@, s2@];
    let (w0, r0) = read_segment(s0);
    let (w1, r1) = read_segment(s1);
    let (w2, r2) = read_segment(s2);
    let ghost all = words(s[0]) + words(s[1]) + words(s[2]);
    let ghost one = (1int, 1int);
    proof {
        lemma_scan_factor_concat(words(s[0]) + words(s[1]), words(s[2]), one);
        lemma_scan_factor_concat(words(s[0]), words(s[1]), one);
    }
    let f0: Fraction = match scan_tokens(&w0, Fraction::from_int(1)) {
        Ok(f) => f,
        Err(e) => {
            return Err(e);
        },
    };
    let f1: Fraction = match scan_tokens(&w1, f0) {
        Ok(f) => f,
        Err(e) => {
            return Err(e);
        },
    };
    let factor: Fraction = match scan_tokens(&w2, f1) {
        Ok(f) => f,
        Err(e) => {
            return Err(e);
        },
    };
    let mut rows: Vec<Option<u64>> = Vec::new();
    if let Some(row) = r0 {
        rows.push(row);
    }
    if let Some(row) = r1 {
        rows.push(row);
    }
    if let Some(row) = r2 {
        rows.push(row);
    }
    assert(rows@ =~= named_row(s[0]) + named_row(s[1]) + named_row(s[2]));
    if rows.len() < 2 {
        return Err(StepError::MalformedStep);
    }
    match (rows[0], rows[1]) {
        (Some(target), Some(source)) => Ok(Operation::RowAddMultiple(target, source, factor)),
        _ => Err(StepError::RowIndexOutOfRange),
    }
}

/// Reads a step.
pub fn decode(text: &[u8]) -> (r: Result<Operation, StepError>)
    ensures
        step_outcome(r) == decoded(text@),
        r matches Ok(Operation::RowScale(f, _)) ==> f.wf(),
        r matches Ok(Operation::RowAddMultiple(_, _, f)) ==> f.wf(),
{
    let all: Vec<Vec<u8>> = split_fields(trim(text), Delimiter::Byte(ROW_MARKER));
    let ghost f = texts(all@);
    let base: usize = if all.len() > 0 && all[0].len() == 1 && all[0][0] == 48 {
        1
    } else {
        0
    };
    proof {
        if all@.len() > 0 {
            assert(f[0] == all@[0]@);
        }
    }
    let ghost s = segments(text@);
    assert(s == f.skip(base as int));
    let count: usize = all.len() - base;
    assert(s.len() == count);
    if count == 2 {
        assert(s[0] == all@[base as int]@);
        assert(s[1] == all@[base + 1]@);
        let a: Option<u64> = decode_index(leading_char(all[base].as_slice()));
        let b: Option<u64> = decode_index(all[base + 1].as_slice());
        match (a, b) {
            (Some(first), Some(second)) => Ok(Operation::RowSwap(first, second)),
            _ => Err(StepError::RowIndexOutOfRange),
        }
    } else if count == 3 {
        assert(s[0] == all@[base as int]@);
        assert(s[1] == all@[base + 1]@);
        assert(s[2] == all@[base + 2]@);
        match Fraction::parse(all[base].as_slice()) {
            Ok(factor) => match decode_index(all[base + 2].as_slice()) {
                Some(target) => Ok(Operation::RowScale(factor, target)),
                None => Err(StepError::RowIndexOutOfRange),
            },
            Err(FractionError::InvalidNumberFormat) => {
                assert(s =~= seq![s[0], s[1], s[2]]);
                let r = decode_combination(&all[base], &all[base + 1], &all[base + 2]);
                proof {
                    if let Ok(Operation::RowAddMultiple(_, _, g)) = r {
                        use_type_invariant(g);
                    }
                }
                r
            },
            Err(e) => Err(factor_failure(e)),
        }
    } else {
        Ok(Operation::NoOp)
    }
}

} // verus!
