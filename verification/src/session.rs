//! Carrying out steps: an operation applied to a matrix, and the session
//! that keeps every matrix a step produced beside the text of that step.
use vstd::prelude::*;
use vstd::slice::slice_to_vec;
use crate::fraction::{lemma_product_one, product, FractionError};
use crate::matrix::{
    combined,
    combines,
    formatted_grid,
    grid_wf,
    is_fraction,
    row_wf,
    scaled,
    scales,
    swapped,
    table_texts,
    Matrix,
};
use crate::step::{decode, decoded, Operation, Step, StepError};

verus! {

/// Whether `index`, counted from 1, is a row of `g`.
pub open spec fn in_range(index: u64, g: Seq<Seq<(int, int)>>) -> bool {
    1 <= index <= g.len()
}

/// What an operation makes of a matrix. A row that the matrix does not have
/// is refused, and so is a new entry that does not fit.
pub open spec fn applied(step: Step, g: Seq<Seq<(int, int)>>) -> Result<
    Seq<Seq<(int, int)>>,
    StepError,
> {
    match step {
        Step::NoOp => Ok(g),
        Step::RowSwap(a, b) => if in_range(a, g) && in_range(b, g) {
            Ok(swapped(g, a - 1, b - 1))
        } else {
            Err(StepError::RowIndexOutOfRange)
        },
        Step::RowScale(f, t) => if !in_range(t, g) {
            Err(StepError::RowIndexOutOfRange)
        } else if scales(g[t - 1], f) {
            Ok(g.update(t - 1, scaled(g[t - 1], f)))
        } else {
            Err(StepError::Overflow)
        },
        Step::RowAddMultiple(t, s, f) => if !(in_range(t, g) && in_range(s, g)) {
            Err(StepError::RowIndexOutOfRange)
        } else if combines(g[t - 1], g[s - 1], f) {
            Ok(g.update(t - 1, combined(g[t - 1], g[s - 1], f)))
        } else {
            Err(StepError::Overflow)
        },
    }
}

/// What a step makes of a matrix: the new matrix, or `None` for a step that
/// means nothing.
pub open spec fn step_result(text: Seq<u8>, g: Seq<Seq<(int, int)>>) -> Result<
    Option<Seq<Seq<(int, int)>>>,
    StepError,
> {
    match decoded(text) {
        Err(e) => Err(e),
        Ok(Step::NoOp) => Ok(None),
        Ok(step) => match applied(step, g) {
            Ok(n) => Ok(Some(n)),
            Err(e) => Err(e),
        },
    }
}

/// The place in a matrix of a row counted from 1, if the matrix has it.
fn position(index: u64, matrix: &Matrix) -> (r: Option<usize>)
    ensures
        r is Some == in_range(index, matrix@),
        r matches Some(p) ==> p == index - 1,
{
    let n: usize = matrix.row_count();
    if index >= 1 && index - 1 < n as u64 {
        Some((index - 1) as usize)
    } else {
        None
    }
}

/// Applies an operation to a matrix.
pub fn apply(op: &Operation, matrix: &Matrix) -> (r: Result<Matrix, StepError>)
    ensures
        match r {
            Ok(m) => applied(op@, matrix@) == Ok::<Seq<Seq<(int, int)>>, StepError>(m@) && grid_wf(
                m@,
            ),
            Err(e) => applied(op@, matrix@) == Err::<Seq<Seq<(int, int)>>, StepError>(e),
        },
{
    match *op {
        Operation::NoOp => Ok(matrix.copy()),
        Operation::RowSwap(a, b) => {
            match (position(a, matrix), position(b, matrix)) {
                (Some(i), Some(j)) => Ok(matrix.swap_rows(i, j)),
                _ => Err(StepError::RowIndexOutOfRange),
            }
        },
        Operation::RowScale(factor, target) => {
            match position(target, matrix) {
                Some(i) => match matrix.scale_row(i, factor) {
                    Ok(m) => Ok(m),
                    Err(_) => Err(StepError::Overflow),
                },
                None => Err(StepError::RowIndexOutOfRange),
            }
        },
        Operation::RowAddMultiple(target, source, factor) => {
            match (position(target, matrix), position(source, matrix)) {
                (Some(i), Some(j)) => match matrix.add_multiple(i, j, factor) {
                    Ok(m) => Ok(m),
                    Err(_) => Err(StepError::Overflow),
                },
                _ => Err(StepError::RowIndexOutOfRange),
            }
        },
    }
}

/// Exchanging two rows twice gives the matrix back.
pub proof fn lemma_swap_twice(g: Seq<Seq<(int, int)>>, a: u64, b: u64)
    requires
        in_range(a, g),
        in_range(b, g),
    ensures
        applied(Step::RowSwap(a, b), g) matches Ok(h) && applied(Step::RowSwap(a, b), h) == Ok::<
            Seq<Seq<(int, int)>>,
            StepError,
        >(g),
{
    let h = swapped(g, a - 1, b - 1);
    assert(swapped(h, a - 1, b - 1) =~= g);
}

/// Multiplying a row by 1 leaves the matrix as it is.
pub proof fn lemma_scale_by_one(g: Seq<Seq<(int, int)>>, r: u64)
    requires
        grid_wf(g),
        in_range(r, g),
    ensures
        applied(Step::RowScale((1int, 1int), r), g) == Ok::<Seq<Seq<(int, int)>>, StepError>(g),
{
    let row = g[r - 1];
    let one = (1int, 1int);
    assert(row_wf(row));
    assert forall|j: int| 0 <= j < row.len() implies #[trigger] product(row[j], one) == Ok::<
        (int, int),
        FractionError,
    >(row[j]) by {
        assert(is_fraction(row[j]));
        lemma_product_one(row[j]);
    }
    assert(scaled(row, one) =~= row);
    assert(g.update(r - 1, row) =~= g);
}

/// Whether two matrices have as many rows and as many columns.
pub open spec fn same_shape(g: Seq<Seq<(int, int)>>, h: Seq<Seq<(int, int)>>) -> bool {
    g.len() == h.len() && (g.len() > 0 ==> g[0].len() == h[0].len())
}

/// An operation keeps a matrix a matrix, of the same shape.
pub proof fn lemma_applied_shape(step: Step, g: Seq<Seq<(int, int)>>)
    requires
        grid_wf(g),
    ensures
        applied(step, g) matches Ok(h) ==> same_shape(h, g),
{
    if let Ok(h) = applied(step, g) {
        if g.len() > 0 {
            match step {
                Step::NoOp => {},
                Step::RowSwap(a, b) => {
                    assert(g[a - 1].len() == g[0].len());
                    assert(g[b - 1].len() == g[0].len());
                },
                Step::RowScale(f, t) => {
                    assert(g[t - 1].len() == g[0].len());
                },
                Step::RowAddMultiple(t, s, f) => {
                    assert(g[t - 1].len() == g[0].len());
                },
            }
        }
    }
}

/// The history after a step was handed in: one matrix longer where the step
/// was carried out, and else as before.
pub open spec fn submitted(h: Seq<Seq<Seq<(int, int)>>>, text: Seq<u8>) -> Seq<
    Seq<Seq<(int, int)>>,
> {
    match step_result(text, h.last()) {
        Ok(Some(g)) => h.push(g),
        _ => h,
    }
}

/// Whether a step handed in at the history `h` is carried out.
pub open spec fn succeeds(h: Seq<Seq<Seq<(int, int)>>>, text: Seq<u8>) -> bool {
    step_result(text, h.last()) matches Ok(Some(_))
}

/// The history after the steps `steps` were handed in, one after the other.
pub open spec fn replayed(h: Seq<Seq<Seq<(int, int)>>>, steps: Seq<Seq<u8>>) -> Seq<
    Seq<Seq<(int, int)>>,
>
    decreases steps.len(),
{
    if steps.len() == 0 {
        h
    } else {
        submitted(replayed(h, steps.drop_last()), steps.last())
    }
}

/// How many of the steps `steps`, handed in one after the other, are carried
/// out.
pub open spec fn successes(h: Seq<Seq<Seq<(int, int)>>>, steps: Seq<Seq<u8>>) -> nat
    decreases steps.len(),
{
    if steps.len() == 0 {
        0
    } else {
        successes(h, steps.drop_last()) + if succeeds(
            replayed(h, steps.drop_last()),
            steps.last(),
        ) {
            1nat
        } else {
            0nat
        }
    }
}

/// After any steps, the history is one longer than the number of steps that
/// were carried out.
pub proof fn lemma_history_length(initial: Seq<Seq<(int, int)>>, steps: Seq<Seq<u8>>)
    ensures
        replayed(seq![initial], steps).len() == successes(seq![initial], steps) + 1,
    decreases steps.len(),
{
    if steps.len() > 0 {
        lemma_history_length(initial, steps.drop_last());
    }
}

/// One state of a session: a matrix, and the text of the step that made it.
struct Snapshot {
    step: Vec<u8>,
    matrix: Matrix,
}

/// A session: every matrix that a step produced, from the initial one on,
/// each beside the text of its step. Nothing is taken out but by `reset`.
pub struct Session {
    initial: Snapshot,
    later: Vec<Snapshot>,
}

impl Session {
    /// The matrices, the initial one first.
    pub closed spec fn history(&self) -> Seq<Seq<Seq<(int, int)>>> {
        seq![self.initial.matrix@] + Seq::new(
            self.later@.len(),
            |i: int| self.later@[i].matrix@,
        )
    }

    /// The texts of the steps; the first stands for the initial matrix.
    pub closed spec fn step_record(&self) -> Seq<Seq<u8>> {
        seq![self.initial.step@] + Seq::new(self.later@.len(), |i: int| self.later@[i].step@)
    }

    /// Whether every matrix of the history is a matrix, all of one shape.
    /// A new session is so, and every session that comes of one that is.
    pub open spec fn wf(&self) -> bool {
        &&& forall|i: int| 0 <= i < self.history().len() ==> grid_wf(#[trigger] self.history()[i])
        &&& forall|i: int|
            0 <= i < self.history().len() ==> same_shape(
                #[trigger] self.history()[i],
                self.history()[0],
            )
    }

    /// The history is never empty, and the record holds a text for each of
    /// its matrices.
    pub proof fn lemma_lock_step(&self)
        ensures
            self.history().len() > 0,
            self.step_record().len() == self.history().len(),
    {
    }

    /// A session that starts from `initial`. The text beside it is `0`.
    pub fn new(initial: Matrix) -> (s: Session)
        ensures
            s.wf(),
            s.history() == seq![initial@],
            s.step_record() == seq![seq![48u8]],
    {
        proof {
            use_type_invariant(&initial);
        }
        let mut step: Vec<u8> = Vec::new();
        step.push(48);
        let s = Session { initial: Snapshot { step, matrix: initial }, later: Vec::new() };
        assert(s.history() =~= seq![initial@]);
        assert(s.step_record() =~= seq![seq![48u8]]) by {
            assert(s.step_record()[0] =~= seq![48u8]);
        }
        s
    }

    /// How many steps were carried out: one less than the history holds
    /// matrices.
    pub fn applied_steps(&self) -> (n: usize)
        ensures
            self.history().len() == n + 1,
            self.step_record().len() == n + 1,
    {
        self.later.len()
    }

    /// The latest matrix.
    pub fn latest(&self) -> (m: &Matrix)
        ensures
            m@ == self.history().last(),
            grid_wf(m@),
    {
        let n: usize = self.later.len();
        let m: &Matrix = if n == 0 {
            &self.initial.matrix
        } else {
            &self.later[n - 1].matrix
        };
        proof {
            use_type_invariant(m);
        }
        m
    }

    /// The matrix at `index` of the history, if there is one.
    pub fn snapshot(&self, index: usize) -> (r: Option<&Matrix>)
        ensures
            r is Some == (index < self.history().len()),
            r matches Some(m) ==> m@ == self.history()[index as int] && grid_wf(m@),
    {
        if index == 0 {
            proof {
                use_type_invariant(&self.initial.matrix);
            }
            Some(&self.initial.matrix)
        } else if index - 1 < self.later.len() {
            let m: &Matrix = &self.later[index - 1].matrix;
            proof {
                use_type_invariant(m);
            }
            Some(m)
        } else {
            None
        }
    }

    /// The text of the step at `index` of the record, if there is one.
    pub fn step_text(&self, index: usize) -> (r: Option<&Vec<u8>>)
        ensures
            r is Some == (index < self.step_record().len()),
            r matches Some(t) ==> t@ == self.step_record()[index as int],
    {
        if index == 0 {
            Some(&self.initial.step)
        } else if index - 1 < self.later.len() {
            Some(&self.later[index - 1].step)
        } else {
            None
        }
    }

    /// The matrix at `index` of the history as text, if there is one: for
    /// each row, the text of each of its entries.
    pub fn format_matrix(&self, index: usize) -> (r: Option<Vec<Vec<Vec<u8>>>>)
        ensures
            r is Some == (index < self.history().len()),
            r matches Some(t) ==> table_texts(t@) == formatted_grid(self.history()[index as int]),
    {
        match self.snapshot(index) {
            Some(m) => Some(m.format()),
            None => None,
        }
    }

    /// Hands in a step. Where the text means an operation that the latest
    /// matrix admits, the new matrix and the text are appended and the
    /// result is `true`. Where the text means nothing, the result is
    /// `false`. Else the result is the error. In both cases the session
    /// stays as it was.
    pub fn submit_step(&mut self, text: &[u8]) -> (r: Result<bool, StepError>)
        ensures
            final(self).history() == submitted(old(self).history(), text@),
            match step_result(text@, old(self).history().last()) {
                Ok(Some(g)) => r == Ok::<bool, StepError>(true) && final(self).step_record() == old(
                    self,
                ).step_record().push(text@),
                Ok(None) => r == Ok::<bool, StepError>(false) && *final(self) == *old(self),
                Err(e) => r == Err::<bool, StepError>(e) && *final(self) == *old(self),
            },
            old(self).wf() ==> final(self).wf(),
    {
        let op: Operation = match decode(text) {
            Ok(op) => op,
            Err(e) => {
                return Err(e);
            },
        };
        if let Operation::NoOp = op {
            return Ok(false);
        }
        let ghost before = self.history().last();
        let ghost old_history = self.history();
        let ghost old_record = self.step_record();
        let matrix: Matrix = match apply(&op, self.latest()) {
            Ok(m) => m,
            Err(e) => {
                return Err(e);
            },
        };
        self.later.push(Snapshot { step: slice_to_vec(text), matrix });
        proof {
            assert(self.history() =~= old_history.push(matrix@));
            assert(self.step_record() =~= old_record.push(text@));
            if old(self).wf() {
                lemma_applied_shape(op@, before);
                assert(same_shape(before, old_history[0]));
                assert forall|i: int| 0 <= i < self.history().len() implies grid_wf(
                    #[trigger] self.history()[i],
                ) && same_shape(self.history()[i], self.history()[0]) by {
                    if i < old_history.len() {
                        assert(self.history()[i] == old_history[i]);
                        assert(grid_wf(old_history[i]));
                        assert(same_shape(old_history[i], old_history[0]));
                    }
                }
            }
        }
        Ok(true)
    }

    /// Takes the history back to the initial matrix.
    pub fn reset(&mut self)
        ensures
            final(self).history() == old(self).history().take(1),
            final(self).step_record() == old(self).step_record().take(1),
            old(self).wf() ==> final(self).wf(),
    {
        let ghost old_history = self.history();
        let ghost old_record = self.step_record();
        self.later.clear();
        proof {
            assert(self.history() =~= old_history.take(1));
            assert(self.step_record() =~= old_record.take(1));
            if old(self).wf() {
                assert(grid_wf(old_history[0]));
            }
        }
    }
}

} // verus!
