//! Matrices of fractions, and the three elementary row operations on them.
//! A matrix is a value: an operation leaves it alone and gives a new one.
use vstd::prelude::*;
use crate::fraction::{fits, formatted, product, sum, Fraction, FractionError};
use crate::numtheory::is_lowest_terms;

verus! {

/// Whether a pair is the view of a fraction: in lowest terms, with a
/// positive denominator, and with both components in 64 bits.
pub open spec fn is_fraction(f: (int, int)) -> bool {
    is_lowest_terms(f.0, f.1) && fits(f.0, f.1)
}

/// Whether every entry of a row is the view of a fraction.
pub open spec fn row_wf(r: Seq<(int, int)>) -> bool {
    forall|j: int| 0 <= j < r.len() ==> is_fraction(#[trigger] r[j])
}

/// Whether `g` is a matrix: all rows of one length, every entry the view of
/// a fraction.
pub open spec fn grid_wf(g: Seq<Seq<(int, int)>>) -> bool {
    &&& forall|i: int| 0 <= i < g.len() ==> (#[trigger] g[i]).len() == g[0].len()
    &&& forall|i: int| 0 <= i < g.len() ==> row_wf(#[trigger] g[i])
}

/// The views of the fractions of a row.
pub open spec fn row_view(r: Seq<Fraction>) -> Seq<(int, int)> {
    Seq::new(r.len(), |j: int| r[j]@)
}

/// The views of the rows of a matrix.
pub open spec fn grid_view(rows: Seq<Vec<Fraction>>) -> Seq<Seq<(int, int)>> {
    Seq::new(rows.len(), |i: int| row_view(rows[i]@))
}

/// Whether all the rows have the length of the first.
pub open spec fn rectangular(rows: Seq<Vec<Fraction>>) -> bool {
    forall|i: int| 0 <= i < rows.len() ==> (#[trigger] rows[i]).len() == rows[0].len()
}

/// `g` with the rows `a` and `b` exchanged.
pub open spec fn swapped(g: Seq<Seq<(int, int)>>, a: int, b: int) -> Seq<Seq<(int, int)>> {
    g.update(a, g[b]).update(b, g[a])
}

/// Whether every entry of `row` times `factor` fits.
pub open spec fn scales(row: Seq<(int, int)>, factor: (int, int)) -> bool {
    forall|j: int| 0 <= j < row.len() ==> (#[trigger] product(row[j], factor)) is Ok
}

/// Every entry of `row` times `factor`.
pub open spec fn scaled(row: Seq<(int, int)>, factor: (int, int)) -> Seq<(int, int)> {
    Seq::new(row.len(), |j: int| product(row[j], factor).unwrap())
}

/// One entry of a source row times `factor`, plus the entry of the target
/// row.
pub open spec fn combination(target: (int, int), source: (int, int), factor: (int, int)) -> Result<
    (int, int),
    FractionError,
> {
    match product(source, factor) {
        Ok(p) => sum(p, target),
        Err(e) => Err(e),
    }
}

/// Whether every entry of `source` times `factor`, and its sum with the
/// entry of `target`, fits.
pub open spec fn combines(target: Seq<(int, int)>, source: Seq<(int, int)>, factor: (int, int))
    -> bool {
    forall|j: int|
        0 <= j < target.len() ==> (#[trigger] combination(target[j], source[j], factor)) is Ok
}

/// `target` plus `source` times `factor`, entry by entry.
pub open spec fn combined(target: Seq<(int, int)>, source: Seq<(int, int)>, factor: (int, int))
    -> Seq<(int, int)> {
    Seq::new(target.len(), |j: int| combination(target[j], source[j], factor).unwrap())
}

/// How a matrix is written: each entry as the text of its fraction.
pub open spec fn formatted_grid(g: Seq<Seq<(int, int)>>) -> Seq<Seq<Seq<u8>>> {
    Seq::new(g.len(), |i: int| Seq::new(g[i].len(), |j: int| formatted(g[i][j])))
}

/// The texts that a table of byte vectors holds.
pub open spec fn table_texts(t: Seq<Vec<Vec<u8>>>) -> Seq<Seq<Seq<u8>>> {
    Seq::new(t.len(), |i: int| Seq::new(t[i]@.len(), |j: int| t[i]@[j]@))
}

/// A copy of a row.
fn copy_row(row: &Vec<Fraction>) -> (r: Vec<Fraction>)
    ensures
        r@ == row@,
        row_wf(row_view(r@)),
{
    let n: usize = row.len();
    let mut out: Vec<Fraction> = Vec::new();
    let mut j: usize = 0;
    while j < n
        invariant
            j <= n,
            n == row@.len(),
            out@ == row@.take(j as int),
            row_wf(row_view(out@)),
        decreases n - j,
    {
        let x: Fraction = row[j];
        proof {
            use_type_invariant(x);
            x.lemma_fits();
        }
        let ghost before = out@;
        out.push(x);
        assert(out@ =~= row@.take(j + 1));
        assert forall|k: int| 0 <= k < row_view(out@).len() implies is_fraction(
            #[trigger] row_view(out@)[k],
        ) by {
            if k < j {
                assert(row_view(out@)[k] == row_view(before)[k]);
            }
        }
        j = j + 1;
    }
    assert(row@.take(n as int) =~= row@);
    out
}

/// A matrix of fractions with all rows of one length.
#[derive(Debug, PartialEq, Eq)]
pub struct Matrix {
    rows: Vec<Vec<Fraction>>,
}

impl View for Matrix {
    type V = Seq<Seq<(int, int)>>;

    /// The rows, each the views of its fractions.
    closed spec fn view(&self) -> Seq<Seq<(int, int)>> {
        grid_view(self.rows@)
    }
}

impl Matrix {
    /// Whether all rows have one length and every entry is in lowest terms.
    /// Every matrix that this library hands out is so.
    #[verifier::type_invariant]
    pub open spec fn wf(&self) -> bool {
        grid_wf(self@)
    }

    /// The matrix of a well-formed grid of rows.
    fn assemble(rows: Vec<Vec<Fraction>>) -> (m: Matrix)
        requires
            grid_wf(grid_view(rows@)),
        ensures
            m@ == grid_view(rows@),
            grid_wf(m@),
    {
        Matrix { rows }
    }

    /// The matrix with the given rows, if they all have one length.
    pub fn from_rows(rows: &Vec<Vec<Fraction>>) -> (r: Option<Matrix>)
        ensures
            r is Some == rectangular(rows@),
            r matches Some(m) ==> m@ == grid_view(rows@) && grid_wf(m@),
    {
        let n: usize = rows.len();
        let mut out: Vec<Vec<Fraction>> = Vec::new();
        let mut i: usize = 0;
        while i < n
            invariant
                i <= n,
                n == rows@.len(),
                out@.len() == i,
                rectangular(rows@.take(i as int)),
                grid_view(out@) == grid_view(rows@.take(i as int)),
                grid_wf(grid_view(out@)),
            decreases n - i,
        {
            if rows[i].len() != rows[0].len() {
                return None;
            }
            let row: Vec<Fraction> = copy_row(&rows[i]);
            let ghost before = out@;
            out.push(row);
            proof {
                let g = grid_view(out@);
                assert forall|k: int| 0 <= k < i + 1 implies (#[trigger] rows@.take(i + 1)[k]).len()
                    == rows@.take(i + 1)[0].len() by {
                    if k < i {
                        assert(rows@.take(i as int)[k].len() == rows@.take(i as int)[0].len());
                    }
                }
                assert(g =~= grid_view(rows@.take(i + 1))) by {
                    assert forall|k: int| 0 <= k < i + 1 implies g[k] == grid_view(
                        rows@.take(i + 1),
                    )[k] by {
                        if k < i {
                            assert(grid_view(before)[k] == grid_view(rows@.take(i as int))[k]);
                        }
                    }
                }
                assert forall|k: int| 0 <= k < g.len() implies (#[trigger] g[k]).len()
                    == g[0].len() by {
                    assert(rows@.take(i + 1)[k].len() == rows@.take(i + 1)[0].len());
                }
                assert forall|k: int| 0 <= k < g.len() implies row_wf(#[trigger] g[k]) by {
                    if k < i {
                        assert(g[k] == grid_view(before)[k]);
                    }
                }
            }
            i = i + 1;
        }
        assert(rows@.take(n as int) =~= rows@);
        Some(Self::assemble(out))
    }

    /// The matrix of the given integers, if all rows have one length.
    pub fn from_integers(rows: &Vec<Vec<i64>>) -> (r: Option<Matrix>)
        ensures
            r is Some == (forall|i: int|
                0 <= i < rows@.len() ==> (#[trigger] rows@[i]).len() == rows@[0].len()),
            r matches Some(m) ==> m@ == Seq::new(
                rows@.len(),
                |i: int| Seq::new(rows@[i]@.len(), |j: int| (rows@[i]@[j] as int, 1int)),
            ) && grid_wf(m@),
    {
        let n: usize = rows.len();
        let mut out: Vec<Vec<Fraction>> = Vec::new();
        let mut i: usize = 0;
        while i < n
            invariant
                i <= n,
                n == rows@.len(),
                out@.len() == i,
                forall|k: int| 0 <= k < i ==> (#[trigger] rows@[k]).len() == rows@[0].len(),
                forall|k: int|
                    0 <= k < i ==> (#[trigger] out@[k])@.len() == rows@[k]@.len(),
                forall|k: int, j: int|
                    0 <= k < i && 0 <= j < rows@[k]@.len() ==> (#[trigger] out@[k]@[j])@ == (
                        rows@[k]@[j] as int,
                        1int,
                    ) && out@[k]@[j].wf(),
            decreases n - i,
        {
            let width: usize = rows[i].len();
            if width != rows[0].len() {
                return None;
            }
            let mut row: Vec<Fraction> = Vec::new();
            let mut j: usize = 0;
            while j < width
                invariant
                    j <= width,
                    i < n,
                    n == rows@.len(),
                    width == rows@[i as int]@.len(),
                    row@.len() == j,
                    forall|x: int|
                        0 <= x < j ==> (#[trigger] row@[x])@ == (rows@[i as int]@[x] as int, 1int)
                            && row@[x].wf(),
                decreases width - j,
            {
                row.push(Fraction::from_int(rows[i][j]));
                j = j + 1;
            }
            out.push(row);
            i = i + 1;
        }
        proof {
            let g = grid_view(out@);
            assert forall|k: int| 0 <= k < g.len() implies row_wf(#[trigger] g[k]) by {
                assert forall|j: int| 0 <= j < g[k].len() implies is_fraction(#[trigger] g[k][j]) by {
                    assert(out@[k]@[j].wf());
                    out@[k]@[j].lemma_fits();
                }
            }
            assert forall|k: int| 0 <= k < g.len() implies (#[trigger] g[k]).len()
                == g[0].len() by {
                assert(rows@[k].len() == rows@[0].len());
            }
            assert(g =~~= Seq::new(
                rows@.len(),
                |i: int| Seq::new(rows@[i]@.len(), |j: int| (rows@[i]@[j] as int, 1int)),
            ));
        }
        Some(Self::assemble(out))
    }

    /// A copy of the matrix.
    pub fn copy(&self) -> (m: Matrix)
        ensures
            m@ == self@,
            grid_wf(m@),
    {
        proof {
            use_type_invariant(self);
        }
        let n: usize = self.rows.len();
        let mut out: Vec<Vec<Fraction>> = Vec::new();
        let mut i: usize = 0;
        while i < n
            invariant
                i <= n,
                n == self.rows@.len(),
                out@.len() == i,
                grid_view(out@) == self@.take(i as int),
            decreases n - i,
        {
            let row: Vec<Fraction> = copy_row(&self.rows[i]);
            let ghost before = out@;
            out.push(row);
            assert(grid_view(out@) =~= self@.take(i + 1)) by {
                assert forall|k: int| 0 <= k < i + 1 implies grid_view(out@)[k] == self@.take(
                    i + 1,
                )[k] by {
                    if k < i {
                        assert(grid_view(before)[k] == self@.take(i as int)[k]);
                    }
                }
            }
            i = i + 1;
        }
        assert(self@.take(n as int) =~= self@);
        Self::assemble(out)
    }

    /// How many rows the matrix has.
    pub fn row_count(&self) -> (n: usize)
        ensures
            n == self@.len(),
    {
        self.rows.len()
    }

    /// How many columns the matrix has: 0 where it has no rows.
    pub fn column_count(&self) -> (n: usize)
        ensures
            self@.len() == 0 ==> n == 0,
            forall|i: int| 0 <= i < self@.len() ==> n == (#[trigger] self@[i]).len(),
    {
        proof {
            use_type_invariant(self);
        }
        if self.rows.len() == 0 {
            0
        } else {
            self.rows[0].len()
        }
    }

    /// The entry in row `i` and column `j`, both counted from 0.
    pub fn entry(&self, i: usize, j: usize) -> (f: Fraction)
        requires
            i < self@.len(),
            j < self@[i as int].len(),
        ensures
            f@ == self@[i as int][j as int],
            f.wf(),
    {
        let f: Fraction = self.rows[i][j];
        proof {
            use_type_invariant(f);
        }
        f
    }

    /// The matrix with row `target`, counted from 0, replaced by `row`.
    fn replace_row(&self, target: usize, row: Vec<Fraction>) -> (m: Matrix)
        requires
            target < self@.len(),
            row@.len() == self@[target as int].len(),
            row_wf(row_view(row@)),
        ensures
            m@ == self@.update(target as int, row_view(row@)),
            grid_wf(m@),
    {
        proof {
            use_type_invariant(self);
        }
        let n: usize = self.rows.len();
        let ghost goal = self@.update(target as int, row_view(row@));
        let mut out: Vec<Vec<Fraction>> = Vec::new();
        let mut i: usize = 0;
        while i < target
            invariant
                i <= target < n,
                n == self.rows@.len(),
                goal == self@.update(target as int, row_view(row@)),
                out@.len() == i,
                grid_view(out@) == goal.take(i as int),
            decreases target - i,
        {
            let copy: Vec<Fraction> = copy_row(&self.rows[i]);
            let ghost before = out@;
            out.push(copy);
            assert(grid_view(out@) =~= goal.take(i + 1)) by {
                assert forall|k: int| 0 <= k < i + 1 implies grid_view(out@)[k] == goal.take(
                    i + 1,
                )[k] by {
                    if k < i {
                        assert(grid_view(before)[k] == goal.take(i as int)[k]);
                    }
                }
            }
            i = i + 1;
        }
        let ghost before = out@;
        out.push(row);
        assert(grid_view(out@) =~= goal.take(target + 1)) by {
            assert forall|k: int| 0 <= k < target + 1 implies grid_view(out@)[k] == goal.take(
                target + 1,
            )[k] by {
                if k < target {
                    assert(grid_view(before)[k] == goal.take(target as int)[k]);
                }
            }
        }
        i = target + 1;
        while i < n
            invariant
                target < i <= n,
                n == self.rows@.len(),
                goal == self@.update(target as int, row_view(row@)),
                out@.len() == i,
                grid_view(out@) == goal.take(i as int),
            decreases n - i,
        {
            let copy: Vec<Fraction> = copy_row(&self.rows[i]);
            let ghost before = out@;
            out.push(copy);
            assert(grid_view(out@) =~= goal.take(i + 1)) by {
                assert forall|k: int| 0 <= k < i + 1 implies grid_view(out@)[k] == goal.take(
                    i + 1,
                )[k] by {
                    if k < i {
                        assert(grid_view(before)[k] == goal.take(i as int)[k]);
                    }
                }
            }
            i = i + 1;
        }
        assert(goal.take(n as int) =~= goal);
        proof {
            assert forall|k: int| 0 <= k < goal.len() implies (#[trigger] goal[k]).len()
                == goal[0].len() by {
                assert(self@[k].len() == self@[0].len());
                assert(self@[target as int].len() == self@[0].len());
            }
            assert forall|k: int| 0 <= k < goal.len() implies row_wf(#[trigger] goal[k]) by {
                if k != target {
                    assert(row_wf(self@[k]));
                }
            }
        }
        Self::assemble(out)
    }

    /// The matrix with the rows `a` and `b`, counted from 0, exchanged.
    pub fn swap_rows(&self, a: usize, b: usize) -> (m: Matrix)
        requires
            a < self@.len(),
            b < self@.len(),
        ensures
            m@ == swapped(self@, a as int, b as int),
            grid_wf(m@),
    {
        proof {
            use_type_invariant(self);
            assert(self@[a as int].len() == self@[0].len());
            assert(self@[b as int].len() == self@[0].len());
        }
        let row_a: Vec<Fraction> = copy_row(&self.rows[a]);
        let row_b: Vec<Fraction> = copy_row(&self.rows[b]);
        let first: Matrix = self.replace_row(a, row_b);
        first.replace_row(b, row_a)
    }

    /// The matrix with every entry of row `target`, counted from 0,
    /// multiplied by `factor`. It fails where a product does not fit.
    pub fn scale_row(&self, target: usize, factor: Fraction) -> (r: Result<Matrix, FractionError>)
        requires
            target < self@.len(),
        ensures
            match r {
                Ok(m) => scales(self@[target as int], factor@) && m@ == self@.update(
                    target as int,
                    scaled(self@[target as int], factor@),
                ) && grid_wf(m@),
                Err(e) => !scales(self@[target as int], factor@) && e == FractionError::Overflow,
            },
    {
        proof {
            use_type_invariant(self);
            use_type_invariant(factor);
        }
        let ghost old_row = self@[target as int];
        let n: usize = self.rows[target].len();
        let mut row: Vec<Fraction> = Vec::new();
        let mut j: usize = 0;
        while j < n
            invariant
                j <= n,
                target < self.rows@.len(),
                n == self.rows@[target as int]@.len(),
                old_row == self@[target as int],
                factor.wf(),
                row_wf(old_row),
                row@.len() == j,
                forall|k: int| 0 <= k < j ==> (#[trigger] product(old_row[k], factor@)) is Ok,
                forall|k: int|
                    0 <= k < j ==> (#[trigger] row@[k])@ == product(old_row[k], factor@).unwrap()
                        && row@[k].wf(),
            decreases n - j,
        {
            let x: Fraction = self.rows[target][j];
            assert(x@ == old_row[j as int]);
            assert(is_fraction(old_row[j as int]));
            match x.mul(factor) {
                Ok(p) => {
                    row.push(p);
                },
                Err(e) => {
                    assert(x@.1 * factor@.1 != 0) by (nonlinear_arith)
                        requires
                            x@.1 > 0,
                            factor@.1 > 0,
                    ;
                    assert(!(product(old_row[j as int], factor@) is Ok));
                    return Err(FractionError::Overflow);
                },
            }
            j = j + 1;
        }
        proof {
            assert(row_view(row@) =~= scaled(old_row, factor@));
            assert forall|k: int| 0 <= k < row_view(row@).len() implies is_fraction(
                #[trigger] row_view(row@)[k],
            ) by {
                row@[k].lemma_fits();
            }
        }
        Ok(self.replace_row(target, row))
    }

    /// The matrix with row `source` times `factor` added to row `target`,
    /// rows counted from 0. It fails where a product or a sum does not fit.
    pub fn add_multiple(&self, target: usize, source: usize, factor: Fraction) -> (r: Result<
        Matrix,
        FractionError,
    >)
        requires
            target < self@.len(),
            source < self@.len(),
        ensures
            match r {
                Ok(m) => combines(self@[target as int], self@[source as int], factor@) && m@
                    == self@.update(
                    target as int,
                    combined(self@[target as int], self@[source as int], factor@),
                ) && grid_wf(m@),
                Err(e) => !combines(self@[target as int], self@[source as int], factor@) && e
                    == FractionError::Overflow,
            },
    {
        proof {
            use_type_invariant(self);
            use_type_invariant(factor);
            assert(self@[target as int].len() == self@[0].len());
            assert(self@[source as int].len() == self@[0].len());
        }
        let ghost t_row = self@[target as int];
        let ghost s_row = self@[source as int];
        let n: usize = self.rows[target].len();
        let mut row: Vec<Fraction> = Vec::new();
        let mut j: usize = 0;
        while j < n
            invariant
                j <= n,
                target < self.rows@.len(),
                source < self.rows@.len(),
                n == self.rows@[target as int]@.len(),
                n == self.rows@[source as int]@.len(),
                t_row == self@[target as int],
                s_row == self@[source as int],
                factor.wf(),
                row_wf(t_row),
                row_wf(s_row),
                row@.len() == j,
                forall|k: int|
                    0 <= k < j ==> (#[trigger] combination(t_row[k], s_row[k], factor@)) is Ok,
                forall|k: int|
                    0 <= k < j ==> (#[trigger] row@[k])@ == combination(
                        t_row[k],
                        s_row[k],
                        factor@,
                    ).unwrap() && row@[k].wf(),
            decreases n - j,
        {
            let x: Fraction = self.rows[source][j];
            let y: Fraction = self.rows[target][j];
            assert(x@ == s_row[j as int]);
            assert(y@ == t_row[j as int]);
            assert(is_fraction(s_row[j as int]));
            assert(is_fraction(t_row[j as int]));
            assert(x@.1 * factor@.1 != 0) by (nonlinear_arith)
                requires
                    x@.1 > 0,
                    factor@.1 > 0,
            ;
            match x.mul(factor) {
                Ok(p) => {
                    assert(p@.1 * y@.1 != 0) by (nonlinear_arith)
                        requires
                            p@.1 > 0,
                            y@.1 > 0,
                    ;
                    match p.add(y) {
                        Ok(q) => {
                            row.push(q);
                        },
                        Err(e) => {
                            assert(!(combination(t_row[j as int], s_row[j as int], factor@) is Ok));
                            return Err(FractionError::Overflow);
                        },
                    }
                },
                Err(e) => {
                    assert(!(combination(t_row[j as int], s_row[j as int], factor@) is Ok));
                    return Err(FractionError::Overflow);
                },
            }
            j = j + 1;
        }
        proof {
            assert(row_view(row@) =~= combined(t_row, s_row, factor@));
            assert forall|k: int| 0 <= k < row_view(row@).len() implies is_fraction(
                #[trigger] row_view(row@)[k],
            ) by {
                row@[k].lemma_fits();
            }
        }
        Ok(self.replace_row(target, row))
    }

    /// The matrix as text: for each row, the text of each of its entries.
    pub fn format(&self) -> (r: Vec<Vec<Vec<u8>>>)
        ensures
            table_texts(r@) == formatted_grid(self@),
    {
        let n: usize = self.rows.len();
        let mut out: Vec<Vec<Vec<u8>>> = Vec::new();
        let mut i: usize = 0;
        while i < n
            invariant
                i <= n,
                n == self.rows@.len(),
                out@.len() == i,
                table_texts(out@) == formatted_grid(self@).take(i as int),
            decreases n - i,
        {
            let width: usize = self.rows[i].len();
            let mut line: Vec<Vec<u8>> = Vec::new();
            let mut j: usize = 0;
            while j < width
                invariant
                    j <= width,
                    i < n,
                    n == self.rows@.len(),
                    width == self.rows@[i as int]@.len(),
                    line@.len() == j,
                    forall|k: int|
                        0 <= k < j ==> (#[trigger] line@[k])@ == formatted(self@[i as int][k]),
                decreases width - j,
            {
                line.push(self.rows[i][j].format());
                j = j + 1;
            }
            let ghost before = out@;
            out.push(line);
            assert(table_texts(out@) =~= formatted_grid(self@).take(i + 1)) by {
                assert forall|k: int| 0 <= k < i + 1 implies table_texts(out@)[k]
                    == formatted_grid(self@).take(i + 1)[k] by {
                    if k < i {
                        assert(table_texts(before)[k] == formatted_grid(self@).take(i as int)[k]);
                    } else {
                        assert(table_texts(out@)[k] =~= formatted_grid(self@)[k]);
                    }
                }
            }
            i = i + 1;
        }
        assert(formatted_grid(self@).take(n as int) =~= formatted_grid(self@));
        out
    }
}

} // verus!
