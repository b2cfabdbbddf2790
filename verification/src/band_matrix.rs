//! A matrix of which only a diagonal band is stored.

use vstd::prelude::*;

verus! {

/// A specialised matrix where only the elements on a diagonal band matter:
/// cell `(row, col)` is stored when `|col - row| <= band_width`. The backing
/// store keeps `2 * band_width + 1` cells per row.
#[derive(Debug, Clone)]
pub struct BandMatrix<T> {
    rows: usize,
    columns: usize,
    band_width: usize,
    data: Vec<T>,
}

/// Row-major position of an in-band cell.
proof fn lemma_slot(row: int, t: int, rows: int, columns: int)
    requires
        0 <= row < rows,
        0 <= t < columns,
    ensures
        0 <= row * columns + t < rows * columns,
        row * columns + columns <= rows * columns,
        row + columns <= rows * columns,
{
    assert(0 <= row * columns + t < rows * columns) by (nonlinear_arith)
        requires
            0 <= row < rows,
            0 <= t < columns,
    ;
    assert(row * columns + columns <= rows * columns) by (nonlinear_arith)
        requires
            0 <= row < rows,
            0 <= t < columns,
    ;
    assert(row + columns <= row * columns + columns) by (nonlinear_arith)
        requires
            0 <= row,
            1 <= columns,
    ;
}

/// Two different in-band cells have different positions.
proof fn lemma_slot_distinct(r1: int, t1: int, r2: int, t2: int, columns: int)
    requires
        0 <= t1 < columns,
        0 <= t2 < columns,
        0 <= r1,
        0 <= r2,
        r1 != r2 || t1 != t2,
    ensures
        r1 * columns + t1 != r2 * columns + t2,
{
    if r1 == r2 {
    } else if r1 < r2 {
        assert(r1 * columns + columns <= r2 * columns) by (nonlinear_arith)
            requires
                r1 < r2,
                columns >= 0,
        ;
    } else {
        assert(r2 * columns + columns <= r1 * columns) by (nonlinear_arith)
            requires
                r2 < r1,
                columns >= 0,
        ;
    }
}

impl<T: Copy> BandMatrix<T> {
    /// Number of rows.
    pub closed spec fn n_rows(&self) -> int {
        self.rows as int
    }

    /// The band width.
    pub closed spec fn width(&self) -> int {
        self.band_width as int
    }

    /// `(row, col)` lies in the stored band.
    pub open spec fn in_band(&self, row: int, col: int) -> bool {
        &&& 0 <= row < self.n_rows()
        &&& 0 <= col
        &&& row - self.width() <= col <= row + self.width()
    }

    /// The value of an in-band cell.
    pub closed spec fn cell(&self, row: int, col: int) -> T {
        self.data@[row * self.columns + (col + self.band_width - row)]
    }

    /// The backing store has room for every in-band cell.
    pub closed spec fn wf(&self) -> bool {
        &&& self.columns == 2 * self.band_width + 1
        &&& self.data@.len() == self.rows * self.columns
        &&& self.rows * self.columns <= usize::MAX
    }

    /// A `rows`-row matrix with band width `band_width`, every cell `fill`.
    pub fn new(rows: usize, band_width: usize, fill: T) -> (r: Self)
        requires
            2 * band_width + 1 <= usize::MAX,
            rows * (2 * band_width + 1) <= usize::MAX,
        ensures
            r.wf(),
            r.n_rows() == rows,
            r.width() == band_width,
            forall|row: int, col: int| r.in_band(row, col) ==> #[trigger] r.cell(row, col) == fill,
    {
        let columns = 2 * band_width + 1;
        let total = rows * columns;
        let mut data: Vec<T> = Vec::new();
        let mut i: usize = 0;
        while i < total
            invariant
                i <= total,
                data@.len() == i,
                forall|j: int| 0 <= j < i ==> #[trigger] data@[j] == fill,
            decreases total - i,
        {
            data.push(fill);
            i = i + 1;
        }
        let r = BandMatrix { rows, columns, band_width, data };
        proof {
            assert forall|row: int, col: int| r.in_band(row, col) implies #[trigger] r.cell(
                row,
                col,
            ) == fill by {
                lemma_slot(row, col + band_width - row, rows as int, columns as int);
            }
        }
        r
    }
}

impl<T: Copy> BandMatrix<T> {
    /// Writes `value` into the in-band cell `(row, col)`.
    pub fn set(&mut self, row: usize, col: usize, value: T)
        requires
            old(self).wf(),
            old(self).in_band(row as int, col as int),
        ensures
            final(self).wf(),
            final(self).n_rows() == old(self).n_rows(),
            final(self).width() == old(self).width(),
            final(self).cell(row as int, col as int) == value,
            forall|r: int, c: int|
                old(self).in_band(r, c) && (r != row || c != col) ==> #[trigger] final(self).cell(
                    r,
                    c,
                ) == old(self).cell(r, c),
    {
        proof {
            lemma_slot(
                row as int,
                col + self.band_width - row,
                self.rows as int,
                self.columns as int,
            );
        }
        let idx = row * self.columns + (col + self.band_width - row);
        self.data.set(idx, value);
        proof {
            assert forall|r: int, c: int|
                old(self).in_band(r, c) && (r != row || c != col) implies #[trigger] self.cell(r, c)
                == old(self).cell(r, c) by {
                lemma_slot(r, c + self.band_width - r, self.rows as int, self.columns as int);
                lemma_slot_distinct(
                    r,
                    c + self.band_width - r,
                    row as int,
                    col + self.band_width - row,
                    self.columns as int,
                );
            }
        }
    }

    /// The in-band cell `(row, col)`, for writing in place.
    pub fn at(&mut self, row: usize, col: usize) -> (r: &mut T)
        requires
            old(self).wf(),
            old(self).in_band(row as int, col as int),
        ensures
            *r == old(self).cell(row as int, col as int),
            final(self).wf(),
            final(self).n_rows() == old(self).n_rows(),
            final(self).width() == old(self).width(),
            final(self).cell(row as int, col as int) == *final(r),
            forall|r2: int, c: int|
                old(self).in_band(r2, c) && (r2 != row || c != col) ==> #[trigger] final(self).cell(
                    r2,
                    c,
                ) == old(self).cell(r2, c),
    {
        proof {
            lemma_slot(
                row as int,
                col + self.band_width - row,
                self.rows as int,
                self.columns as int,
            );
            assert forall|r2: int, c: int| old(self).in_band(r2, c) && (r2 != row || c != col) implies
                r2 * self.columns + (c + self.band_width - r2) != row * self.columns + (col
                + self.band_width - row) && 0 <= r2 * self.columns + (c + self.band_width - r2)
                < self.data@.len() by {
                lemma_slot(r2, c + self.band_width - r2, self.rows as int, self.columns as int);
                lemma_slot_distinct(
                    r2,
                    c + self.band_width - r2,
                    row as int,
                    col + self.band_width - row,
                    self.columns as int,
                );
            }
        }
        let idx = row * self.columns + (col + self.band_width - row);
        &mut self.data[idx]
    }

    /// Reads the in-band cell `(row, col)`.
    pub fn read_at(&self, row: usize, col: usize) -> (r: T)
        requires
            self.wf(),
            self.in_band(row as int, col as int),
        ensures
            r == self.cell(row as int, col as int),
    {
        proof {
            lemma_slot(
                row as int,
                col + self.band_width - row,
                self.rows as int,
                self.columns as int,
            );
        }
        self.data[row * self.columns + (col + self.band_width - row)]
    }
}

} // verus!
