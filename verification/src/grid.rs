//! Rectangular bit matrices, stored in an `ndarray::Array2<u8>`.
//!
//! The array itself is opaque to the verifier.  Its contents are named by
//! [`bitmap_rows`] and [`bitmap_width`]; the small functions at the top of the
//! `impl` block are the only places where `ndarray` is called, and each one
//! states what the call does to those contents.  Everything below them is
//! proved from these statements.
use ndarray::{Array2, Axis, Slice, Zip};
use vstd::prelude::*;

verus! {

/// A rectangular matrix of bytes.
#[verifier::external_body]
pub struct Bitmap {
    cells: Array2<u8>,
}

/// The rows of a bitmap, top row first, each row left to right.
pub uninterp spec fn bitmap_rows(b: Bitmap) -> Seq<Seq<u8>>;

/// The number of columns of a bitmap (also defined when it has no rows).
pub uninterp spec fn bitmap_width(b: Bitmap) -> nat;

/// Whether `rows` is a rectangle that is `width` wide.
pub open spec fn rectangular(rows: Seq<Seq<u8>>, width: nat) -> bool {
    forall|i: int| 0 <= i < rows.len() ==> (#[trigger] rows[i]).len() == width
}

/// Row `k` of `rows` cut down along one axis: axis 0 keeps the rows
/// `start..end`, axis 1 keeps the columns `start..end` of every row; a step of
/// -1 walks the kept range backwards.
pub open spec fn slice_rows(rows: Seq<Seq<u8>>, axis: int, start: int, end: int, step: int) -> Seq<
    Seq<u8>,
> {
    if axis == 0 {
        Seq::new(
            (end - start) as nat,
            |k: int|
                if step == 1 {
                    rows[start + k]
                } else {
                    rows[end - 1 - k]
                },
        )
    } else {
        Seq::new(
            rows.len(),
            |i: int|
                Seq::new(
                    (end - start) as nat,
                    |k: int|
                        if step == 1 {
                            rows[i][start + k]
                        } else {
                            rows[i][end - 1 - k]
                        },
                ),
        )
    }
}

/// The transpose: entry `(i, j)` is entry `(j, i)` of `rows`.
pub open spec fn transpose_rows(rows: Seq<Seq<u8>>, width: nat) -> Seq<Seq<u8>> {
    Seq::new(width, |i: int| Seq::new(rows.len(), |j: int| rows[j][i]))
}

/// `rows` with the rectangle whose top left corner is `(top, left)` replaced
/// by `patch`.
pub open spec fn paste_rows(rows: Seq<Seq<u8>>, top: int, left: int, patch: Seq<Seq<u8>>, patch_width: int) -> Seq<
    Seq<u8>,
> {
    Seq::new(
        rows.len(),
        |i: int|
            Seq::new(
                rows[i].len(),
                |j: int|
                    if top <= i < top + patch.len() && left <= j < left + patch_width {
                        patch[i - top][j - left]
                    } else {
                        rows[i][j]
                    },
            ),
    )
}

/// The `height` by `width` window of `rows` whose top left corner is
/// `(top, left)`.
pub open spec fn window_rows(rows: Seq<Seq<u8>>, top: int, left: int, height: nat, width: nat) -> Seq<
    Seq<u8>,
> {
    Seq::new(height, |i: int| Seq::new(width, |j: int| rows[top + i][left + j]))
}

/// Whether a window cell satisfies a mask cell: a zero in the mask asks for
/// nothing, anything else asks for a non-zero cell.
pub open spec fn cell_covers(window_cell: u8, mask_cell: u8) -> bool {
    mask_cell == 0 || window_cell != 0
}

/// Whether every cell of `window` satisfies the cell of `mask` at the same
/// place.
pub open spec fn rows_cover(window: Seq<Seq<u8>>, mask: Seq<Seq<u8>>) -> bool {
    forall|i: int, j: int|
        0 <= i < mask.len() && 0 <= j < mask[i].len() ==> cell_covers(
            #[trigger] window[i][j],
            mask[i][j],
        )
}

/// Executable form of [`cell_covers`].
pub fn cell_is_covered(window_cell: u8, mask_cell: u8) -> (r: bool)
    ensures
        r == cell_covers(window_cell, mask_cell),
{
    mask_cell == 0 || window_cell != 0
}

impl Bitmap {
    /// The rows of the bitmap.
    pub open spec fn view(&self) -> Seq<Seq<u8>> {
        bitmap_rows(*self)
    }

    /// The number of rows.
    pub open spec fn height(&self) -> nat {
        bitmap_rows(*self).len()
    }

    /// The number of columns.
    pub open spec fn width(&self) -> nat {
        bitmap_width(*self)
    }

    /// Every row is as long as the bitmap is wide.
    pub open spec fn wf(&self) -> bool {
        rectangular(bitmap_rows(*self), bitmap_width(*self))
    }

    /// The length of one axis: rows for axis 0, columns otherwise.
    pub open spec fn extent(&self, axis: int) -> nat {
        if axis == 0 {
            self.height()
        } else {
            self.width()
        }
    }

    /// `Array2::from_elem`: a `rows` by `cols` array in which every cell is
    /// `value`.  The call panics when the element count overflows `isize`,
    /// which the precondition excludes.
    #[verifier::external_body]
    pub(crate) fn filled(rows: usize, cols: usize, value: u8) -> (r: Bitmap)
        requires
            rows <= isize::MAX,
            cols <= isize::MAX,
            rows * cols <= isize::MAX,
        ensures
            bitmap_width(r) == cols,
            bitmap_rows(r) == Seq::new(rows as nat, |i: int| Seq::new(cols as nat, |j: int| value)),
    {
        Bitmap { cells: Array2::from_elem((rows, cols), value) }
    }

    /// `Array2::from_shape_vec` with a row-major shape: cell `(i, j)` is
    /// element `i * cols + j` of `data`.  The call reports an error, here
    /// `None`, when the length of `data` is not `rows * cols`; it succeeds
    /// whenever the length fits and the extents are within `isize`.
    #[verifier::external_body]
    pub(crate) fn from_flat(rows: usize, cols: usize, data: Vec<u8>) -> (r: Option<Bitmap>)
        ensures
            r is Some ==> data.len() == rows * cols,
            data.len() == rows * cols && rows <= isize::MAX && cols <= isize::MAX && data.len()
                <= isize::MAX ==> r is Some,
            r matches Some(b) ==> bitmap_width(b) == cols && bitmap_rows(b) == Seq::new(
                rows as nat,
                |i: int| Seq::new(cols as nat, |j: int| data@[i * cols + j]),
            ),
    {
        match Array2::from_shape_vec((rows, cols), data) {
            Ok(cells) => Some(Bitmap { cells }),
            Err(_) => None,
        }
    }

    /// `nrows`: the number of rows.
    #[verifier::external_body]
    pub(crate) fn nrows(&self) -> (r: usize)
        ensures
            r == bitmap_rows(*self).len(),
    {
        self.cells.nrows()
    }

    /// `ncols`: the number of columns.
    #[verifier::external_body]
    pub(crate) fn ncols(&self) -> (r: usize)
        ensures
            r == bitmap_width(*self),
    {
        self.cells.ncols()
    }

    /// Indexing with `[[row, col]]`: the cell at that place.  Out of bounds
    /// the call panics, which the precondition excludes.
    #[verifier::external_body]
    pub(crate) fn at(&self, row: usize, col: usize) -> (r: u8)
        requires
            row < self.height(),
            col < self.width(),
        ensures
            r == bitmap_rows(*self)[row as int][col as int],
    {
        self.cells[[row, col]]
    }

    /// `slice_axis` with `Slice::new(start, Some(end), step)`, copied into an
    /// array of its own: the range `start..end` of one axis, walked backwards
    /// when `step` is -1.  The other axis is kept whole.
    #[verifier::external_body]
    pub(crate) fn sliced(&self, axis: usize, start: usize, end: usize, step: isize) -> (r: Bitmap)
        requires
            self.wf(),
            axis < 2,
            start <= end <= self.extent(axis as int),
            end <= isize::MAX,
            step == 1 || step == -1,
        ensures
            bitmap_rows(r) == slice_rows(
                bitmap_rows(*self),
                axis as int,
                start as int,
                end as int,
                step as int,
            ),
            bitmap_width(r) == (if axis == 0 {
                bitmap_width(*self)
            } else {
                (end - start) as nat
            }),
    {
        let part = self.cells.slice_axis(Axis(axis), Slice::new(start as isize, Some(end as isize), step));
        Bitmap { cells: part.to_owned() }
    }

    /// `reversed_axes`: the transpose.
    #[verifier::external_body]
    pub(crate) fn transposed(self) -> (r: Bitmap)
        requires
            self.wf(),
        ensures
            bitmap_rows(r) == transpose_rows(bitmap_rows(self), bitmap_width(self)),
            bitmap_width(r) == bitmap_rows(self).len(),
    {
        Bitmap { cells: self.cells.reversed_axes() }
    }

    /// `index_axis` followed by `to_vec`: for axis 0 the row `index`, for
    /// axis 1 the column `index`, in order of the other axis.  Out of bounds
    /// the call panics, which the precondition excludes.
    #[verifier::external_body]
    pub(crate) fn lane(&self, axis: usize, index: usize) -> (r: Vec<u8>)
        requires
            self.wf(),
            axis < 2,
            index < self.extent(axis as int),
        ensures
            axis == 0 ==> r@ == bitmap_rows(*self)[index as int],
            axis == 1 ==> r@ == Seq::new(
                bitmap_rows(*self).len(),
                |i: int| bitmap_rows(*self)[i][index as int],
            ),
    {
        self.cells.index_axis(Axis(axis), index).to_vec()
    }

    /// `assign` on the view that `slice_axis_mut` gives for the rows
    /// `top..bottom` and the columns `left..right`: that rectangle takes the
    /// cells of `patch`, every other cell stays.  The shapes must agree, else
    /// `assign` would broadcast or panic.
    #[verifier::external_body]
    pub(crate) fn paste(&mut self, top: usize, bottom: usize, left: usize, right: usize, patch: &Bitmap)
        requires
            old(self).wf(),
            patch.wf(),
            top <= bottom <= old(self).height(),
            left <= right <= old(self).width(),
            bottom <= isize::MAX,
            right <= isize::MAX,
            bottom - top == patch.height(),
            right - left == patch.width(),
        ensures
            bitmap_width(*final(self)) == bitmap_width(*old(self)),
            bitmap_rows(*final(self)) == paste_rows(
                bitmap_rows(*old(self)),
                top as int,
                left as int,
                bitmap_rows(*patch),
                bitmap_width(*patch) as int,
            ),
    {
        let mut band = self.cells.slice_axis_mut(Axis(0), Slice::new(top as isize, Some(bottom as isize), 1));
        let mut target = band.slice_axis_mut(Axis(1), Slice::new(left as isize, Some(right as isize), 1));
        target.assign(&patch.cells);
    }

    /// `iter`, collected: all cells in row-major order.
    #[verifier::external_body]
    pub(crate) fn cells(&self) -> (r: Vec<u8>)
        requires
            self.wf(),
        ensures
            r@ == flat_cells(bitmap_rows(*self), bitmap_width(*self)),
    {
        self.cells.iter().copied().collect()
    }

    /// `windows`, each window copied into an array of its own: every
    /// `height` by `width` window that fits, ordered by its top left corner,
    /// row by row.  A zero extent makes the call panic, which the
    /// precondition excludes.
    #[verifier::external_body]
    pub(crate) fn windows(&self, height: usize, width: usize) -> (r: Vec<Bitmap>)
        requires
            self.wf(),
            1 <= height <= self.height(),
            1 <= width <= self.width(),
        ensures
            r@.len() == (self.height() - height + 1) * (self.width() - width + 1),
            forall|top: int, left: int|
                0 <= top <= self.height() - height && 0 <= left <= self.width() - width ==> {
                    &&& bitmap_width(#[trigger] r@[top * (self.width() - width + 1) + left]) == width
                    &&& bitmap_rows(r@[top * (self.width() - width + 1) + left]) == window_rows(
                        bitmap_rows(*self),
                        top,
                        left,
                        height as nat,
                        width as nat,
                    )
                },
    {
        self.cells.windows((height, width)).into_iter().map(|w| Bitmap { cells: w.to_owned() }).collect()
    }

    /// `Zip::from(self).and(mask).all(..)` with [`cell_is_covered`] as the
    /// predicate: whether every cell of `self` satisfies the mask cell at the
    /// same place.  The shapes must agree, else `and` panics.
    #[verifier::external_body]
    pub(crate) fn covers(&self, mask: &Bitmap) -> (r: bool)
        requires
            self.wf(),
            mask.wf(),
            self.height() == mask.height(),
            self.width() == mask.width(),
        ensures
            r == rows_cover(bitmap_rows(*self), bitmap_rows(*mask)),
    {
        Zip::from(&self.cells).and(&mask.cells).all(|&w, &m| cell_is_covered(w, m))
    }

    /// Builds a bitmap from its rows.  `None` when the rows differ in length.
    pub fn from_rows(rows: &Vec<Vec<u8>>) -> (r: Option<Bitmap>)
        requires
            rows.len() <= isize::MAX,
            rows.len() > 0 ==> rows[0].len() * rows.len() <= isize::MAX,
        ensures
            r is Some <==> (forall|i: int|
                0 <= i < rows.len() ==> (#[trigger] rows[i]).len() == rows[0].len()),
            r matches Some(b) ==> b.wf() && b@ == vec_rows(rows@) && b.width() == (if rows.len()
                > 0 {
                rows[0].len()
            } else {
                0
            }),
    {
        let height = rows.len();
        let width = if height > 0 {
            rows[0].len()
        } else {
            0
        };
        let mut flat: Vec<u8> = Vec::new();
        let mut i: usize = 0;
        while i < height
            invariant
                0 <= i <= height,
                height == rows.len(),
                height > 0 ==> width == rows[0].len(),
                width * height <= isize::MAX,
                flat.len() == i * width,
                forall|k: int| 0 <= k < i ==> (#[trigger] rows[k]).len() == width,
                forall|n: int|
                    0 <= n < flat.len() ==> #[trigger] flat@[n] == rows[n / (width as int)][n % (
                    width as int)],
            decreases height - i,
        {
            if rows[i].len() != width {
                return None;
            }
            let mut j: usize = 0;
            while j < width
                invariant
                    0 <= j <= width,
                    i < height,
                    height == rows.len(),
                    rows[i as int].len() == width,
                    flat.len() == i * width + j,
                    forall|n: int|
                        0 <= n < flat.len() ==> #[trigger] flat@[n] == rows[n / (width as int)][n
                            % (width as int)],
                decreases width - j,
            {
                proof {
                    lemma_cell_index(i as int, j as int, width as int);
                }
                flat.push(rows[i][j]);
                j += 1;
            }
            proof {
                assert((i + 1) * width == i * width + width) by (nonlinear_arith);
            }
            i += 1;
        }
        proof {
            assert(height * width == width * height) by (nonlinear_arith);
            assert(width <= width * height || height == 0) by (nonlinear_arith);
        }
        let built = Bitmap::from_flat(height, width, flat);
        match built {
            Some(b) => {
                proof {
                    assert forall|k: int| 0 <= k < height implies b@[k] =~= rows[k]@ by {
                        assert forall|c: int| 0 <= c < width implies b@[k][c] == rows[k][c] by {
                            lemma_cell_index(k, c, width as int);
                            assert((k + 1) * width <= height * width) by (nonlinear_arith)
                                requires
                                    k + 1 <= height,
                                    0 <= width,
                            ;
                        }
                    }
                    assert(b@ =~= vec_rows(rows@));
                }
                Some(b)
            },
            None => None,
        }
    }

    /// The rows of the bitmap as vectors.
    pub fn to_rows(&self) -> (r: Vec<Vec<u8>>)
        requires
            self.wf(),
        ensures
            vec_rows(r@) == self@,
    {
        let height = self.nrows();
        let mut out: Vec<Vec<u8>> = Vec::new();
        let mut i: usize = 0;
        while i < height
            invariant
                0 <= i <= height,
                height == self.height(),
                self.wf(),
                out.len() == i,
                forall|k: int| 0 <= k < i ==> out[k]@ == self@[k],
            decreases height - i,
        {
            let row = self.lane(0, i);
            out.push(row);
            i += 1;
        }
        assert(vec_rows(out@) =~= self@);
        out
    }

    /// The number of cells that hold 1.
    pub fn count_ones(&self) -> (r: usize)
        requires
            self.wf(),
        ensures
            r == ones_in(flat_cells(self@, self.width())),
    {
        let all = self.cells();
        count_ones_in(&all)
    }
}

/// The rows that a vector of vectors holds.
pub open spec fn vec_rows(rows: Seq<Vec<u8>>) -> Seq<Seq<u8>> {
    Seq::new(rows.len(), |i: int| rows[i]@)
}

/// All cells of a rectangle in one sequence, row after row.
pub open spec fn flat_cells(rows: Seq<Seq<u8>>, width: nat) -> Seq<u8> {
    Seq::new(rows.len() * width, |k: int| rows[k / (width as int)][k % (width as int)])
}

/// The number of 1s in `cells`.
pub fn count_ones_in(cells: &Vec<u8>) -> (r: usize)
    ensures
        r == ones_in(cells@),
{
    let mut total: usize = 0;
    let mut i: usize = 0;
    proof {
        assert(cells@.take(0) =~= Seq::<u8>::empty());
    }
    while i < cells.len()
        invariant
            0 <= i <= cells.len(),
            total == ones_in(cells@.take(i as int)),
            total <= i,
        decreases cells.len() - i,
    {
        proof {
            assert(cells@.take(i + 1).drop_last() =~= cells@.take(i as int));
        }
        if cells[i] == 1 {
            total += 1;
        }
        i += 1;
    }
    assert(cells@.take(cells.len() as int) =~= cells@);
    total
}

/// The number of cells of `row` that hold 1.
pub open spec fn ones_in(row: Seq<u8>) -> nat
    decreases row.len(),
{
    if row.len() == 0 {
        0
    } else {
        ones_in(row.drop_last()) + if row.last() == 1 {
            1nat
        } else {
            0nat
        }
    }
}

/// Cell `(i, j)` of a rectangle that is `width` wide has the flat index
/// `i * width + j`, and no other cell has it.
pub proof fn lemma_cell_index(i: int, j: int, width: int)
    requires
        0 <= i,
        0 <= j < width,
    ensures
        (i * width + j) / width == i,
        (i * width + j) % width == j,
        0 <= i * width + j < (i + 1) * width,
{
    assert((i + 1) * width == i * width + width) by (nonlinear_arith);
    vstd::arithmetic::div_mod::lemma_fundamental_div_mod_converse(i * width + j, width, i, j);
    assert(i * width >= 0) by (nonlinear_arith)
        requires
            0 <= i,
            0 <= width,
    ;
}

} // verus!
