//! The search for a motif in the assembled image, under all eight
//! orientations of the image, and the roughness that remains.
use crate::assemble::{
    assemble_big_bitmap, bounding_box, filled, image_fits, image_height, image_rows, image_width,
};
use crate::catalog::TileCatalog;
use crate::error::JigsawError;
use crate::grid::{flat_cells, ones_in, rows_cover, window_rows, Bitmap};
use crate::manipulation::{Manipulation, Rotation};
use crate::solution::TileLocationSolution;
use crate::solver::placed_known;
use vstd::prelude::*;

verus! {

/// The cells of the motif, row after row: three rows of twenty cells.
pub open spec fn nessie_cells() -> Seq<u8> {
    seq![
        0u8, 0, 0, 0, 0, 0, 0, 0, 0, 0, 0, 0, 0, 0, 0, 0, 0, 0, 1, 0,
        1, 0, 0, 0, 0, 1, 1, 0, 0, 0, 0, 1, 1, 0, 0, 0, 0, 1, 1, 1,
        0, 1, 0, 0, 1, 0, 0, 1, 0, 0, 1, 0, 0, 1, 0, 0, 1, 0, 0, 0,
    ]
}

/// The motif as a matrix.
pub open spec fn nessie_rows() -> Seq<Seq<u8>> {
    Seq::new(3, |i: int| Seq::new(20, |j: int| nessie_cells()[i * 20 + j]))
}

/// The motif: a mask of three rows and twenty columns in which a 1 asks for
/// a foreground cell and a 0 asks for nothing.
pub fn nessie() -> (r: Bitmap)
    ensures
        r.wf(),
        r.width() == 20,
        r.height() == 3,
        r@ == nessie_rows(),
{
    let beastie: Vec<u8> = vec![
        0, 0, 0, 0, 0, 0, 0, 0, 0, 0, 0, 0, 0, 0, 0, 0, 0, 0, 1, 0,
        1, 0, 0, 0, 0, 1, 1, 0, 0, 0, 0, 1, 1, 0, 0, 0, 0, 1, 1, 1,
        0, 1, 0, 0, 1, 0, 0, 1, 0, 0, 1, 0, 0, 1, 0, 0, 1, 0, 0, 0,
    ];
    assert(beastie@ =~= nessie_cells());
    match Bitmap::from_flat(3, 20, beastie) {
        Some(mask) => {
            assert(mask@ =~= nessie_rows()) by {
                assert forall|i: int| 0 <= i < 3 implies mask@[i] =~= nessie_rows()[i] by {}
            }
            mask
        },
        None => Bitmap::filled(3, 20, 0),
    }
}

/// Whether the window satisfies the mask: wherever the mask holds a 1, the
/// window holds a foreground cell.
pub fn mask_match(win: &Bitmap, mask: &Bitmap) -> (r: bool)
    requires
        win.wf(),
        mask.wf(),
        win.height() == mask.height(),
        win.width() == mask.width(),
    ensures
        r == rows_cover(win@, mask@),
{
    win.covers(mask)
}

/// Whether the motif occurs in `hay` with its top left corner at row `top`
/// and column `left`.
pub open spec fn occurs_at(
    hay: Seq<Seq<u8>>,
    mask: Seq<Seq<u8>>,
    mask_width: nat,
    top: int,
    left: int,
) -> bool {
    rows_cover(window_rows(hay, top, left, mask.len(), mask_width), mask)
}

/// The occurrences among the first `n` windows.  Windows are counted row by
/// row, `per_row` in a row; an occurrence is given by the column and the row
/// of its top left corner.
pub open spec fn occurrences(
    hay: Seq<Seq<u8>>,
    mask: Seq<Seq<u8>>,
    mask_width: nat,
    per_row: int,
    n: int,
) -> Seq<(usize, usize)>
    decreases n,
{
    if n <= 0 {
        Seq::empty()
    } else if occurs_at(hay, mask, mask_width, (n - 1) / per_row, (n - 1) % per_row) {
        occurrences(hay, mask, mask_width, per_row, n - 1).push(
            (((n - 1) % per_row) as usize, ((n - 1) / per_row) as usize),
        )
    } else {
        occurrences(hay, mask, mask_width, per_row, n - 1)
    }
}

/// All occurrences of the motif in `hay`, which is `hay_width` wide.  A
/// motif that is larger than `hay` occurs nowhere.
pub open spec fn all_occurrences(
    hay: Seq<Seq<u8>>,
    hay_width: nat,
    mask: Seq<Seq<u8>>,
    mask_width: nat,
) -> Seq<(usize, usize)> {
    if mask.len() <= hay.len() && mask_width <= hay_width {
        occurrences(
            hay,
            mask,
            mask_width,
            hay_width - mask_width + 1,
            (hay.len() - mask.len() + 1) * (hay_width - mask_width + 1),
        )
    } else {
        Seq::empty()
    }
}

/// Finds every place at which the motif `mask` occurs in `haystack`: the
/// column and the row of the top left corner of each window that satisfies
/// the mask, row by row.
pub fn find_image_locations(haystack: &Bitmap, mask: &Bitmap) -> (r: Vec<(usize, usize)>)
    requires
        haystack.wf(),
        mask.wf(),
        mask.height() >= 1,
        mask.width() >= 1,
    ensures
        r@ == all_occurrences(haystack@, haystack.width(), mask@, mask.width()),
{
    let mut found: Vec<(usize, usize)> = Vec::new();
    let hh = haystack.nrows();
    let hw = haystack.ncols();
    let mh = mask.nrows();
    let mw = mask.ncols();
    if mh > hh || mw > hw {
        return found;
    }
    let per_row: usize = hw - mw + 1;
    let windows = haystack.windows(mh, mw);
    let mut i: usize = 0;
    while i < windows.len()
        invariant
            0 <= i <= windows.len(),
            haystack.wf(),
            mask.wf(),
            hh == haystack.height(),
            hw == haystack.width(),
            mh == mask.height(),
            mw == mask.width(),
            1 <= mh <= hh,
            1 <= mw <= hw,
            per_row == hw - mw + 1,
            windows@.len() == (hh - mh + 1) * (hw - mw + 1),
            forall|top: int, left: int|
                0 <= top <= hh - mh && 0 <= left <= hw - mw ==> {
                    &&& (#[trigger] windows@[top * (hw - mw + 1) + left]).width() == mw
                    &&& windows@[top * (hw - mw + 1) + left]@ == window_rows(
                        haystack@,
                        top,
                        left,
                        mh as nat,
                        mw as nat,
                    )
                },
            found@ == occurrences(haystack@, mask@, mw as nat, per_row as int, i as int),
        decreases windows.len() - i,
    {
        let top: usize = i / per_row;
        let left: usize = i % per_row;
        proof {
            vstd::arithmetic::div_mod::lemma_fundamental_div_mod(i as int, per_row as int);
            assert(top <= hh - mh) by (nonlinear_arith)
                requires
                    i < (hh - mh + 1) * per_row,
                    i == per_row * top + left,
                    0 <= left,
                    per_row > 0,
                    top >= 0,
            ;
            assert(per_row * top == top * (hw - mw + 1)) by (nonlinear_arith)
                requires
                    per_row == hw - mw + 1,
            ;
            assert(windows@[i as int] == windows@[top * (hw - mw + 1) + left]);
        }
        let w = &windows[i];
        assert(w.wf());
        if mask_match(w, mask) {
            found.push((left, top));
        }
        i += 1;
    }
    found
}

/// The number of cells of `m` that hold 1.
pub fn count_ones(m: &Bitmap) -> (r: usize)
    requires
        m.wf(),
    ensures
        r == ones_in(flat_cells(m@, m.width())),
{
    m.count_ones()
}

/// The roughness: the number of foreground cells of the image less the
/// foreground cells of the mask for every place where the motif was found.
pub fn measure_roughness(bitmap: &Bitmap, locations: &Vec<(usize, usize)>, mask: &Bitmap) -> (r:
    usize)
    requires
        bitmap.wf(),
        mask.wf(),
        locations.len() * ones_in(flat_cells(mask@, mask.width())) <= ones_in(
            flat_cells(bitmap@, bitmap.width()),
        ),
    ensures
        r == ones_in(flat_cells(bitmap@, bitmap.width())) - locations.len() * ones_in(
            flat_cells(mask@, mask.width()),
        ),
{
    count_ones(bitmap) - (locations.len() * count_ones(mask))
}

/// The orientation with the number `k`: the rotations in the order of their
/// quarter turns, each first without and then with the mirror image.
pub open spec fn orientation(k: int) -> Manipulation {
    Manipulation { rot: Rotation::of(k / 2), flip: k % 2 == 1 }
}

/// The occurrences of the motif in the image turned into the orientation
/// `k`.
pub open spec fn occurrences_in(
    image: Seq<Seq<u8>>,
    width: nat,
    mask: Seq<Seq<u8>>,
    mask_width: nat,
    k: int,
) -> Seq<(usize, usize)> {
    all_occurrences(
        orientation(k).apply(image, width),
        orientation(k).apply_width(image.len(), width),
        mask,
        mask_width,
    )
}

/// The first orientation from `k` on in which the motif occurs; 8 if there
/// is none.
pub open spec fn first_hit(
    image: Seq<Seq<u8>>,
    width: nat,
    mask: Seq<Seq<u8>>,
    mask_width: nat,
    k: int,
) -> int
    decreases 8 - k,
{
    if k >= 8 {
        8
    } else if occurrences_in(image, width, mask, mask_width, k).len() > 0 {
        k
    } else {
        first_hit(image, width, mask, mask_width, k + 1)
    }
}

/// The roughness of an image: in the first orientation that shows the motif
/// at all, the foreground cells of the image less those of the mask for each
/// occurrence.
pub open spec fn roughness(
    image: Seq<Seq<u8>>,
    width: nat,
    mask: Seq<Seq<u8>>,
    mask_width: nat,
) -> Result<usize, JigsawError> {
    let k = first_hit(image, width, mask, mask_width, 0);
    let turned = orientation(k).apply(image, width);
    let turned_width = orientation(k).apply_width(image.len(), width);
    let total = ones_in(flat_cells(turned, turned_width));
    let taken = occurrences_in(image, width, mask, mask_width, k).len() * ones_in(
        flat_cells(mask, mask_width),
    );
    if k >= 8 {
        Err(JigsawError::NoMotifOrientation)
    } else if taken > total {
        Err(JigsawError::RoughnessUnderflow)
    } else {
        Ok((total - taken) as usize)
    }
}

/// Searches `image` for the motif `mask` in every orientation and gives the
/// roughness in the first orientation that shows it.
pub fn scan_image(image: &Bitmap, mask: &Bitmap) -> (r: Result<usize, JigsawError>)
    requires
        image.wf(),
        image.height() <= isize::MAX,
        image.width() <= isize::MAX,
        mask.wf(),
        mask.height() >= 1,
        mask.width() >= 1,
    ensures
        r == roughness(image@, image.width(), mask@, mask.width()),
{
    let rotations = [Rotation::Zero, Rotation::One, Rotation::Two, Rotation::Three];
    let mut k: usize = 0;
    while k < 8
        invariant
            0 <= k <= 8,
            image.wf(),
            image.height() <= isize::MAX,
            image.width() <= isize::MAX,
            mask.wf(),
            mask.height() >= 1,
            mask.width() >= 1,
            rotations@ == seq![Rotation::Zero, Rotation::One, Rotation::Two, Rotation::Three],
            first_hit(image@, image.width(), mask@, mask.width(), 0) == first_hit(
                image@,
                image.width(),
                mask@,
                mask.width(),
                k as int,
            ),
        decreases 8 - k,
    {
        let manip = Manipulation { rot: rotations[k / 2], flip: k % 2 == 1 };
        assert(manip == orientation(k as int));
        let tweaked = manip.on(image);
        let locations = find_image_locations(&tweaked, mask);
        if locations.len() > 0 {
            let total = count_ones(&tweaked);
            let each = count_ones(mask);
            assert(locations.len() * each <= 0xffff_ffff_ffff_ffff * 0xffff_ffff_ffff_ffff)
                by (nonlinear_arith)
                requires
                    0 <= locations.len() <= 0xffff_ffff_ffff_ffff,
                    0 <= each <= 0xffff_ffff_ffff_ffff,
            ;
            let taken: u128 = (locations.len() as u128) * (each as u128);
            if taken > total as u128 {
                return Err(JigsawError::RoughnessUnderflow);
            }
            return Ok(measure_roughness(&tweaked, &locations, mask));
        }
        k += 1;
    }
    Err(JigsawError::NoMotifOrientation)
}

/// How often the motif occurs in the image in each of the eight
/// orientations, in their order.
pub fn orientation_counts(image: &Bitmap, mask: &Bitmap) -> (r: Vec<usize>)
    requires
        image.wf(),
        image.height() <= isize::MAX,
        image.width() <= isize::MAX,
        mask.wf(),
        mask.height() >= 1,
        mask.width() >= 1,
    ensures
        r@.len() == 8,
        forall|k: int|
            0 <= k < 8 ==> #[trigger] r@[k] == occurrences_in(
                image@,
                image.width(),
                mask@,
                mask.width(),
                k,
            ).len(),
{
    let rotations = [Rotation::Zero, Rotation::One, Rotation::Two, Rotation::Three];
    let mut counts: Vec<usize> = Vec::new();
    let mut k: usize = 0;
    while k < 8
        invariant
            0 <= k <= 8,
            image.wf(),
            image.height() <= isize::MAX,
            image.width() <= isize::MAX,
            mask.wf(),
            mask.height() >= 1,
            mask.width() >= 1,
            rotations@ == seq![Rotation::Zero, Rotation::One, Rotation::Two, Rotation::Three],
            counts@.len() == k,
            forall|j: int|
                0 <= j < k ==> #[trigger] counts@[j] == occurrences_in(
                    image@,
                    image.width(),
                    mask@,
                    mask.width(),
                    j,
                ).len(),
        decreases 8 - k,
    {
        let manip = Manipulation { rot: rotations[k / 2], flip: k % 2 == 1 };
        assert(manip == orientation(k as int));
        let tweaked = manip.on(image);
        let locations = find_image_locations(&tweaked, mask);
        counts.push(locations.len());
        k += 1;
    }
    counts
}

/// The roughness of a layout: that of its image with respect to the motif,
/// where there is an image.
pub open spec fn roughness_of_layout(
    tiles: &TileCatalog,
    l: crate::solution::Layout,
) -> Result<usize, JigsawError> {
    let b = bounding_box(l);
    if !filled(l, b) {
        Err(JigsawError::NonRectangularSolution)
    } else if tiles.size() < 3 {
        Err(JigsawError::NoInterior)
    } else if !image_fits(image_height(tiles, b), image_width(tiles, b)) {
        Err(JigsawError::ImageTooLarge)
    } else {
        roughness(image_rows(tiles, l, b), image_width(tiles, b) as nat, nessie_rows(), 20)
    }
}

/// Assembles the image of a finished layout and gives its roughness with
/// respect to the motif.
pub fn solve2(tiles: &TileCatalog, solution: &TileLocationSolution) -> (r: Result<
    usize,
    JigsawError,
>)
    requires
        tiles.wf(),
        solution.wf(),
        placed_known(tiles, solution@),
    ensures
        r == roughness_of_layout(tiles, solution@),
{
    let big_bitmap = match assemble_big_bitmap(tiles, solution) {
        Ok(image) => image,
        Err(e) => {
            return Err(e);
        },
    };
    let nessie_mask = nessie();
    scan_image(&big_bitmap, &nessie_mask)
}

/// Scanning is decided by the cells of the image and of the mask alone: two
/// images with the same rows hold the motif at the same places in every
/// orientation, so that an orientation in which a scan found nothing holds
/// nothing however often it is scanned, and the two images are as rough.
pub proof fn lemma_scan_depends_on_cells(a: Bitmap, b: Bitmap, mask: Bitmap, k: int)
    requires
        a@ == b@,
        a.width() == b.width(),
    ensures
        occurrences_in(a@, a.width(), mask@, mask.width(), k) == occurrences_in(
            b@,
            b.width(),
            mask@,
            mask.width(),
            k,
        ),
        occurrences_in(a@, a.width(), mask@, mask.width(), k).len() == 0 ==> occurrences_in(
            b@,
            b.width(),
            mask@,
            mask.width(),
            k,
        ).len() == 0,
        roughness(a@, a.width(), mask@, mask.width()) == roughness(
            b@,
            b.width(),
            mask@,
            mask.width(),
        ),
{
}

} // verus!
