//! From a finished layout to one image: the bounding rectangle, its corners,
//! and the interiors of the tiles stitched together.
//!
//! Rows of the image run from north to south: the tiles with the greatest
//! `y` give the first rows.  Columns run from west to east.
use crate::catalog::TileCatalog;
use crate::error::JigsawError;
use crate::grid::{lemma_cell_index, Bitmap};
use crate::solution::{Layout, Position, TileLocationSolution};
use crate::solver::{layout_ok, lemma_view_ok, placed_known, variant_at};
use crate::tile::interior_rows;
use vstd::prelude::*;
use vstd::std_specs::iter::IteratorSpec;

verus! {

broadcast use vstd::std_specs::hash::group_hash_axioms;

/// Whether `p` lies in the rectangle `b`, given as the least and greatest
/// `x` and the least and greatest `y`.
pub open spec fn in_box(b: (i32, i32, i32, i32), p: Position) -> bool {
    b.0 <= p.x <= b.1 && b.2 <= p.y <= b.3
}

/// Whether `b` is the bounding rectangle of the occupied positions: every
/// one lies in it and each of its four sides is touched.  Of nothing the
/// bounding rectangle is the origin alone.
pub open spec fn is_bounds(l: Layout, b: (i32, i32, i32, i32)) -> bool {
    if forall|p: Position| !l.at.contains_key(p) {
        b == (0i32, 0i32, 0i32, 0i32)
    } else {
        &&& forall|p: Position| #[trigger] l.at.contains_key(p) ==> in_box(b, p)
        &&& exists|p: Position| #[trigger] l.at.contains_key(p) && p.x == b.0
        &&& exists|p: Position| #[trigger] l.at.contains_key(p) && p.x == b.1
        &&& exists|p: Position| #[trigger] l.at.contains_key(p) && p.y == b.2
        &&& exists|p: Position| #[trigger] l.at.contains_key(p) && p.y == b.3
    }
}

/// The bounding rectangle of the occupied positions.
pub open spec fn bounding_box(l: Layout) -> (i32, i32, i32, i32) {
    choose|b: (i32, i32, i32, i32)| is_bounds(l, b)
}

/// Whether every position of the rectangle `b` is occupied.
pub open spec fn filled(l: Layout, b: (i32, i32, i32, i32)) -> bool {
    forall|p: Position| in_box(b, p) ==> #[trigger] l.at.contains_key(p)
}

/// A layout has one bounding rectangle.
pub proof fn lemma_bounds_unique(l: Layout, b: (i32, i32, i32, i32))
    requires
        is_bounds(l, b),
    ensures
        bounding_box(l) == b,
{
    let c = bounding_box(l);
    assert(is_bounds(l, c));
    if !(forall|p: Position| !l.at.contains_key(p)) {
        let p0 = choose|p: Position| #[trigger] l.at.contains_key(p) && p.x == b.0;
        let p1 = choose|p: Position| #[trigger] l.at.contains_key(p) && p.x == b.1;
        let p2 = choose|p: Position| #[trigger] l.at.contains_key(p) && p.y == b.2;
        let p3 = choose|p: Position| #[trigger] l.at.contains_key(p) && p.y == b.3;
        let q0 = choose|p: Position| #[trigger] l.at.contains_key(p) && p.x == c.0;
        let q1 = choose|p: Position| #[trigger] l.at.contains_key(p) && p.x == c.1;
        let q2 = choose|p: Position| #[trigger] l.at.contains_key(p) && p.y == c.2;
        let q3 = choose|p: Position| #[trigger] l.at.contains_key(p) && p.y == c.3;
        assert(in_box(c, p0) && in_box(c, p1) && in_box(c, p2) && in_box(c, p3));
        assert(in_box(b, q0) && in_box(b, q1) && in_box(b, q2) && in_box(b, q3));
    }
}

/// In a layout that fills its bounding rectangle, the occupied positions
/// are exactly the positions of the rectangle.
pub proof fn lemma_filled_is_rectangle(l: Layout, b: (i32, i32, i32, i32), p: Position)
    requires
        is_bounds(l, b),
        filled(l, b),
    ensures
        l.at.contains_key(p) <==> in_box(b, p),
{
    assert(in_box(b, Position { x: b.0, y: b.2 }) || b.0 > b.1 || b.2 > b.3);
}

/// In a layout whose two mappings agree there are as many occupied
/// positions as placed tiles.
pub proof fn lemma_positions_count(l: Layout)
    requires
        layout_ok(l),
        l.placed.dom().finite(),
    ensures
        l.at.dom().finite(),
        l.at.dom().len() == l.placed.dom().len(),
{
    let place_of = |id: i32| l.placed[id].0;
    assert(vstd::relations::injective_on(place_of, l.placed.dom())) by {
        assert forall|a: i32, b: i32|
            l.placed.dom().contains(a) && l.placed.dom().contains(b) && #[trigger] place_of(a)
                == #[trigger] place_of(b) implies a == b by {
            assert(l.placed.contains_key(a) && l.placed.contains_key(b));
            assert(l.at[l.placed[a].0] == a);
            assert(l.at[l.placed[b].0] == b);
        }
    }
    assert(l.placed.dom().map(place_of) =~= l.at.dom()) by {
        assert forall|p: Position| l.placed.dom().map(place_of).contains(p) <==> l.at.dom().contains(
            p,
        ) by {
            if l.at.dom().contains(p) {
                assert(l.at.contains_key(p));
                assert(l.placed.dom().contains(l.at[p]) && place_of(l.at[p]) == p);
            }
            if l.placed.dom().map(place_of).contains(p) {
                let id = choose|id: i32| l.placed.dom().contains(id) && p == place_of(id);
                assert(l.placed.contains_key(id));
            }
        }
    }
    vstd::set_lib::lemma_map_size(l.placed.dom(), l.at.dom(), place_of);
}

/// The number of positions of the rectangle `b`.
pub open spec fn area(b: (i32, i32, i32, i32)) -> int {
    (b.1 - b.0 + 1) * (b.3 - b.2 + 1)
}

/// The positions of the rectangle `b`.
pub open spec fn box_positions(b: (i32, i32, i32, i32)) -> Set<Position> {
    Set::new(|p: Position| in_box(b, p))
}

/// The position with the number `k` in the rectangle `b`, counted row by
/// row from the south-west corner.
pub open spec fn numbered(b: (i32, i32, i32, i32), k: int) -> Position {
    Position { x: (b.0 + k % (b.1 - b.0 + 1)) as i32, y: (b.2 + k / (b.1 - b.0 + 1)) as i32 }
}

/// The number of a position of the rectangle falls back on the position.
proof fn lemma_numbered(b: (i32, i32, i32, i32), k: int)
    requires
        b.0 <= b.1,
        b.2 <= b.3,
        0 <= k < area(b),
    ensures
        in_box(b, numbered(b, k)),
        numbered(b, k).x - b.0 == k % (b.1 - b.0 + 1),
        numbered(b, k).y - b.2 == k / (b.1 - b.0 + 1),
{
    let w = b.1 - b.0 + 1;
    let h = b.3 - b.2 + 1;
    vstd::arithmetic::div_mod::lemma_fundamental_div_mod(k, w);
    vstd::arithmetic::div_mod::lemma_mod_pos_bound(k, w);
    let q = k / w;
    assert(0 <= q < h) by (nonlinear_arith)
        requires
            w > 0,
            0 <= k < w * h,
            k == w * q + k % w,
            0 <= k % w < w,
    ;
}

/// A rectangle has as many positions as its width times its height.
pub proof fn lemma_box_count(b: (i32, i32, i32, i32))
    requires
        b.0 <= b.1,
        b.2 <= b.3,
    ensures
        box_positions(b).finite(),
        box_positions(b).len() == area(b),
{
    let w = b.1 - b.0 + 1;
    let h = b.3 - b.2 + 1;
    assert(w * h >= 0) by (nonlinear_arith)
        requires
            w > 0,
            h > 0,
    ;
    let numbers = vstd::set_lib::set_int_range(0, w * h);
    let place = |k: int| numbered(b, k);
    vstd::set_lib::lemma_int_range(0, w * h);
    assert(vstd::relations::injective_on(place, numbers)) by {
        assert forall|k1: int, k2: int|
            numbers.contains(k1) && numbers.contains(k2) && #[trigger] place(k1) == #[trigger] place(
                k2,
            ) implies k1 == k2 by {
            lemma_numbered(b, k1);
            lemma_numbered(b, k2);
            vstd::arithmetic::div_mod::lemma_fundamental_div_mod(k1, w);
            vstd::arithmetic::div_mod::lemma_fundamental_div_mod(k2, w);
        }
    }
    assert(numbers.map(place) =~= box_positions(b)) by {
        assert forall|p: Position| numbers.map(place).contains(p) <==> box_positions(b).contains(
            p,
        ) by {
            if box_positions(b).contains(p) {
                let r = p.x - b.0;
                let q = p.y - b.2;
                let k = q * w + r;
                assert(0 <= k < w * h) by (nonlinear_arith)
                    requires
                        0 <= r < w,
                        0 <= q < h,
                        k == q * w + r,
                ;
                vstd::arithmetic::div_mod::lemma_fundamental_div_mod_converse(k, w, q, r);
                assert(numbers.contains(k));
                assert(place(k) == p);
            }
            if numbers.map(place).contains(p) {
                let k = choose|k: int| numbers.contains(k) && p == place(k);
                lemma_numbered(b, k);
            }
        }
    }
    vstd::set_lib::lemma_map_size(numbers, box_positions(b), place);
}

/// Whether a layout that fills its bounding rectangle holds a tile at
/// exactly the positions of that rectangle, `n` of them.
pub open spec fn rectangle_law(l: Layout, n: int) -> bool {
    forall|b: (i32, i32, i32, i32)| #[trigger]
        is_bounds(l, b) && filled(l, b) ==> l.at.dom() == box_positions(b) && area(b) == n
}

/// A finished layout keeps the law of the rectangle: where it fills its
/// bounding rectangle, the occupied positions are exactly the positions of
/// the rectangle, and the rectangle has as many positions as the catalog
/// has tiles.
pub proof fn lemma_rectangle_law(catalog: &TileCatalog, l: Layout)
    requires
        layout_ok(l),
        l.placed.dom().finite(),
        l.placed.dom().len() == catalog@.len(),
    ensures
        l.at.dom().finite(),
        l.at.dom().len() == catalog@.len(),
        rectangle_law(l, catalog@.len() as int),
{
    lemma_positions_count(l);
    assert forall|b: (i32, i32, i32, i32)| #[trigger] is_bounds(l, b) && filled(l, b) implies l.at.dom()
        == box_positions(b) && area(b) == catalog@.len() by {
        assert forall|p: Position| l.at.dom().contains(p) <==> box_positions(b).contains(p) by {
            lemma_filled_is_rectangle(l, b, p);
        }
        assert(l.at.dom() =~= box_positions(b));
        let origin = Position { x: b.0, y: b.2 };
        if b.0 <= b.1 && b.2 <= b.3 {
            lemma_box_count(b);
        } else {
            // A bounding rectangle is never empty: it is the origin alone
            // where nothing is placed, and else each side is touched.
            if forall|p: Position| !l.at.contains_key(p) {
                assert(b == (0i32, 0i32, 0i32, 0i32));
            } else {
                let p0 = choose|p: Position| #[trigger] l.at.contains_key(p) && p.x == b.0;
                assert(in_box(b, p0));
            }
        }
    }
}

/// A finished layout that fills its bounding rectangle `b`: the occupied
/// positions are exactly the positions of the rectangle, and there are as
/// many of them as the catalog has tiles.
pub proof fn lemma_finished_layout(
    catalog: &TileCatalog,
    l: Layout,
    b: (i32, i32, i32, i32),
    p: Position,
)
    requires
        layout_ok(l),
        l.placed.dom().finite(),
        l.placed.dom().len() == catalog@.len(),
        is_bounds(l, b),
        filled(l, b),
    ensures
        b == bounding_box(l),
        l.at.contains_key(p) <==> in_box(b, p),
        l.at.dom().len() == catalog@.len(),
{
    lemma_positions_count(l);
    lemma_bounds_unique(l, b);
    lemma_filled_is_rectangle(l, b, p);
}

/// The least and greatest `x` and the least and greatest `y` of the occupied
/// positions.
pub fn extrema(solution: &TileLocationSolution) -> (r: (i32, i32, i32, i32))
    requires
        solution.wf(),
    ensures
        is_bounds(solution@, r),
        r == bounding_box(solution@),
{
    let mut seen = false;
    let mut b: (i32, i32, i32, i32) = (0, 0, 0, 0);
    let ghost l = solution@;
    let ghost mut w0: Position = Position { x: 0, y: 0 };
    let ghost mut w1: Position = Position { x: 0, y: 0 };
    let ghost mut w2: Position = Position { x: 0, y: 0 };
    let ghost mut w3: Position = Position { x: 0, y: 0 };
    proof {
        lemma_view_ok(solution);
    }
    let ghost all = vstd::std_specs::hash::spec_hash_map_iter(&solution.tile_to_position).remaining();
    let ghost mut done: int = 0;
    let pairs = solution.tile_to_position.iter();
    for kv in it: pairs
        invariant
            l == solution@,
            layout_ok(l),
            it.seq() == all,
            done == it.index(),
            forall|j: int|
                0 <= j < all.len() ==> l.placed.contains_key(*(#[trigger] all[j]).0)
                    && l.placed[*all[j].0] == *all[j].1,
            seen <==> done > 0,
            !seen ==> b == (0i32, 0i32, 0i32, 0i32),
            forall|j: int| 0 <= j < done ==> in_box(b, (*(#[trigger] all[j]).1).0),
            seen ==> l.at.contains_key(w0) && w0.x == b.0,
            seen ==> l.at.contains_key(w1) && w1.x == b.1,
            seen ==> l.at.contains_key(w2) && w2.y == b.2,
            seen ==> l.at.contains_key(w3) && w3.y == b.3,
    {
        let p = kv.1.0;
        assert(kv == all[done]);
        assert(l.placed.contains_key(*kv.0));
        assert(l.at.contains_key(p));
        proof {
            done = done + 1;
        }
        if !seen {
            b = (p.x, p.x, p.y, p.y);
            seen = true;
            proof {
                w0 = p;
                w1 = p;
                w2 = p;
                w3 = p;
            }
        } else {
            if p.x < b.0 {
                b.0 = p.x;
                proof {
                    w0 = p;
                }
            }
            if p.x > b.1 {
                b.1 = p.x;
                proof {
                    w1 = p;
                }
            }
            if p.y < b.2 {
                b.2 = p.y;
                proof {
                    w2 = p;
                }
            }
            if p.y > b.3 {
                b.3 = p.y;
                proof {
                    w3 = p;
                }
            }
        }
    }
    proof {
        assert(done == all.len());
        assert forall|p: Position| #[trigger] l.at.contains_key(p) implies in_box(b, p) && seen by {
            let id = l.at[p];
            assert(l.placed.contains_key(id));
            assert(all.contains((&id, &l.placed[id])));
            let j = choose|j: int| 0 <= j < all.len() && all[j] == (&id, &l.placed[id]);
            assert(in_box(b, (*all[j].1).0));
        }
        assert(is_bounds(l, b));
        lemma_bounds_unique(l, b);
    }
    b
}

/// The four corners of the rectangle `b`: south-west, north-west,
/// south-east, north-east.
pub open spec fn corners_of(b: (i32, i32, i32, i32)) -> Seq<Position> {
    seq![
        Position { x: b.0, y: b.2 },
        Position { x: b.0, y: b.3 },
        Position { x: b.1, y: b.2 },
        Position { x: b.1, y: b.3 },
    ]
}

/// The corners of the bounding rectangle.  A layout with an empty corner is
/// no rectangle.
pub fn corners(solution: &TileLocationSolution) -> (r: Result<[Position; 4], JigsawError>)
    requires
        solution.wf(),
    ensures
        r is Ok <==> forall|k: int|
            0 <= k < 4 ==> solution@.at.contains_key(
                #[trigger] corners_of(bounding_box(solution@))[k],
            ),
        r matches Ok(found) ==> found@ == corners_of(bounding_box(solution@)),
        r matches Err(e) ==> e == JigsawError::NonRectangularSolution,
{
    let (minx, maxx, miny, maxy) = extrema(solution);
    let result = [
        Position { x: minx, y: miny },
        Position { x: minx, y: maxy },
        Position { x: maxx, y: miny },
        Position { x: maxx, y: maxy },
    ];
    let ghost want = corners_of(bounding_box(solution@));
    assert(result@ =~= want);
    let mut k: usize = 0;
    while k < 4
        invariant
            0 <= k <= 4,
            result@ == want,
            want == corners_of(bounding_box(solution@)),
            forall|j: int| 0 <= j < k ==> solution@.at.contains_key(#[trigger] want[j]),
        decreases 4 - k,
    {
        if !solution.occupied(&result[k]) {
            assert(!solution@.at.contains_key(want[k as int]));
            return Err(JigsawError::NonRectangularSolution);
        }
        k += 1;
    }
    Ok(result)
}

/// The product of the ids of the tiles at the four corners.
pub fn corner_product(solution: &TileLocationSolution) -> (r: Result<i128, JigsawError>)
    requires
        solution.wf(),
    ensures
        r is Ok <==> forall|k: int|
            0 <= k < 4 ==> solution@.at.contains_key(
                #[trigger] corners_of(bounding_box(solution@))[k],
            ),
        r matches Ok(product) ==> product == solution@.at[corners_of(bounding_box(solution@))[0]]
            * solution@.at[corners_of(bounding_box(solution@))[1]]
            * solution@.at[corners_of(bounding_box(solution@))[2]]
            * solution@.at[corners_of(bounding_box(solution@))[3]],
        r matches Err(e) ==> e == JigsawError::NonRectangularSolution,
{
    let found = match corners(solution) {
        Ok(found) => found,
        Err(e) => {
            return Err(e);
        },
    };
    let ghost want = corners_of(bounding_box(solution@));
    assert(solution@.at.contains_key(want[0]) && solution@.at.contains_key(want[1])
        && solution@.at.contains_key(want[2]) && solution@.at.contains_key(want[3]));
    let a = id_at(solution, &found[0]);
    let b = id_at(solution, &found[1]);
    let c = id_at(solution, &found[2]);
    let d = id_at(solution, &found[3]);
    assert(-0x4000_0000_0000_0000 <= a * b <= 0x4000_0000_0000_0000) by (nonlinear_arith)
        requires
            -0x8000_0000 <= a <= 0x8000_0000,
            -0x8000_0000 <= b <= 0x8000_0000,
    ;
    let ab: i128 = (a as i128) * (b as i128);
    assert(-0x2000_0000_0000_0000_0000_0000 <= ab * c <= 0x2000_0000_0000_0000_0000_0000)
        by (nonlinear_arith)
        requires
            -0x4000_0000_0000_0000 <= ab <= 0x4000_0000_0000_0000,
            -0x8000_0000 <= c <= 0x8000_0000,
    ;
    let abc: i128 = ab * (c as i128);
    assert(-0x1000_0000_0000_0000_0000_0000_0000_0000 <= abc * d
        <= 0x1000_0000_0000_0000_0000_0000_0000_0000) by (nonlinear_arith)
        requires
            -0x2000_0000_0000_0000_0000_0000 <= abc <= 0x2000_0000_0000_0000_0000_0000,
            -0x8000_0000 <= d <= 0x8000_0000,
    ;
    Ok(abc * (d as i128))
}

/// The id of the tile at an occupied position.
fn id_at(solution: &TileLocationSolution, pos: &Position) -> (r: i32)
    requires
        solution.wf(),
        solution@.at.contains_key(*pos),
    ensures
        r == solution@.at[*pos],
{
    match solution.get_tile_at_position(pos) {
        Some(found) => found.0.val,
        None => 0,
    }
}

/// The side of the interior of a tile of size `n`.
pub open spec fn interior_size(n: nat) -> nat {
    if n >= 2 {
        (n - 2) as nat
    } else {
        0
    }
}

/// The interior of the tile at `pos`, as it is turned.
pub fn interior_tile_at(pos: &Position, tiles: &TileCatalog, solution: &TileLocationSolution) -> (r:
    Bitmap)
    requires
        tiles.wf(),
        tiles.size() >= 2,
        solution.wf(),
        placed_known(tiles, solution@),
        solution@.at.contains_key(*pos),
    ensures
        r.wf(),
        r.height() == tiles.size() - 2,
        r.width() == tiles.size() - 2,
        r@ == interior_rows(variant_at(tiles, solution@, *pos), tiles.size()),
{
    match solution.get_tile_at_position(pos) {
        Some((tile_id, manip)) => {
            assert(solution@.placed.contains_key(tile_id.val));
            match tiles.get(&tile_id) {
                Some(tile) => tile.interior(&manip),
                None => Bitmap::filled(0, 0, 0),
            }
        },
        None => Bitmap::filled(0, 0, 0),
    }
}

/// The position of the tile that gives the image cell `(r, c)`, when the
/// interiors are `m` wide: columns count tiles from the west side of the
/// rectangle, rows from its north side.
pub open spec fn tile_position(b: (i32, i32, i32, i32), m: int, r: int, c: int) -> Position {
    Position { x: (b.0 + c / m) as i32, y: (b.3 - r / m) as i32 }
}

/// The image cell `(r, c)`: the cell of the interior of the tile above it.
pub open spec fn image_cell(catalog: &TileCatalog, l: Layout, b: (i32, i32, i32, i32), r: int, c: int) -> u8 {
    let m = interior_size(catalog.size()) as int;
    variant_at(catalog, l, tile_position(b, m, r, c))[r % m + 1][c % m + 1]
}

/// The number of rows of the image.
pub open spec fn image_height(catalog: &TileCatalog, b: (i32, i32, i32, i32)) -> int {
    interior_size(catalog.size()) * (b.3 - b.2 + 1)
}

/// The number of columns of the image.
pub open spec fn image_width(catalog: &TileCatalog, b: (i32, i32, i32, i32)) -> int {
    interior_size(catalog.size()) * (b.1 - b.0 + 1)
}

/// The image of a layout whose bounding rectangle is `b`.
pub open spec fn image_rows(catalog: &TileCatalog, l: Layout, b: (i32, i32, i32, i32)) -> Seq<
    Seq<u8>,
> {
    Seq::new(
        image_height(catalog, b) as nat,
        |r: int| Seq::new(image_width(catalog, b) as nat, |c: int| image_cell(catalog, l, b, r, c)),
    )
}

/// Whether an image of these extents can be held in memory.
pub open spec fn image_fits(height: int, width: int) -> bool {
    height <= isize::MAX && width <= isize::MAX && height * width <= isize::MAX
}

/// Stitches the interiors of the placed tiles into one image.  The layout
/// must fill its bounding rectangle, and the tiles must be at least three
/// cells wide: smaller tiles have no interior.
pub fn assemble_big_bitmap(tiles: &TileCatalog, solution: &TileLocationSolution) -> (r: Result<
    Bitmap,
    JigsawError,
>)
    requires
        tiles.wf(),
        solution.wf(),
        placed_known(tiles, solution@),
    ensures
        r is Ok <==> filled(solution@, bounding_box(solution@)) && tiles.size() >= 3
            && image_fits(
            image_height(tiles, bounding_box(solution@)),
            image_width(tiles, bounding_box(solution@)),
        ),
        r matches Err(e) ==> e == (if !filled(solution@, bounding_box(solution@)) {
            JigsawError::NonRectangularSolution
        } else if tiles.size() < 3 {
            JigsawError::NoInterior
        } else {
            JigsawError::ImageTooLarge
        }),
        r matches Ok(image) ==> image.wf() && image.width() == image_width(
            tiles,
            bounding_box(solution@),
        ) && image@ == image_rows(tiles, solution@, bounding_box(solution@)) && image.height()
            <= isize::MAX && image.width() <= isize::MAX,
        r is Ok ==> solution@.at.dom() == box_positions(bounding_box(solution@)),
{
    let b = extrema(solution);
    let (minx, maxx, miny, maxy) = b;
    let ghost l = solution@;
    proof {
        if exists|p: Position| #[trigger] l.at.contains_key(p) {
            let p0 = choose|p: Position| #[trigger] l.at.contains_key(p) && p.x == b.0;
            let p3 = choose|p: Position| #[trigger] l.at.contains_key(p) && p.y == b.3;
            assert(in_box(b, p0) && in_box(b, p3));
        }
    }
    let wide: u64 = (maxx as i64 - minx as i64 + 1) as u64;
    let high: u64 = (maxy as i64 - miny as i64 + 1) as u64;
    // Every position of the rectangle must hold a tile.
    let mut i: u64 = 0;
    while i < high
        invariant
            0 <= i <= high,
            b == (minx, maxx, miny, maxy),
            b == bounding_box(l),
            wide == maxx - minx + 1,
            high == maxy - miny + 1,
            l == solution@,
            forall|p: Position| in_box(b, p) && p.y > maxy - i ==> #[trigger] l.at.contains_key(p),
        decreases high - i,
    {
        let mut j: u64 = 0;
        while j < wide
            invariant
                0 <= j <= wide,
                0 <= i < high,
                b == (minx, maxx, miny, maxy),
                b == bounding_box(l),
                wide == maxx - minx + 1,
                high == maxy - miny + 1,
                l == solution@,
                forall|p: Position|
                    in_box(b, p) && p.y > maxy - i ==> #[trigger] l.at.contains_key(p),
                forall|p: Position|
                    in_box(b, p) && p.y == maxy - i && p.x < minx + j
                        ==> #[trigger] l.at.contains_key(p),
            decreases wide - j,
        {
            let pos = Position { x: (minx as i64 + j as i64) as i32, y: (maxy as i64 - i as i64) as i32 };
            if !solution.occupied(&pos) {
                assert(in_box(b, pos));
                assert(!l.at.contains_key(pos));
                assert(!filled(l, b));
                assert(b == bounding_box(solution@));
                return Err(JigsawError::NonRectangularSolution);
            }
            j += 1;
        }
        i += 1;
    }
    assert(filled(l, b));
    proof {
        assert forall|p: Position| l.at.dom().contains(p) <==> box_positions(b).contains(p) by {
            lemma_filled_is_rectangle(l, b, p);
        }
        assert(l.at.dom() =~= box_positions(b));
    }
    let n = tiles.size_of_tiles();
    if n < 3 {
        return Err(JigsawError::NoInterior);
    }
    let m: usize = n - 2;
    assert(m * high <= 0x1_0000_0000_0000_0000_0000_0000 && m * wide
        <= 0x1_0000_0000_0000_0000_0000_0000) by (nonlinear_arith)
        requires
            0 <= m <= 0xffff_ffff_ffff_ffff,
            0 <= high <= 0x1_0000_0000,
            0 <= wide <= 0x1_0000_0000,
    ;
    let rows: u128 = (m as u128) * (high as u128);
    let cols: u128 = (m as u128) * (wide as u128);
    if rows > isize::MAX as u128 || cols > isize::MAX as u128 {
        return Err(JigsawError::ImageTooLarge);
    }
    assert(rows * cols <= 0x4000_0000_0000_0000_0000_0000_0000_0000) by (nonlinear_arith)
        requires
            0 <= rows <= 0x8000_0000_0000_0000,
            0 <= cols <= 0x8000_0000_0000_0000,
    ;
    if rows * cols > isize::MAX as u128 {
        return Err(JigsawError::ImageTooLarge);
    }
    assert(high <= rows && wide <= cols) by (nonlinear_arith)
        requires
            m >= 1,
            rows == m * high,
            cols == m * wide,
            high >= 0,
            wide >= 0,
    ;
    assert(m == interior_size(tiles.size()));
    Ok(stitch(tiles, solution, b, m, high as usize, wide as usize))
}

/// Pastes the interiors of the tiles of a filled rectangle into one image.
#[verifier::rlimit(60)]
fn stitch(
    tiles: &TileCatalog,
    solution: &TileLocationSolution,
    b: (i32, i32, i32, i32),
    m: usize,
    tiles_high: usize,
    tiles_wide: usize,
) -> (result: Bitmap)
    requires
        tiles.wf(),
        solution.wf(),
        placed_known(tiles, solution@),
        filled(solution@, b),
        m >= 1,
        m == interior_size(tiles.size()),
        tiles_wide == b.1 - b.0 + 1,
        tiles_high == b.3 - b.2 + 1,
        image_fits(m * tiles_high, m * tiles_wide),
    ensures
        result.wf(),
        result.width() == image_width(tiles, b),
        result.height() == m * tiles_high,
        result@ == image_rows(tiles, solution@, b),
{
    let (minx, maxx, miny, maxy) = b;
    let ghost l = solution@;
    let height: usize = m * tiles_high;
    let width: usize = m * tiles_wide;
    let mut result = Bitmap::filled(height, width, 2);
    let mut i: usize = 0;
    while i < tiles_high
        invariant
            0 <= i <= tiles_high,
            m >= 1,
            m == tiles.size() - 2,
            m == interior_size(tiles.size()),
            tiles.wf(),
            solution.wf(),
            placed_known(tiles, solution@),
            l == solution@,
            filled(l, b),
            b == (minx, maxx, miny, maxy),
            tiles_wide == maxx - minx + 1,
            tiles_high == maxy - miny + 1,
            height == m * tiles_high,
            width == m * tiles_wide,
            height <= isize::MAX,
            width <= isize::MAX,
            result.wf(),
            result.height() == height,
            result.width() == width,
            forall|r: int, c: int|
                0 <= r < i * m && 0 <= c < width ==> #[trigger] result@[r][c] == image_cell(
                    tiles,
                    l,
                    b,
                    r,
                    c,
                ),
        decreases tiles_high - i,
    {
        proof {
            lemma_band(i as int, m as int, tiles_high as int);
        }
        let ytop: usize = i * m;
        let mut j: usize = 0;
        while j < tiles_wide
            invariant
                0 <= j <= tiles_wide,
                0 <= i < tiles_high,
                m >= 1,
                m == tiles.size() - 2,
                m == interior_size(tiles.size()),
                tiles.wf(),
                solution.wf(),
                placed_known(tiles, solution@),
                l == solution@,
                filled(l, b),
                b == (minx, maxx, miny, maxy),
                tiles_wide == maxx - minx + 1,
                tiles_high == maxy - miny + 1,
                height == m * tiles_high,
                width == m * tiles_wide,
                height <= isize::MAX,
                width <= isize::MAX,
                ytop == i * m,
                ytop + m <= height,
                result.wf(),
                result.height() == height,
                result.width() == width,
                forall|r: int, c: int|
                    0 <= r < i * m && 0 <= c < width ==> #[trigger] result@[r][c] == image_cell(
                        tiles,
                        l,
                        b,
                        r,
                        c,
                    ),
                forall|r: int, c: int|
                    i * m <= r < i * m + m && 0 <= c < j * m ==> #[trigger] result@[r][c]
                        == image_cell(tiles, l, b, r, c),
            decreases tiles_wide - j,
        {
            proof {
                lemma_band(j as int, m as int, tiles_wide as int);
            }
            let xleft: usize = j * m;
            let pos = Position { x: (minx as i64 + j as i64) as i32, y: (maxy as i64 - i as i64) as i32 };
            assert(in_box(b, pos));
            assert(l.at.contains_key(pos));
            let patch = interior_tile_at(&pos, tiles, solution);
            let ghost before = result@;
            result.paste(ytop, ytop + m, xleft, xleft + m, &patch);
            proof {
                assert forall|r: int, c: int| 0 <= r < i * m && 0 <= c < width implies (
                #[trigger] result@[r][c]) == image_cell(tiles, l, b, r, c) by {
                    assert(before[r].len() == width);
                    assert(result@[r][c] == before[r][c]);
                }
                assert forall|r: int, c: int|
                    i * m <= r < i * m + m && 0 <= c < (j + 1) * m implies (
                #[trigger] result@[r][c]) == image_cell(tiles, l, b, r, c) by {
                    assert((j + 1) * m == j * m + m) by (nonlinear_arith);
                    assert(before[r].len() == width);
                    if c < j * m {
                        assert(result@[r][c] == before[r][c]);
                    } else {
                        lemma_cell_index(i as int, r - i * m, m as int);
                        lemma_cell_index(j as int, c - j * m, m as int);
                        assert(tile_position(b, m as int, r, c) == pos);
                        assert(result@[r][c] == patch@[r - ytop][c - xleft]);
                    }
                }
            }
            j += 1;
        }
        proof {
            assert((i + 1) * m == i * m + m) by (nonlinear_arith);
            assert(tiles_wide * m == m * tiles_wide) by (nonlinear_arith);
        }
        i += 1;
    }
    proof {
        assert(tiles_high * m == m * tiles_high) by (nonlinear_arith);
        let want = image_rows(tiles, l, b);
        assert forall|r: int| 0 <= r < height implies result@[r] =~= want[r] by {
            assert(result@[r].len() == width);
        }
        assert(result@ =~= want);
    }
    result
}

/// Tile `k` of `count` tiles that are `m` cells wide ends within the
/// `m * count` cells of all of them.
proof fn lemma_band(k: int, m: int, count: int)
    requires
        0 <= k < count,
        m >= 1,
    ensures
        0 <= k * m,
        k * m + m <= m * count,
{
    assert(0 <= k * m && k * m + m <= m * count) by (nonlinear_arith)
        requires
            0 <= k < count,
            m >= 1,
    ;
}

} // verus!
