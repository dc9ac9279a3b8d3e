//! Turning a whole layout: each of the eight symmetries of the plane takes a
//! rectangle of tiles to a rectangle of tiles, corners to corners.
use crate::assemble::{
    bounding_box, corners_of, filled, in_box, is_bounds, lemma_bounds_unique,
};
use crate::manipulation::{Manipulation, Rotation};
use crate::solution::{Layout, Position};
use crate::solver::within;
use vstd::prelude::*;

verus! {

/// Where the symmetry `g` of the plane takes the position `p`: the mirror
/// image exchanges east and west, and a quarter turn counter-clockwise takes
/// east to north.
#[verifier::opaque]
pub open spec fn turned(g: Manipulation, p: Position) -> Position {
    let x0: int = if g.flip {
        -p.x
    } else {
        p.x as int
    };
    match g.rot {
        Rotation::Zero => Position { x: x0 as i32, y: p.y },
        Rotation::One => Position { x: (-p.y) as i32, y: x0 as i32 },
        Rotation::Two => Position { x: (-x0) as i32, y: (-p.y) as i32 },
        Rotation::Three => Position { x: p.y, y: (-x0) as i32 },
    }
}

/// The position that the symmetry `g` takes to `q`.
#[verifier::opaque]
pub open spec fn turned_back(g: Manipulation, q: Position) -> Position {
    let x0: int = match g.rot {
        Rotation::Zero => q.x as int,
        Rotation::One => q.y as int,
        Rotation::Two => -q.x,
        Rotation::Three => -q.y,
    };
    let y: int = match g.rot {
        Rotation::Zero => q.y as int,
        Rotation::One => -q.x,
        Rotation::Two => -q.y,
        Rotation::Three => q.x as int,
    };
    Position {
        x: (if g.flip {
            -x0
        } else {
            x0
        }) as i32,
        y: y as i32,
    }
}

/// Where the symmetry `g` takes the rectangle `b`.
#[verifier::opaque]
pub open spec fn turned_box(g: Manipulation, b: (i32, i32, i32, i32)) -> (i32, i32, i32, i32) {
    let lo: int = if g.flip {
        -b.1
    } else {
        b.0 as int
    };
    let hi: int = if g.flip {
        -b.0
    } else {
        b.1 as int
    };
    match g.rot {
        Rotation::Zero => (lo as i32, hi as i32, b.2, b.3),
        Rotation::One => ((-b.3) as i32, (-b.2) as i32, lo as i32, hi as i32),
        Rotation::Two => ((-hi) as i32, (-lo) as i32, (-b.3) as i32, (-b.2) as i32),
        Rotation::Three => (b.2, b.3, (-hi) as i32, (-lo) as i32),
    }
}

/// Whether the layout `m` is the layout `l` turned as a whole by `g`: the
/// tile at a position of `l` lies in `m` where `g` takes that position, and
/// `m` holds nothing else.
pub open spec fn is_turned(l: Layout, m: Layout, g: Manipulation) -> bool {
    &&& forall|p: Position| #[trigger]
        l.at.contains_key(p) ==> m.at.contains_key(turned(g, p)) && m.at[turned(g, p)] == l.at[p]
    &&& forall|q: Position| #[trigger]
        m.at.contains_key(q) ==> l.at.contains_key(turned_back(g, q)) && turned(
            g,
            turned_back(g, q),
        ) == q
}

/// Whether the sides of the rectangle lie well inside what 32 bits can
/// name, the least not above the greatest.
pub open spec fn small_box(b: (i32, i32, i32, i32)) -> bool {
    -0x4000_0000 < b.0 <= b.1 < 0x4000_0000 && -0x4000_0000 < b.2 <= b.3 < 0x4000_0000
}

/// A position lies in a rectangle where its image lies in the image of the
/// rectangle, and turning back undoes turning.
pub proof fn lemma_turn_in_box(g: Manipulation, b: (i32, i32, i32, i32), p: Position)
    requires
        small_box(b),
        -0x4000_0000 < p.x < 0x4000_0000,
        -0x4000_0000 < p.y < 0x4000_0000,
    ensures
        in_box(b, p) == in_box(turned_box(g, b), turned(g, p)),
        turned_back(g, turned(g, p)) == p,
{
    reveal(turned);
    reveal(turned_back);
    reveal(turned_box);
    match g.rot {
        Rotation::Zero => {},
        Rotation::One => {},
        Rotation::Two => {},
        Rotation::Three => {},
    }
}

/// A position lies in the image of a rectangle where the position that is
/// taken to it lies in the rectangle, and turning undoes turning back.
pub proof fn lemma_turn_back_in_box(g: Manipulation, b: (i32, i32, i32, i32), q: Position)
    requires
        small_box(b),
        in_box(turned_box(g, b), q),
    ensures
        in_box(b, turned_back(g, q)),
        turned(g, turned_back(g, q)) == q,
        small_box(turned_box(g, b)),
{
    reveal(turned);
    reveal(turned_back);
    reveal(turned_box);
    match g.rot {
        Rotation::Zero => {},
        Rotation::One => {},
        Rotation::Two => {},
        Rotation::Three => {},
    }
}

/// The corners of the image of a rectangle are the images of its corners, so
/// that the tiles at the corners are the same four, and the product of
/// their ids is the same.
pub proof fn lemma_turned_corners(l: Layout, m: Layout, g: Manipulation, b: (i32, i32, i32, i32))
    requires
        small_box(b),
        forall|j: int|
            0 <= j < 4 ==> m.at[turned(g, #[trigger] corners_of(b)[j])] == l.at[corners_of(b)[j]],
    ensures
        forall|k: int|
            0 <= k < 4 ==> exists|j: int|
                0 <= j < 4 && m.at[#[trigger] corners_of(turned_box(g, b))[k]] == l.at[corners_of(
                    b,
                )[j]],
        m.at[corners_of(turned_box(g, b))[0]] * m.at[corners_of(turned_box(g, b))[1]]
            * m.at[corners_of(turned_box(g, b))[2]] * m.at[corners_of(turned_box(g, b))[3]]
            == l.at[corners_of(b)[0]] * l.at[corners_of(b)[1]] * l.at[corners_of(b)[2]]
            * l.at[corners_of(b)[3]],
{
    reveal(turned);
    reveal(turned_box);
    let here = corners_of(b);
    let there = corners_of(turned_box(g, b));
    let l0 = l.at[here[0]] as int;
    let l1 = l.at[here[1]] as int;
    let l2 = l.at[here[2]] as int;
    let l3 = l.at[here[3]] as int;
    let m0 = m.at[there[0]] as int;
    let m1 = m.at[there[1]] as int;
    let m2 = m.at[there[2]] as int;
    let m3 = m.at[there[3]] as int;
    assert(m.at[turned(g, here[0])] == l.at[here[0]]);
    assert(m.at[turned(g, here[1])] == l.at[here[1]]);
    assert(m.at[turned(g, here[2])] == l.at[here[2]]);
    assert(m.at[turned(g, here[3])] == l.at[here[3]]);
    if g.rot == Rotation::Zero && !g.flip {
        assert(there[0] == turned(g, here[0]));
        assert(there[1] == turned(g, here[1]));
        assert(there[2] == turned(g, here[2]));
        assert(there[3] == turned(g, here[3]));
        assert(m0 * m1 * m2 * m3 == l0 * l1 * l2 * l3) by (nonlinear_arith)
            requires
                m0 == l0,
                m1 == l1,
                m2 == l2,
                m3 == l3,
        ;
    }
    if g.rot == Rotation::Zero && g.flip {
        assert(there[0] == turned(g, here[2]));
        assert(there[1] == turned(g, here[3]));
        assert(there[2] == turned(g, here[0]));
        assert(there[3] == turned(g, here[1]));
        assert(m0 * m1 * m2 * m3 == l0 * l1 * l2 * l3) by (nonlinear_arith)
            requires
                m0 == l2,
                m1 == l3,
                m2 == l0,
                m3 == l1,
        ;
    }
    if g.rot == Rotation::One && !g.flip {
        assert(there[0] == turned(g, here[1]));
        assert(there[1] == turned(g, here[3]));
        assert(there[2] == turned(g, here[0]));
        assert(there[3] == turned(g, here[2]));
        assert(m0 * m1 * m2 * m3 == l0 * l1 * l2 * l3) by (nonlinear_arith)
            requires
                m0 == l1,
                m1 == l3,
                m2 == l0,
                m3 == l2,
        ;
    }
    if g.rot == Rotation::One && g.flip {
        assert(there[0] == turned(g, here[3]));
        assert(there[1] == turned(g, here[1]));
        assert(there[2] == turned(g, here[2]));
        assert(there[3] == turned(g, here[0]));
        assert(m0 * m1 * m2 * m3 == l0 * l1 * l2 * l3) by (nonlinear_arith)
            requires
                m0 == l3,
                m1 == l1,
                m2 == l2,
                m3 == l0,
        ;
    }
    if g.rot == Rotation::Two && !g.flip {
        assert(there[0] == turned(g, here[3]));
        assert(there[1] == turned(g, here[2]));
        assert(there[2] == turned(g, here[1]));
        assert(there[3] == turned(g, here[0]));
        assert(m0 * m1 * m2 * m3 == l0 * l1 * l2 * l3) by (nonlinear_arith)
            requires
                m0 == l3,
                m1 == l2,
                m2 == l1,
                m3 == l0,
        ;
    }
    if g.rot == Rotation::Two && g.flip {
        assert(there[0] == turned(g, here[1]));
        assert(there[1] == turned(g, here[0]));
        assert(there[2] == turned(g, here[3]));
        assert(there[3] == turned(g, here[2]));
        assert(m0 * m1 * m2 * m3 == l0 * l1 * l2 * l3) by (nonlinear_arith)
            requires
                m0 == l1,
                m1 == l0,
                m2 == l3,
                m3 == l2,
        ;
    }
    if g.rot == Rotation::Three && !g.flip {
        assert(there[0] == turned(g, here[2]));
        assert(there[1] == turned(g, here[0]));
        assert(there[2] == turned(g, here[3]));
        assert(there[3] == turned(g, here[1]));
        assert(m0 * m1 * m2 * m3 == l0 * l1 * l2 * l3) by (nonlinear_arith)
            requires
                m0 == l2,
                m1 == l0,
                m2 == l3,
                m3 == l1,
        ;
    }
    if g.rot == Rotation::Three && g.flip {
        assert(there[0] == turned(g, here[0]));
        assert(there[1] == turned(g, here[2]));
        assert(there[2] == turned(g, here[1]));
        assert(there[3] == turned(g, here[3]));
        assert(m0 * m1 * m2 * m3 == l0 * l1 * l2 * l3) by (nonlinear_arith)
            requires
                m0 == l0,
                m1 == l2,
                m2 == l1,
                m3 == l3,
        ;
    }
}

/// A layout that fills its bounding rectangle, turned as a whole, fills the
/// turned rectangle, and the tiles at its four corners are the tiles at the
/// four corners of the layout as it was: the product of their ids is the
/// same.
pub proof fn lemma_corners_survive_turning(
    l: Layout,
    m: Layout,
    g: Manipulation,
    b: (i32, i32, i32, i32),
)
    requires
        exists|p: Position| l.at.contains_key(p),
        is_bounds(l, b),
        filled(l, b),
        within(l, 0x4000_0000),
        is_turned(l, m, g),
    ensures
        bounding_box(m) == turned_box(g, b),
        filled(m, turned_box(g, b)),
        forall|k: int|
            0 <= k < 4 ==> exists|j: int|
                0 <= j < 4 && m.at[#[trigger] corners_of(turned_box(g, b))[k]] == l.at[corners_of(
                    b,
                )[j]],
        m.at[corners_of(turned_box(g, b))[0]] * m.at[corners_of(turned_box(g, b))[1]]
            * m.at[corners_of(turned_box(g, b))[2]] * m.at[corners_of(turned_box(g, b))[3]]
            == l.at[corners_of(b)[0]] * l.at[corners_of(b)[1]] * l.at[corners_of(b)[2]]
            * l.at[corners_of(b)[3]],
{
    let tb = turned_box(g, b);
    let p0 = choose|p: Position| #[trigger] l.at.contains_key(p) && p.x == b.0;
    let p1 = choose|p: Position| #[trigger] l.at.contains_key(p) && p.x == b.1;
    let p2 = choose|p: Position| #[trigger] l.at.contains_key(p) && p.y == b.2;
    let p3 = choose|p: Position| #[trigger] l.at.contains_key(p) && p.y == b.3;
    assert(in_box(b, p0) && in_box(b, p1) && in_box(b, p2) && in_box(b, p3));
    assert(small_box(b));
    assert forall|q: Position| #[trigger] m.at.contains_key(q) implies in_box(tb, q) by {
        let p = turned_back(g, q);
        assert(l.at.contains_key(p));
        assert(in_box(b, p));
        lemma_turn_in_box(g, b, p);
    }
    assert forall|q: Position| in_box(tb, q) implies #[trigger] m.at.contains_key(q) by {
        lemma_turn_back_in_box(g, b, q);
        assert(l.at.contains_key(turned_back(g, q)));
    }
    let c0 = Position { x: tb.0, y: tb.2 };
    let c1 = Position { x: tb.1, y: tb.3 };
    assert(m.at.contains_key(turned(g, p0)));
    assert(in_box(tb, turned(g, p0)));
    lemma_turn_back_in_box(g, b, turned(g, p0));
    assert(in_box(tb, c0) && in_box(tb, c1));
    assert(m.at.contains_key(c0) && m.at.contains_key(c1));
    assert(is_bounds(m, tb));
    lemma_bounds_unique(m, tb);
    assert forall|j: int| 0 <= j < 4 implies m.at[turned(g, #[trigger] corners_of(b)[j])]
        == l.at[corners_of(b)[j]] by {
        assert(in_box(b, corners_of(b)[j]));
        assert(l.at.contains_key(corners_of(b)[j]));
    }
    lemma_turned_corners(l, m, g, b);
}

} // verus!
