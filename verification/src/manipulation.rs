//! The eight symmetries of a square: a mirror image, or not, followed by a
//! counter-clockwise rotation through a multiple of a quarter turn.
use crate::grid::{slice_rows, transpose_rows, Bitmap};
use vstd::prelude::*;
use vstd::string::StrSliceExecFns;

verus! {

/// A side of a tile, or the step from a position to its neighbour on that
/// side.  North is up, east is right.
#[derive(Debug, Clone, Copy, PartialEq, Eq, Hash, Structural)]
pub enum Direction {
    N,
    E,
    S,
    W,
}

impl Direction {
    /// The side that faces this one.
    pub open spec fn opposite(self) -> Direction {
        match self {
            Direction::N => Direction::S,
            Direction::E => Direction::W,
            Direction::S => Direction::N,
            Direction::W => Direction::E,
        }
    }

    /// The four directions, in the order north, east, south, west.
    pub fn all() -> (r: [Direction; 4])
        ensures
            r@ == seq![Direction::N, Direction::E, Direction::S, Direction::W],
    {
        let r = [Direction::N, Direction::E, Direction::S, Direction::W];
        assert(r@ =~= seq![Direction::N, Direction::E, Direction::S, Direction::W]);
        r
    }
}

/// The side that faces `d`.
pub fn opposite_direction(d: &Direction) -> (r: Direction)
    ensures
        r == d.opposite(),
{
    match d {
        Direction::N => Direction::S,
        Direction::E => Direction::W,
        Direction::S => Direction::N,
        Direction::W => Direction::E,
    }
}

/// A counter-clockwise rotation through 0, 1, 2 or 3 quarter turns.
#[derive(Debug, Clone, Copy, PartialEq, Eq, Structural)]
pub enum Rotation {
    Zero,
    One,
    Two,
    Three,
}

impl Rotation {
    /// The number of quarter turns.
    pub open spec fn quarter_turns(self) -> int {
        match self {
            Rotation::Zero => 0,
            Rotation::One => 1,
            Rotation::Two => 2,
            Rotation::Three => 3,
        }
    }

    /// The rotation through `n` quarter turns.
    pub open spec fn of(n: int) -> Rotation {
        if n == 0 {
            Rotation::Zero
        } else if n == 1 {
            Rotation::One
        } else if n == 2 {
            Rotation::Two
        } else {
            Rotation::Three
        }
    }
}

/// One of the eight symmetries: first the mirror image (left and right
/// exchanged) if `flip` is set, then the rotation.
#[derive(Debug, Clone, Copy, PartialEq, Eq, Structural)]
pub struct Manipulation {
    pub rot: Rotation,
    pub flip: bool,
}

/// Why a string does not name a manipulation.
#[derive(Debug, Clone, Copy, PartialEq, Eq, Structural)]
pub enum ManipulationError {
    /// The first character is not `R`.
    MustBeginWithR,
    /// There is no second character.
    TooShort,
    /// The second character is not one of `0`, `1`, `2`, `3`.
    InvalidRotation(char),
    /// The third character is not `F`.
    MustHaveF,
    /// The fourth character is missing or is not `Y` or `N`.
    FlipMustBeYOrN,
    /// There is a fifth character.
    TrailingGarbage,
}

/// The mirror image of a rectangle: every row reversed.
pub open spec fn mirror_rows(rows: Seq<Seq<u8>>, width: nat) -> Seq<Seq<u8>> {
    Seq::new(rows.len(), |i: int| Seq::new(width, |j: int| rows[i][width - 1 - j]))
}

/// A rectangle rotated counter-clockwise.  After one quarter turn the right
/// column has become the top row.
pub open spec fn rotate_rows(rot: Rotation, rows: Seq<Seq<u8>>, width: nat) -> Seq<Seq<u8>> {
    let height = rows.len();
    match rot {
        Rotation::Zero => rows,
        Rotation::One => Seq::new(width, |i: int| Seq::new(height, |j: int| rows[j][width - 1 - i])),
        Rotation::Two => Seq::new(
            height,
            |i: int| Seq::new(width, |j: int| rows[height - 1 - i][width - 1 - j]),
        ),
        Rotation::Three => Seq::new(
            width,
            |i: int| Seq::new(height, |j: int| rows[height - 1 - j][i]),
        ),
    }
}

/// The width of a rectangle of the given extents after a rotation.
pub open spec fn rotated_width(rot: Rotation, height: nat, width: nat) -> nat {
    match rot {
        Rotation::Zero | Rotation::Two => width,
        Rotation::One | Rotation::Three => height,
    }
}

impl Manipulation {
    /// The manipulation with the number `n`: the two low bits count the
    /// quarter turns, the next bit says whether to mirror.
    pub open spec fn from_index(n: i32) -> Manipulation {
        Manipulation { rot: Rotation::of((n & 0x03) as int), flip: (n & 0x04) != 0 }
    }

    /// The number of this manipulation, from 0 to 7.
    pub open spec fn index(self) -> int {
        self.rot.quarter_turns() + if self.flip {
            4int
        } else {
            0int
        }
    }

    /// The rows of a rectangle after this manipulation.
    pub open spec fn apply(self, rows: Seq<Seq<u8>>, width: nat) -> Seq<Seq<u8>> {
        rotate_rows(
            self.rot,
            if self.flip {
                mirror_rows(rows, width)
            } else {
                rows
            },
            width,
        )
    }

    /// The width of a rectangle after this manipulation.
    pub open spec fn apply_width(self, height: nat, width: nat) -> nat {
        rotated_width(self.rot, height, width)
    }

    /// The manipulation that undoes this one.  A quarter turn is undone by
    /// three more; a manipulation that mirrors undoes itself.
    pub open spec fn inverse_spec(self) -> Manipulation {
        if self.flip {
            self
        } else {
            Manipulation {
                rot: match self.rot {
                    Rotation::Zero => Rotation::Zero,
                    Rotation::One => Rotation::Three,
                    Rotation::Two => Rotation::Two,
                    Rotation::Three => Rotation::One,
                },
                flip: false,
            }
        }
    }

    /// The four characters that name this manipulation: `R`, the number of
    /// quarter turns, `F`, and `Y` or `N` for the mirror.
    pub open spec fn name(self) -> Seq<char> {
        seq![
            'R',
            match self.rot {
                Rotation::Zero => '0',
                Rotation::One => '1',
                Rotation::Two => '2',
                Rotation::Three => '3',
            },
            'F',
            if self.flip {
                'Y'
            } else {
                'N'
            },
        ]
    }

    /// What a string names.  The checks run from the left and the first one
    /// that fails decides the error; the checks of the letters `R` and `F`
    /// pass when the string ends before them.
    pub open spec fn parse(s: Seq<char>) -> Result<Manipulation, ManipulationError> {
        if s.len() >= 1 && s[0] != 'R' {
            Err(ManipulationError::MustBeginWithR)
        } else if s.len() < 2 {
            Err(ManipulationError::TooShort)
        } else if !(s[1] == '0' || s[1] == '1' || s[1] == '2' || s[1] == '3') {
            Err(ManipulationError::InvalidRotation(s[1]))
        } else if s.len() >= 3 && s[2] != 'F' {
            Err(ManipulationError::MustHaveF)
        } else if s.len() < 4 || !(s[3] == 'Y' || s[3] == 'N') {
            Err(ManipulationError::FlipMustBeYOrN)
        } else if s.len() > 4 {
            Err(ManipulationError::TrailingGarbage)
        } else {
            Ok(
                Manipulation {
                    rot: if s[1] == '0' {
                        Rotation::Zero
                    } else if s[1] == '1' {
                        Rotation::One
                    } else if s[1] == '2' {
                        Rotation::Two
                    } else {
                        Rotation::Three
                    },
                    flip: s[3] == 'Y',
                },
            )
        }
    }

    /// The manipulation with the number `n`.
    pub fn new(n: i32) -> (r: Manipulation)
        ensures
            r == Manipulation::from_index(n),
            0 <= n < 8 ==> r.index() == n,
    {
        let low = n & 0x03;
        let high = n & 0x04;
        assert(0 <= low < 4) by (bit_vector)
            requires
                low == n & 0x03,
        ;
        assert(0 <= n < 8 ==> low + high == n) by (bit_vector)
            requires
                low == n & 0x03,
                high == n & 0x04,
        ;
        assert(high == 0 || high == 4) by (bit_vector)
            requires
                high == n & 0x04,
        ;
        Manipulation {
            rot: if low == 0 {
                Rotation::Zero
            } else if low == 1 {
                Rotation::One
            } else if low == 2 {
                Rotation::Two
            } else {
                Rotation::Three
            },
            flip: high != 0,
        }
    }

    /// The manipulation that changes nothing.
    pub fn noop() -> (r: Manipulation)
        ensures
            r == (Manipulation { rot: Rotation::Zero, flip: false }),
            r.index() == 0,
    {
        Manipulation { rot: Rotation::Zero, flip: false }
    }

    /// All eight manipulations, ordered by their numbers.
    pub fn all() -> (r: Vec<Manipulation>)
        ensures
            r.len() == 8,
            forall|i: int| 0 <= i < 8 ==> (#[trigger] r[i]).index() == i,
    {
        let mut out: Vec<Manipulation> = Vec::new();
        let mut n: i32 = 0;
        while n < 8
            invariant
                0 <= n <= 8,
                out.len() == n,
                forall|i: int| 0 <= i < n ==> (#[trigger] out[i]).index() == i,
            decreases 8 - n,
        {
            out.push(Manipulation::new(n));
            n += 1;
        }
        out
    }

    /// The manipulation that undoes this one.
    pub fn inverse(&self) -> (r: Manipulation)
        ensures
            r == self.inverse_spec(),
    {
        if self.flip {
            *self
        } else {
            Manipulation {
                rot: match self.rot {
                    Rotation::Zero => Rotation::Zero,
                    Rotation::One => Rotation::Three,
                    Rotation::Two => Rotation::Two,
                    Rotation::Three => Rotation::One,
                },
                flip: false,
            }
        }
    }

    /// The name of this manipulation, such as `R1FN`.
    pub fn as_string(&self) -> (r: &'static str)
        ensures
            r@ == self.name(),
    {
        proof {
            reveal_strlit("R0FN");
            reveal_strlit("R1FN");
            reveal_strlit("R2FN");
            reveal_strlit("R3FN");
            reveal_strlit("R0FY");
            reveal_strlit("R1FY");
            reveal_strlit("R2FY");
            reveal_strlit("R3FY");
        }
        let r = match (self.rot, self.flip) {
            (Rotation::Zero, false) => "R0FN",
            (Rotation::One, false) => "R1FN",
            (Rotation::Two, false) => "R2FN",
            (Rotation::Three, false) => "R3FN",
            (Rotation::Zero, true) => "R0FY",
            (Rotation::One, true) => "R1FY",
            (Rotation::Two, true) => "R2FY",
            (Rotation::Three, true) => "R3FY",
        };
        assert(r@ =~= self.name());
        r
    }

    /// Reads a manipulation from its name.
    pub fn from_str(s: &str) -> (r: Result<Manipulation, ManipulationError>)
        ensures
            r == Manipulation::parse(s@),
    {
        let n = s.unicode_len();
        if n >= 1 && s.get_char(0) != 'R' {
            return Err(ManipulationError::MustBeginWithR);
        }
        if n < 2 {
            return Err(ManipulationError::TooShort);
        }
        let digit = s.get_char(1);
        let rot = if digit == '0' {
            Rotation::Zero
        } else if digit == '1' {
            Rotation::One
        } else if digit == '2' {
            Rotation::Two
        } else if digit == '3' {
            Rotation::Three
        } else {
            return Err(ManipulationError::InvalidRotation(digit));
        };
        if n >= 3 && s.get_char(2) != 'F' {
            return Err(ManipulationError::MustHaveF);
        }
        if n < 4 {
            return Err(ManipulationError::FlipMustBeYOrN);
        }
        let mark = s.get_char(3);
        let flip = if mark == 'Y' {
            true
        } else if mark == 'N' {
            false
        } else {
            return Err(ManipulationError::FlipMustBeYOrN);
        };
        if n > 4 {
            return Err(ManipulationError::TrailingGarbage);
        }
        Ok(Manipulation { rot, flip })
    }

    /// The mirror image of `tiledata` if this manipulation mirrors, else a
    /// copy of it.
    pub fn do_flip(&self, tiledata: Bitmap) -> (r: Bitmap)
        requires
            tiledata.wf(),
            tiledata.height() <= isize::MAX,
            tiledata.width() <= isize::MAX,
        ensures
            r.wf(),
            r.width() == tiledata.width(),
            r@ == (if self.flip {
                mirror_rows(tiledata@, tiledata.width())
            } else {
                tiledata@
            }),
    {
        if self.flip {
            let width = tiledata.ncols();
            let r = tiledata.sliced(1, 0, width, -1);
            assert(r@ =~= mirror_rows(tiledata@, tiledata.width())) by {
                assert forall|i: int| 0 <= i < r@.len() implies r@[i] =~= mirror_rows(
                    tiledata@,
                    tiledata.width(),
                )[i] by {}
            }
            r
        } else {
            tiledata
        }
    }

    /// `tiledata` rotated counter-clockwise by this manipulation's rotation.
    pub fn do_rot(&self, tiledata: Bitmap) -> (r: Bitmap)
        requires
            tiledata.wf(),
            tiledata.height() <= isize::MAX,
            tiledata.width() <= isize::MAX,
        ensures
            r.wf(),
            r.width() == rotated_width(self.rot, tiledata.height(), tiledata.width()),
            r@ == rotate_rows(self.rot, tiledata@, tiledata.width()),
    {
        let height = tiledata.nrows();
        let width = tiledata.ncols();
        let ghost want = rotate_rows(self.rot, tiledata@, tiledata.width());
        match self.rot {
            Rotation::Zero => tiledata,
            Rotation::One => {
                let mirrored = tiledata.sliced(1, 0, width, -1);
                let r = mirrored.transposed();
                assert(r@ =~= want) by {
                    assert forall|i: int| 0 <= i < r@.len() implies r@[i] =~= want[i] by {}
                }
                r
            },
            Rotation::Two => {
                let upside_down = tiledata.sliced(0, 0, height, -1);
                let r = upside_down.sliced(1, 0, width, -1);
                assert(r@ =~= want) by {
                    assert forall|i: int| 0 <= i < r@.len() implies r@[i] =~= want[i] by {}
                }
                r
            },
            Rotation::Three => {
                let upside_down = tiledata.sliced(0, 0, height, -1);
                let r = upside_down.transposed();
                assert(r@ =~= want) by {
                    assert forall|i: int| 0 <= i < r@.len() implies r@[i] =~= want[i] by {}
                }
                r
            },
        }
    }

    /// The matrix `m` after this manipulation: mirrored if asked for, then
    /// rotated.
    pub fn on(&self, m: &Bitmap) -> (r: Bitmap)
        requires
            m.wf(),
            m.height() <= isize::MAX,
            m.width() <= isize::MAX,
        ensures
            r.wf(),
            r.width() == self.apply_width(m.height(), m.width()),
            r@ == self.apply(m@, m.width()),
            r.height() == self.apply_width(m.width(), m.height()),
    {
        let height = m.nrows();
        let copy = m.sliced(0, 0, height, 1);
        assert(copy@ =~= m@);
        let flipped = self.do_flip(copy);
        self.do_rot(flipped)
    }
}

/// A manipulation turns a rectangle into a rectangle: the extents are kept by
/// the rotations through no or two quarter turns and exchanged by the others.
pub proof fn lemma_apply_shape(m: Manipulation, rows: Seq<Seq<u8>>, width: nat)
    requires
        crate::grid::rectangular(rows, width),
    ensures
        m.apply(rows, width).len() == m.apply_width(width, rows.len()),
        crate::grid::rectangular(m.apply(rows, width), m.apply_width(rows.len(), width)),
{
}

/// Applying a manipulation and then its inverse gives the matrix back, for
/// every manipulation and every rectangular matrix.
pub proof fn lemma_inverse_undoes(m: Manipulation, rows: Seq<Seq<u8>>, width: nat)
    requires
        crate::grid::rectangular(rows, width),
    ensures
        m.inverse_spec().apply(m.apply(rows, width), m.apply_width(rows.len(), width)) == rows,
{
    let once = m.apply(rows, width);
    let once_width = m.apply_width(rows.len(), width);
    let back = m.inverse_spec().apply(once, once_width);
    lemma_apply_shape(m, rows, width);
    assert(back.len() == rows.len());
    assert forall|i: int| 0 <= i < rows.len() implies back[i] =~= rows[i] by {
        assert(rows[i].len() == width);
    }
    assert(back =~= rows);
}

} // verus!
