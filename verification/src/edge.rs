//! Edge fingerprints: the border rows and columns of a matrix read as binary
//! numbers.
//!
//! A row is always read from left to right and a column from top to bottom.
//! Two tiles that touch therefore agree along their common border exactly
//! when the fingerprint of the one on the touching side equals the fingerprint
//! of the other on the opposite side: no reversal is needed.
use crate::grid::Bitmap;
use crate::manipulation::{opposite_direction, Direction};
use crate::tile::binary;
use vstd::prelude::*;

verus! {

/// The fingerprint of one border row or column.
#[derive(Debug, Clone, Copy, Hash, PartialEq, Eq, Structural)]
pub struct EdgePattern {
    pub bits: i32,
}

/// A fingerprint together with the side it was read from.
#[derive(Debug, Clone, Copy, Hash, PartialEq, Eq, Structural)]
pub struct EdgeKey {
    pub direction: Direction,
    pub pattern: EdgePattern,
}

/// The cells of a border read as a binary number, first cell first.  Every
/// step shifts the number one place to the left and puts the next cell into
/// the lowest bit; with more than 31 cells the leading ones are lost.
pub open spec fn edge_bits(edge: Seq<u8>) -> i32
    decreases edge.len(),
{
    if edge.len() == 0 {
        0
    } else {
        (edge_bits(edge.drop_last()) << 1) | (edge.last() as i32)
    }
}

/// The cells of the border of `rows` on the side `d`: the top or bottom row
/// from left to right, or the left or right column from top to bottom.
pub open spec fn border(rows: Seq<Seq<u8>>, width: nat, d: Direction) -> Seq<u8> {
    match d {
        Direction::N => rows[0],
        Direction::E => Seq::new(rows.len(), |i: int| rows[i][width - 1]),
        Direction::S => rows[rows.len() - 1],
        Direction::W => Seq::new(rows.len(), |i: int| rows[i][0]),
    }
}

/// The fingerprint of `rows` on the side `d`.
pub open spec fn fingerprint(rows: Seq<Seq<u8>>, width: nat, d: Direction) -> i32 {
    edge_bits(border(rows, width, d))
}

/// The match rule: a candidate fits a neighbour that lies in the direction
/// `d` when its border on that side and the neighbour's border on the
/// opposite side have the same fingerprint.
pub open spec fn edges_match(
    candidate: Seq<Seq<u8>>,
    candidate_width: nat,
    d: Direction,
    neighbour: Seq<Seq<u8>>,
    neighbour_width: nat,
) -> bool {
    fingerprint(candidate, candidate_width, d) == fingerprint(
        neighbour,
        neighbour_width,
        d.opposite(),
    )
}

impl EdgePattern {
    /// The fingerprint of a border whose cells are `edge`.
    pub fn from_edge(edge: &Vec<u8>) -> (r: EdgePattern)
        requires
            forall|i: int| 0 <= i < edge.len() ==> edge[i] <= 1,
        ensures
            r.bits == edge_bits(edge@),
    {
        let mut bits: i32 = 0;
        let mut i: usize = 0;
        proof {
            assert(edge@.take(0) =~= Seq::<u8>::empty());
        }
        while i < edge.len()
            invariant
                0 <= i <= edge.len(),
                forall|k: int| 0 <= k < edge.len() ==> edge[k] <= 1,
                bits == edge_bits(edge@.take(i as int)),
            decreases edge.len() - i,
        {
            let bit: i32 = if edge[i] == 0 {
                0
            } else {
                1
            };
            proof {
                assert(edge@.take(i + 1).drop_last() =~= edge@.take(i as int));
                assert(edge@.take(i + 1).last() == edge[i as int]);
            }
            bits = (bits << 1) | bit;
            i += 1;
        }
        assert(edge@.take(edge.len() as int) =~= edge@);
        EdgePattern { bits }
    }

    /// The fingerprint of the matrix `m` on the side `d`.
    pub fn from_matrix(d: &Direction, m: &Bitmap) -> (r: EdgePattern)
        requires
            m.wf(),
            m.height() >= 1,
            m.width() >= 1,
            binary(m@),
        ensures
            r.bits == fingerprint(m@, m.width(), *d),
    {
        let edge = match d {
            Direction::N => m.lane(0, 0),
            Direction::E => m.lane(1, m.ncols() - 1),
            Direction::S => m.lane(0, m.nrows() - 1),
            Direction::W => m.lane(1, 0),
        };
        assert(edge@ =~= border(m@, m.width(), *d));
        assert forall|i: int| 0 <= i < edge.len() implies edge[i] <= 1 by {
            match d {
                Direction::N => {
                    assert(m@[0][i] <= 1);
                },
                Direction::E => {
                    assert(m@[i][m.width() - 1] <= 1);
                },
                Direction::S => {
                    assert(m@[m.height() - 1][i] <= 1);
                },
                Direction::W => {
                    assert(m@[i][0] <= 1);
                },
            }
        }
        EdgePattern::from_edge(&edge)
    }
}

impl EdgeKey {
    /// The key of the matrix `m` on the side `d`.
    pub fn from_matrix(d: &Direction, m: &Bitmap) -> (r: EdgeKey)
        requires
            m.wf(),
            m.height() >= 1,
            m.width() >= 1,
            binary(m@),
        ensures
            r.direction == *d,
            r.pattern.bits == fingerprint(m@, m.width(), *d),
    {
        EdgeKey { direction: *d, pattern: EdgePattern::from_matrix(d, m) }
    }

    /// The key that a matching neighbour shows: the same fingerprint on the
    /// opposite side.
    pub fn opposing(&self) -> (r: EdgeKey)
        ensures
            r.direction == self.direction.opposite(),
            r.pattern == self.pattern,
    {
        EdgeKey { direction: opposite_direction(&self.direction), pattern: self.pattern }
    }
}

/// The four keys of a matrix, in the order north, east, south, west.
pub fn get_edge_keys(m: &Bitmap) -> (r: [EdgeKey; 4])
    requires
        m.wf(),
        m.height() >= 1,
        m.width() >= 1,
        binary(m@),
    ensures
        r[0].direction == Direction::N,
        r[1].direction == Direction::E,
        r[2].direction == Direction::S,
        r[3].direction == Direction::W,
        forall|i: int| 0 <= i < 4 ==> (#[trigger] r[i]).pattern.bits == fingerprint(
            m@,
            m.width(),
            r[i].direction,
        ),
{
    [
        EdgeKey::from_matrix(&Direction::N, m),
        EdgeKey::from_matrix(&Direction::E, m),
        EdgeKey::from_matrix(&Direction::S, m),
        EdgeKey::from_matrix(&Direction::W, m),
    ]
}

/// Whether `candidate` fits `neighbour`, which lies in the direction
/// `neighbour_direction` from it.
pub fn edge_match(candidate: &Bitmap, neighbour_direction: &Direction, neighbour: &Bitmap) -> (r:
    bool)
    requires
        candidate.wf(),
        candidate.height() >= 1,
        candidate.width() >= 1,
        binary(candidate@),
        neighbour.wf(),
        neighbour.height() >= 1,
        neighbour.width() >= 1,
        binary(neighbour@),
    ensures
        r == edges_match(
            candidate@,
            candidate.width(),
            *neighbour_direction,
            neighbour@,
            neighbour.width(),
        ),
{
    let candidate_edge_key = EdgeKey::from_matrix(neighbour_direction, candidate);
    let neighbour_edge_key = EdgeKey::from_matrix(
        &opposite_direction(neighbour_direction),
        neighbour,
    );
    let opposing = neighbour_edge_key.opposing();
    opposing.direction == candidate_edge_key.direction && opposing.pattern.bits
        == candidate_edge_key.pattern.bits
}

} // verus!
