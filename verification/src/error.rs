//! The conditions under which the jigsaw gives up.
use vstd::prelude::*;

verus! {

/// What is wrong with the text of a tile, or with a set of tiles.
#[derive(Debug, Clone, Copy, PartialEq, Eq, Structural)]
pub enum InputFault {
    /// The first line is not `Tile `, a decimal number that fits in 32 bits
    /// with a sign, and a colon.
    BadHeader,
    /// The lines after the header do not form a square.
    NotSquare,
    /// A cell is neither `#` nor `.`.
    BadCharacter,
    /// Two tiles of one set differ in size.
    InconsistentSize,
    /// Two tiles of one set have the same id.
    DuplicateId,
    /// There are more tiles than positions along an axis of the plane.
    TooManyTiles,
}

/// Every failure is final: nothing is retried and no partial result is
/// handed out.
#[derive(Debug, Clone, Copy, PartialEq, Eq, Structural)]
pub enum JigsawError {
    /// The input is not a set of equally sized square tiles.
    MalformedInput(InputFault),
    /// A whole scan of the frontier found no position with exactly one
    /// fitting candidate.
    SolverDeadlock,
    /// An edge of the frontier is missing from the edge index.
    IndexInconsistency,
    /// The bounding rectangle of the solution has an empty cell.
    NonRectangularSolution,
    /// The tiles are less than three cells wide, so that no tile has an
    /// interior and there is no image.
    NoInterior,
    /// None of the eight orientations of the image shows the motif.
    NoMotifOrientation,
    /// The motifs found account for more foreground cells than the image has.
    RoughnessUnderflow,
    /// The assembled image would have more cells than can be addressed.
    ImageTooLarge,
}

} // verus!
