//! The whole way from the texts of the tiles to the two answers: the product
//! of the ids of the corner tiles and the roughness of the image.
use crate::assemble::{bounding_box, corner_product, corners_of};
use crate::catalog::TileCatalog;
use crate::edge::{edge_match, edges_match};
use crate::error::{InputFault, JigsawError};
use crate::manipulation::{Direction, Manipulation, Rotation};
use crate::motif::solve2;
use crate::solution::{Layout, TileLocationSolution};
use crate::solver::{
    adjacent_match, entries_under, index_view, is_index_of, make_tile_index, placed_known, solve,
    solve1, TileIndexEntry,
};
use crate::tile::{header_id, line_end, suggested_size, text_fault, text_rows, Tile, TileId};
use vstd::prelude::*;

verus! {

/// The two answers.
#[derive(Debug, Clone, Copy, PartialEq, Eq, Structural)]
pub struct Report {
    pub corner_product: i128,
    pub roughness: usize,
}

/// The edge index of a catalog: under each fingerprint that some border
/// shows, the entries of all borders that show it.
pub open spec fn catalog_index(catalog: &TileCatalog) -> Map<i32, Seq<TileIndexEntry>> {
    Map::new(
        |f: i32| entries_under(catalog, f, 32 * (catalog@.len() as int)).len() > 0,
        |f: i32| entries_under(catalog, f, 32 * (catalog@.len() as int)),
    )
}

/// A catalog has one edge index.
pub proof fn lemma_index_unique(ix: Map<i32, Seq<TileIndexEntry>>, catalog: &TileCatalog)
    requires
        is_index_of(ix, catalog),
    ensures
        ix == catalog_index(catalog),
{
    assert(ix =~= catalog_index(catalog));
}

/// The manipulation of the first tile: the mirror image.
pub open spec fn seed_manipulation() -> Manipulation {
    Manipulation { rot: Rotation::Zero, flip: true }
}

/// The first part: builds the edge index and places all tiles, the first
/// one mirrored.
pub fn part1(tiles: &TileCatalog) -> (r: Result<TileLocationSolution, JigsawError>)
    requires
        tiles.wf(),
    ensures
        r is Ok <==> solve(tiles, catalog_index(tiles), seed_manipulation()) is Ok,
        r matches Err(e) ==> solve(tiles, catalog_index(tiles), seed_manipulation()) == Err::<
            Layout,
            JigsawError,
        >(e),
        r matches Ok(s) ==> {
            &&& solve(tiles, catalog_index(tiles), seed_manipulation()) == Ok::<
                Layout,
                JigsawError,
            >(s@)
            &&& s.wf()
            &&& adjacent_match(tiles, s@)
            &&& s@.placed.dom() == tiles.ids()
            &&& s@.placed.dom().len() == tiles@.len()
            &&& s@.at.dom().len() == tiles@.len()
            &&& crate::assemble::rectangle_law(s@, tiles@.len() as int)
        },
        !(r matches Err(JigsawError::IndexInconsistency)),
{
    let ix = make_tile_index(tiles);
    proof {
        lemma_index_unique(index_view(&ix), tiles);
    }
    let initial_manip = Manipulation { rot: Rotation::Zero, flip: true };
    solve1(tiles, &ix, &initial_manip)
}

/// The second part: the roughness of the image of a finished layout.
pub fn part2(tiles: &TileCatalog, solution: &TileLocationSolution) -> (r: Result<usize, JigsawError>)
    requires
        tiles.wf(),
        solution.wf(),
        placed_known(tiles, solution@),
    ensures
        r == crate::motif::roughness_of_layout(tiles, solution@),
{
    solve2(tiles, solution)
}

/// The fault of the first of the first `n` records that has one.
pub open spec fn first_text_fault(records: Seq<String>, n: int) -> Option<InputFault>
    decreases n,
{
    if n <= 0 {
        None
    } else if first_text_fault(records, n - 1) is Some {
        first_text_fault(records, n - 1)
    } else {
        text_fault(records[n - 1]@)
    }
}

/// Once a faulty record was found, the records after it change nothing.
pub proof fn lemma_text_fault_sticks(records: Seq<String>, n: int, m: int)
    requires
        0 <= n <= m,
        first_text_fault(records, n) is Some,
    ensures
        first_text_fault(records, m) == first_text_fault(records, n),
    decreases m - n,
{
    if n < m {
        lemma_text_fault_sticks(records, n, m - 1);
    }
}

/// Whether the tile is what the text says: the id of the header and the
/// rows of the cells.
pub open spec fn tile_reads(t: Tile, text: Seq<char>) -> bool {
    &&& t.id.val == header_id(text.subrange(0, line_end(text, 0)))
    &&& t.d@ == text_rows(text, line_end(text, 0), suggested_size(text, line_end(text, 0)))
}

/// Whether the catalog holds the tiles of the records, in their order.
pub open spec fn catalog_reads(catalog: TileCatalog, records: Seq<String>) -> bool {
    &&& catalog.wf()
    &&& catalog@.len() == records.len()
    &&& forall|i: int| 0 <= i < records.len() ==> tile_reads(#[trigger] catalog@[i], records[i]@)
}

/// The product of the ids of the tiles at the four corners of the bounding
/// rectangle of a layout.
pub open spec fn product_of_corners(l: Layout) -> int {
    l.at[corners_of(bounding_box(l))[0]] * l.at[corners_of(bounding_box(l))[1]]
        * l.at[corners_of(bounding_box(l))[2]] * l.at[corners_of(bounding_box(l))[3]]
}

/// What comes of a catalog: the failure of the solver, or of the search for
/// the corners, or of the image, or else the two answers.  The layout is the
/// one that the solver finds from the mirrored first tile.
pub open spec fn outcome(catalog: TileCatalog) -> Result<Report, JigsawError> {
    match solve(&catalog, catalog_index(&catalog), seed_manipulation()) {
        Err(e) => Err(e),
        Ok(l) => if !(forall|k: int|
            0 <= k < 4 ==> l.at.contains_key(#[trigger] corners_of(bounding_box(l))[k])) {
            Err(JigsawError::NonRectangularSolution)
        } else {
            match crate::motif::roughness_of_layout(&catalog, l) {
                Err(e) => Err(e),
                Ok(roughness) => Ok(
                    Report { corner_product: product_of_corners(l) as i128, roughness },
                ),
            }
        },
    }
}

/// The size of the tile that a text holds.
pub open spec fn size_in(text: Seq<char>) -> int {
    suggested_size(text, line_end(text, 0))
}

/// The id of the tile that a text holds.
pub open spec fn id_in(text: Seq<char>) -> int {
    header_id(text.subrange(0, line_end(text, 0)))
}

/// What is wrong with the tiles of the records taken together, where each
/// record by itself is a tile: too many tiles, then tiles of different
/// sizes, then two tiles with one id.
pub open spec fn catalog_fault(records: Seq<String>) -> Option<InputFault> {
    if records.len() >= 0x7fff_ffff {
        Some(InputFault::TooManyTiles)
    } else if !(forall|i: int|
        0 <= i < records.len() ==> size_in(#[trigger] records[i]@) == size_in(records[0]@)) {
        Some(InputFault::InconsistentSize)
    } else if !(forall|i: int, j: int|
        0 <= i < j < records.len() ==> id_in(#[trigger] records[i]@) != id_in(
            #[trigger] records[j]@,
        )) {
        Some(InputFault::DuplicateId)
    } else {
        None
    }
}

/// Reads the tiles from their texts, one text for each tile, solves the
/// puzzle and gives both answers.  Every failure is handed up as it is.
pub fn run(records: &Vec<String>) -> (r: Result<Report, JigsawError>)
    ensures
        first_text_fault(records@, records@.len() as int) matches Some(fault) ==> r == Err::<
            Report,
            JigsawError,
        >(JigsawError::MalformedInput(fault)),
        first_text_fault(records@, records@.len() as int) is None ==> match catalog_fault(
            records@,
        ) {
            Some(fault) => r == Err::<Report, JigsawError>(JigsawError::MalformedInput(fault)),
            None => exists|catalog: TileCatalog| #[trigger]
                catalog_reads(catalog, records@) && r == outcome(catalog),
        },
        !(r matches Err(JigsawError::IndexInconsistency)),
{
    let mut tiles: Vec<Tile> = Vec::new();
    let mut i: usize = 0;
    while i < records.len()
        invariant
            0 <= i <= records@.len(),
            tiles@.len() == i,
            first_text_fault(records@, i as int) is None,
            forall|k: int| 0 <= k < i ==> (#[trigger] tiles@[k]).wf(),
            forall|k: int| 0 <= k < i ==> tile_reads(#[trigger] tiles@[k], records@[k]@),
            forall|k: int| 0 <= k < i ==> (#[trigger] tiles@[k]).size() == size_in(records@[k]@),
        decreases records@.len() - i,
    {
        match Tile::from_string(records[i].as_str()) {
            Ok(tile) => {
                tiles.push(tile);
            },
            Err(fault) => {
                proof {
                    lemma_text_fault_sticks(records@, i + 1, records@.len() as int);
                }
                return Err(JigsawError::MalformedInput(fault));
            },
        }
        i += 1;
    }
    if tiles.len() >= 0x7fff_ffff {
        return Err(JigsawError::MalformedInput(InputFault::TooManyTiles));
    }
    proof {
        let sizes_agree = forall|i: int|
            0 <= i < records@.len() ==> size_in(#[trigger] records@[i]@) == size_in(records@[0]@);
        let ids_differ = forall|i: int, j: int|
            0 <= i < j < records@.len() ==> id_in(#[trigger] records@[i]@) != id_in(
                #[trigger] records@[j]@,
            );
        if crate::catalog::same_size(tiles@) {
            assert forall|i: int| 0 <= i < records@.len() implies size_in(
                #[trigger] records@[i]@,
            ) == size_in(records@[0]@) by {
                assert(tiles@[i].size() == tiles@[0].size());
            }
        }
        if sizes_agree {
            assert forall|i: int| 0 <= i < tiles@.len() implies (#[trigger] tiles@[i]).size()
                == tiles@[0].size() by {
                assert(size_in(records@[i]@) == size_in(records@[0]@));
            }
        }
        assert(crate::catalog::same_size(tiles@) == sizes_agree);
        if crate::catalog::distinct_ids(tiles@) {
            assert forall|i: int, j: int| 0 <= i < j < records@.len() implies id_in(
                #[trigger] records@[i]@,
            ) != id_in(#[trigger] records@[j]@) by {
                assert(tiles@[i].id.val != tiles@[j].id.val);
            }
        }
        if ids_differ {
            assert forall|i: int, j: int| 0 <= i < j < tiles@.len() implies (
            #[trigger] tiles@[i]).id.val != (#[trigger] tiles@[j]).id.val by {
                assert(id_in(records@[i]@) != id_in(records@[j]@));
            }
        }
        assert(crate::catalog::distinct_ids(tiles@) == ids_differ);
    }
    let catalog = match TileCatalog::new(tiles) {
        Ok(catalog) => catalog,
        Err(fault) => {
            return Err(JigsawError::MalformedInput(fault));
        },
    };
    proof {
        assert(catalog_reads(catalog, records@));
    }
    let solution = match part1(&catalog) {
        Ok(solution) => solution,
        Err(e) => {
            return Err(e);
        },
    };
    let product = match corner_product(&solution) {
        Ok(product) => product,
        Err(e) => {
            return Err(e);
        },
    };
    proof {
        assert(placed_known(&catalog, solution@)) by {
            assert forall|id: i32| #[trigger] solution@.placed.contains_key(id) implies catalog.has(
                id,
            ) by {
                assert(solution@.placed.dom().contains(id));
                assert(catalog.ids().contains(id));
            }
        }
    }
    let roughness = match part2(&catalog, &solution) {
        Ok(roughness) => roughness,
        Err(e) => {
            return Err(e);
        },
    };
    Ok(Report { corner_product: product, roughness })
}

/// The texts of four small tiles that interlock into a square of two by
/// two.
pub open spec fn fixture() -> Seq<Seq<char>> {
    seq![
        "Tile 1:\n.###.\n#...#\n#....\n#....\n#...."@,
        "Tile 2:\n.#..#\n#....\n.....\n....#\n..#.."@,
        "Tile 3:\n#....\n.....\n#....\n#...#\n.#.##"@,
        "Tile 4:\n..#..\n.....\n....#\n#....\n#####"@,
    ]
}

/// Whether the catalog holds the four tiles of the fixture, and the solver
/// places all four of them from the first tile as it is, each beside
/// neighbours that it fits.
pub open spec fn fixture_solved(catalog: TileCatalog) -> bool {
    &&& catalog.wf()
    &&& catalog@.len() == 4
    &&& forall|i: int| 0 <= i < 4 ==> tile_reads(#[trigger] catalog@[i], fixture()[i])
    &&& solve(&catalog, catalog_index(&catalog), Manipulation { rot: Rotation::Zero, flip: false })
        matches Ok(l) && l.placed.dom().len() == 4 && adjacent_match(&catalog, l)
}

/// Whether the four texts of the fixture are tiles of one size with four
/// ids.
pub open spec fn fixture_is_catalog() -> bool {
    &&& forall|i: int| 0 <= i < 4 ==> text_fault(#[trigger] fixture()[i]) is None
    &&& forall|i: int| 0 <= i < 4 ==> size_in(#[trigger] fixture()[i]) == size_in(fixture()[0])
    &&& forall|i: int, j: int|
        0 <= i < j < 4 ==> id_in(#[trigger] fixture()[i]) != id_in(#[trigger] fixture()[j])
}

/// Whether the catalog holds the four tiles of the fixture, in their order.
pub open spec fn fixture_read(catalog: TileCatalog) -> bool {
    &&& catalog.wf()
    &&& catalog@.len() == 4
    &&& forall|i: int| 0 <= i < 4 ==> tile_reads(#[trigger] catalog@[i], fixture()[i])
}

/// Whether the catalog holds the tiles `a` and `b`, the tile `a` as it is
/// fits the tile `b` as it is when `b` lies in the direction `d` from `a`,
/// and `b` fits `a` the other way round.
pub open spec fn fit_beside(catalog: &TileCatalog, a: i32, d: Direction, b: i32) -> bool {
    &&& catalog.has(a)
    &&& catalog.has(b)
    &&& edges_match(
        catalog.tile(a).d@,
        catalog.tile(a).d.width(),
        d,
        catalog.tile(b).d@,
        catalog.tile(b).d.width(),
    )
    &&& edges_match(
        catalog.tile(b).d@,
        catalog.tile(b).d.width(),
        d.opposite(),
        catalog.tile(a).d@,
        catalog.tile(a).d.width(),
    )
}

/// What the self test looks at in a catalog of the fixture: the tiles are
/// five cells wide; the tile 4 after a quarter turn has its cells where they
/// must be; the tile 2 fits east of the tile 1, the tile 3 south of the tile
/// 1, and the tile 4 south of the tile 2 and east of the tile 3; and the
/// solver places the tiles from the first tile as it is.
pub open spec fn fixture_passes(catalog: TileCatalog) -> bool {
    let turned = (Manipulation { rot: Rotation::One, flip: false }).apply(
        catalog.tile(4).d@,
        catalog.size(),
    );
    &&& catalog.has(4)
    &&& catalog.size() == 5
    &&& turned[0][2] == 1 && turned[0][4] == 1 && turned[2][0] == 1 && turned[4][3] == 1
        && turned[0][0] == 0
    &&& fit_beside(&catalog, 1, Direction::E, 2)
    &&& fit_beside(&catalog, 1, Direction::S, 3)
    &&& fit_beside(&catalog, 2, Direction::S, 4)
    &&& fit_beside(&catalog, 3, Direction::E, 4)
    &&& solve(&catalog, catalog_index(&catalog), Manipulation { rot: Rotation::Zero, flip: false })
        is Ok
}

/// Tries the library on four small tiles that interlock into a square of
/// two by two: a quarter turn of one of them, the borders that must agree,
/// and the placement of all four.  Tells whether everything came out as it
/// must.
pub fn self_test() -> (r: bool)
    ensures
        !fixture_is_catalog() ==> !r,
        fixture_is_catalog() ==> exists|catalog: TileCatalog| #[trigger]
            fixture_read(catalog) && r == fixture_passes(catalog),
        r ==> exists|catalog: TileCatalog| #[trigger] fixture_solved(catalog),
{
    let texts = [
        "Tile 1:\n.###.\n#...#\n#....\n#....\n#....",
        "Tile 2:\n.#..#\n#....\n.....\n....#\n..#..",
        "Tile 3:\n#....\n.....\n#....\n#...#\n.#.##",
        "Tile 4:\n..#..\n.....\n....#\n#....\n#####",
    ];
    let mut tiles: Vec<Tile> = Vec::new();
    let mut i: usize = 0;
    while i < 4
        invariant
            0 <= i <= 4,
            tiles@.len() == i,
            forall|k: int| 0 <= k < 4 ==> (#[trigger] texts@[k])@ == fixture()[k],
            forall|k: int| 0 <= k < i ==> (#[trigger] tiles@[k]).wf(),
            forall|k: int| 0 <= k < i ==> tile_reads(#[trigger] tiles@[k], fixture()[k]),
            forall|k: int| 0 <= k < i ==> (#[trigger] tiles@[k]).size() == size_in(fixture()[k]),
            forall|k: int| 0 <= k < i ==> text_fault(#[trigger] fixture()[k]) is None,
        decreases 4 - i,
    {
        match Tile::from_string(texts[i]) {
            Ok(tile) => {
                tiles.push(tile);
            },
            Err(_) => {
                assert(text_fault(fixture()[i as int]) is Some);
                return false;
            },
        }
        i += 1;
    }
    proof {
        let sizes_agree = forall|i: int|
            0 <= i < 4 ==> size_in(#[trigger] fixture()[i]) == size_in(fixture()[0]);
        let ids_differ = forall|i: int, j: int|
            0 <= i < j < 4 ==> id_in(#[trigger] fixture()[i]) != id_in(#[trigger] fixture()[j]);
        if crate::catalog::same_size(tiles@) {
            assert forall|i: int| 0 <= i < 4 implies size_in(#[trigger] fixture()[i]) == size_in(
                fixture()[0],
            ) by {
                assert(tiles@[i].size() == tiles@[0].size());
            }
        }
        if sizes_agree {
            assert forall|i: int| 0 <= i < tiles@.len() implies (#[trigger] tiles@[i]).size()
                == tiles@[0].size() by {
                assert(size_in(fixture()[i]) == size_in(fixture()[0]));
            }
        }
        assert(crate::catalog::same_size(tiles@) == sizes_agree);
        if crate::catalog::distinct_ids(tiles@) {
            assert forall|i: int, j: int| 0 <= i < j < 4 implies id_in(#[trigger] fixture()[i])
                != id_in(#[trigger] fixture()[j]) by {
                assert(tiles@[i].id.val != tiles@[j].id.val);
            }
        }
        if ids_differ {
            assert forall|i: int, j: int| 0 <= i < j < tiles@.len() implies (
            #[trigger] tiles@[i]).id.val != (#[trigger] tiles@[j]).id.val by {
                assert(id_in(fixture()[i]) != id_in(fixture()[j]));
            }
        }
        assert(crate::catalog::distinct_ids(tiles@) == ids_differ);
    }
    let catalog = match TileCatalog::new(tiles) {
        Ok(catalog) => catalog,
        Err(_) => {
            return false;
        },
    };
    proof {
        assert(fixture_is_catalog());
        assert(fixture_read(catalog));
    }
    let quarter = Manipulation { rot: Rotation::One, flip: false };
    let turned = match catalog.get(&TileId { val: 4 }) {
        Some(tile) => tile.manipulated(&quarter),
        None => {
            return false;
        },
    };
    if catalog.size_of_tiles() != 5 {
        return false;
    }
    if turned.at(0, 2) != 1 || turned.at(0, 4) != 1 || turned.at(2, 0) != 1 || turned.at(4, 3) != 1
        || turned.at(0, 0) != 0 {
        return false;
    }
    if !(fits_beside(&catalog, 1, Direction::E, 2) && fits_beside(&catalog, 1, Direction::S, 3)
        && fits_beside(&catalog, 2, Direction::S, 4) && fits_beside(&catalog, 3, Direction::E, 4)) {
        return false;
    }
    let ix = make_tile_index(&catalog);
    proof {
        lemma_index_unique(index_view(&ix), &catalog);
    }
    match solve1(&catalog, &ix, &Manipulation::noop()) {
        Ok(solution) => {
            proof {
                assert(fixture_solved(catalog));
                assert(fixture_passes(catalog));
            }
            solution.len() == 4
        },
        Err(_) => false,
    }
}

/// Whether the tile `a` as it is fits the tile `b` as it is, when `b` lies
/// in the direction `d` from `a`, and `b` fits `a` the other way round.
fn fits_beside(catalog: &TileCatalog, a: i32, d: Direction, b: i32) -> (r: bool)
    requires
        catalog.wf(),
    ensures
        r == fit_beside(catalog, a, d, b),
{
    match (catalog.get(&TileId { val: a }), catalog.get(&TileId { val: b })) {
        (Some(first), Some(second)) => edge_match(&first.d, &d, &second.d) && edge_match(
            &second.d,
            &crate::manipulation::opposite_direction(&d),
            &first.d,
        ),
        _ => false,
    }
}

} // verus!
