use puzzles::assemble::{assemble_big_bitmap, corner_product, corners, extrema};
use puzzles::catalog::TileCatalog;
use puzzles::edge::edge_match;
use puzzles::error::{InputFault, JigsawError};
use puzzles::grid::Bitmap;
use puzzles::manipulation::{Direction, Manipulation, ManipulationError, Rotation};
use puzzles::motif::{count_ones, find_image_locations, measure_roughness, nessie, scan_image, solve2};
use puzzles::solution::{get_neighbour, Position, TileLocationSolution};
use puzzles::solver::{make_tile_index, solve1};
use puzzles::tile::{Tile, TileId};

const FIXTURE: [&str; 4] = [
    "Tile 1:\n.###.\n#...#\n#....\n#....\n#....",
    "Tile 2:\n.#..#\n#....\n.....\n....#\n..#..",
    "Tile 3:\n#....\n.....\n#....\n#...#\n.#.##",
    "Tile 4:\n..#..\n.....\n....#\n#....\n#####",
];

fn fixture() -> TileCatalog {
    let tiles: Vec<Tile> = FIXTURE.iter().map(|s| Tile::from_string(s).unwrap()).collect();
    TileCatalog::new(tiles).unwrap()
}

fn tile(catalog: &TileCatalog, id: i32) -> &Tile {
    catalog.get(&TileId { val: id }).unwrap()
}

fn bitmap(rows: &[&[u8]]) -> Bitmap {
    let rows: Vec<Vec<u8>> = rows.iter().map(|r| r.to_vec()).collect();
    Bitmap::from_rows(&rows).unwrap()
}

#[test]
fn tile_text_is_read_row_by_row() {
    let t = Tile::from_string(FIXTURE[3]).unwrap();
    assert_eq!(t.id, TileId { val: 4 });
    assert_eq!(
        t.d.to_rows(),
        vec![
            vec![0, 0, 1, 0, 0],
            vec![0, 0, 0, 0, 0],
            vec![0, 0, 0, 0, 1],
            vec![1, 0, 0, 0, 0],
            vec![1, 1, 1, 1, 1]
        ]
    );
}

#[test]
fn tile_text_faults() {
    assert_eq!(Tile::from_string("Tile x:\n#").err(), Some(InputFault::BadHeader));
    assert_eq!(Tile::from_string("Tile :\n#").err(), Some(InputFault::BadHeader));
    assert_eq!(Tile::from_string("Tile 99999999999:\n#").err(), Some(InputFault::BadHeader));
    assert_eq!(Tile::from_string("Tile 7:").err(), Some(InputFault::NotSquare));
    assert_eq!(Tile::from_string("Tile 7:\n##\n#").err(), Some(InputFault::NotSquare));
    assert_eq!(Tile::from_string("Tile 7:\n##\n#.\n").err(), Some(InputFault::NotSquare));
    assert_eq!(Tile::from_string("Tile 7:\n##\n#.x").err(), Some(InputFault::NotSquare));
    assert_eq!(Tile::from_string("Tile 7:\n#x\n#.").err(), Some(InputFault::BadCharacter));
    assert!(Tile::from_string("Tile 7:\n#").is_ok());
}

#[test]
fn catalog_faults() {
    let a = Tile::from_string("Tile 7:\n#").unwrap();
    let b = Tile::from_string("Tile 8:\n#.\n.#").unwrap();
    assert_eq!(TileCatalog::new(vec![a, b]).err(), Some(InputFault::InconsistentSize));
    let a = Tile::from_string("Tile 7:\n#").unwrap();
    let b = Tile::from_string("Tile 7:\n.").unwrap();
    assert_eq!(TileCatalog::new(vec![a, b]).err(), Some(InputFault::DuplicateId));
}

#[test]
fn quarter_turn_of_tile_four() {
    let catalog = fixture();
    let t4 = &tile(&catalog, 4).d;
    let r1fn = Manipulation { rot: Rotation::One, flip: false }.on(t4);
    assert_eq!(
        r1fn.to_rows(),
        vec![
            vec![0, 0, 1, 0, 1],
            vec![0, 0, 0, 0, 1],
            vec![1, 0, 0, 0, 1],
            vec![0, 0, 0, 0, 1],
            vec![0, 0, 0, 1, 1]
        ]
    );
    let r1fy = Manipulation { rot: Rotation::One, flip: true }.on(t4);
    assert_eq!(
        r1fy.to_rows(),
        vec![
            vec![0, 0, 0, 1, 1],
            vec![0, 0, 0, 0, 1],
            vec![1, 0, 0, 0, 1],
            vec![0, 0, 0, 0, 1],
            vec![0, 0, 1, 0, 1]
        ]
    );
}

#[test]
fn rotations_of_a_rectangle() {
    let m = bitmap(&[&[1, 2, 3], &[4, 5, 6]]);
    let turn = |rot: Rotation, flip: bool| Manipulation { rot, flip }.on(&m).to_rows();
    assert_eq!(turn(Rotation::Zero, false), vec![vec![1, 2, 3], vec![4, 5, 6]]);
    assert_eq!(turn(Rotation::Zero, true), vec![vec![3, 2, 1], vec![6, 5, 4]]);
    assert_eq!(turn(Rotation::One, false), vec![vec![3, 6], vec![2, 5], vec![1, 4]]);
    assert_eq!(turn(Rotation::Two, false), vec![vec![6, 5, 4], vec![3, 2, 1]]);
    assert_eq!(turn(Rotation::Three, false), vec![vec![4, 1], vec![5, 2], vec![6, 3]]);
    assert_eq!(turn(Rotation::One, true), vec![vec![1, 4], vec![2, 5], vec![3, 6]]);
}

#[test]
fn inverse_undoes_every_manipulation() {
    let m = bitmap(&[&[1, 2, 3], &[4, 5, 6], &[7, 8, 9]]);
    let all = Manipulation::all();
    assert_eq!(all.len(), 8);
    for how in all {
        let there = how.on(&m);
        let back = how.inverse().on(&there);
        assert_eq!(back.to_rows(), m.to_rows());
    }
}

#[test]
fn manipulation_names() {
    for n in 0..8 {
        let how = Manipulation::new(n);
        assert_eq!(Manipulation::from_str(how.as_string()), Ok(how));
    }
    assert_eq!(Manipulation::new(5).as_string(), "R1FY");
    assert_eq!(Manipulation::noop(), Manipulation::new(0));
    assert_eq!(Manipulation::from_str("X0FN"), Err(ManipulationError::MustBeginWithR));
    assert_eq!(Manipulation::from_str(""), Err(ManipulationError::TooShort));
    assert_eq!(Manipulation::from_str("R"), Err(ManipulationError::TooShort));
    assert_eq!(Manipulation::from_str("R4FN"), Err(ManipulationError::InvalidRotation('4')));
    assert_eq!(Manipulation::from_str("R0XN"), Err(ManipulationError::MustHaveF));
    assert_eq!(Manipulation::from_str("R0"), Err(ManipulationError::FlipMustBeYOrN));
    assert_eq!(Manipulation::from_str("R0F"), Err(ManipulationError::FlipMustBeYOrN));
    assert_eq!(Manipulation::from_str("R0FX"), Err(ManipulationError::FlipMustBeYOrN));
    assert_eq!(Manipulation::from_str("R0FNN"), Err(ManipulationError::TrailingGarbage));
}

#[test]
fn fixture_edges_interlock() {
    let c = fixture();
    assert!(edge_match(&tile(&c, 1).d, &Direction::E, &tile(&c, 2).d));
    assert!(edge_match(&tile(&c, 2).d, &Direction::W, &tile(&c, 1).d));
    assert!(edge_match(&tile(&c, 1).d, &Direction::S, &tile(&c, 3).d));
    assert!(edge_match(&tile(&c, 3).d, &Direction::N, &tile(&c, 1).d));
    assert!(edge_match(&tile(&c, 2).d, &Direction::S, &tile(&c, 4).d));
    assert!(edge_match(&tile(&c, 4).d, &Direction::N, &tile(&c, 2).d));
    assert!(edge_match(&tile(&c, 3).d, &Direction::E, &tile(&c, 4).d));
    assert!(edge_match(&tile(&c, 4).d, &Direction::W, &tile(&c, 3).d));
    assert!(!edge_match(&tile(&c, 1).d, &Direction::N, &tile(&c, 2).d));
}

fn solved(how: Manipulation) -> (TileCatalog, TileLocationSolution) {
    let catalog = fixture();
    let ix = make_tile_index(&catalog);
    let solution = solve1(&catalog, &ix, &how).unwrap();
    (catalog, solution)
}

#[test]
fn fixture_solves_into_two_by_two() {
    let (catalog, s) = solved(Manipulation::noop());
    assert_eq!(s.len(), 4);
    let at = |x: i32, y: i32| s.get_tile_at_position(&Position { x, y }).map(|f| f.0.val);
    assert_eq!(at(0, 0), Some(1));
    assert_eq!(at(1, 0), Some(2));
    assert_eq!(at(0, -1), Some(3));
    assert_eq!(at(1, -1), Some(4));
    assert_eq!(extrema(&s), (0, 1, -1, 0));
    assert_eq!(corner_product(&s), Ok(24));
    let found = corners(&s).unwrap();
    assert_eq!(found[0], Position { x: 0, y: -1 });
    assert_eq!(found[3], Position { x: 1, y: 0 });
    // Every pair of neighbours matches along the shared border.
    for id in 1..=4 {
        let (pos, how) = s.get_position_of_tile(&TileId { val: id }).unwrap();
        let mine = tile(&catalog, id).manipulated(&how);
        for d in Direction::all() {
            if let Some((other, turn)) = s.get_tile_at_position(&get_neighbour(&pos, d)) {
                let theirs = tile(&catalog, other.val).manipulated(&turn);
                assert!(edge_match(&mine, &d, &theirs));
            }
        }
    }
}

#[test]
fn corner_ids_do_not_depend_on_the_seed() {
    for n in 0..8 {
        let (_, s) = solved(Manipulation::new(n));
        assert_eq!(s.len(), 4);
        assert_eq!(corner_product(&s), Ok(24));
        let (minx, maxx, miny, maxy) = extrema(&s);
        assert_eq!((maxx - minx + 1) * (maxy - miny + 1), 4);
        let opposite = Position { x: if minx == 0 { maxx } else { minx }, y: if miny == 0 { maxy } else { miny } };
        assert_eq!(s.get_tile_at_position(&opposite).map(|f| f.0.val), Some(4));
    }
}

#[test]
fn assembled_image_of_the_fixture() {
    let (catalog, s) = solved(Manipulation::noop());
    let image = assemble_big_bitmap(&catalog, &s).unwrap();
    assert_eq!(
        image.to_rows(),
        vec![
            vec![0, 0, 0, 0, 0, 0],
            vec![0, 0, 0, 0, 0, 0],
            vec![0, 0, 0, 0, 0, 0],
            vec![0, 0, 0, 0, 0, 0],
            vec![0, 0, 0, 0, 0, 0],
            vec![0, 0, 0, 0, 0, 0]
        ]
    );
    assert_eq!(solve2(&catalog, &s), Err(JigsawError::NoMotifOrientation));
}

#[test]
fn identical_tiles_deadlock() {
    let texts = ["Tile 1:\n###\n#.#\n###", "Tile 2:\n###\n#.#\n###", "Tile 3:\n###\n#.#\n###"];
    let tiles: Vec<Tile> = texts.iter().map(|s| Tile::from_string(s).unwrap()).collect();
    let catalog = TileCatalog::new(tiles).unwrap();
    let ix = make_tile_index(&catalog);
    assert_eq!(solve1(&catalog, &ix, &Manipulation::noop()).err(), Some(JigsawError::SolverDeadlock));
}

#[test]
fn missing_fingerprint_is_an_inconsistency() {
    let catalog = fixture();
    let ix = std::collections::HashMap::new();
    assert_eq!(
        solve1(&catalog, &ix, &Manipulation::noop()).err(),
        Some(JigsawError::IndexInconsistency)
    );
}

#[test]
fn empty_catalog_gives_empty_solution() {
    let catalog = TileCatalog::new(Vec::new()).unwrap();
    let ix = make_tile_index(&catalog);
    let s = solve1(&catalog, &ix, &Manipulation::noop()).unwrap();
    assert_eq!(s.len(), 0);
    assert_eq!(extrema(&s), (0, 0, 0, 0));
    assert_eq!(corners(&s).err(), Some(JigsawError::NonRectangularSolution));
    assert_eq!(assemble_big_bitmap(&catalog, &s).err(), Some(JigsawError::NonRectangularSolution));
}

#[test]
fn single_tile_solution() {
    let t = Tile::from_string("Tile 9:\n####\n#.##\n##.#\n####").unwrap();
    let catalog = TileCatalog::new(vec![t]).unwrap();
    let ix = make_tile_index(&catalog);
    let s = solve1(&catalog, &ix, &Manipulation::noop()).unwrap();
    assert_eq!(corner_product(&s), Ok(9 * 9 * 9 * 9));
    let image = assemble_big_bitmap(&catalog, &s).unwrap();
    assert_eq!(image.to_rows(), vec![vec![0, 1], vec![1, 0]]);
    let s = solve1(&catalog, &ix, &Manipulation { rot: Rotation::Zero, flip: true }).unwrap();
    let image = assemble_big_bitmap(&catalog, &s).unwrap();
    assert_eq!(image.to_rows(), vec![vec![1, 0], vec![0, 1]]);
}

#[test]
fn gap_in_the_rectangle_is_reported() {
    let catalog = fixture();
    let mut s = TileLocationSolution::new();
    let noop = Manipulation::noop();
    s.place_tile(tile(&catalog, 1), &noop, &Position { x: 0, y: 0 });
    s.place_tile(tile(&catalog, 2), &noop, &Position { x: 1, y: 0 });
    s.place_tile(tile(&catalog, 3), &noop, &Position { x: 0, y: -1 });
    assert_eq!(s.exposed_edges.len(), 8);
    assert!(s.occupied(&Position { x: 1, y: 0 }));
    assert!(!s.occupied(&Position { x: 1, y: -1 }));
    assert_eq!(extrema(&s), (0, 1, -1, 0));
    assert_eq!(corner_product(&s), Err(JigsawError::NonRectangularSolution));
    assert_eq!(assemble_big_bitmap(&catalog, &s).err(), Some(JigsawError::NonRectangularSolution));
    assert_eq!(solve2(&catalog, &s), Err(JigsawError::NonRectangularSolution));
}

fn sea(rows: usize, cols: usize, monsters: &[(usize, usize)], extra: &[(usize, usize)]) -> Bitmap {
    let mask = nessie().to_rows();
    let mut cells = vec![vec![0u8; cols]; rows];
    for (top, left) in monsters {
        for (i, row) in mask.iter().enumerate() {
            for (j, v) in row.iter().enumerate() {
                if *v == 1 {
                    cells[top + i][left + j] = 1;
                }
            }
        }
    }
    for (r, c) in extra {
        cells[*r][*c] = 1;
    }
    Bitmap::from_rows(&cells).unwrap()
}

#[test]
fn motif_mask_has_fifteen_bits() {
    let mask = nessie();
    assert_eq!(mask.to_rows().len(), 3);
    assert_eq!(mask.to_rows()[0].len(), 20);
    assert_eq!(count_ones(&mask), 15);
    assert_eq!(mask.to_rows()[0][18], 1);
    assert_eq!(mask.to_rows()[1][0], 1);
    assert_eq!(mask.to_rows()[2][1], 1);
}

#[test]
fn occurrences_are_found_where_they_are() {
    let image = sea(8, 30, &[(1, 2), (4, 9)], &[(0, 0), (7, 29), (2, 3)]);
    let mask = nessie();
    assert_eq!(find_image_locations(&image, &mask), vec![(2, 1), (9, 4)]);
    assert_eq!(count_ones(&image), 33);
    assert_eq!(measure_roughness(&image, &vec![(2, 1), (9, 4)], &mask), 3);
    assert_eq!(scan_image(&image, &mask), Ok(3));
}

#[test]
fn roughness_is_total_less_fifteen_per_occurrence() {
    let mask = nessie();
    for k in 1..=3usize {
        let places: Vec<(usize, usize)> = (0..k).map(|i| (3 * i, i)).collect();
        let image = sea(12, 26, &places, &[(11, 0), (11, 25), (10, 13), (0, 25)]);
        let h = count_ones(&image);
        assert_eq!(h, 15 * k + 4);
        assert_eq!(scan_image(&image, &mask), Ok(h - 15 * k));
    }
}

#[test]
fn motif_is_found_in_a_turned_image() {
    let mask = nessie();
    let upright = sea(6, 24, &[(2, 1)], &[(0, 0)]);
    for n in 0..8 {
        let turned = Manipulation::new(n).on(&upright);
        assert_eq!(scan_image(&turned, &mask), Ok(1));
    }
}

#[test]
fn scanning_twice_gives_the_same() {
    let mask = nessie();
    let blank = sea(5, 25, &[], &[(1, 1), (2, 2)]);
    assert_eq!(find_image_locations(&blank, &mask), Vec::<(usize, usize)>::new());
    assert_eq!(find_image_locations(&blank, &mask), Vec::<(usize, usize)>::new());
    assert_eq!(scan_image(&blank, &mask), Err(JigsawError::NoMotifOrientation));
    assert_eq!(scan_image(&blank, &mask), Err(JigsawError::NoMotifOrientation));
    let small = sea(2, 2, &[], &[]);
    assert_eq!(find_image_locations(&small, &mask), Vec::<(usize, usize)>::new());
}

#[test]
fn overlapping_motifs_can_exceed_the_image() {
    let mask = bitmap(&[&[1, 1]]);
    let image = bitmap(&[&[1, 1, 1]]);
    assert_eq!(find_image_locations(&image, &mask), vec![(0, 0), (1, 0)]);
    assert_eq!(scan_image(&image, &mask), Err(JigsawError::RoughnessUnderflow));
}

#[test]
fn bitmap_rows_round_trip() {
    let rows = vec![vec![1u8, 0, 1], vec![0, 1, 0]];
    assert_eq!(Bitmap::from_rows(&rows).unwrap().to_rows(), rows);
    assert!(Bitmap::from_rows(&vec![vec![1u8, 0], vec![1]]).is_none());
    assert_eq!(Bitmap::from_rows(&Vec::new()).unwrap().to_rows(), Vec::<Vec<u8>>::new());
}
