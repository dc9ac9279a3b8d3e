use puzzles::catalog::TileCatalog;
use puzzles::error::{InputFault, JigsawError};
use puzzles::jigsaw::{part1, part2, run, self_test, Report};
use puzzles::motif::nessie;
use puzzles::tile::Tile;

fn monster_tile(id: i32) -> String {
    // A tile of 24 by 24 whose interior holds one motif and two more cells.
    let mask = nessie().to_rows();
    let mut cells = vec![vec!['.'; 24]; 24];
    for (i, row) in mask.iter().enumerate() {
        for (j, v) in row.iter().enumerate() {
            if *v == 1 {
                cells[5 + i][2 + j] = '#';
            }
        }
    }
    cells[1][1] = '#';
    cells[22][22] = '#';
    // The border is cut away and must not count.
    cells[0][7] = '#';
    cells[23][0] = '#';
    let mut text = format!("Tile {}:", id);
    for row in cells {
        text.push('\n');
        for c in row {
            text.push(c);
        }
    }
    text
}

#[test]
fn library_tests_itself() {
    assert!(self_test());
}

#[test]
fn run_gives_both_answers() {
    let records = vec![monster_tile(3)];
    assert_eq!(run(&records), Ok(Report { corner_product: 81, roughness: 2 }));
}

#[test]
fn run_hands_failures_up() {
    let fixture: Vec<String> = [
        "Tile 1:\n.###.\n#...#\n#....\n#....\n#....",
        "Tile 2:\n.#..#\n#....\n.....\n....#\n..#..",
        "Tile 3:\n#....\n.....\n#....\n#...#\n.#.##",
        "Tile 4:\n..#..\n.....\n....#\n#....\n#####",
    ]
    .iter()
    .map(|s| s.to_string())
    .collect();
    assert_eq!(run(&fixture), Err(JigsawError::NoMotifOrientation));
    let mut broken = fixture.clone();
    broken[2] = "Tile 3\n#".to_string();
    broken[3] = "Tile 4:\n#?".to_string();
    assert_eq!(run(&broken), Err(JigsawError::MalformedInput(InputFault::BadHeader)));
    let mut mixed = fixture.clone();
    mixed[1] = "Tile 2:\n#".to_string();
    assert_eq!(run(&mixed), Err(JigsawError::MalformedInput(InputFault::InconsistentSize)));
    let mut twice = fixture.clone();
    twice[3] = fixture[0].clone();
    assert_eq!(run(&twice), Err(JigsawError::MalformedInput(InputFault::DuplicateId)));
    let same: Vec<String> = (1..=3).map(|id| format!("Tile {}:\n###\n#.#\n###", id)).collect();
    assert_eq!(run(&same), Err(JigsawError::SolverDeadlock));
    assert_eq!(run(&Vec::new()), Err(JigsawError::NonRectangularSolution));
}

#[test]
fn parts_one_and_two() {
    let tile = Tile::from_string(&monster_tile(11)).unwrap();
    let catalog = TileCatalog::new(vec![tile]).unwrap();
    let solution = part1(&catalog).unwrap();
    assert_eq!(solution.len(), 1);
    assert_eq!(part2(&catalog, &solution), Ok(2));
}

#[test]
fn occurrences_are_counted_in_every_orientation() {
    let mask = puzzles::motif::nessie();
    let mut cells = vec![vec![0u8; 24]; 6];
    for (i, row) in mask.to_rows().iter().enumerate() {
        for (j, v) in row.iter().enumerate() {
            if *v == 1 {
                cells[2 + i][1 + j] = 1;
            }
        }
    }
    let upright = puzzles::grid::Bitmap::from_rows(&cells).unwrap();
    assert_eq!(puzzles::motif::orientation_counts(&upright, &mask), vec![1, 0, 0, 0, 0, 0, 0, 0]);
    let blank = puzzles::grid::Bitmap::from_rows(&vec![vec![0u8; 24]; 6]).unwrap();
    assert_eq!(puzzles::motif::orientation_counts(&blank, &mask), vec![0; 8]);
    for n in 0..8i32 {
        let turned = puzzles::manipulation::Manipulation::new(n).on(&upright);
        let counts = puzzles::motif::orientation_counts(&turned, &mask);
        assert_eq!(counts.len(), 8);
        assert_eq!(counts.iter().sum::<usize>(), 1);
    }
}

#[test]
fn tiles_without_an_interior_give_no_image() {
    for text in ["Tile 7:\n#", "Tile 7:\n#.\n.#"] {
        let tile = Tile::from_string(text).unwrap();
        let catalog = TileCatalog::new(vec![tile]).unwrap();
        let solution = part1(&catalog).unwrap();
        assert_eq!(puzzles::assemble::corner_product(&solution), Ok(7 * 7 * 7 * 7));
        assert_eq!(
            puzzles::assemble::assemble_big_bitmap(&catalog, &solution).err(),
            Some(JigsawError::NoInterior)
        );
        assert_eq!(puzzles::motif::solve2(&catalog, &solution), Err(JigsawError::NoInterior));
        assert_eq!(part2(&catalog, &solution), Err(JigsawError::NoInterior));
        assert_eq!(run(&vec![text.to_string()]), Err(JigsawError::NoInterior));
    }
    // Three cells are enough for an interior of one cell.
    let tile = Tile::from_string("Tile 7:\n###\n#.#\n###").unwrap();
    let catalog = TileCatalog::new(vec![tile]).unwrap();
    let solution = part1(&catalog).unwrap();
    let image = puzzles::assemble::assemble_big_bitmap(&catalog, &solution).unwrap();
    assert_eq!(image.to_rows(), vec![vec![0u8]]);
}

#[test]
fn three_tiles_in_a_corner_are_no_rectangle() {
    let texts = [
        "Tile 1:\n.###.\n#...#\n#....\n#....\n#....",
        "Tile 2:\n.#..#\n#....\n.....\n....#\n..#..",
        "Tile 3:\n#....\n.....\n#....\n#...#\n.#.##",
    ];
    let tiles: Vec<Tile> = texts.iter().map(|t| Tile::from_string(t).unwrap()).collect();
    let catalog = TileCatalog::new(tiles).unwrap();
    let ix = puzzles::solver::make_tile_index(&catalog);
    let noop = puzzles::manipulation::Manipulation::noop();
    // The solver places all three: nothing tells it that a tile is missing.
    let solution = puzzles::solver::solve1(&catalog, &ix, &noop).unwrap();
    assert_eq!(solution.len(), 3);
    let (minx, maxx, miny, maxy) = puzzles::assemble::extrema(&solution);
    assert_eq!((maxx - minx + 1) * (maxy - miny + 1), 4);
    assert_eq!(
        puzzles::assemble::corner_product(&solution),
        Err(JigsawError::NonRectangularSolution)
    );
    assert_eq!(
        puzzles::assemble::assemble_big_bitmap(&catalog, &solution).err(),
        Some(JigsawError::NonRectangularSolution)
    );
    let records: Vec<String> = texts.iter().map(|t| t.to_string()).collect();
    assert_eq!(run(&records), Err(JigsawError::NonRectangularSolution));
}
