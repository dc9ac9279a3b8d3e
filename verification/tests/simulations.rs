use puzzles::bus::{first_bus, ids_with_positions, BusError};
use puzzles::hexfloor::{delta, get_direction, split_directions, Direction, Floor};
use puzzles::memory::playgame;
use puzzles::seating::{get_next, iterate_until_stable, Counting, Grid, GridError, Position};
use puzzles::solution::Position as Tile;

const AREA: [&str; 10] = [
    "L.LL.LL.LL",
    "LLLLLLL.LL",
    "L.L.L..L..",
    "LLLL.LL.LL",
    "L.LL.LL.LL",
    "L.LLLLL.LL",
    "..L.L.....",
    "LLLLLLLLLL",
    "L.LLLLLL.L",
    "L.LLLLL.LL",
];

fn area(lines: &[&str]) -> Grid {
    Grid::new(&lines.iter().map(|s| s.to_string()).collect()).ok().unwrap()
}

fn text(g: &Grid) -> Vec<String> {
    g.seats
        .iter()
        .map(|row| {
            row.iter()
                .map(|p| match p {
                    Position::Seat(true) => '#',
                    Position::Seat(false) => 'L',
                    Position::Floor => '.',
                })
                .collect()
        })
        .collect()
}

#[test]
fn seats_follow_the_rules() {
    assert_eq!(get_next(&Position::Seat(false), 0, 4), (Position::Seat(true), true));
    assert_eq!(get_next(&Position::Seat(false), 1, 4), (Position::Seat(false), false));
    assert_eq!(get_next(&Position::Seat(true), 3, 4), (Position::Seat(true), false));
    assert_eq!(get_next(&Position::Seat(true), 4, 4), (Position::Seat(false), true));
    assert_eq!(get_next(&Position::Floor, 0, 4), (Position::Floor, false));
    assert_eq!(get_next(&Position::Floor, 8, 4), (Position::Floor, false));
}

#[test]
fn waiting_area_is_read() {
    let g = area(&["#L.", "..L"]);
    assert_eq!(g.height(), 2);
    assert_eq!(g.grid_width, 3);
    assert_eq!(g.at(0, 0), Some(Position::Seat(true)));
    assert_eq!(g.at(1, 0), Some(Position::Seat(false)));
    assert_eq!(g.at(2, 0), Some(Position::Floor));
    assert_eq!(g.at(2, 1), Some(Position::Seat(false)));
    assert_eq!(g.at(3, 0), None);
    assert_eq!(g.at(0, 2), None);
    assert_eq!(g.at(-1, 0), None);
    assert_eq!(g.total_occupation(), 1);
    let lines = |l: &[&str]| -> Vec<String> { l.iter().map(|s| s.to_string()).collect() };
    assert_eq!(Grid::new(&lines(&["#L", "#"])).err(), Some(GridError::VariableLength));
    assert_eq!(Grid::new(&lines(&["#x", "y#"])).err(), Some(GridError::UnexpectedCharacter('x')));
    assert_eq!(Grid::new(&lines(&["#x", "#"])).err(), Some(GridError::VariableLength));
    assert_eq!(Grid::new(&lines(&[])).ok().unwrap().height(), 0);
}

#[test]
fn neighbours_are_counted() {
    let g = area(&["#.#", "...", "#L#", ".#."]);
    assert_eq!(g.immediate_neighbours_occupied(1, 1), 4);
    assert_eq!(g.immediate_neighbours_occupied(1, 2), 3);
    assert_eq!(g.immediate_neighbours_occupied(0, 0), 0);
    assert_eq!(g.immediate_neighbours_occupied(-5, 7), 0);
    assert_eq!(g.line_of_sight_neighbours_occupied(1, 1), 4);
    assert_eq!(g.line_of_sight_neighbours_occupied(1, 0), 2);
    assert_eq!(g.line_of_sight_neighbours_occupied(0, 0), 3);
    assert_eq!(g.line_of_sight_neighbour(1, 0, &puzzles::seating::Direction { dx: 0, dy: 1 }), 0);
    assert_eq!(g.line_of_sight_neighbour(0, 0, &puzzles::seating::Direction { dx: 0, dy: 1 }), 1);
    assert_eq!(g.line_of_sight_neighbour(0, 0, &puzzles::seating::Direction { dx: -1, dy: 0 }), 0);
    let sight = area(&[".......#.", "...#.....", ".#.......", ".........", "..#L....#", "....#....", ".........", "#........", "...#....."]);
    assert_eq!(sight.line_of_sight_neighbours_occupied(3, 4), 8);
    assert_eq!(sight.immediate_neighbours_occupied(3, 4), 2);
    let blocked = area(&[".............", ".L.L.#.#.#.#.", "............."]);
    assert_eq!(blocked.line_of_sight_neighbours_occupied(1, 1), 0);
}

#[test]
fn waiting_area_settles() {
    let first = area(&AREA);
    let (next, changed) = first.iterate(Counting::Adjacent, 4);
    assert!(changed);
    assert_eq!(text(&next)[0], "#.##.##.##");
    assert_eq!(text(&next)[2], "#.#.#..#..");
    let (round, last) = iterate_until_stable(area(&AREA), Counting::Adjacent, 4, 100).unwrap();
    assert_eq!(round, 6);
    assert_eq!(last.total_occupation(), 37);
    assert_eq!(text(&last)[0], "#.#L.L#.##");
    let (round, last) = iterate_until_stable(area(&AREA), Counting::LineOfSight, 5, 100).unwrap();
    assert_eq!(round, 7);
    assert_eq!(last.total_occupation(), 26);
    assert!(iterate_until_stable(area(&AREA), Counting::Adjacent, 4, 5).is_none());
    assert!(iterate_until_stable(area(&AREA), Counting::Adjacent, 4, 0).is_none());
    let (round, same) = iterate_until_stable(area(&["..", ".."]), Counting::Adjacent, 4, 1).unwrap();
    assert_eq!((round, same.total_occupation()), (1, 0));
}

#[test]
fn paths_are_spelled() {
    assert_eq!(split_directions("esenee"), Some(vec![Direction::E, Direction::SE, Direction::NE, Direction::E]));
    assert_eq!(split_directions("nwwswee"), Some(vec![Direction::NW, Direction::W, Direction::SW, Direction::E, Direction::E]));
    assert_eq!(split_directions(""), Some(vec![]));
    assert_eq!(split_directions("en"), Some(vec![Direction::E]));
    assert_eq!(split_directions("nn"), None);
    assert_eq!(split_directions("x"), None);
    assert_eq!(split_directions("sx"), None);
    assert_eq!(get_direction(&None, 'n'), Some((Some('n'), None)));
    assert_eq!(get_direction(&Some('s'), 'w'), Some((None, Some(Direction::SW))));
    assert_eq!(get_direction(&Some('e'), 'w'), None);
    assert_eq!(delta(&Tile { x: 3, y: -1 }, &Direction::NW), Tile { x: 2, y: 0 });
    assert_eq!(Direction::E.delta(), (2, 0));
    assert_eq!(Direction::all().len(), 6);
}

const PATHS: [&str; 20] = [
    "sesenwnenenewseeswwswswwnenewsewsw",
    "neeenesenwnwwswnenewnwwsewnenwseswesw",
    "seswneswswsenwwnwse",
    "nwnwneseeswswnenewneswwnewseswneseene",
    "swweswneswnenwsewnwneneseenw",
    "eesenwseswswnenwswnwnwsewwnwsene",
    "sewnenenenesenwsewnenwwwse",
    "wenwwweseeeweswwwnwwe",
    "wsweesenenewnwwnwsenewsenwwsesesenwne",
    "neeswseenwwswnwswswnw",
    "nenwswwsewswnenenewsenwsenwnesesenew",
    "enewnwewneswsewnwswenweswnenwsenwsw",
    "sweneswneswneneenwnewenewwneswswnese",
    "swwesenesewenwneswnwwneseswwne",
    "enesenwswwswneneswsenwnewswseenwsese",
    "wnwnesenesenenwwnenwsewesewsesesew",
    "nenewswnwewswnenesenwnesewesw",
    "eneswnwswnwsenenwnwnwwseeswneewsenese",
    "neswnwewnwnwseenwseesewsenwsweewe",
    "wseweeenwnesenwwwswnew",
];

#[test]
fn floor_is_flipped_and_lives() {
    let mut floor = Floor::new();
    for path in PATHS {
        assert!(floor.obey(path));
    }
    assert_eq!(floor.count_black_tiles(), 10);
    assert!(!floor.obey("nx"));
    assert_eq!(floor.count_black_tiles(), 10);
    let want = [15, 12, 25, 14, 23, 28, 41, 37, 49, 37];
    for day in want {
        floor = floor.iterate();
        assert_eq!(floor.count_black_tiles(), day);
    }
    let mut one = Floor::new();
    one.flip(Tile { x: 0, y: 0 });
    assert!(one.turns_black(&Tile { x: 0, y: 0 }) == false);
    one.flip(Tile { x: 2, y: 0 });
    assert!(one.turns_black(&Tile { x: 0, y: 0 }));
    assert!(one.turns_black(&Tile { x: 1, y: 1 }));
    assert!(!one.turns_black(&Tile { x: 4, y: 0 }));
    one.flip(Tile { x: 2, y: 0 });
    one.flip(Tile { x: 0, y: 0 });
    assert_eq!(one.count_black_tiles(), 0);
    assert_eq!(one.iterate().count_black_tiles(), 0);
}

#[test]
fn numbers_of_the_memory_game() {
    let start = vec![0, 3, 6];
    let want = [None, Some(0), Some(3), Some(6), Some(0), Some(3), Some(3), Some(1), Some(0), Some(4), Some(0)];
    for (turns, said) in want.iter().enumerate() {
        assert_eq!(playgame(&start, &turns, false), *said);
    }
    assert_eq!(playgame(&start, &2020, false), Some(436));
    assert_eq!(playgame(&vec![1, 3, 2], &2020, false), Some(1));
    assert_eq!(playgame(&vec![2, 1, 3], &2020, false), Some(10));
    assert_eq!(playgame(&vec![1, 2, 3], &2020, false), Some(27));
    assert_eq!(playgame(&vec![2, 3, 1], &2020, false), Some(78));
    assert_eq!(playgame(&vec![3, 2, 1], &2020, false), Some(438));
    assert_eq!(playgame(&vec![3, 1, 2], &2020, false), Some(1836));
    assert_eq!(playgame(&Vec::new(), &3, false), Some(1));
}

#[test]
fn buses_of_the_timetable() {
    let entries = |s: &str| -> Vec<String> { s.split(',').map(|e| e.to_string()).collect() };
    let buses = ids_with_positions(&entries("7,13,x,x,59,x,31,19")).unwrap();
    assert_eq!(buses, vec![(0, 7), (1, 13), (4, 59), (6, 31), (7, 19)]);
    assert_eq!(first_bus(939, &buses), Some((59, 944)));
    assert_eq!(first_bus(0, &buses), Some((7, 0)));
    assert_eq!(first_bus(14, &buses), Some((7, 14)));
    assert_eq!(first_bus(26, &vec![(0, 7), (1, 14), (2, 28)]), Some((7, 28)));
    assert_eq!(first_bus(939, &Vec::new()), None);
    assert_eq!(ids_with_positions(&entries("7,y,x,z")), Err(BusError::BadId(1)));
    assert_eq!(ids_with_positions(&entries("x,x")), Ok(Vec::new()));
}

#[test]
fn inverses_and_remainders() {
    assert_eq!(puzzles::bus::modinv(3, 7), Some(5));
    assert_eq!(puzzles::bus::modinv(1, 1), Some(1));
    assert_eq!(puzzles::bus::modinv(0, 5), None);
    assert_eq!(puzzles::bus::modinv(4, 6), None);
    assert_eq!(puzzles::bus::modinv(10, 3), Some(1));
    for v in 1..40i64 {
        for u in 0..60i64 {
            match puzzles::bus::modinv(u, v) {
                Some(x) => assert_eq!((x * u) % v, 1 % v),
                None => assert!((1..=v).any(|d| d > 1 && u % d == 0 && v % d == 0)),
            }
        }
    }
    assert_eq!(puzzles::bus::crt(&vec![(2, 3), (3, 5), (2, 7)]), Some((23, 105)));
    assert_eq!(puzzles::bus::crt(&vec![(0, 7), (1, 13)]), Some((14, 91)));
    assert_eq!(puzzles::bus::crt(&Vec::new()), Some((0, 1)));
    assert_eq!(puzzles::bus::crt(&vec![(1, 4), (3, 6)]), None);
    assert_eq!(puzzles::bus::crt(&vec![(1, i64::MAX), (1, 2)]), None);
}

#[test]
fn timetable_contest() {
    let entries = |s: &str| -> Vec<String> { s.split(',').map(|e| e.to_string()).collect() };
    let cases = [
        ("7,13,x,x,59,x,31,19", 1068781),
        ("17,x,13,19", 3417),
        ("67,7,59,61", 754018),
        ("67,x,7,59,61", 779210),
        ("67,7,x,59,61", 1261476),
        ("1789,37,47,1889", 1202161486),
    ];
    for (list, want) in cases {
        assert_eq!(puzzles::bus::solve2(&entries(list)), Ok(want));
    }
    assert_eq!(puzzles::bus::solve2(&entries("4,x,6")), Err(BusError::NoContest));
    assert_eq!(puzzles::bus::solve2(&entries("4,q")), Err(BusError::BadId(1)));
    assert_eq!(puzzles::bus::solve2(&entries("4,0")), Err(BusError::BadNumber(1)));
    assert_eq!(puzzles::bus::solve1(939, &entries("7,13,x,x,59,x,31,19")), Ok((59, 944)));
    assert_eq!(puzzles::bus::solve1(939, &entries("x,x")), Err(BusError::NoBus));
    assert_eq!(puzzles::bus::solve1(939, &entries("7,-3")), Err(BusError::BadNumber(1)));
    assert_eq!(puzzles::bus::solve1(939, &entries("7,9223372036854775807")), Err(BusError::BadNumber(1)));
    assert_eq!(puzzles::bus::solve1(939, &entries("7,,3")), Err(BusError::BadId(1)));
}

fn run_one_test(
    label: &str,
    start_numbers: &[usize],
    turns: &usize,
    expected: &Option<usize>,
) -> Result<(), String> {
    let got = playgame(&start_numbers.to_vec(), turns, false);
    if got != *expected {
        Err(format!(
            "FAIL: '{}': run_one_test: {:?} turn {}: expected {:?}, got {:?}",
            label, start_numbers, turns, expected, got
        ))
    } else {
        Ok(())
    }
}

#[test]
fn runtests() {
    let scenarios: &[(&str, &[usize], usize, Option<usize>)] = &[
        ("a", &[0, 3, 6], 0, None),
        ("b", &[0, 3, 6], 1, Some(0)),
        ("c", &[0, 3, 6], 2, Some(3)),
        ("d", &[0, 3, 6], 3, Some(6)),
        ("e", &[0, 3, 6], 4, Some(0)),
        ("f", &[0, 3, 6], 5, Some(3)),
        ("g", &[0, 3, 6], 6, Some(3)),
        ("h1", &[0, 3, 6], 7, Some(1)),
        ("h2", &[0, 3, 6], 8, Some(0)),
        ("h3", &[0, 3, 6], 9, Some(4)),
        ("h4", &[0, 3, 6], 10, Some(0)),
        ("i", &[0, 3, 6], 2020, Some(436)),
        ("j", &[1, 3, 2], 2020, Some(1)),
        ("j", &[2, 1, 3], 2020, Some(10)),
        ("k", &[1, 2, 3], 2020, Some(27)),
        ("l", &[2, 3, 1], 2020, Some(78)),
        ("m", &[3, 2, 1], 2020, Some(438)),
        ("n", &[3, 1, 2], 2020, Some(1836)),
    ];
    for (label, start_numbers, turns, expected) in scenarios {
        assert_eq!(run_one_test(label, start_numbers, turns, expected), Ok(()));
    }
}
