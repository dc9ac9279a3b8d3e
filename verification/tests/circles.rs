use puzzles::cups::{cups_succ, labels_after, play_moves, Check, CupCircle};
use puzzles::lattice::{fits, part_n, Lattice, OrdinateRange, Pos4};
use puzzles::seat::{is_taken, part1, part2, SeatError};

fn labels_after_one(c: &CupCircle) -> String {
    (1..c.cups.len()).map(|n| cups_succ(1, n, c).to_string()).collect()
}

#[test]
fn circle_is_built_and_checked() {
    let c = CupCircle::new(false, Check::Always, &vec![3, 8, 9, 1, 2, 5, 4, 6, 7]);
    assert_eq!(c.current_pos, 0);
    assert_eq!(c.max_label, 9);
    assert_eq!(c.label_to_pos, vec![3, 4, 0, 6, 5, 7, 8, 1, 2]);
    assert_eq!(c.cups[8].succ, 0);
    assert_eq!(c.cups[0].succ, 1);
    assert!(c.check());
    assert_eq!(labels_after_one(&c), "25467389");
    let twice = CupCircle::new(false, Check::Always, &vec![1, 2, 2, 4]);
    assert!(!twice.check());
    let gap = CupCircle::new(false, Check::Always, &vec![1, 2, 3, 5]);
    assert!(!gap.check());
    let unchecked = CupCircle::new(false, Check::Never, &vec![1, 2, 2, 4]);
    assert!(unchecked.check());
    let mut broken = CupCircle::new(false, Check::Always, &vec![1, 2, 3, 4]);
    broken.cups[2].succ = 0;
    assert!(!broken.check());
    broken.cups[2].succ = 9;
    assert!(!broken.check());
    broken.cups[2].succ = 3;
    assert!(broken.check());
    broken.label_to_pos.swap(0, 1);
    assert!(!broken.check());
    broken.label_to_pos.swap(0, 1);
    broken.current_pos = 4;
    assert!(!broken.check());
}

#[test]
fn moves_are_played() {
    let mut c = CupCircle::new(false, Check::Always, &vec![3, 8, 9, 1, 2, 5, 4, 6, 7]);
    c.play(1);
    assert_eq!(c.label_of_current(), 2);
    assert_eq!(labels_after_one(&c), "54673289");
    assert!(c.check());
    play_moves(9, &mut c);
    assert_eq!(c.label_of_current(), 8);
    assert_eq!(labels_after_one(&c), "92658374");
    play_moves(90, &mut c);
    assert_eq!(labels_after_one(&c), "67384529");
    assert!(c.check());
    let mut small = CupCircle::new(false, Check::Always, &vec![1, 2, 3, 4]);
    play_moves(7, &mut small);
    assert!(small.check());
    assert_eq!(labels_after_one(&small), "234");
}

#[test]
fn circle_is_extended() {
    let mut c = CupCircle::new(false, Check::Always, &vec![3, 8, 9, 1, 2, 5, 4, 6, 7]);
    c.extend(20);
    assert_eq!(c.cups.len(), 20);
    assert_eq!(c.max_label, 20);
    assert!(c.check());
    assert_eq!(c.cups[8].succ, 9);
    assert_eq!(c.cups[9].label, 10);
    assert_eq!(c.cups[19].succ, 0);
    assert_eq!(c.get_pos(15), 14);
    c.extend(5);
    assert_eq!(c.cups.len(), 20);
    assert!(c.check());
    let mut big = CupCircle::new(false, Check::Never, &vec![3, 8, 9, 1, 2, 5, 4, 6, 7]);
    big.extend(1000);
    play_moves(2000, &mut big);
    big.checks = Check::Always;
    assert!(big.check());
}

fn active_after(text: &str, cycles: usize, use_w: bool) -> usize {
    let mut l = Lattice::from_string(text).ok().unwrap();
    l.use_w = use_w;
    for _ in 0..cycles {
        l = l.iterate();
    }
    l.popcount()
}

#[test]
fn lattice_is_read_and_written() {
    let l = Lattice::from_string(".#.\n..#\n###\n").ok().unwrap();
    assert_eq!(l.popcount(), 5);
    assert_eq!(l.xrange, OrdinateRange { start: 0, end: 2 });
    assert_eq!(l.yrange, OrdinateRange { start: 0, end: 2 });
    assert_eq!(l.zrange, OrdinateRange { start: 0, end: 0 });
    assert!(!l.use_w);
    assert_eq!(l.slice_as_str(0, 0), ".#.\n..#\n###\n");
    assert_eq!(l.slice_as_str(0, 1), "...\n...\n...\n");
    assert_eq!(l.slice_as_str(1, 0), "...\n...\n...\n");
    assert_eq!(Lattice::from_string(".#x\n#").err(), Some('x'));
    let empty = Lattice::from_string("").ok().unwrap();
    assert_eq!(empty.popcount(), 0);
    assert_eq!(empty.slice_as_str(0, 0), ".\n");
    let offset = Lattice::from_string("..\n.#").ok().unwrap();
    assert_eq!(offset.xrange, OrdinateRange { start: 0, end: 1 });
    assert_eq!(offset.slice_as_str(0, 0), "..\n.#\n");
    let mut none = Lattice::from_string("#").ok().unwrap();
    none.xrange = OrdinateRange { start: 1, end: 0 };
    assert_eq!(none.slice_as_str(0, 0), "");
    none.xrange = OrdinateRange { start: 0, end: 0 };
    none.yrange = OrdinateRange { start: 1, end: 0 };
    assert_eq!(none.slice_as_str(0, 0), "");
}

#[test]
fn lattice_lives() {
    let start = ".#.\n..#\n###";
    assert_eq!(active_after(start, 0, false), 5);
    assert_eq!(active_after(start, 1, false), 11);
    assert_eq!(active_after(start, 2, false), 21);
    assert_eq!(active_after(start, 3, false), 38);
    assert_eq!(active_after(start, 6, false), 112);
    assert_eq!(active_after(start, 1, true), 29);
    assert_eq!(active_after(start, 2, true), 60);
    let l = Lattice::from_string(start).ok().unwrap();
    let next = l.iterate();
    assert_eq!(next.slice_as_str(0, 0), "...\n#.#\n.##\n.#.\n");
    assert_eq!(next.zrange, OrdinateRange { start: -1, end: 1 });
    assert_eq!(next.yrange, OrdinateRange { start: 0, end: 3 });
    assert!(l.stays_or_wakes(&Pos4 { x: 1, y: 3, z: 0, w: 0 }));
    assert!(!l.stays_or_wakes(&Pos4 { x: 1, y: 0, z: 0, w: 0 }));
    assert_eq!(Lattice::from_string("").ok().unwrap().iterate().popcount(), 0);
}

#[test]
fn labels_are_walked_clockwise() {
    let mut c = CupCircle::new(false, Check::Always, &vec![3, 8, 9, 1, 2, 5, 4, 6, 7]);
    assert_eq!(c.labels(), vec![3, 8, 9, 1, 2, 5, 4, 6, 7]);
    assert_eq!(labels_after(1, &c), vec![2, 5, 4, 6, 7, 3, 8, 9]);
    assert_eq!(labels_after(7, &c), vec![3, 8, 9, 1, 2, 5, 4, 6]);
    play_moves(10, &mut c);
    assert_eq!(labels_after(1, &c), vec![9, 2, 6, 5, 8, 3, 7, 4]);
    let mut walk = c.labels();
    assert_eq!(walk.len(), 9);
    assert_eq!(walk[0], c.cups[0].label);
    walk.sort();
    assert_eq!(walk, vec![1, 2, 3, 4, 5, 6, 7, 8, 9]);
    play_moves(90, &mut c);
    assert_eq!(labels_after(1, &c), vec![6, 7, 3, 8, 4, 5, 2, 9]);
    let one = CupCircle::new(false, Check::Always, &vec![1]);
    assert_eq!(one.labels(), vec![1]);
    assert_eq!(labels_after(1, &one), Vec::<u32>::new());
}

#[test]
fn population_after_cycles() {
    let start = || Lattice::from_string(".#.\n..#\n###\n").ok().unwrap();
    assert_eq!(part_n(start(), 6, false), Some(112));
    assert_eq!(part_n(start(), 6, true), Some(848));
    assert_eq!(part_n(start(), 1, false), Some(11));
    // No cycles at all still run one.
    assert_eq!(part_n(start(), 0, false), Some(11));
    assert_eq!(part_n(start(), 6, false), Some(active_after(".#.\n..#\n###\n", 6, false)));
    assert!(fits(&start()));
    // A cell too far out stops the cycles, whatever the ranges say.
    let mut wide = start();
    wide.xrange = OrdinateRange { start: 0, end: 0x4000_0000 };
    assert!(fits(&wide));
    assert_eq!(part_n(wide, 6, false), Some(112));
    let mut far = start();
    far.insert(Pos4 { x: 0x4000_0000, y: 0, z: 0, w: 0 });
    assert!(!fits(&far));
    assert_eq!(part_n(far, 6, false), None);
    let mut near = start();
    near.insert(Pos4 { x: 0x3fff_ffff, y: 0, z: 0, w: 0 });
    assert!(fits(&near));
    assert_eq!(part_n(near, 1, false), Some(11));
    // A cell beside the others in the fourth dimension needs that dimension.
    let mut deep = start();
    deep.use_w = true;
    deep.insert(Pos4 { x: 0, y: 0, z: 0, w: 1 });
    assert!(fits(&deep));
    deep.use_w = false;
    assert!(!fits(&deep));
    assert_eq!(part_n(deep, 6, false), None);
}

#[test]
fn largest_and_free_seat() {
    let seats = vec![12, 10, 11, 14, 15];
    assert!(matches!(part1(&seats), Ok(15)));
    assert!(matches!(part2(&seats), Ok(13)));
    assert!(is_taken(&seats, 14));
    assert!(!is_taken(&seats, 13));
    assert!(matches!(part1(&vec![7]), Ok(7)));
    assert!(matches!(part2(&vec![7]), Ok(8)));
    assert!(matches!(part2(&vec![3, 2, 1]), Ok(4)));
    assert!(matches!(part2(&vec![-5, 9, -4]), Ok(-3)));
    assert!(matches!(part1(&Vec::new()), Err(SeatError::NoInput)));
    match part2(&Vec::new()) {
        Err(SeatError::InvalidInput(msg)) => {
            assert_eq!(msg, "there are no gaps in the boarding passes")
        }
        _ => panic!("no seats and yet a free one"),
    }
}
