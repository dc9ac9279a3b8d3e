use puzzles::adapters::{add_rating, differences, find_run_lengths, tribonacci};
use puzzles::console::{
    decode_fields, decode_instruction, flip_instr, flip_op, CodeChange, DecodeError, GameConsole,
    Instruction, Operation,
};
use puzzles::docking::{parse_line, read_input, LineFault};
use puzzles::handshake::{find_loop_num, make_private_key, MyError};
use puzzles::lattice::{range_size, update_range, Lattice, OrdinateRange, Pos4};
use puzzles::seat::{binary_search, decode_seat, SeatError};
use puzzles::ship::{normalise_heading, parse_instr, rotate};
use puzzles::text::{chars_of, parse_i64, parse_u32};
use puzzles::xmas::{find_pair, min_max_sum, read_i64};
use std::collections::{HashSet, VecDeque};

#[test]
fn numbers_are_read_as_the_standard_library_does() {
    for text in ["0", "7", "+7", "-7", "-0", "007", "", "+", "-", "1x", " 1", "9223372036854775807",
        "9223372036854775808", "-9223372036854775808", "-9223372036854775809", "4294967295", "4294967296"]
    {
        assert_eq!(parse_i64(text), text.parse::<i64>().ok(), "{}", text);
        assert_eq!(parse_u32(text), text.parse::<u32>().ok(), "{}", text);
        assert_eq!(read_i64(text), text.parse::<i64>().ok(), "{}", text);
    }
    assert_eq!(chars_of("a#\n"), vec!['a', '#', '\n']);
}

#[test]
fn instructions_are_flipped() {
    assert_eq!(flip_op(&Operation::Nop), Operation::Jmp);
    assert_eq!(flip_op(&Operation::Jmp), Operation::Nop);
    assert_eq!(flip_op(&Operation::Acc), Operation::Acc);
    assert_eq!(
        flip_instr(&Instruction { op: Operation::Jmp, arg: -3 }),
        Instruction { op: Operation::Nop, arg: -3 }
    );
}

#[test]
fn instructions_are_decoded() {
    assert_eq!(decode_instruction("nop +0"), Ok(Instruction { op: Operation::Nop, arg: 0 }));
    assert_eq!(decode_instruction("  jmp\t-4 "), Ok(Instruction { op: Operation::Jmp, arg: -4 }));
    assert_eq!(decode_instruction("acc 17"), Ok(Instruction { op: Operation::Acc, arg: 17 }));
    assert_eq!(decode_instruction("   "), Err(DecodeError::MissingOpcode));
    assert_eq!(decode_instruction("add 1"), Err(DecodeError::UnknownOpcode));
    assert_eq!(decode_instruction("acc"), Err(DecodeError::MissingArgument));
    assert_eq!(decode_instruction("acc x"), Err(DecodeError::BadArgument));
    assert_eq!(decode_instruction("acc 2147483648"), Err(DecodeError::BadArgument));
    assert_eq!(decode_instruction("acc -2147483648"), Ok(Instruction { op: Operation::Acc, arg: i32::MIN }));
    assert_eq!(decode_instruction("acc 1 2"), Err(DecodeError::SpuriousField));
    assert_eq!(decode_instruction("acc x 2"), Err(DecodeError::BadArgument));
    let fields = vec![chars_of("jmp"), chars_of("+9")];
    assert_eq!(decode_fields(&fields), Ok(Instruction { op: Operation::Jmp, arg: 9 }));
}

#[test]
fn console_is_reset_and_read() {
    let nop = Instruction { op: Operation::Nop, arg: 0 };
    let acc = Instruction { op: Operation::Acc, arg: 5 };
    let mut console = GameConsole { code: vec![nop, acc, nop], visits: vec![7], accumulator: 9, program_counter: 2 };
    console.reset(1);
    assert_eq!(console.visits, vec![0, 0, 0]);
    assert_eq!(console.accumulator, 0);
    assert_eq!(console.program_counter, 1);
    assert_eq!(console.codesize(), 3);
    let change = CodeChange { location: 2, instruction: acc };
    assert_eq!(console.get_instr(1, &change), acc);
    assert_eq!(console.get_instr(0, &change), nop);
    assert_eq!(console.get_instr(2, &change), acc);
    let outside = CodeChange { location: 3, instruction: acc };
    assert_eq!(console.get_instr(3, &outside), acc);
}

#[test]
fn steps_between_adapters() {
    assert_eq!(differences(&vec![1, 4, 5]), vec![(1, 1), (3, 4), (1, 5), (3, 8)]);
    assert_eq!(differences(&Vec::new()), vec![(3, 3)]);
}

#[test]
fn runs_of_adapters() {
    assert_eq!(find_run_lengths(&vec![0, 1, 4, 5, 6, 7, 10, 11, 12, 15, 16, 19, 22]), vec![1, 3, 2, 1, 0, 0]);
    assert_eq!(find_run_lengths(&Vec::new()), Vec::<i64>::new());
    assert_eq!(find_run_lengths(&vec![5]), vec![0]);
    let mut prev = Some(3);
    let mut runs = vec![2];
    let mut run_length = 4;
    add_rating(4, &mut prev, &mut runs, &mut run_length);
    assert_eq!((prev, runs.clone(), run_length), (Some(4), vec![2], 5));
    add_rating(9, &mut prev, &mut runs, &mut run_length);
    assert_eq!((prev, runs.clone(), run_length), (Some(9), vec![2, 5], 0));
    let mut none = None;
    add_rating(1, &mut none, &mut runs, &mut run_length);
    assert_eq!((none, runs, run_length), (Some(1), vec![2, 5], 0));
}

#[test]
fn tribonacci_numbers() {
    let want = [1, 1, 2, 4, 7, 13, 24];
    for (n, t) in want.iter().enumerate() {
        assert_eq!(tribonacci(n as i64), *t);
    }
    assert_eq!(tribonacci(30), 53798080);
}

#[test]
fn headings_and_turns() {
    assert_eq!(normalise_heading(0), 0);
    assert_eq!(normalise_heading(4), 0);
    assert_eq!(normalise_heading(7), 3);
    assert_eq!(normalise_heading(-1), 3);
    assert_eq!(normalise_heading(-8), 0);
    assert_eq!(rotate("R", 90, 10, 4), (4, -10));
    assert_eq!(rotate("R", 0, 10, 4), (10, 4));
    assert_eq!(rotate("R", 180, 10, 4), (-10, -4));
    assert_eq!(rotate("L", 90, 10, 4), (-4, 10));
    assert_eq!(rotate("L", 360, 10, 4), (10, 4));
    assert_eq!(rotate("L", 270, 10, 4), (4, -10));
    assert_eq!(parse_instr("F10"), Some(("F".to_string(), 10)));
    assert_eq!(parse_instr("N-3"), Some(("N".to_string(), -3)));
    assert_eq!(parse_instr("R"), None);
    assert_eq!(parse_instr("Lx"), None);
}

fn message(r: Result<i32, SeatError>) -> String {
    match r {
        Err(SeatError::InvalidInput(m)) => m,
        Err(SeatError::EmptyStartingRange) => "empty".to_string(),
        _ => "other".to_string(),
    }
}

#[test]
fn seats_are_searched() {
    assert_eq!(binary_search(0, 128, 'F', 'B', "FBFBBFF").ok(), Some(44));
    assert_eq!(binary_search(0, 8, 'L', 'R', "RLR").ok(), Some(5));
    assert_eq!(binary_search(3, 4, 'L', 'R', "").ok(), Some(3));
    assert_eq!(message(binary_search(4, 4, 'L', 'R', "L")), "empty");
    assert_eq!(message(binary_search(0, 8, 'L', 'R', "RLRL")), "too many seat directions");
    assert_eq!(message(binary_search(0, 8, 'L', 'R', "RL")), "insufficient seat directions");
    assert_eq!(message(binary_search(0, 8, 'L', 'R', "R?R")), "invalid direction character '?'");
    assert_eq!(decode_seat("FBFBBFFRLR").ok(), Some(357));
    assert_eq!(decode_seat("BFFFBBFRRR").ok(), Some(567));
    assert_eq!(decode_seat("FFFBBBFRRR").ok(), Some(119));
    assert_eq!(decode_seat("BBFFBBFRLL").ok(), Some(820));
    assert_eq!(message(decode_seat("BBFFBBXRLL")), "invalid direction character 'X'");
    assert_eq!(message(decode_seat("BBFFBBFRL")), "insufficient seat directions");
}

#[test]
fn loop_numbers_and_keys() {
    assert_eq!(find_loop_num(1), 0);
    assert_eq!(find_loop_num(7), 1);
    assert_eq!(find_loop_num(5764801), 8);
    assert_eq!(find_loop_num(17807724), 11);
    assert_eq!(make_private_key(17807724, 8).ok(), Some(14897079));
    assert_eq!(make_private_key(5764801, 11).ok(), Some(14897079));
    assert_eq!(make_private_key(5, 0).ok(), Some(1));
    assert!(matches!(make_private_key(-4, 2), Err(MyError::NegativeKey(-4, _))));
}

#[test]
fn ranges_grow_to_hold() {
    let r = OrdinateRange { start: 2, end: 5 };
    assert_eq!(update_range(&3, r), r);
    assert_eq!(update_range(&0, r), OrdinateRange { start: 0, end: 5 });
    assert_eq!(update_range(&9, r), OrdinateRange { start: 2, end: 9 });
    let empty = OrdinateRange { start: 1, end: 0 };
    assert_eq!(update_range(&7, empty), OrdinateRange { start: 1, end: 7 });
    assert_eq!(range_size(&r), 4);
    assert_eq!(range_size(&empty), 0);
    assert_eq!(range_size(&OrdinateRange { start: -3, end: -3 }), 1);
}

#[test]
fn lattice_cells_and_neighbours() {
    let zero = OrdinateRange { start: 0, end: 0 };
    let mut l = Lattice { xrange: zero, yrange: zero, zrange: zero, wrange: zero, active: HashSet::new(), use_w: false };
    let p = Pos4 { x: 1, y: -2, z: 3, w: 0 };
    let flat = l.neighbours_of(&p);
    assert_eq!(flat.len(), 26);
    assert_eq!(flat[0], Pos4 { x: 0, y: -3, z: 2, w: 0 });
    assert_eq!(flat[12], Pos4 { x: 0, y: -2, z: 3, w: 0 });
    assert_eq!(flat[13], Pos4 { x: 2, y: -2, z: 3, w: 0 });
    assert_eq!(flat[25], Pos4 { x: 2, y: -1, z: 4, w: 0 });
    assert!(!flat.contains(&p));
    l.insert(p);
    l.insert(p);
    l.insert(Pos4 { x: -1, y: 0, z: 0, w: 0 });
    assert_eq!(l.popcount(), 2);
    assert_eq!(l.xrange, OrdinateRange { start: -1, end: 1 });
    assert_eq!(l.yrange, OrdinateRange { start: -2, end: 0 });
    assert_eq!(l.zrange, OrdinateRange { start: 0, end: 3 });
    l.use_w = true;
    let deep = l.neighbours_of(&p);
    assert_eq!(deep.len(), 80);
    assert_eq!(deep[0], Pos4 { x: 0, y: -3, z: 2, w: -1 });
    assert_eq!(deep[79], Pos4 { x: 2, y: -1, z: 4, w: 1 });
    assert!(!deep.contains(&p));
}

#[test]
fn pairs_and_sums() {
    let c: VecDeque<i64> = VecDeque::from(vec![35, 20, 15, 25, 47]);
    assert_eq!(find_pair(&c, &40), Some((15, 25)));
    assert_eq!(find_pair(&c, &62), Some((15, 47)));
    assert_eq!(find_pair(&c, &70), None);
    assert_eq!(find_pair(&c, &i64::MIN), None);
    assert_eq!(find_pair(&VecDeque::new(), &1), None);
    assert_eq!(min_max_sum(&vec![15, 25, 47, 40]), Some((15, 47, 127)));
    assert_eq!(min_max_sum(&vec![-2]), Some((-2, -2, -2)));
    assert_eq!(min_max_sum(&Vec::new()), None);
}

#[test]
fn program_lines_are_parsed() {
    let mask = "mask = XXXXXXXXXXXXXXXXXXXXXXXXXXXXX1XXXX0X";
    match parse_line(mask) {
        Ok(puzzles::docking::Operation::SetMask(m)) => assert_eq!(m, &mask[7..]),
        other => panic!("{:?}", other),
    }
    assert!(matches!(parse_line("mem[8] = 11"), Ok(puzzles::docking::Operation::Store(8, 11))));
    assert!(matches!(parse_line("xmem[007] = 0"), Ok(puzzles::docking::Operation::Store(7, 0))));
    assert_eq!(parse_line("mem[8] = ").err(), Some(LineFault::Unrecognised));
    assert_eq!(parse_line("mem[] = 4").err(), Some(LineFault::Unrecognised));
    assert_eq!(parse_line("mem[8] =4").err(), Some(LineFault::Unrecognised));
    assert_eq!(parse_line("mask = 01X").err(), Some(LineFault::Unrecognised));
    assert_eq!(parse_line("").err(), Some(LineFault::Unrecognised));
    assert_eq!(parse_line("mem[9223372036854775808] = 4").err(), Some(LineFault::InvalidAddress));
    assert_eq!(parse_line("mem[4] = 9223372036854775808").err(), Some(LineFault::InvalidValue));
    let program = vec![mask.to_string(), "mem[7] = 101".to_string(), "mem[8] = 0".to_string()];
    assert_eq!(read_input(&program).ok().map(|ops| ops.len()), Some(3));
    let broken = vec![mask.to_string(), "nonsense".to_string(), "mem[x] = 0".to_string()];
    assert_eq!(read_input(&broken).err(), Some((1, LineFault::Unrecognised)));
}

#[test]
fn ships_are_steered() {
    let lines = |t: &str| -> Vec<String> { t.split('\n').map(|s| s.to_string()).collect() };
    let course = lines("F10\nN3\nF7\nR90\nF11");
    assert_eq!(puzzles::ship::part1(&course), Ok(25));
    assert_eq!(puzzles::ship::part2(&course), Ok(286));
    assert_eq!(puzzles::ship::part1(&Vec::new()), Ok(0));
    assert_eq!(puzzles::ship::part1(&lines("L90\nF5\nL180\nF7\nR270\nF1\nW2\nS4\nE1")), Ok(6));
    assert_eq!(puzzles::ship::part1(&lines("R450\nF5")), Ok(5));
    assert_eq!(puzzles::ship::part2(&lines("L90\nF2\nS1\nW3\nE1\nN2\nF1")), Ok(2 * 1 + 3 + 2 * 10 + 11));
    assert_eq!(puzzles::ship::part1(&lines("F1\n")), Err(puzzles::ship::ShipError::BadInstruction(1)));
    assert_eq!(puzzles::ship::part1(&lines("F1\nFx")), Err(puzzles::ship::ShipError::BadInstruction(1)));
    assert_eq!(puzzles::ship::part1(&lines("Q1")), Err(puzzles::ship::ShipError::UnknownInstruction(0)));
    assert_eq!(puzzles::ship::part2(&lines("F1\nQ1")), Err(puzzles::ship::ShipError::UnknownInstruction(1)));
    assert_eq!(puzzles::ship::part2(&lines("R45")), Err(puzzles::ship::ShipError::BadTurn(0)));
    assert_eq!(puzzles::ship::part2(&lines("L0")), Err(puzzles::ship::ShipError::BadTurn(0)));
    assert_eq!(puzzles::ship::part2(&lines("R0\nL360\nF1")), Ok(11));
    assert_eq!(
        puzzles::ship::part1(&lines("N9223372036854775807\nN1")),
        Err(puzzles::ship::ShipError::Overflow(1))
    );
    assert_eq!(
        puzzles::ship::part1(&lines("N9223372036854775807\nE1")),
        Err(puzzles::ship::ShipError::Overflow(2))
    );
    assert_eq!(
        puzzles::ship::part2(&lines("F9223372036854775807")),
        Err(puzzles::ship::ShipError::Overflow(0))
    );
}
