use puzzles::combat::{GameState, PlayerHand};
use puzzles::console::{CodeChange, GameConsole, Instruction, Operation};
use puzzles::grammar::{balanced, make_group, repeat, seq_items};
use puzzles::slope::{count_trees, key_of, part1, read_line, Pos};
use puzzles::text::{chars_of, split_on};
use puzzles::ticket::{read_ticket, Field, Input, Ticket, ValueRange};
use std::collections::HashSet;

fn program(text: &[(&str, i32)]) -> GameConsole {
    let code = text
        .iter()
        .map(|(op, arg)| Instruction {
            op: match *op {
                "nop" => Operation::Nop,
                "jmp" => Operation::Jmp,
                _ => Operation::Acc,
            },
            arg: *arg,
        })
        .collect();
    GameConsole { code, visits: Vec::new(), accumulator: 0, program_counter: 0 }
}

const BOOT: [(&str, i32); 9] = [
    ("nop", 0),
    ("acc", 1),
    ("jmp", 4),
    ("acc", 3),
    ("jmp", -3),
    ("acc", -99),
    ("acc", 1),
    ("jmp", -4),
    ("acc", 6),
];

#[test]
fn console_stops_at_the_second_visit() {
    let mut console = program(&BOOT);
    assert_eq!(console.run(0, false), (false, 1));
    assert_eq!(console.accumulator, 5);
    assert_eq!(console.visits, vec![1, 1, 1, 1, 1, 0, 1, 1, 0]);
}

#[test]
fn console_ends_when_the_change_mends_it() {
    let mut console = program(&BOOT);
    let change = CodeChange { location: 7, instruction: Instruction { op: Operation::Nop, arg: -4 } };
    assert_eq!(console.run_with_change(0, false, &change), (true, 9));
    assert_eq!(console.accumulator, 8);
    let useless = CodeChange { location: 0, instruction: Instruction { op: Operation::Jmp, arg: 0 } };
    assert_eq!(console.run_with_change(0, false, &useless), (false, 0));
    assert_eq!(console.accumulator, 0);
    let mut wrap = program(&[("acc", i32::MAX), ("acc", 1), ("jmp", 5)]);
    assert_eq!(wrap.run(0, false), (true, 7));
    assert_eq!(wrap.accumulator, i32::MIN);
}

fn hand(cards: &[u32]) -> PlayerHand {
    PlayerHand { cards: cards.iter().copied().collect() }
}

#[test]
fn basic_game_is_played_to_the_end() {
    let mut game = GameState { p1: hand(&[9, 2, 6, 3, 1]), p2: hand(&[5, 8, 4, 7, 10]) };
    assert_eq!(game.play_basic(1000), Some(2));
    assert!(game.p1.is_empty());
    assert_eq!(game.p2.cards.iter().copied().collect::<Vec<u32>>(), vec![3, 2, 10, 6, 8, 5, 9, 4, 7, 1]);
    assert_eq!(game.game_result(), Some((2, 306)));
    let mut short = GameState { p1: hand(&[9, 2, 6, 3, 1]), p2: hand(&[5, 8, 4, 7, 10]) };
    assert_eq!(short.play_basic(2), None);
    assert_eq!(short.p1.cards.iter().copied().collect::<Vec<u32>>(), vec![6, 3, 1, 9, 5]);
    let mut none = GameState { p1: hand(&[]), p2: hand(&[]) };
    assert_eq!(none.play_basic(5), None);
}

#[test]
fn text_is_split_at_separators() {
    let parts = |s: &str, sep: char| -> Vec<String> {
        split_on(&chars_of(s), sep).iter().map(|p| p.iter().collect()).collect()
    };
    for text in ["", ",", "a", "a,b", ",a,,b,", "7,13,x,x,59"] {
        let want: Vec<String> = text.split(',').map(|s| s.to_string()).collect();
        assert_eq!(parts(text, ','), want, "{:?}", text);
    }
}

#[test]
fn tickets_are_read() {
    assert_eq!(read_ticket("7,1,14"), Ok(Ticket { values: vec![7, 1, 14] }));
    assert_eq!(read_ticket("-7"), Ok(Ticket { values: vec![-7] }));
    assert_eq!(read_ticket("7,,14"), Err(1));
    assert_eq!(read_ticket(""), Err(0));
    assert_eq!(read_ticket("1,2,2147483648"), Err(2));
}

#[test]
fn values_are_checked_against_the_fields() {
    let class = Field { name: "class".to_string(), first: ValueRange { low: 1, high: 3 }, second: ValueRange { low: 5, high: 7 } };
    assert!(class.is_valid_value(&1));
    assert!(class.is_valid_value(&7));
    assert!(!class.is_valid_value(&4));
    assert!(!class.is_valid_value(&0));
    assert!(!class.is_valid_value(&8));
    let row = Field { name: "row".to_string(), first: ValueRange { low: 6, high: 11 }, second: ValueRange { low: 33, high: 44 } };
    let input = Input { fields: vec![class, row], my_ticket: Ticket { values: vec![7, 1, 14] }, nearby: Vec::new() };
    assert!(input.is_valid_value(&40));
    assert!(input.is_valid_value(&2));
    assert!(!input.is_valid_value(&4));
    assert!(!input.is_valid_value(&12));
    let none = Input { fields: Vec::new(), my_ticket: Ticket { values: Vec::new() }, nearby: Vec::new() };
    assert!(!none.is_valid_value(&1));
}

#[test]
fn patterns_are_built() {
    assert_eq!(make_group("ab"), "(:?ab)");
    assert_eq!(repeat("ab", 3), "ababab");
    assert_eq!(repeat("ab", 0), "");
    assert_eq!(balanced("x", "y", 0), "(:?)");
    assert_eq!(balanced("x", "y", 1), "(:?(:?xy))");
    assert_eq!(balanced("x", "yz", 3), "(:?(:?xyz)|(:?xxyzyz)|(:?xxxyzyzyz))");
    assert_eq!(seq_items("4 1 5"), Ok(vec![4, 1, 5]));
    assert_eq!(seq_items("4  5"), Err(1));
    assert_eq!(seq_items(""), Err(0));
    assert_eq!(seq_items("4 x"), Err(1));
}

const MAP: [&str; 11] = [
    "..##.......",
    "#...#...#..",
    ".#....#..#.",
    "..#.#...#.#",
    ".#...##..#.",
    "..#.##.....",
    ".#.#.#....#",
    ".#........#",
    "#.##...#...",
    "#...##....#",
    ".#..#...#.#",
];

#[test]
fn trees_are_counted_down_the_slope() {
    let mut trees = HashSet::new();
    for (y, line) in MAP.iter().enumerate() {
        assert_eq!(read_line(line, y, &mut trees), 11);
    }
    assert_eq!(trees.len(), 37);
    assert!(trees.contains(&key_of(&Pos { x: 2, y: 0 })));
    assert!(!trees.contains(&key_of(&Pos { x: 0, y: 2 })));
    assert_eq!(part1(&trees, 11, 11), 7);
    assert_eq!(count_trees(&trees, 1, 1, 11, 11), 2);
    assert_eq!(count_trees(&trees, 5, 1, 11, 11), 3);
    assert_eq!(count_trees(&trees, 7, 1, 11, 11), 4);
    assert_eq!(count_trees(&trees, 1, 2, 11, 11), 2);
    assert_eq!(count_trees(&trees, 3, 1, 11, 0), 0);
}

#[test]
fn game_with_games_inside() {
    let mut game = GameState { p1: hand(&[9, 2, 6, 3, 1]), p2: hand(&[5, 8, 4, 7, 10]) };
    let mut games = 1;
    let (winner, left) = game.play_recursive(&mut games, 10_000);
    assert_eq!(winner, Some(2));
    assert!(left < 10_000);
    assert_eq!(game.game_result(), Some((2, 291)));
    assert_eq!(games, 5);
    let mut again = GameState { p1: hand(&[43, 19]), p2: hand(&[2, 29, 14]) };
    assert_eq!(again.play_recursive(&mut games, 1000).0, Some(1));
    assert_eq!(again.p1.num_cards() + again.p2.num_cards(), 5);
    let mut short = GameState { p1: hand(&[9, 2, 6, 3, 1]), p2: hand(&[5, 8, 4, 7, 10]) };
    assert_eq!(short.play_recursive(&mut games, 9), (None, 0));
    let mut one = GameState { p1: hand(&[3]), p2: hand(&[2]) };
    assert_eq!(one.play_recursive(&mut games, 1), (Some(1), 0));
    let mut none = GameState { p1: hand(&[3]), p2: hand(&[2]) };
    assert_eq!(none.play_recursive(&mut games, 0), (None, 0));
}
