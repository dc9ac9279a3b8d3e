use puzzles::adapters::{bookend, count_arrangements, count_steps, differences, find_run_lengths};
use puzzles::console::{GameConsole, Instruction, Operation};
use puzzles::expr::{parse_evaluate_and_total, ParseError, Rules, TotalError};
use puzzles::slope::{part2, read_map};
use puzzles::text::split_groups;
use puzzles::ticket::{part1, Field, Input, Ticket, ValueRange};

fn lines(text: &str) -> Vec<String> {
    text.split('\n').map(|s| s.to_string()).collect()
}

#[test]
fn lines_are_grouped() {
    let groups = |t: &str| -> Vec<Vec<String>> { split_groups(&lines(t)) };
    assert_eq!(groups("a\nb\n\nc"), vec![lines("a\nb"), lines("c")]);
    assert_eq!(groups("a\n\n\nc\n"), vec![lines("a"), Vec::new(), lines("c")]);
    assert_eq!(groups("\na"), vec![Vec::new(), lines("a")]);
    assert_eq!(groups("a"), vec![lines("a")]);
    assert_eq!(groups(""), vec![Vec::<String>::new()]);
    assert_eq!(split_groups(&Vec::new()), Vec::<Vec<String>>::new());
}

#[test]
fn batches_of_passports_and_answers() {
    let batch = lines("ecl:gry pid:860033327\nbyr:1937\n\niyr:2013 ecl:amb\n\nhcl:#ae17e1");
    let passports = puzzles::passport::read_input(&batch).unwrap();
    assert_eq!(passports.len(), 3);
    assert_eq!(passports[0].attributes.len(), 3);
    assert_eq!(passports[2].attributes, vec![("hcl".to_string(), "#ae17e1".to_string())]);
    assert!(puzzles::passport::read_input(&lines("a:b\n\nc")).is_err());
    let answers = puzzles::customs::read_input(&lines("abc\n\na\nb\nc\n\nba\nac\n\nzza\n"));
    assert_eq!(answers, vec![lines("abc"), lines("a\nb\nc"), lines("ab\nac"), lines("az")]);
    let anyone: usize = answers.iter().map(puzzles::customs::count_anyone).sum();
    let everyone: usize = answers.iter().map(puzzles::customs::count_everyone).sum();
    assert_eq!((anyone, everyone), (11, 6));
}

#[test]
fn slopes_of_the_map() {
    let map = lines("..##.......\n#...#...#..\n.#....#..#.\n..#.#...#.#\n.#...##..#.\n..#.##.....\n.#.#.#....#\n.#........#\n#.##...#...\n#...##....#\n.#..#...#.#");
    let (trees, width, height) = read_map(&map);
    assert_eq!((trees.len(), width, height), (37, 11, 11));
    assert_eq!(part2(&trees, width, height), Some(336));
    let (none, width, height) = read_map(&lines("...\n.."));
    assert_eq!((none.len(), width, height), (0, 3, 2));
    assert_eq!(part2(&none, 3, 2), Some(0));
}

#[test]
fn chains_of_adapters() {
    let mut ratings = vec![16, 10, 15, 5, 1, 11, 7, 19, 6, 12, 4];
    ratings.sort();
    let diffs = differences(&ratings);
    assert_eq!(count_steps(&diffs), Some(35));
    assert_eq!(count_steps(&vec![(1, 1), (4, 5)]), None);
    assert_eq!(count_steps(&vec![(2, 2), (2, 4)]), Some(0));
    let chain = bookend(&ratings, 0, 22);
    assert_eq!(chain.len(), 13);
    assert_eq!((chain[0], chain[1], chain[12]), (0, 1, 22));
    assert_eq!(count_arrangements(&find_run_lengths(&chain)), Some(8));
    let mut more = vec![28, 33, 18, 42, 31, 14, 46, 20, 48, 47, 24, 23, 49, 45, 19, 38, 39, 11, 1, 32, 25, 35, 8, 17, 7, 9, 4, 2, 34, 10, 3];
    more.sort();
    assert_eq!(count_steps(&differences(&more)), Some(220));
    assert_eq!(count_arrangements(&find_run_lengths(&bookend(&more, 0, 52))), Some(19208));
    assert_eq!(count_arrangements(&vec![63]), None);
    assert_eq!(count_arrangements(&vec![-1]), None);
    assert_eq!(count_arrangements(&vec![62, 62]), None);
    assert_eq!(count_arrangements(&Vec::new()), Some(1));
}

#[test]
fn invalid_values_of_tickets() {
    let field = |name: &str, a: (i32, i32), b: (i32, i32)| Field {
        name: name.to_string(),
        first: ValueRange { low: a.0, high: a.1 },
        second: ValueRange { low: b.0, high: b.1 },
    };
    let input = Input {
        fields: vec![field("class", (1, 3), (5, 7)), field("row", (6, 11), (33, 44)), field("seat", (13, 40), (45, 50))],
        my_ticket: Ticket { values: vec![7, 1, 14] },
        nearby: vec![
            Ticket { values: vec![7, 3, 47] },
            Ticket { values: vec![40, 4, 50] },
            Ticket { values: vec![55, 2, 20] },
            Ticket { values: vec![38, 6, 12] },
            Ticket { values: vec![0, 6, 13] },
        ],
    };
    let (valid, error) = part1(&input).unwrap();
    assert_eq!(error, 71);
    assert_eq!(valid, vec![Ticket { values: vec![7, 3, 47] }]);
}

#[test]
fn expressions_are_summed() {
    let input = lines("1 + 2 * 3 + 4 * 5 + 6\n2 * 3 + (4 * 5)\n5 + (8 * 3 + 9 + 3 * 4 * 3)");
    let same = Rules { precedence_plus: 20, precedence_times: 20 };
    let plus_first = Rules { precedence_plus: 30, precedence_times: 20 };
    assert_eq!(parse_evaluate_and_total(&input, &same), Ok(71 + 26 + 437));
    assert_eq!(parse_evaluate_and_total(&input, &plus_first), Ok(231 + 46 + 1445));
    assert_eq!(parse_evaluate_and_total(&Vec::new(), &same), Ok(0));
    assert_eq!(parse_evaluate_and_total(&lines("1\n2 - 1"), &same), Err(TotalError::Unreadable(1)));
    assert_eq!(
        parse_evaluate_and_total(&lines("1\n(2"), &same),
        Err(TotalError::Parse(1, ParseError::ExpectedClosingParen))
    );
    assert_eq!(
        parse_evaluate_and_total(&lines("9223372036854775807\n1"), &same),
        Err(TotalError::Overflow(1))
    );
    assert_eq!(parse_evaluate_and_total(&lines("9223372036854775807 * 2"), &same), Err(TotalError::Overflow(0)));
}

#[test]
fn program_is_mended() {
    let code: Vec<Instruction> = [
        ("nop", 0), ("acc", 1), ("jmp", 4), ("acc", 3), ("jmp", -3), ("acc", -99), ("acc", 1), ("jmp", -4), ("acc", 6),
    ]
    .iter()
    .map(|(op, arg)| Instruction {
        op: match *op {
            "nop" => Operation::Nop,
            "jmp" => Operation::Jmp,
            _ => Operation::Acc,
        },
        arg: *arg,
    })
    .collect();
    let mut console = GameConsole { code, visits: Vec::new(), accumulator: 0, program_counter: 0 };
    assert_eq!(console.find_fix(), Some((7, 9)));
    assert_eq!(console.accumulator, 8);
    let mut stuck = GameConsole {
        code: vec![Instruction { op: Operation::Acc, arg: 1 }, Instruction { op: Operation::Jmp, arg: -1 }, Instruction { op: Operation::Jmp, arg: 0 }],
        visits: Vec::new(),
        accumulator: 0,
        program_counter: 0,
    };
    assert_eq!(stuck.find_fix(), None);
    let mut never = GameConsole {
        code: vec![Instruction { op: Operation::Acc, arg: 1 }, Instruction { op: Operation::Jmp, arg: 1 }, Instruction { op: Operation::Jmp, arg: -2 }],
        visits: Vec::new(),
        accumulator: 0,
        program_counter: 0,
    };
    assert_eq!(never.find_fix(), Some((2, 3)));
    let mut lost = GameConsole {
        code: vec![Instruction { op: Operation::Acc, arg: 1 }, Instruction { op: Operation::Jmp, arg: -1 }],
        visits: Vec::new(),
        accumulator: 0,
        program_counter: 0,
    };
    assert_eq!(lost.find_fix(), Some((1, 2)));
    let mut only = GameConsole {
        code: vec![Instruction { op: Operation::Jmp, arg: 0 }, Instruction { op: Operation::Acc, arg: 2 }, Instruction { op: Operation::Jmp, arg: 1 }, Instruction { op: Operation::Jmp, arg: -3 }],
        visits: Vec::new(),
        accumulator: 0,
        program_counter: 0,
    };
    assert_eq!(only.find_fix(), None);
    let mut hopeless = GameConsole {
        code: vec![Instruction { op: Operation::Acc, arg: 0 }, Instruction { op: Operation::Jmp, arg: 0 }, Instruction { op: Operation::Acc, arg: 0 }],
        visits: Vec::new(),
        accumulator: 0,
        program_counter: 0,
    };
    assert_eq!(hopeless.find_fix(), Some((1, 3)));
}

#[test]
fn passwords_are_judged_line_by_line() {
    let re = puzzles::password::rule_pattern().unwrap();
    assert_eq!(re.as_str(), r"^(\d+)-(\d+) (.): (.*)$");
    let lines: Vec<String> =
        ["1-3 a: abcde", "1-3 b: cdefg  ", "2-9 c: ccccccccc"].iter().map(|s| s.to_string()).collect();
    assert_eq!(puzzles::password::count_valid(&re, &lines), Ok((2, 1)));
    assert_eq!(puzzles::password::judge(&re, "1-3 a: abcde"), Ok((true, true)));
    assert_eq!(puzzles::password::judge(&re, "1-3 b: cdefg"), Ok((false, false)));
    assert_eq!(puzzles::password::judge(&re, "2-9 c: ccccccccc \t"), Ok((true, false)));
    assert_eq!(puzzles::password::judge(&re, "0-3 a: abcde"), Err(puzzles::password::RuleFault::ZeroPlace));
    assert_eq!(puzzles::password::judge(&re, "1-0 a: abcde"), Err(puzzles::password::RuleFault::ZeroPlace));
    assert_eq!(puzzles::password::judge(&re, "1-3 a abcde"), Err(puzzles::password::RuleFault::NoRule));
    assert_eq!(
        puzzles::password::judge(&re, "1-99999999999999999999999 a: abcde"),
        Err(puzzles::password::RuleFault::BadNumber)
    );
    let broken: Vec<String> = ["1-3 a: abcde", "x", "0-1 a: b"].iter().map(|s| s.to_string()).collect();
    assert_eq!(
        puzzles::password::count_valid(&re, &broken),
        Err((1, puzzles::password::RuleFault::NoRule))
    );
    assert_eq!(puzzles::password::count_valid(&re, &Vec::new()), Ok((0, 0)));
    let text = |s: &str| Some(s.to_string());
    assert_eq!(
        puzzles::password::verdict_from(&Some(vec![text(""), text("1"), text("1"), text("a"), text("ab")])),
        Ok((true, false))
    );
    assert_eq!(
        puzzles::password::verdict_from(&Some(vec![text(""), text("1"), text("1"), text("a")])),
        Err(puzzles::password::RuleFault::NoRule)
    );
}

#[test]
fn loop_numbers_are_searched_within_bounds() {
    assert_eq!(puzzles::handshake::search_loop_num(5764801), Some(8));
    assert_eq!(puzzles::handshake::search_loop_num(17807724), Some(11));
    assert_eq!(puzzles::handshake::search_loop_num(1), Some(0));
    assert_eq!(puzzles::handshake::search_loop_num(0), None);
    assert_eq!(puzzles::handshake::search_loop_num(-7), None);
    assert_eq!(puzzles::handshake::search_loop_num(20201227), None);
}
