use puzzles::bags::{
    empty_pattern, item_from, item_pattern, line_pattern, parse_line, trim_stops, Bag, BagDefs,
    BagError, LineError,
};
use puzzles::docking::{
    execute_v1, execute_v2, floating_addresses, read_input, read_masks, ExecError, Operation,
};
use puzzles::text::chars_of;
use regex::Regex;

const RULES: [&str; 9] = [
    "light red bags contain 1 bright white bag, 2 muted yellow bags.",
    "dark orange bags contain 3 bright white bags, 4 muted yellow bags.",
    "bright white bags contain 1 shiny gold bag.",
    "muted yellow bags contain 2 shiny gold bags, 9 faded blue bags.",
    "shiny gold bags contain 1 dark olive bag, 2 vibrant plum bags.",
    "dark olive bags contain 3 faded blue bags, 4 dotted black bags.",
    "vibrant plum bags contain 5 faded blue bags, 6 dotted black bags.",
    "faded blue bags contain no other bags.",
    "dotted black bags contain no other bags.",
];

fn patterns() -> (Regex, Regex, Regex) {
    (
        line_pattern().unwrap(),
        empty_pattern().unwrap(),
        item_pattern().unwrap(),
    )
}

fn definitions(rules: &[&str]) -> BagDefs {
    let (line, empty, item) = patterns();
    let mut defs = BagDefs::new();
    for rule in rules {
        let (parent, contents) = parse_line(&line, &empty, &item, rule).unwrap();
        for (child, quantity) in contents.iter() {
            defs.add_bag(&parent, child, quantity);
        }
    }
    defs
}

#[test]
fn rules_are_read() {
    let (line, empty, item) = patterns();
    assert_eq!(
        parse_line(&line, &empty, &item, RULES[0]),
        Ok(("light red".to_string(), vec![("bright white".to_string(), 1), ("muted yellow".to_string(), 2)]))
    );
    assert_eq!(parse_line(&line, &empty, &item, RULES[7]), Ok(("faded blue".to_string(), Vec::new())));
    assert_eq!(
        parse_line(&line, &empty, &item, "a bags contain 1 b bag, 3 b bags..."),
        Ok(("a".to_string(), vec![("b".to_string(), 3)]))
    );
    assert_eq!(parse_line(&line, &empty, &item, "nonsense"), Err(LineError::Malformed));
    assert_eq!(parse_line(&line, &empty, &item, "a bags contain 1 b bag, x"), Err(LineError::BadItem(1)));
    assert_eq!(parse_line(&line, &empty, &item, "a bags contain some b bags"), Err(LineError::BadItem(0)));
    assert_eq!(trim_stops(&chars_of("a.b...")), chars_of("a.b"));
    assert_eq!(trim_stops(&chars_of("...")), Vec::<char>::new());
    assert_eq!(item_from(&Some(vec![None, Some("12".to_string()), Some("red".to_string())])), Some(("red".to_string(), 12)));
    assert_eq!(item_from(&Some(vec![None, Some("".to_string()), Some("red".to_string())])), None);
    assert_eq!(item_from(&Some(vec![None, Some("1".to_string())])), None);
    assert_eq!(item_from(&Some(vec![None, None, Some("red".to_string())])), None);
    assert_eq!(item_from(&None), None);
}

#[test]
fn bags_hold_bags() {
    let defs = definitions(&RULES);
    assert_eq!(defs.definitions.len(), 9);
    assert_eq!(defs.can_contain("light red", "shiny gold", 10), Ok(true));
    assert_eq!(defs.can_contain("light red", "bright white", 0), Ok(true));
    assert_eq!(defs.can_contain("shiny gold", "light red", 10), Ok(false));
    assert_eq!(defs.can_contain("faded blue", "shiny gold", 0), Ok(false));
    assert_eq!(defs.can_contain("light red", "shiny gold", 0), Err(BagError::TooDeep));
    assert_eq!(defs.can_contain("shiny gold", "light red", 1), Err(BagError::TooDeep));
    assert_eq!(defs.can_contain("pink", "shiny gold", 10), Err(BagError::UnknownColour));
    assert_eq!(
        defs.possible_parents("shiny gold", 10),
        Ok(vec!["light red".to_string(), "bright white".to_string(), "muted yellow".to_string(), "dark orange".to_string()])
    );
    assert_eq!(defs.possible_parents("shiny gold", 0), Err(BagError::TooDeep));
    assert_eq!(defs.count_children("shiny gold", 10), Ok(32));
    assert_eq!(defs.count_children("faded blue", 0), Ok(0));
    assert_eq!(defs.count_children("shiny gold", 1), Err(BagError::TooDeep));
    assert_eq!(defs.count_children("pink", 1), Err(BagError::UnknownColour));
    let deep = definitions(&[
        "shiny gold bags contain 2 dark red bags.",
        "dark red bags contain 2 dark orange bags.",
        "dark orange bags contain 2 dark yellow bags.",
        "dark yellow bags contain 2 dark green bags.",
        "dark green bags contain 2 dark blue bags.",
        "dark blue bags contain 2 dark violet bags.",
        "dark violet bags contain no other bags.",
    ]);
    assert_eq!(deep.definitions.len(), 7);
    assert_eq!(deep.count_children("shiny gold", 6), Ok(126));
    assert_eq!(deep.count_children("shiny gold", 5), Err(BagError::TooDeep));
    let round = definitions(&["a bags contain 1 b bag.", "b bags contain 1 a bag."]);
    assert_eq!(round.count_children("a", 1000), Err(BagError::TooDeep));
    assert_eq!(round.can_contain("a", "c", 1000), Err(BagError::TooDeep));
    let mut huge = BagDefs::new();
    huge.add_bag("a", "b", &u64::MAX);
    huge.add_bag("b", "c", &2);
    assert_eq!(huge.count_children("a", 5), Err(BagError::Overflow));
}

#[test]
fn rules_are_noted() {
    let mut defs = BagDefs::new();
    defs.maybe_add_bag("a");
    defs.maybe_add_bag("a");
    assert_eq!(defs.definitions.len(), 1);
    assert_eq!(defs.get_or_add_bag("b"), 1);
    assert_eq!(defs.get_or_add_bag("a"), 0);
    assert_eq!(defs.find("b"), Some(1));
    assert_eq!(defs.find("c"), None);
    defs.add_bag("a", "c", &4);
    defs.add_bag("a", "b", &1);
    defs.add_bag("a", "c", &7);
    defs.add_bag("b", "c", &1);
    assert_eq!(defs.definitions.len(), 3);
    assert_eq!(defs.definitions[0].1.required_children, vec![("c".to_string(), 7), ("b".to_string(), 1)]);
    assert_eq!(defs.definitions[2].1.allowed_parents, vec!["a".to_string(), "b".to_string()]);
    let mut bag = Bag::new("x");
    bag.add_allowed_parent("p");
    bag.add_allowed_parent("p");
    assert_eq!(bag.allowed_parents, vec!["p".to_string()]);
}

fn program(lines: &[&str]) -> Vec<Operation> {
    read_input(&lines.iter().map(|s| s.to_string()).collect()).ok().unwrap()
}

#[test]
fn masks_are_read() {
    assert_eq!(read_masks("XXXXXXXXXXXXXXXXXXXXXXXXXXXXX1XXXX0X"), Some((0xf_ffff_ffbd, 0x40)));
    assert_eq!(read_masks(""), Some((0, 0)));
    assert_eq!(read_masks("1"), Some((0, 1)));
    assert_eq!(read_masks("X0"), Some((2, 0)));
    assert_eq!(read_masks("12"), None);
    assert_eq!(read_masks(&"1".repeat(63)), Some((0, i64::MAX)));
    assert_eq!(read_masks(&"1".repeat(64)), None);
}

#[test]
fn first_machine_masks_values() {
    let ops = program(&[
        "mask = XXXXXXXXXXXXXXXXXXXXXXXXXXXXX1XXXX0X",
        "mem[8] = 11",
        "mem[7] = 101",
        "mem[8] = 0",
    ]);
    assert_eq!(execute_v1(&ops), Ok(165));
    assert_eq!(execute_v1(&Vec::new()), Ok(0));
    assert_eq!(execute_v1(&program(&["mem[1] = 5"])), Ok(0));
    let bad = vec![Operation::Store(1, 2), Operation::SetMask("1?".to_string())];
    assert_eq!(execute_v1(&bad), Err(ExecError::BadMask));
    assert_eq!(execute_v2(&bad), Err(ExecError::BadMask));
    let big = vec![
        Operation::SetMask("1".repeat(62)),
        Operation::Store(1, 0),
        Operation::Store(2, 0),
        Operation::Store(3, 0),
    ];
    assert_eq!(execute_v1(&big), Err(ExecError::Overflow));
    assert_eq!(execute_v1(&big[..3].to_vec_ops()), Ok(i64::MAX - 1));
}

trait ToOps {
    fn to_vec_ops(&self) -> Vec<Operation>;
}

impl ToOps for [Operation] {
    fn to_vec_ops(&self) -> Vec<Operation> {
        self.iter()
            .map(|op| match op {
                Operation::SetMask(s) => Operation::SetMask(s.clone()),
                Operation::Store(a, v) => Operation::Store(*a, *v),
            })
            .collect()
    }
}

#[test]
fn second_machine_floats_addresses() {
    let ops = program(&[
        "mask = 000000000000000000000000000000X1001X",
        "mem[42] = 100",
        "mask = 00000000000000000000000000000000X0XX",
        "mem[26] = 1",
    ]);
    assert_eq!(execute_v2(&ops), Ok(208));
    assert_eq!(floating_addresses(58, 0x21), vec![26, 58, 27, 59]);
    assert_eq!(floating_addresses(5, 0), vec![5]);
    assert_eq!(floating_addresses(0, 1 << 40), vec![0]);
    assert_eq!(execute_v2(&program(&["mem[3] = 4", "mem[3] = 6", "mem[4] = 1"])), Ok(7));
}
