use puzzles::grammar::{
    alternative_from, alternative_pattern, compile_regex, count_matches, heading_from, literal_from, literal_pattern, parse_alternative, parse_line, parse_literal, parse_sequence, rule_pattern, translate_alternative, translate_rule_sequence, translate_to_regex_pattern, Rule, RuleError, RulePatterns, TranslateError,
};
use puzzles::passport::{part1, part2, two_fields, Passport};
use puzzles::text::chars_of;
use std::collections::HashMap;

fn passport(text: &str) -> Passport {
    let lines: Vec<String> = text.split('\n').map(|s| s.to_string()).collect();
    Passport::new(&lines).unwrap()
}

#[test]
fn settings_are_split() {
    assert_eq!(two_fields(':', "a:b"), Ok(("a".to_string(), "b".to_string())));
    assert_eq!(two_fields(':', ":"), Ok((String::new(), String::new())));
    assert_eq!(two_fields(':', "ab"), Err("expected two fields"));
    assert_eq!(two_fields(':', "a:b:c"), Err("expected two fields"));
    assert_eq!(two_fields(':', "a:b:c:d"), Err("expected two fields"));
    let p = passport("ecl:gry pid:860033327\teyr:2020\nhcl:#fffffd  ecl:blu");
    assert_eq!(p.attributes.len(), 5);
    assert_eq!(p.get("ecl"), Some(chars_of("blu")));
    assert_eq!(p.get("pid"), Some(chars_of("860033327")));
    assert_eq!(p.get("byr"), None);
    let lines = vec!["ecl:gry pid".to_string()];
    assert!(Passport::new(&lines).is_err());
    assert!(Passport::from_settings(&vec![chars_of("a:b"), chars_of("c")]).is_err());
    assert!(Passport::new(&Vec::new()).unwrap().attributes.is_empty());
}

const BATCH: [&str; 4] = [
    "ecl:gry pid:860033327 eyr:2020 hcl:#fffffd\nbyr:1937 iyr:2017 cid:147 hgt:183cm",
    "iyr:2013 ecl:amb cid:350 eyr:2023 pid:028048884\nhcl:#cfa07d byr:1929",
    "hcl:#ae17e1 iyr:2013\neyr:2024\necl:brn pid:760753108 byr:1931\nhgt:179cm",
    "hcl:#cfa07d eyr:2025 pid:166559648\niyr:2011 ecl:brn hgt:59in",
];

#[test]
fn complete_passports_are_counted() {
    let all: Vec<Passport> = BATCH.iter().map(|t| passport(t)).collect();
    assert!(all[0].valid1());
    assert!(!all[1].valid1());
    assert!(all[2].valid1());
    assert!(!all[3].valid1());
    assert_eq!(part1(&all), 2);
    assert_eq!(part2(&all), 2);
    assert_eq!(part1(&Vec::new()), 0);
}

#[test]
fn values_keep_their_rules() {
    let year = |v: &str| passport(&format!("byr:{}", v)).valid_year("byr", 1920, 2002);
    assert!(year("2002") && year("1920") && year("+1950") && year("01950"));
    assert!(!year("2003") && !year("1919") && !year("") && !year("19x0") && !year("99999999999"));
    assert!(!passport("iyr:2000").valid_year("byr", 1920, 2002));
    let height = |v: &str| passport(&format!("hgt:{}", v)).valid_height();
    assert!(height("60in") && height("190cm") && height("150cm") && height("193cm") && height("59in") && height("76in") && height("076in"));
    assert!(!height("190in") && !height("190") && !height("149cm") && !height("194cm") && !height("58in") && !height("77in"));
    assert!(!height("cm") && !height("") && !height("+60in") && !height("99999999999999999999cm"));
    let hair = |v: &str| passport(&format!("hcl:{}", v)).valid_hair_colour();
    assert!(hair("#123abc") && hair("#123abcd") && hair("#000000zz"));
    assert!(!hair("#123abz") && !hair("123abc") && !hair("#12345") && !hair("#123ABC") && !hair(""));
    let eye = |v: &str| passport(&format!("ecl:{}", v)).valid_eye_colour();
    for colour in ["amb", "blu", "brn", "gry", "grn", "hzl", "oth"] {
        assert!(eye(colour));
    }
    assert!(!eye("wat") && !eye("") && !eye("ambx"));
    let id = |v: &str| passport(&format!("pid:{}", v)).valid_passport_id();
    assert!(id("000000001") && id("123456789"));
    assert!(!id("0123456789") && !id("12345678") && !id("12345678x") && !id(""));
    assert!(!passport("").valid_height() && !passport("").valid_hair_colour());
    assert!(!passport("").valid_eye_colour() && !passport("").valid_passport_id());
}

#[test]
fn proper_passports_are_told_apart() {
    let bad = [
        "eyr:1972 cid:100\nhcl:#18171d ecl:amb hgt:170 pid:186cm iyr:2018 byr:1926",
        "iyr:2019\nhcl:#602927 eyr:1967 hgt:170cm\necl:grn pid:012533040 byr:1946",
        "hcl:dab227 iyr:2012\necl:brn hgt:182cm pid:021572410 eyr:2020 byr:1992 cid:277",
        "hgt:59cm ecl:zzz\neyr:2038 hcl:74454a iyr:2023\npid:3556412378 byr:2007",
    ];
    let good = [
        "pid:087499704 hgt:74in ecl:grn iyr:2012 eyr:2030 byr:1980\nhcl:#623a2f",
        "eyr:2029 ecl:blu cid:129 byr:1989\niyr:2014 pid:896056539 hcl:#a97842 hgt:165cm",
        "hcl:#888785\nhgt:164cm byr:2001 iyr:2015 cid:88\npid:545766238 ecl:hzl\neyr:2022",
        "iyr:2010 hgt:158cm hcl:#b6652a ecl:blu byr:1944 eyr:2021 pid:093154719",
    ];
    for text in bad {
        assert!(passport(text).valid1());
        assert!(!passport(text).valid2());
    }
    for text in good {
        assert!(passport(text).valid2());
    }
    let later = passport("byr:1800 byr:1980");
    assert!(later.valid_year("byr", 1920, 2002));
}

fn rules() -> HashMap<i32, Rule> {
    let mut rules = HashMap::new();
    rules.insert(0, Rule::Sequence(vec![4, 1, 5]));
    rules.insert(1, Rule::Alternative(vec![2, 3], vec![3, 2]));
    rules.insert(2, Rule::Alternative(vec![4, 4], vec![5, 5]));
    rules.insert(3, Rule::Alternative(vec![4, 5], vec![5, 4]));
    rules.insert(4, Rule::Literal('a'));
    rules.insert(5, Rule::Literal('b'));
    rules.insert(6, Rule::Alternative(vec![4], vec![5]));
    rules.insert(7, Rule::CannedRegex("x+".to_string()));
    rules.insert(8, Rule::Sequence(vec![8]));
    rules.insert(9, Rule::Sequence(vec![4, 99, 98]));
    rules
}

#[test]
fn rules_become_patterns() {
    let rules = rules();
    let pattern = |id: i32, depth: usize| translate_to_regex_pattern(&id, &rules, depth);
    assert_eq!(pattern(4, 1), Ok("a".to_string()));
    assert_eq!(pattern(7, 1), Ok("x+".to_string()));
    assert_eq!(pattern(6, 5), Ok("[ab]".to_string()));
    assert_eq!(pattern(2, 5), Ok("(:?aa|bb)".to_string()));
    assert_eq!(
        pattern(0, 10),
        Ok("a(:?(:?aa|bb)(:?ab|ba)|(:?ab|ba)(:?aa|bb))b".to_string())
    );
    assert_eq!(pattern(0, 3), Err(TranslateError::TooDeep));
    assert_eq!(pattern(4, 0), Err(TranslateError::TooDeep));
    assert_eq!(pattern(8, 50), Err(TranslateError::TooDeep));
    assert_eq!(pattern(9, 5), Err(TranslateError::MissingRule(99)));
    assert_eq!(pattern(77, 5), Err(TranslateError::MissingRule(77)));
    assert_eq!(pattern(77, 0), Err(TranslateError::MissingRule(77)));
    assert_eq!(translate_rule_sequence(&vec![4, 5, 4], &rules, 1), Ok("aba".to_string()));
    assert_eq!(translate_rule_sequence(&Vec::new(), &rules, 0), Ok(String::new()));
    assert_eq!(translate_alternative(&vec![4], &vec![5, 5], &rules, 1), Ok("(:?a|bb)".to_string()));
    assert_eq!(translate_alternative(&vec![98], &vec![99], &rules, 1), Err(TranslateError::MissingRule(98)));
}

#[test]
fn messages_are_matched() {
    let rules = rules();
    let pattern = translate_to_regex_pattern(&0, &rules, 10).unwrap();
    let rx = compile_regex(&pattern).ok().unwrap();
    assert_eq!(rx.as_str(), format!("^(:?{})$", pattern));
    let messages: Vec<String> =
        ["ababbb", "bababa", "abbbab", "aaabbb", "aaaabbb"].iter().map(|s| s.to_string()).collect();
    assert_eq!(count_matches(&rx, &messages, &false), 2);
    assert_eq!(count_matches(&rx, &Vec::new(), &true), 0);
    assert!(compile_regex("(").is_err());
}

#[test]
fn literal_rules_are_read() {
    let lit = literal_pattern().unwrap();
    assert_eq!(lit.as_str(), "\"(.)\"$");
    assert!(matches!(parse_literal(&lit, " \"x\""), Some(Rule::Literal('x'))));
    assert!(parse_literal(&lit, "x").is_none());
    assert!(parse_literal(&lit, "\"xy\"").is_none());
    assert!(matches!(literal_from(&Some(vec![None, Some("qr".to_string())])), Some(Rule::Literal('q'))));
    assert!(literal_from(&Some(vec![None, Some(String::new())])).is_none());
    assert!(literal_from(&Some(vec![None, None])).is_none());
    assert!(literal_from(&Some(vec![Some("a".to_string())])).is_none());
    assert!(literal_from(&None).is_none());
}

fn rule_patterns() -> RulePatterns {
    RulePatterns {
        rule: rule_pattern().unwrap(),
        alternative: alternative_pattern().unwrap(),
        literal: literal_pattern().unwrap(),
    }
}

#[test]
fn rules_are_written_as_in_a_grammar() {
    assert_eq!(Rule::Sequence(vec![1, 2]).as_text(), "1 2");
    assert_eq!(Rule::Sequence(vec![-7]).as_text(), "-7");
    assert_eq!(Rule::Sequence(Vec::new()).as_text(), "");
    assert_eq!(Rule::Alternative(vec![1, 2], vec![9, 43]).as_text(), "1 2 | 9 43");
    assert_eq!(Rule::Literal('x').as_text(), "\"x\"");
    assert_eq!(Rule::CannedRegex("x+".to_string()).as_text(), "[canned] x+");
}

#[test]
fn sequence_rules_are_read() {
    assert!(matches!(parse_sequence("4 1 5"), Some(Rule::Sequence(ids)) if ids == vec![4, 1, 5]));
    assert!(matches!(parse_sequence("8"), Some(Rule::Sequence(ids)) if ids == vec![8]));
    assert!(matches!(parse_sequence("1\t 2"), Some(Rule::Sequence(ids)) if ids == vec![1, 2]));
    assert!(parse_sequence("1  2").is_none());
    assert!(parse_sequence("").is_none());
    assert!(parse_sequence("1 | 2").is_none());
    assert!(parse_sequence("\"a\"").is_none());
}

#[test]
fn alternative_rules_are_read() {
    let alt = alternative_pattern().unwrap();
    assert_eq!(alt.as_str(), r"([^|]+)[|]([^|]+)$");
    assert!(matches!(
        parse_alternative(&alt, " 1 2 | 9 43"),
        Some(Rule::Alternative(l, r)) if l == vec![1, 2] && r == vec![9, 43]
    ));
    assert!(parse_alternative(&alt, "1 2").is_none());
    assert!(parse_alternative(&alt, "1 | x").is_none());
    assert!(parse_alternative(&alt, "1 |").is_none());
    let text = |s: &str| Some(s.to_string());
    assert!(matches!(
        alternative_from(&Some(vec![text("3|4"), text(" 3 "), text("4")])),
        Some(Rule::Alternative(l, r)) if l == vec![3] && r == vec![4]
    ));
    assert!(alternative_from(&Some(vec![text("3|4"), text("3")])).is_none());
    assert!(alternative_from(&None).is_none());
}

#[test]
fn lines_of_a_grammar_are_read() {
    let patterns = rule_patterns();
    assert_eq!(patterns.rule.as_str(), r"^(\d+): (.*)$");
    assert!(matches!(
        parse_line(&patterns, "0: 4 1 5"),
        Ok((0, Rule::Sequence(ids))) if ids == vec![4, 1, 5]
    ));
    assert!(matches!(
        parse_line(&patterns, "1: 2 3 | 3 2"),
        Ok((1, Rule::Alternative(l, r))) if l == vec![2, 3] && r == vec![3, 2]
    ));
    assert!(matches!(parse_line(&patterns, "4: \"a\""), Ok((4, Rule::Literal('a')))));
    assert!(matches!(parse_line(&patterns, "x: 1"), Err(RuleError::NoRule)));
    assert!(matches!(parse_line(&patterns, "4 1"), Err(RuleError::NoRule)));
    assert!(matches!(parse_line(&patterns, "99999999999: 1"), Err(RuleError::NoRule)));
    assert!(matches!(parse_line(&patterns, "5: foo"), Err(RuleError::BadBody)));
    let text = |s: &str| Some(s.to_string());
    assert_eq!(heading_from(&Some(vec![text("7: x"), text("7"), text("x")])), Some((7, "x".to_string())));
    assert_eq!(heading_from(&Some(vec![text("7: x"), None, text("x")])), None);
}

#[test]
fn a_grammar_is_turned_into_a_pattern() {
    let patterns = rule_patterns();
    let mut rules: HashMap<i32, Rule> = HashMap::new();
    for line in ["0: 4 1 5", "1: 2 3 | 3 2", "2: 4 4 | 5 5", "3: 4 5 | 5 4", "4: \"a\"", "5: \"b\""] {
        let (id, rule) = parse_line(&patterns, line).ok().unwrap();
        rules.insert(id, rule);
    }
    let pattern = translate_to_regex_pattern(&0, &rules, 10).ok().unwrap();
    let rx = compile_regex(&pattern).ok().unwrap();
    let messages: Vec<String> =
        ["ababbb", "bababa", "abbbab", "aaabbb", "aaaabbb"].iter().map(|s| s.to_string()).collect();
    assert_eq!(count_matches(&rx, &messages, &false), 2);
}

#[test]
fn looping_rules_are_replaced() {
    let patterns = rule_patterns();
    let mut rules: HashMap<i32, Rule> = HashMap::new();
    for line in ["0: 8 11", "8: 42", "11: 42 31", "42: \"a\"", "31: \"b\""] {
        let (id, rule) = parse_line(&patterns, line).ok().unwrap();
        rules.insert(id, rule);
    }
    let messages: Vec<String> =
        ["aab", "aaab", "aaabb", "ab", "aabb", "aaaaaabbbbb", "aaaaaaabbbbbb"]
            .iter()
            .map(|s| s.to_string())
            .collect();
    let plain = translate_to_regex_pattern(&0, &rules, 10).ok().unwrap();
    assert_eq!(plain, "aab");
    assert_eq!(count_matches(&compile_regex(&plain).ok().unwrap(), &messages, &false), 1);
    assert_eq!(puzzles::grammar::customise(&mut rules, 13, 10), Ok(()));
    assert!(matches!(rules.get(&8), Some(Rule::CannedRegex(p)) if p == "((a)+)"));
    assert!(matches!(
        rules.get(&11),
        Some(Rule::CannedRegex(p))
            if p == "(:?(:?ab)|(:?aabb)|(:?aaabbb)|(:?aaaabbbb)|(:?aaaaabbbbb))"
    ));
    let looped = translate_to_regex_pattern(&0, &rules, 10).ok().unwrap();
    assert_eq!(count_matches(&compile_regex(&looped).ok().unwrap(), &messages, &false), 4);
    let mut short = HashMap::new();
    short.insert(42, Rule::Literal('a'));
    assert_eq!(puzzles::grammar::customise(&mut short, 2, 10), Err(TranslateError::MissingRule(31)));
    assert_eq!(short.len(), 1);
    short.insert(31, Rule::Literal('b'));
    assert_eq!(puzzles::grammar::customise(&mut short, 2, 10), Ok(()));
    assert!(matches!(
        short.get(&11),
        Some(Rule::CannedRegex(p)) if p == "(:?(:?ab)|(:?aabb))"
    ));
}

#[test]
fn values_are_held_against_patterns() {
    let p = Passport::new(&vec!["hcl:#123abc pid:000000001".to_string()]).ok().unwrap();
    let hair = regex::Regex::new(r"^#[0-9a-f]{6}").unwrap();
    let id = regex::Regex::new("^[0-9]{9}$").unwrap();
    assert!(p.attr_matches("hcl", &hair));
    assert!(p.attr_matches("pid", &id));
    assert!(!p.attr_matches("pid", &hair));
    assert!(!p.attr_matches("hcl", &id));
    assert!(!p.attr_matches("ecl", &hair));
    assert_eq!(p.attr_matches("hcl", &hair), p.valid_hair_colour());
    assert_eq!(p.attr_matches("pid", &id), p.valid_passport_id());
}
