use puzzles::customs::{count_anyone, count_everyone, intersection, union};
use puzzles::expense::{findpair, findtriple};
use puzzles::expr::{is_clean, try_eval, Expr, ParseError, Parser, Rules, Token};
use puzzles::password::{atpos, count_is_between, piece_is, valid1, valid2};
use puzzles::xmas::{solve1, solve2};
use std::collections::HashSet;

fn report() -> HashSet<u64> {
    [1721, 979, 366, 299, 675, 1456].into_iter().collect()
}

#[test]
fn two_entries_add_up() {
    let h = report();
    let (a, b) = findpair(&h, &2020, &0).unwrap();
    assert_eq!((a.min(b), a.max(b)), (299, 1721));
    assert_eq!(a * b, 514579);
    assert_eq!(findpair(&h, &2020, &299), Err("did not find pair"));
    assert_eq!(findpair(&h, &2021, &0), Err("did not find pair"));
    assert_eq!(findpair(&h, &732, &0), Err("did not find pair"));
    assert_eq!(findpair(&HashSet::new(), &0, &0), Err("did not find pair"));
    let with_zero: HashSet<u64> = [0, 7].into_iter().collect();
    let (a, b) = findpair(&with_zero, &7, &9).unwrap();
    assert_eq!((a.min(b), a.max(b)), (0, 7));
}

#[test]
fn three_entries_add_up() {
    let h = report();
    let (a, b, c) = findtriple(&h, &2020).unwrap();
    let mut t = [a, b, c];
    t.sort();
    assert_eq!(t, [366, 675, 979]);
    assert_eq!(a * b * c, 241861950);
    assert_eq!(findtriple(&h, &5), Err("did not find triple"));
    assert_eq!(findtriple(&h, &2019), Err("did not find triple"));
}

#[test]
fn password_policies() {
    assert!(valid1(1, 3, "a", "abcde"));
    assert!(!valid1(1, 3, "b", "cdefg"));
    assert!(valid1(2, 9, "c", "ccccccccc"));
    assert!(!valid1(2, 8, "c", "ccccccccc"));
    assert!(valid1(2, 2, "aa", "aaaaa"));
    assert!(valid2(1, 3, "a", "abcde"));
    assert!(!valid2(1, 3, "b", "cdefg"));
    assert!(!valid2(2, 9, "c", "ccccccccc"));
    assert!(valid2(1, 9, "c", "c"));
    assert_eq!(atpos(1, "a", "abc"), 1);
    assert_eq!(atpos(3, "a", "abc"), 0);
    assert_eq!(atpos(4, "a", "abc"), 0);
    assert_eq!(atpos(1, "\u{e9}", "\u{e9}"), 0);
    assert_eq!(piece_is(&Some("x".to_string()), "x"), 1);
    assert_eq!(piece_is(&Some("x".to_string()), "y"), 0);
    assert_eq!(piece_is(&None, ""), 0);
    assert!(count_is_between(3, 3, 3));
    assert!(!count_is_between(2, 3, 4));
    assert!(!count_is_between(5, 3, 4));
}

const STREAM: [i64; 20] =
    [35, 20, 15, 25, 47, 40, 62, 55, 65, 95, 102, 117, 150, 182, 127, 219, 299, 277, 309, 576];

#[test]
fn first_number_that_is_no_sum() {
    assert_eq!(solve1(&STREAM.to_vec(), 5), Some(127));
    assert_eq!(solve1(&STREAM[..14].to_vec(), 5), None);
    assert_eq!(solve1(&Vec::new(), 5), None);
    // The number right behind the preamble is not looked at.
    assert_eq!(solve1(&vec![1, 2, 100, 3], 2), Some(3));
    assert_eq!(solve1(&vec![1, 2, 100, 102], 2), None);
    assert_eq!(solve1(&vec![5, 5, 7, 10], 2), Some(10));
}

#[test]
fn run_that_adds_up() {
    assert_eq!(solve2(&STREAM.to_vec(), 127), Some((15, 47)));
    assert_eq!(solve2(&STREAM.to_vec(), 55), Some((20, 35)));
    assert_eq!(solve2(&STREAM.to_vec(), 1), None);
    assert_eq!(solve2(&vec![3, 4], 7), None);
    assert_eq!(solve2(&vec![1, 2, 3, 3, 0], 6), Some((3, 3)));
}

#[test]
fn answers_are_joined() {
    assert_eq!(union("cab".to_string(), "bad"), "abcd");
    assert_eq!(union("zz".to_string(), ""), "z");
    assert_eq!(union(String::new(), ""), "");
    assert_eq!(intersection("cab".to_string(), "bad"), "ab");
    assert_eq!(intersection("cab".to_string(), "xyz"), "");
    assert_eq!(intersection("aab".to_string(), "ba"), "ab");
    let group = |g: &[&str]| -> Vec<String> { g.iter().map(|s| s.to_string()).collect() };
    assert_eq!(count_anyone(&group(&["abc"])), 3);
    assert_eq!(count_anyone(&group(&["a", "b", "c"])), 3);
    assert_eq!(count_anyone(&group(&["ab", "ac"])), 3);
    assert_eq!(count_anyone(&group(&[])), 0);
    assert_eq!(count_anyone(&group(&["\u{e9}a"])), 3);
    assert_eq!(count_everyone(&group(&["abc"])), 3);
    assert_eq!(count_everyone(&group(&["a", "b", "c"])), 0);
    assert_eq!(count_everyone(&group(&["ab", "ac"])), 1);
    assert_eq!(count_everyone(&group(&["a", "a", "a", "a"])), 1);
    assert_eq!(count_everyone(&group(&[])), 0);
    assert_eq!(count_everyone(&group(&["aab"])), 3);
}

fn value(rules: Rules, text: &str) -> Option<i64> {
    assert!(is_clean(text));
    let tree = Parser { rules }.parse(text).ok()?;
    try_eval(&tree)
}

#[test]
fn expressions_are_parsed_by_precedence() {
    let same = Rules { precedence_plus: 20, precedence_times: 20 };
    let plus_first = Rules { precedence_plus: 30, precedence_times: 20 };
    let usual = Rules { precedence_plus: 20, precedence_times: 30 };
    assert_eq!(value(same, "1 + 2 * 3 + 4 * 5 + 6"), Some(71));
    assert_eq!(value(plus_first, "1 + 2 * 3 + 4 * 5 + 6"), Some(231));
    assert_eq!(value(usual, "1 + 2 * 3 + 4 * 5 + 6"), Some(33));
    assert_eq!(value(same, "1 + (2 * 3) + (4 * (5 + 6))"), Some(51));
    assert_eq!(value(plus_first, "1 + (2 * 3) + (4 * (5 + 6))"), Some(51));
    assert_eq!(value(same, "2 * 3 + (4 * 5)"), Some(26));
    assert_eq!(value(plus_first, "2 * 3 + (4 * 5)"), Some(46));
    assert_eq!(value(same, "((2 + 4 * 9) * (6 + 9 * 8 + 6) + 6) + 2 + 4 * 2"), Some(13632));
    assert_eq!(value(plus_first, "((2 + 4 * 9) * (6 + 9 * 8 + 6) + 6) + 2 + 4 * 2"), Some(23340));
    assert_eq!(value(same, "7"), Some(7));
    assert_eq!(value(same, "9223372036854775807 + 1"), None);
}

#[test]
fn malformed_expressions_are_refused() {
    let p = Parser { rules: Rules { precedence_plus: 20, precedence_times: 20 } };
    assert_eq!(p.parse("").err(), Some(ParseError::ExpectedOperand));
    assert_eq!(p.parse("1 +").err(), Some(ParseError::ExpectedOperand));
    assert_eq!(p.parse("(1 + 2").err(), Some(ParseError::ExpectedClosingParen));
    assert_eq!(p.parse("1 2").err(), Some(ParseError::Trailing(Token::Number(2))));
    assert_eq!(p.parse("1 )").err(), Some(ParseError::Trailing(Token::RightParen)));
    assert_eq!(p.parse("* 1").err(), Some(ParseError::ExpectedOperand));
    assert!(!is_clean("1 - 2"));
    assert!(!is_clean("9223372036854775808"));
    assert!(is_clean(" ( ) + * 12 "));
    assert!(is_clean(""));
    assert_eq!(try_eval(&Expr::Op(Box::new(Expr::Constant(1)), '-', Box::new(Expr::Constant(1)))), None);
}
