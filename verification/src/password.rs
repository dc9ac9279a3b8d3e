//! Two policies for passwords: how often a piece occurs, and at which
//! places it stands.
use crate::pattern::{captures, compile, groups_view, regex_captures, regex_source};
use crate::text::{chars_equal, chars_of, end_trimmed, parse_unsigned, trim_end, unsigned_value};
use regex::Regex;
use vstd::prelude::*;

verus! {

/// The piece of a text between two byte offsets: what `str::get` gives for
/// the range `from..to`, `None` when the range does not lie in the text or
/// cuts a character in two.
pub uninterp spec fn byte_window(s: Seq<char>, from: int, to: int) -> Option<Seq<char>>;

/// The number of places, none overlapping another, at which `pattern`
/// stands in `s`, counted from the left as `str::matches` finds them.
pub uninterp spec fn occurrences(s: Seq<char>, pattern: Seq<char>) -> nat;

/// `str::get` with a range of byte offsets, the piece copied.
#[verifier::external_body]
fn get_window(s: &str, from: usize, to: usize) -> (r: Option<String>)
    ensures
        r is Some <==> byte_window(s@, from as int, to as int) is Some,
        r matches Some(piece) ==> byte_window(s@, from as int, to as int) == Some(piece@),
{
    s.get(from..to).map(|piece| piece.to_string())
}

/// `str::matches`, counted.
#[verifier::external_body]
fn count_occurrences(s: &str, pattern: &str) -> (r: usize)
    ensures
        r == occurrences(s@, pattern@),
{
    s.matches(pattern).count()
}

/// 1 if `got` is the piece `expected`, else 0.
pub fn piece_is(got: &Option<String>, expected: &str) -> (r: usize)
    ensures
        r == (if *got matches Some(piece) && piece@ == expected@ {
            1usize
        } else {
            0usize
        }),
{
    match got {
        Some(piece) => {
            let chars = chars_of(piece.as_str());
            if chars_equal(&chars, expected) {
                1
            } else {
                0
            }
        },
        None => 0,
    }
}

/// Whether `actual` lies between `n1` and `n2`, both included.
pub fn count_is_between(actual: usize, n1: usize, n2: usize) -> (r: bool)
    ensures
        r == (n1 <= actual <= n2),
{
    actual >= n1 && actual <= n2
}

/// 1 if the byte of `passwd` with the number `pos`, counted from 1, is the
/// piece `expected`, else 0.
pub fn atpos(pos: usize, expected: &str, passwd: &str) -> (r: usize)
    requires
        pos >= 1,
    ensures
        r == (if byte_window(passwd@, pos - 1, pos as int) == Some(expected@) {
            1usize
        } else {
            0usize
        }),
{
    let got = get_window(passwd, pos - 1, pos);
    piece_is(&got, expected)
}

/// The second policy: `ch` stands at exactly one of the places `n1` and
/// `n2`, counted from 1.
pub fn valid2(n1: usize, n2: usize, ch: &str, passwd: &str) -> (r: bool)
    requires
        n1 >= 1,
        n2 >= 1,
    ensures
        r == ((byte_window(passwd@, n1 - 1, n1 as int) == Some(ch@)) != (byte_window(
            passwd@,
            n2 - 1,
            n2 as int,
        ) == Some(ch@))),
{
    (atpos(n1, ch, passwd) + atpos(n2, ch, passwd)) == 1
}

/// The first policy: `ch` occurs at least `n1` and at most `n2` times.
pub fn valid1(n1: usize, n2: usize, ch: &str, passwd: &str) -> (r: bool)
    ensures
        r == (n1 <= occurrences(passwd@, ch@) <= n2),
{
    let actual = count_occurrences(passwd, ch);
    count_is_between(actual, n1, n2)
}

/// The pattern for a line: two numbers with a hyphen between them, a
/// character, a colon and the password.
pub fn rule_pattern() -> (r: Result<Regex, regex::Error>)
    ensures
        r matches Ok(re) ==> regex_source(re) == r"^(\d+)-(\d+) (.): (.*)$"@,
{
    compile(r"^(\d+)-(\d+) (.): (.*)$")
}

/// What is wrong with a line.
#[derive(Debug, Clone, Copy, PartialEq, Eq)]
pub enum RuleFault {
    /// The line is not two numbers, a character and a password.
    NoRule,
    /// One of the numbers is too large.
    BadNumber,
    /// One of the numbers is 0.
    ZeroPlace,
}

/// Whether the password of a line is valid under the first and under the
/// second policy, where the groups of a match of the pattern for lines are
/// `groups`: the two numbers, the character and the password.
pub open spec fn verdict_of(groups: Option<Seq<Option<Seq<char>>>>) -> Result<
    (bool, bool),
    RuleFault,
> {
    match groups {
        None => Err(RuleFault::NoRule),
        Some(found) => if !(found.len() >= 5 && found[1] is Some && found[2] is Some
            && found[3] is Some && found[4] is Some) {
            Err(RuleFault::NoRule)
        } else {
            match (
                unsigned_value(found[1]->0, usize::MAX as nat),
                unsigned_value(found[2]->0, usize::MAX as nat),
            ) {
                (Some(n1), Some(n2)) => if n1 < 1 || n2 < 1 {
                    Err(RuleFault::ZeroPlace)
                } else {
                    Ok(
                        (
                            n1 <= occurrences(found[4]->0, found[3]->0) <= n2,
                            (byte_window(found[4]->0, n1 - 1, n1 as int) == Some(found[3]->0)) != (
                            byte_window(found[4]->0, n2 - 1, n2 as int) == Some(found[3]->0)),
                        ),
                    )
                },
                _ => Err(RuleFault::BadNumber),
            }
        },
    }
}

/// Reads a number that fits in `usize`.
fn read_place(text: &String) -> (r: Option<usize>)
    ensures
        r is Some <==> unsigned_value(text@, usize::MAX as nat) is Some,
        r matches Some(v) ==> unsigned_value(text@, usize::MAX as nat) == Some(v as nat),
{
    let chars = chars_of(text.as_str());
    match parse_unsigned(&chars, usize::MAX as u64) {
        Some(v) => Some(v as usize),
        None => None,
    }
}

/// Whether the password is valid under the first and under the second
/// policy, from the groups of a match.
pub fn verdict_from(groups: &Option<Vec<Option<String>>>) -> (r: Result<(bool, bool), RuleFault>)
    ensures
        r == verdict_of(groups_view(*groups)),
{
    match groups {
        None => Err(RuleFault::NoRule),
        Some(found) => {
            if found.len() < 5 {
                return Err(RuleFault::NoRule);
            }
            match (&found[1], &found[2], &found[3], &found[4]) {
                (Some(first), Some(second), Some(ch), Some(password)) => {
                    match (read_place(first), read_place(second)) {
                        (Some(n1), Some(n2)) => {
                            if n1 < 1 || n2 < 1 {
                                return Err(RuleFault::ZeroPlace);
                            }
                            Ok(
                                (
                                    valid1(n1, n2, ch.as_str(), password.as_str()),
                                    valid2(n1, n2, ch.as_str(), password.as_str()),
                                ),
                            )
                        },
                        _ => Err(RuleFault::BadNumber),
                    }
                },
                _ => Err(RuleFault::NoRule),
            }
        },
    }
}

/// Whether the password of a line is valid under the first and under the
/// second policy.  The line is read without the white space at its end, with
/// the pattern for lines.
pub fn judge(rule_re: &Regex, line: &str) -> (r: Result<(bool, bool), RuleFault>)
    ensures
        r == verdict_of(regex_captures(*rule_re, end_trimmed(line@))),
{
    let bare = trim_end(line);
    let groups = captures(rule_re, bare.as_str());
    verdict_from(&groups)
}

/// How many of the first `n` lines hold a password that is valid under the
/// first policy, and how many one that is valid under the second.
pub open spec fn tally(pattern: Regex, lines: Seq<String>, n: int) -> (nat, nat)
    decreases n,
{
    if n <= 0 {
        (0, 0)
    } else {
        let before = tally(pattern, lines, n - 1);
        match verdict_of(regex_captures(pattern, end_trimmed(lines[n - 1]@))) {
            Ok((first, second)) => (
                before.0 + if first {
                    1nat
                } else {
                    0nat
                },
                before.1 + if second {
                    1nat
                } else {
                    0nat
                },
            ),
            Err(_) => before,
        }
    }
}

/// The number of the first line among the first `n` that is no rule, with
/// what is wrong with it.
pub open spec fn first_fault(pattern: Regex, lines: Seq<String>, n: int) -> Option<
    (int, RuleFault),
>
    decreases n,
{
    if n <= 0 {
        None
    } else {
        match first_fault(pattern, lines, n - 1) {
            Some(found) => Some(found),
            None => match verdict_of(regex_captures(pattern, end_trimmed(lines[n - 1]@))) {
                Ok(_) => None,
                Err(fault) => Some((n - 1, fault)),
            },
        }
    }
}

/// The first fault among some lines is the first fault among more.
pub proof fn lemma_fault_sticks(pattern: Regex, lines: Seq<String>, n: int, m: int)
    requires
        0 <= n <= m,
        first_fault(pattern, lines, n) is Some,
    ensures
        first_fault(pattern, lines, m) == first_fault(pattern, lines, n),
    decreases m - n,
{
    if n < m {
        lemma_fault_sticks(pattern, lines, n, m - 1);
    }
}

/// Counts the lines whose password is valid under the first policy and
/// those whose password is valid under the second.  Fails with the number of
/// the first line, counted from 0, that is no rule, and with what is wrong
/// with it.
pub fn count_valid(rule_re: &Regex, lines: &Vec<String>) -> (r: Result<
    (usize, usize),
    (usize, RuleFault),
>)
    ensures
        match first_fault(*rule_re, lines@, lines@.len() as int) {
            Some((at, fault)) => r == Err::<(usize, usize), (usize, RuleFault)>(
                (at as usize, fault),
            ),
            None => r matches Ok(counts) && (counts.0 as nat, counts.1 as nat) == tally(
                *rule_re,
                lines@,
                lines@.len() as int,
            ),
        },
{
    let ghost pattern = *rule_re;
    let mut count1: usize = 0;
    let mut count2: usize = 0;
    let mut i: usize = 0;
    while i < lines.len()
        invariant
            0 <= i <= lines@.len(),
            pattern == *rule_re,
            first_fault(pattern, lines@, i as int) is None,
            (count1 as nat, count2 as nat) == tally(pattern, lines@, i as int),
            count1 <= i,
            count2 <= i,
        decreases lines@.len() - i,
    {
        match judge(rule_re, lines[i].as_str()) {
            Ok((first, second)) => {
                if first {
                    count1 += 1;
                }
                if second {
                    count2 += 1;
                }
            },
            Err(fault) => {
                proof {
                    lemma_fault_sticks(pattern, lines@, i as int + 1, lines@.len() as int);
                }
                return Err((i, fault));
            },
        }
        i += 1;
    }
    Ok((count1, count2))
}

} // verus!
