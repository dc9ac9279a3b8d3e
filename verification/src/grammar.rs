//! Building blocks for patterns that are made from the rules of a grammar.
use crate::pattern::{
    captures, compile, groups_view, is_match, regex_captures, regex_matches, regex_source,
};
use crate::text::{
    char_string, chars_of, parse_signed, parts_view, signed_value, split_on, split_seq, trim,
    trimmed,
};
use regex::Regex;
use std::collections::HashMap;
use vstd::prelude::*;
use vstd::string::StringExecFns;
use vstd::string::StringSliceAdditionalSpecFns;
use vstd::utf8::encode_utf8;

verus! {

pub type RuleId = i32;

/// `pattern` as a group.
pub open spec fn grouped(pattern: Seq<char>) -> Seq<char> {
    "(:?"@ + pattern + ")"@
}

/// `n` copies of `s` in a row.
pub open spec fn repeated(s: Seq<char>, n: nat) -> Seq<char>
    decreases n,
{
    if n == 0 {
        Seq::empty()
    } else {
        repeated(s, (n - 1) as nat) + s
    }
}

/// The alternatives of a balanced pattern for the repetitions from 1 to `n`:
/// for each number of repetitions a group of that many `left` and as many
/// `right`, with a bar between one group and the next.
pub open spec fn balanced_alternatives(left: Seq<char>, right: Seq<char>, n: nat) -> Seq<char>
    decreases n,
{
    if n == 0 {
        Seq::empty()
    } else if n == 1 {
        grouped(repeated(left, 1) + repeated(right, 1))
    } else {
        balanced_alternatives(left, right, (n - 1) as nat) + "|"@ + grouped(
            repeated(left, n) + repeated(right, n),
        )
    }
}

/// Puts `pattern` into a group.
pub fn make_group(pattern: &str) -> (r: String)
    ensures
        r@ == grouped(pattern@),
{
    String::from_str("(:?").concat(pattern).concat(")")
}

/// `n` copies of `s` in a row.
pub fn repeat(s: &str, n: usize) -> (r: String)
    ensures
        r@ == repeated(s@, n as nat),
{
    let mut result = String::from_str("");
    proof {
        reveal_strlit("");
        assert(result@ =~= repeated(s@, 0));
    }
    let mut i: usize = 0;
    while i < n
        invariant
            0 <= i <= n,
            result@ == repeated(s@, i as nat),
        decreases n - i,
    {
        result.append(s);
        i += 1;
    }
    result
}

/// A pattern for one or more `left` followed by as many `right`, for up to
/// `maxlen` of each: the group of the alternatives for each number.
pub fn balanced(left: &str, right: &str, maxlen: usize) -> (r: String)
    requires
        maxlen < usize::MAX,
    ensures
        r@ == grouped(balanced_alternatives(left@, right@, maxlen as nat)),
{
    let mut joined = String::from_str("");
    proof {
        reveal_strlit("");
        assert(joined@ =~= balanced_alternatives(left@, right@, 0));
    }
    let mut reps: usize = 1;
    while reps <= maxlen
        invariant
            1 <= reps <= maxlen + 1,
            maxlen < usize::MAX,
            joined@ == balanced_alternatives(left@, right@, (reps - 1) as nat),
        decreases maxlen + 1 - reps,
    {
        let both = repeat(left, reps).concat(repeat(right, reps).as_str());
        let group = make_group(both.as_str());
        if reps > 1 {
            joined.append("|");
        }
        joined.append(group.as_str());
        proof {
            if reps == 1 {
                assert(joined@ =~= balanced_alternatives(left@, right@, 1));
            }
        }
        reps += 1;
    }
    make_group(joined.as_str())
}

/// The number that a part of a sequence denotes, if it is one that fits in
/// 32 bits with a sign.
pub open spec fn rule_id(part: Seq<char>) -> Option<RuleId> {
    match signed_value(part) {
        Some(v) => if i32::MIN <= v <= i32::MAX {
            Some(v as i32)
        } else {
            None
        },
        None => None,
    }
}

/// Reads the numbers of a sequence of rules, which are set apart by single
/// blanks.  Fails with the number of the first part, counted from 0, that is
/// no number.
pub fn seq_items(s: &str) -> (r: Result<Vec<RuleId>, usize>)
    ensures
        r matches Ok(ids) ==> ids@.len() == split_seq(s@, ' ').len() && forall|i: int|
            0 <= i < ids@.len() ==> rule_id(#[trigger] split_seq(s@, ' ')[i]) == Some(ids@[i]),
        r matches Err(k) ==> k < split_seq(s@, ' ').len() && rule_id(split_seq(s@, ' ')[k as int])
            is None && forall|i: int| 0 <= i < k ==> rule_id(#[trigger] split_seq(s@, ' ')[i]) is Some,
{
    let chars = chars_of(s);
    let parts = split_on(&chars, ' ');
    let ghost all = split_seq(s@, ' ');
    let mut result: Vec<RuleId> = Vec::new();
    let mut i: usize = 0;
    while i < parts.len()
        invariant
            0 <= i <= parts@.len(),
            parts_view(parts@) == all,
            all == split_seq(s@, ' '),
            result@.len() == i,
            forall|k: int| 0 <= k < i ==> rule_id(#[trigger] all[k]) == Some(result@[k]),
        decreases parts@.len() - i,
    {
        assert(all[i as int] == parts@[i as int]@);
        match parse_signed(&parts[i]) {
            Some(v) => {
                if v < -0x8000_0000 || v > 0x7fff_ffff {
                    return Err(i);
                }
                result.push(v as i32);
            },
            None => {
                return Err(i);
            },
        }
        i += 1;
    }
    Ok(result)
}

/// A rule of the grammar.
#[derive(Debug)]
pub enum Rule {
    /// The rules with these numbers, one after the other.
    Sequence(Vec<RuleId>),
    /// The one sequence of rules or the other.
    Alternative(Vec<RuleId>, Vec<RuleId>),
    /// The one character.
    Literal(char),
    /// A pattern that is taken as it is.
    CannedRegex(String),
}

/// Why a rule has no pattern.
#[derive(Debug, Clone, Copy, PartialEq, Eq, Structural)]
pub enum TranslateError {
    /// The rule with this number is used and is not there.
    MissingRule(RuleId),
    /// The rules lead from one to the next more often than was allowed.
    TooDeep,
}

/// The pattern of the rule `id`, where the rules may lead from one to the
/// next `depth` times: a literal is its character, a canned pattern is
/// itself, a sequence is the patterns of its rules in a row, and an
/// alternative is a class of two characters where both sides are one byte
/// long, as `str::len` counts, and else the group of both sides with a bar
/// between them.
pub open spec fn pattern_of(rules: Map<RuleId, Rule>, id: RuleId, depth: nat) -> Result<
    Seq<char>,
    TranslateError,
>
    decreases depth, 0nat, 0nat,
{
    if !rules.contains_key(id) {
        Err(TranslateError::MissingRule(id))
    } else if depth == 0 {
        Err(TranslateError::TooDeep)
    } else {
        match rules[id] {
            Rule::Sequence(items) => sequence_pattern(
                rules,
                items@,
                items@.len(),
                (depth - 1) as nat,
            ),
            Rule::Alternative(left, right) => match (
                sequence_pattern(rules, left@, left@.len(), (depth - 1) as nat),
                sequence_pattern(rules, right@, right@.len(), (depth - 1) as nat),
            ) {
                (Err(e), _) => Err(e),
                (Ok(_), Err(e)) => Err(e),
                (Ok(l), Ok(r)) => Ok(either(l, r)),
            },
            Rule::Literal(ch) => Ok(seq![ch]),
            Rule::CannedRegex(text) => Ok(text@),
        }
    }
}

/// The patterns of the first `n` of `items` in a row, or the first failure.
pub open spec fn sequence_pattern(
    rules: Map<RuleId, Rule>,
    items: Seq<RuleId>,
    n: nat,
    depth: nat,
) -> Result<Seq<char>, TranslateError>
    decreases depth, 1nat, n,
{
    if n == 0 {
        Ok(Seq::empty())
    } else {
        match sequence_pattern(rules, items, (n - 1) as nat, depth) {
            Err(e) => Err(e),
            Ok(before) => match pattern_of(rules, items[n - 1], depth) {
                Err(e) => Err(e),
                Ok(last) => Ok(before + last),
            },
        }
    }
}

/// The pattern for one of two patterns.
pub open spec fn either(l: Seq<char>, r: Seq<char>) -> Seq<char> {
    if encode_utf8(l).len() as usize != 1 || encode_utf8(r).len() as usize != 1 {
        grouped(l + "|"@ + r)
    } else {
        "["@ + l + r + "]"@
    }
}

/// The pattern for a sequence of rules.
pub fn translate_rule_sequence(items: &Vec<RuleId>, rules: &HashMap<RuleId, Rule>, depth: usize) -> (r:
    Result<String, TranslateError>)
    ensures
        r is Ok <==> sequence_pattern(rules@, items@, items@.len(), depth as nat) is Ok,
        r matches Ok(text) ==> sequence_pattern(rules@, items@, items@.len(), depth as nat) == Ok::<
            Seq<char>,
            TranslateError,
        >(text@),
        r matches Err(e) ==> sequence_pattern(rules@, items@, items@.len(), depth as nat) == Err::<
            Seq<char>,
            TranslateError,
        >(e),
    decreases depth, 1nat, items@.len(),
{
    let mut result = String::from_str("");
    proof {
        reveal_strlit("");
        assert(result@ =~= Seq::<char>::empty());
    }
    let mut i: usize = 0;
    while i < items.len()
        invariant
            0 <= i <= items@.len(),
            sequence_pattern(rules@, items@, i as nat, depth as nat) == Ok::<
                Seq<char>,
                TranslateError,
            >(result@),
        decreases items@.len() - i,
    {
        match translate_to_regex_pattern(&items[i], rules, depth) {
            Ok(text) => {
                result.append(text.as_str());
            },
            Err(e) => {
                proof {
                    lemma_sequence_sticks(rules@, items@, (i + 1) as nat, items@.len(), depth as nat);
                }
                return Err(e);
            },
        }
        i += 1;
    }
    Ok(result)
}

/// Once a rule of a sequence has no pattern, the rules after it change
/// nothing.
pub proof fn lemma_sequence_sticks(
    rules: Map<RuleId, Rule>,
    items: Seq<RuleId>,
    n: nat,
    m: nat,
    depth: nat,
)
    requires
        n <= m,
        sequence_pattern(rules, items, n, depth) is Err,
    ensures
        sequence_pattern(rules, items, m, depth) == sequence_pattern(rules, items, n, depth),
    decreases m - n,
{
    if n < m {
        lemma_sequence_sticks(rules, items, n, (m - 1) as nat, depth);
    }
}

/// The pattern for one of two sequences of rules.
pub fn translate_alternative(
    left_items: &Vec<RuleId>,
    right_items: &Vec<RuleId>,
    rules: &HashMap<RuleId, Rule>,
    depth: usize,
) -> (r: Result<String, TranslateError>)
    ensures
        r matches Ok(text) ==> sequence_pattern(
            rules@,
            left_items@,
            left_items@.len(),
            depth as nat,
        ) is Ok && sequence_pattern(rules@, right_items@, right_items@.len(), depth as nat) is Ok
            && text@ == either(
            sequence_pattern(rules@, left_items@, left_items@.len(), depth as nat)->Ok_0,
            sequence_pattern(rules@, right_items@, right_items@.len(), depth as nat)->Ok_0,
        ),
        r matches Err(e) ==> (if sequence_pattern(
            rules@,
            left_items@,
            left_items@.len(),
            depth as nat,
        ) is Err {
            sequence_pattern(rules@, left_items@, left_items@.len(), depth as nat)
        } else {
            sequence_pattern(rules@, right_items@, right_items@.len(), depth as nat)
        }) == Err::<Seq<char>, TranslateError>(e),
    decreases depth, 2nat, 0nat,
{
    let lpat = match translate_rule_sequence(left_items, rules, depth) {
        Ok(text) => text,
        Err(e) => {
            return Err(e);
        },
    };
    let rpat = match translate_rule_sequence(right_items, rules, depth) {
        Ok(text) => text,
        Err(e) => {
            return Err(e);
        },
    };
    let ltext = lpat.as_str();
    let rtext = rpat.as_str();
    assert(ltext.spec_bytes() == encode_utf8(lpat@));
    assert(rtext.spec_bytes() == encode_utf8(rpat@));
    let llen = ltext.len();
    let rlen = rtext.len();
    Ok(
        if llen != 1 || rlen != 1 {
            make_group(lpat.concat("|").concat(rtext).as_str())
        } else {
            String::from_str("[").concat(ltext).concat(rtext).concat("]")
        },
    )
}

/// The pattern of a rule.  The rules may lead from one to the next at most
/// `depth` times.
pub fn translate_to_regex_pattern(start_rule: &RuleId, rules: &HashMap<RuleId, Rule>, depth: usize) -> (r:
    Result<String, TranslateError>)
    ensures
        r is Ok <==> pattern_of(rules@, *start_rule, depth as nat) is Ok,
        r matches Ok(text) ==> pattern_of(rules@, *start_rule, depth as nat) == Ok::<
            Seq<char>,
            TranslateError,
        >(text@),
        r matches Err(e) ==> pattern_of(rules@, *start_rule, depth as nat) == Err::<
            Seq<char>,
            TranslateError,
        >(e),
    decreases depth, 0nat, 0nat,
{
    broadcast use vstd::std_specs::hash::group_hash_axioms;

    match rules.get(start_rule) {
        None => Err(TranslateError::MissingRule(*start_rule)),
        Some(rule) => {
            if depth == 0 {
                return Err(TranslateError::TooDeep);
            }
            match rule {
                Rule::Sequence(items) => translate_rule_sequence(items, rules, depth - 1),
                Rule::Alternative(left_items, right_items) => translate_alternative(
                    left_items,
                    right_items,
                    rules,
                    depth - 1,
                ),
                Rule::CannedRegex(pattern) => Ok(pattern.clone()),
                Rule::Literal(ch) => Ok(char_string(*ch)),
            }
        },
    }
}

/// The pattern that matches nothing but the whole of what `pattern`
/// matches.
pub fn compile_regex(pattern: &str) -> (r: Result<Regex, regex::Error>)
    ensures
        r matches Ok(re) ==> regex_source(re) == "^"@ + grouped(pattern@) + "$"@,
{
    let anchored = String::from_str("^").concat(make_group(pattern).as_str()).concat("$");
    compile(anchored.as_str())
}

/// The number of the first `n` messages that the pattern matches.
pub open spec fn matching(pattern: Regex, messages: Seq<String>, n: int) -> nat
    decreases n,
{
    if n <= 0 {
        0
    } else {
        matching(pattern, messages, n - 1) + if regex_matches(pattern, messages[n - 1]@) {
            1nat
        } else {
            0nat
        }
    }
}

/// The number of messages that the pattern matches.
pub fn count_matches(rx: &Regex, messages: &Vec<String>, show_matches: &bool) -> (r: usize)
    ensures
        r == matching(*rx, messages@, messages@.len() as int),
{
    let mut count: usize = 0;
    let mut i: usize = 0;
    while i < messages.len()
        invariant
            0 <= i <= messages@.len(),
            count == matching(*rx, messages@, i as int),
            count <= i,
        decreases messages@.len() - i,
    {
        if is_match(rx, messages[i].as_str()) {
            count += 1;
        }
        i += 1;
    }
    count
}

/// The literal rule that the groups of a match give: the first character of
/// the first group.
pub open spec fn literal_of(groups: Option<Seq<Option<Seq<char>>>>) -> Option<char> {
    match groups {
        Some(found) => if found.len() >= 2 && found[1] is Some && found[1]->0.len() >= 1 {
            Some(found[1]->0[0])
        } else {
            None
        },
        None => None,
    }
}

/// The literal rule that the groups of a match give.
pub fn literal_from(groups: &Option<Vec<Option<String>>>) -> (r: Option<Rule>)
    ensures
        r is Some <==> literal_of(groups_view(*groups)) is Some,
        r matches Some(rule) ==> rule == Rule::Literal(literal_of(groups_view(*groups))->0),
{
    match groups {
        Some(found) => {
            if found.len() >= 2 {
                match &found[1] {
                    Some(text) => {
                        let chars = chars_of(text.as_str());
                        if chars.len() >= 1 {
                            Some(Rule::Literal(chars[0]))
                        } else {
                            None
                        }
                    },
                    None => None,
                }
            } else {
                None
            }
        },
        None => None,
    }
}

/// Reads a literal rule with the pattern for literals, which is to have one
/// group for the character.
pub fn parse_literal(literal_pattern: &Regex, s: &str) -> (r: Option<Rule>)
    ensures
        r is Some <==> literal_of(regex_captures(*literal_pattern, s@)) is Some,
        r matches Some(rule) ==> rule == Rule::Literal(
            literal_of(regex_captures(*literal_pattern, s@))->0,
        ),
{
    let groups = captures(literal_pattern, s);
    literal_from(&groups)
}

/// The pattern for a rule that is one character between double quotes.
pub fn literal_pattern() -> (r: Result<Regex, regex::Error>)
    ensures
        r matches Ok(re) ==> regex_source(re) == "\"(.)\"$"@,
{
    compile("\"(.)\"$")
}


/// The numbers of a sequence as text: each number in decimal digits, with a
/// minus sign before it if it is negative, and one blank between each two.
pub uninterp spec fn ids_text(ids: Seq<RuleId>) -> Seq<char>;

/// `itertools::join` with one blank as the separator: the numbers as text.
#[verifier::external_body]
pub(crate) fn seq_fmt(seq: &Vec<RuleId>) -> (r: String)
    ensures
        r@ == ids_text(seq@),
{
    itertools::join(seq.iter(), " ")
}

/// A rule as it is written in a grammar.
pub open spec fn rule_text(rule: Rule) -> Seq<char> {
    match rule {
        Rule::Sequence(ids) => ids_text(ids@),
        Rule::Alternative(left, right) => ids_text(left@) + " | "@ + ids_text(right@),
        Rule::Literal(c) => seq!['"', c, '"'],
        Rule::CannedRegex(pattern) => "[canned] "@ + pattern@,
    }
}

impl Rule {
    /// The rule as it is written in a grammar.
    pub fn as_text(&self) -> (r: String)
        ensures
            r@ == rule_text(*self),
    {
        match self {
            Rule::Sequence(ids) => seq_fmt(ids),
            Rule::Alternative(left, right) => seq_fmt(left).concat(" | ").concat(
                seq_fmt(right).as_str(),
            ),
            Rule::Literal(c) => {
                let r = String::from_str("\"").concat(char_string(*c).as_str()).concat("\"");
                proof {
                    reveal_strlit("\"");
                    assert(r@ =~= seq!['"', *c, '"']);
                }
                r
            },
            Rule::CannedRegex(pattern) => String::from_str("[canned] ").concat(pattern.as_str()),
        }
    }
}

/// The numbers that the parts of a sequence denote, each part without the
/// white space at its ends, if each of the first `n` parts is a number.
pub open spec fn sequence_ids(parts: Seq<Seq<char>>, n: int) -> Option<Seq<RuleId>>
    decreases n,
{
    if n <= 0 {
        Some(Seq::empty())
    } else {
        match (sequence_ids(parts, n - 1), rule_id(trimmed(parts[n - 1]))) {
            (Some(ids), Some(id)) => Some(ids.push(id)),
            _ => None,
        }
    }
}

/// The numbers of the sequence that a text holds.
pub open spec fn sequence_of(s: Seq<char>) -> Option<Seq<RuleId>> {
    sequence_ids(split_seq(s, ' '), split_seq(s, ' ').len() as int)
}

/// Where the first parts are no numbers, the parts are not.
pub proof fn lemma_sequence_ids_stick(parts: Seq<Seq<char>>, n: int, m: int)
    requires
        0 <= n <= m,
        sequence_ids(parts, n) is None,
    ensures
        sequence_ids(parts, m) is None,
    decreases m - n,
{
    if n < m {
        lemma_sequence_ids_stick(parts, n, m - 1);
    }
}

/// Reads a number that fits in 32 bits with a sign.
fn read_id(text: &str) -> (r: Option<RuleId>)
    ensures
        r == rule_id(text@),
{
    let chars = chars_of(text);
    match parse_signed(&chars) {
        Some(v) => {
            if v < -0x8000_0000 || v > 0x7fff_ffff {
                None
            } else {
                Some(v as i32)
            }
        },
        None => None,
    }
}

/// Reads a sequence rule: numbers with single blanks between them, each of
/// which may have other white space around it.
pub fn parse_sequence(s: &str) -> (r: Option<Rule>)
    ensures
        r is Some <==> sequence_of(s@) is Some,
        r matches Some(rule) ==> rule matches Rule::Sequence(ids) && Some(ids@) == sequence_of(
            s@,
        ),
{
    let chars = chars_of(s);
    let parts = split_on(&chars, ' ');
    let ghost all = split_seq(s@, ' ');
    let mut items: Vec<RuleId> = Vec::new();
    let mut i: usize = 0;
    while i < parts.len()
        invariant
            0 <= i <= parts@.len(),
            parts_view(parts@) == all,
            all == split_seq(s@, ' '),
            sequence_ids(all, i as int) == Some(items@),
        decreases parts@.len() - i,
    {
        assert(all[i as int] == parts@[i as int]@);
        let item = crate::text::string_of(&parts[i]);
        let bare = trim(item.as_str());
        match read_id(bare.as_str()) {
            Some(n) => {
                items.push(n);
            },
            None => {
                proof {
                    lemma_sequence_ids_stick(all, i as int + 1, all.len() as int);
                }
                return None;
            },
        }
        i += 1;
    }
    Some(Rule::Sequence(items))
}

/// The two sequences that the groups of a match of the pattern for
/// alternatives give: the first and the second group, each without the white
/// space at its ends.
pub open spec fn alternative_of(groups: Option<Seq<Option<Seq<char>>>>) -> Option<
    (Seq<RuleId>, Seq<RuleId>),
> {
    match groups {
        Some(found) => if found.len() >= 3 && found[1] is Some && found[2] is Some {
            match (items_of(trimmed(found[1]->0)), items_of(trimmed(found[2]->0))) {
                (Some(left), Some(right)) => Some((left, right)),
                _ => None,
            }
        } else {
            None
        },
        None => None,
    }
}

/// The numbers that a text with single blanks between them holds, if each
/// part is a number.
pub open spec fn items_of(s: Seq<char>) -> Option<Seq<RuleId>> {
    let parts = split_seq(s, ' ');
    if forall|i: int| 0 <= i < parts.len() ==> rule_id(#[trigger] parts[i]) is Some {
        Some(Seq::new(parts.len(), |i: int| rule_id(parts[i])->0))
    } else {
        None
    }
}

/// Reads the numbers of a sequence of rules, if each part is a number.
fn items_from(s: &str) -> (r: Option<Vec<RuleId>>)
    ensures
        r is Some <==> items_of(s@) is Some,
        r matches Some(ids) ==> Some(ids@) == items_of(s@),
{
    match seq_items(s) {
        Ok(ids) => {
            assert(ids@ =~= items_of(s@)->0);
            Some(ids)
        },
        Err(_) => None,
    }
}

/// The alternative rule that the groups of a match give.
pub fn alternative_from(groups: &Option<Vec<Option<String>>>) -> (r: Option<Rule>)
    ensures
        r is Some <==> alternative_of(groups_view(*groups)) is Some,
        r matches Some(rule) ==> rule matches Rule::Alternative(left, right) && Some(
            (left@, right@),
        ) == alternative_of(groups_view(*groups)),
{
    match groups {
        Some(found) => {
            if found.len() < 3 {
                return None;
            }
            match (&found[1], &found[2]) {
                (Some(first), Some(second)) => {
                    let left = items_from(trim(first.as_str()).as_str());
                    let right = items_from(trim(second.as_str()).as_str());
                    match (left, right) {
                        (Some(left), Some(right)) => Some(Rule::Alternative(left, right)),
                        _ => None,
                    }
                },
                _ => None,
            }
        },
        None => None,
    }
}

/// Reads an alternative rule with the pattern for alternatives, which is to
/// have a group for each of the two sequences.
pub fn parse_alternative(alternative_pattern: &Regex, s: &str) -> (r: Option<Rule>)
    ensures
        r is Some <==> alternative_of(regex_captures(*alternative_pattern, s@))
            is Some,
        r matches Some(rule) ==> rule matches Rule::Alternative(left, right) && Some(
            (left@, right@),
        ) == alternative_of(regex_captures(*alternative_pattern, s@)),
{
    let groups = captures(alternative_pattern, s);
    alternative_from(&groups)
}

/// The pattern for a rule that is two sequences with a bar between them.
pub fn alternative_pattern() -> (r: Result<Regex, regex::Error>)
    ensures
        r matches Ok(re) ==> regex_source(re) == r"([^|]+)[|]([^|]+)$"@,
{
    compile(r"([^|]+)[|]([^|]+)$")
}

/// The pattern for a line of a grammar: the number of a rule, a colon and
/// the rule.
pub fn rule_pattern() -> (r: Result<Regex, regex::Error>)
    ensures
        r matches Ok(re) ==> regex_source(re) == r"^(\d+): (.*)$"@,
{
    compile(r"^(\d+): (.*)$")
}

/// The number and the text of the rule that the groups of a match of the
/// pattern for lines give.
pub open spec fn heading_of(groups: Option<Seq<Option<Seq<char>>>>) -> Option<
    (RuleId, Seq<char>),
> {
    match groups {
        Some(found) => if found.len() >= 3 && found[1] is Some && found[2] is Some && rule_id(
            found[1]->0,
        ) is Some {
            Some((rule_id(found[1]->0)->0, found[2]->0))
        } else {
            None
        },
        None => None,
    }
}

/// The number and the text of the rule that the groups of a match give.
pub fn heading_from(groups: &Option<Vec<Option<String>>>) -> (r: Option<(RuleId, String)>)
    ensures
        r is Some <==> heading_of(groups_view(*groups)) is Some,
        r matches Some(found) ==> Some((found.0, found.1@)) == heading_of(groups_view(*groups)),
{
    match groups {
        Some(found) => {
            if found.len() < 3 {
                return None;
            }
            match (&found[1], &found[2]) {
                (Some(first), Some(second)) => {
                    match read_id(first.as_str()) {
                        Some(id) => Some((id, second.clone())),
                        None => None,
                    }
                },
                _ => None,
            }
        },
        None => None,
    }
}

/// The patterns with which a line of a grammar is read.
pub struct RulePatterns {
    pub rule: Regex,
    pub alternative: Regex,
    pub literal: Regex,
}

/// Which kind of rule a text is read as: an alternative where the pattern
/// for alternatives reads it, else a sequence where it is one, else a
/// literal where the pattern for literals reads it.
pub enum Reading {
    Alternative(Seq<RuleId>, Seq<RuleId>),
    Sequence(Seq<RuleId>),
    Literal(char),
    Unreadable,
}

/// How the text of a rule is read with the patterns that have these
/// sources.
pub open spec fn reading_of(alternative: Regex, literal: Regex, body: Seq<char>) -> Reading {
    match alternative_of(regex_captures(alternative, body)) {
        Some((left, right)) => Reading::Alternative(left, right),
        None => match sequence_of(body) {
            Some(ids) => Reading::Sequence(ids),
            None => match literal_of(regex_captures(literal, body)) {
                Some(c) => Reading::Literal(c),
                None => Reading::Unreadable,
            },
        },
    }
}

/// How a rule reads.
pub open spec fn read_as(rule: Rule) -> Reading {
    match rule {
        Rule::Alternative(left, right) => Reading::Alternative(left@, right@),
        Rule::Sequence(ids) => Reading::Sequence(ids@),
        Rule::Literal(c) => Reading::Literal(c),
        Rule::CannedRegex(_) => Reading::Unreadable,
    }
}

/// Why a line of a grammar cannot be read.
#[derive(Debug, Clone, Copy, PartialEq, Eq)]
pub enum RuleError {
    /// The line is not the number of a rule, a colon and a text.
    NoRule,
    /// The text is no rule.
    BadBody,
}

/// Reads a line of a grammar: the number of a rule and the rule, which is
/// tried as an alternative, then as a sequence, then as a literal.
pub fn parse_line(patterns: &RulePatterns, s: &str) -> (r: Result<(RuleId, Rule), RuleError>)
    ensures
        match heading_of(regex_captures(patterns.rule, s@)) {
            None => r == Err::<(RuleId, Rule), RuleError>(RuleError::NoRule),
            Some((id, body)) => match reading_of(
                patterns.alternative,
                patterns.literal,
                body,
            ) {
                Reading::Unreadable => r == Err::<(RuleId, Rule), RuleError>(RuleError::BadBody),
                reading => r matches Ok(found) && found.0 == id && read_as(found.1) == reading,
            },
        },
{
    let groups = captures(&patterns.rule, s);
    let (rule_id, body) = match heading_from(&groups) {
        Some(found) => found,
        None => {
            return Err(RuleError::NoRule);
        },
    };
    match parse_alternative(&patterns.alternative, body.as_str()) {
        Some(def) => {
            return Ok((rule_id, def));
        },
        None => {},
    }
    match parse_sequence(body.as_str()) {
        Some(def) => {
            return Ok((rule_id, def));
        },
        None => {},
    }
    match parse_literal(&patterns.literal, body.as_str()) {
        Some(def) => Ok((rule_id, def)),
        None => Err(RuleError::BadBody),
    }
}

/// The pattern for one or more of what `pattern` matches.
pub open spec fn one_or_more(pattern: Seq<char>) -> Seq<char> {
    "(("@ + pattern + ")+)"@
}

/// Whether `after` is `before` with the two rules that loop replaced: the
/// rule 8 by one or more of the rule 42, and the rule 11 by as many of the
/// rule 42 as then of the rule 31, from once up to `repeats` times.
pub open spec fn customised(
    before: Map<RuleId, Rule>,
    after: Map<RuleId, Rule>,
    left: Seq<char>,
    right: Seq<char>,
    repeats: nat,
) -> bool {
    &&& after.dom() == before.dom().insert(8).insert(11)
    &&& forall|id: RuleId| id != 8 && id != 11 && before.contains_key(id) ==> after[id] == before[id]
    &&& after[8] matches Rule::CannedRegex(text) && text@ == one_or_more(left)
    &&& after[11] matches Rule::CannedRegex(text) && text@ == grouped(
        balanced_alternatives(left, right, repeats),
    )
}

/// Replaces the two rules that loop, for messages of at most `maxlen`
/// bytes: the rule 8 becomes one or more of the rule 42, and the rule 11 as
/// many of the rule 42 as then of the rule 31, from once up to 5 times, and
/// up to `maxlen` times where that is less.  Fails, and leaves the rules as
/// they are, where the rule 31 or the rule 42 has no pattern.
pub fn customise(rules: &mut HashMap<RuleId, Rule>, maxlen: usize, depth: usize) -> (r: Result<
    (),
    TranslateError,
>)
    ensures
        match (pattern_of(old(rules)@, 31, depth as nat), pattern_of(old(rules)@, 42, depth as nat)) {
            (Err(e), _) => r == Err::<(), TranslateError>(e) && final(rules)@ == old(rules)@,
            (Ok(_), Err(e)) => r == Err::<(), TranslateError>(e) && final(rules)@ == old(rules)@,
            (Ok(right), Ok(left)) => r is Ok && customised(
                old(rules)@,
                final(rules)@,
                left,
                right,
                if maxlen < 5 {
                    maxlen as nat
                } else {
                    5nat
                },
            ),
        },
{
    broadcast use vstd::std_specs::hash::group_hash_axioms;

    let rule31_pattern = translate_to_regex_pattern(&31, rules, depth)?;
    let rule42_pattern = translate_to_regex_pattern(&42, rules, depth)?;
    let repeats: usize = if maxlen < 5 {
        maxlen
    } else {
        5
    };
    let looped = String::from_str("((").concat(rule42_pattern.as_str()).concat(")+)");
    let nested = balanced(rule42_pattern.as_str(), rule31_pattern.as_str(), repeats);
    rules.insert(8, Rule::CannedRegex(looped));
    rules.insert(11, Rule::CannedRegex(nested));
    Ok(())
}

} // verus!
