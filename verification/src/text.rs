//! Small helpers for reading characters and decimal numbers.
use vstd::prelude::*;
use vstd::string::StrSliceExecFns;

verus! {

/// The characters of a string, as a vector that can be indexed.
pub fn chars_of(s: &str) -> (r: Vec<char>)
    ensures
        r@ == s@,
{
    let n = s.unicode_len();
    let mut out: Vec<char> = Vec::new();
    let mut i: usize = 0;
    while i < n
        invariant
            0 <= i <= n,
            n == s@.len(),
            out@ == s@.take(i as int),
        decreases n - i,
    {
        out.push(s.get_char(i));
        assert(out@ =~= s@.take(i + 1));
        i += 1;
    }
    assert(s@.take(n as int) =~= s@);
    out
}

/// Whether `c` is one of the ten decimal digits.
pub open spec fn is_digit(c: char) -> bool {
    '0' <= c <= '9'
}

/// The value of a decimal digit.
pub open spec fn digit_value(c: char) -> nat {
    (c as u32 - '0' as u32) as nat
}

/// Whether every character of `s` is a decimal digit.
pub open spec fn all_digits(s: Seq<char>) -> bool {
    forall|i: int| 0 <= i < s.len() ==> is_digit(#[trigger] s[i])
}

/// The number that a sequence of decimal digits denotes; the empty sequence
/// denotes zero.
pub open spec fn decimal_value(s: Seq<char>) -> nat
    decreases s.len(),
{
    if s.len() == 0 {
        0
    } else {
        decimal_value(s.drop_last()) * 10 + digit_value(s.last())
    }
}

/// Executable form of [`is_digit`].
pub fn char_is_digit(c: char) -> (r: bool)
    ensures
        r == is_digit(c),
{
    '0' <= c && c <= '9'
}

/// Executable form of [`digit_value`].
pub fn char_digit_value(c: char) -> (r: u64)
    requires
        is_digit(c),
    ensures
        r == digit_value(c),
        r <= 9,
{
    (c as u32 - '0' as u32) as u64
}

/// A longer sequence of digits denotes at least as much as any of its
/// prefixes.
pub proof fn lemma_decimal_value_monotonic(s: Seq<char>, n: int)
    requires
        0 <= n <= s.len(),
    ensures
        decimal_value(s.take(n)) <= decimal_value(s),
    decreases s.len() - n,
{
    if n == s.len() {
        assert(s.take(n) =~= s);
    } else {
        lemma_decimal_value_monotonic(s.drop_last(), n);
        assert(s.drop_last().take(n) =~= s.take(n));
    }
}

/// Reads the decimal number that the characters `from..to` denote, provided
/// they are all digits and the number is at most `limit`.
pub fn read_decimal(chars: &Vec<char>, from: usize, to: usize, limit: u64) -> (r: Option<u64>)
    requires
        from <= to <= chars.len(),
    ensures
        r is Some <==> all_digits(chars@.subrange(from as int, to as int)) && decimal_value(
            chars@.subrange(from as int, to as int),
        ) <= limit,
        r matches Some(v) ==> v == decimal_value(chars@.subrange(from as int, to as int)),
{
    let ghost digits = chars@.subrange(from as int, to as int);
    let mut value: u128 = 0;
    let mut i: usize = from;
    proof {
        assert(digits.take(0) =~= Seq::<char>::empty());
    }
    while i < to
        invariant
            from <= i <= to <= chars.len(),
            digits == chars@.subrange(from as int, to as int),
            all_digits(digits.take(i - from)),
            value == decimal_value(digits.take(i - from)),
            value <= limit,
        decreases to - i,
    {
        let c = chars[i];
        assert(digits[i - from] == c);
        if !char_is_digit(c) {
            return None;
        }
        let d = char_digit_value(c);
        proof {
            assert(digits.take(i - from + 1).drop_last() =~= digits.take(i - from));
            assert(digits.take(i - from + 1).last() == c);
            lemma_decimal_value_monotonic(digits, i - from + 1);
        }
        value = value * 10 + d as u128;
        if value > limit as u128 {
            return None;
        }
        assert(all_digits(digits.take(i - from + 1))) by {
            assert forall|k: int| 0 <= k < i - from + 1 implies is_digit(
                #[trigger] digits.take(i - from + 1)[k],
            ) by {
                if k < i - from {
                    assert(digits.take(i - from)[k] == digits[k]);
                }
            }
        }
        i += 1;
    }
    assert(digits.take(to - from) =~= digits);
    Some(value as u64)
}

/// The digits of a number that may begin with a sign.
pub open spec fn unsigned_part(s: Seq<char>) -> Seq<char> {
    if s.len() > 0 && (s[0] == '+' || s[0] == '-') {
        s.skip(1)
    } else {
        s
    }
}

/// The number that `s` denotes when it may begin with a plus sign and must
/// not exceed `limit`: at least one decimal digit and nothing else.
pub open spec fn unsigned_value(s: Seq<char>, limit: nat) -> Option<nat> {
    if !(s.len() > 0 && s[0] == '-') && unsigned_part(s).len() > 0 && all_digits(unsigned_part(s))
        && decimal_value(unsigned_part(s)) <= limit {
        Some(decimal_value(unsigned_part(s)))
    } else {
        None
    }
}

/// The number that `s` denotes when it may begin with a plus or a minus sign
/// and must fit in 64 bits with a sign.
pub open spec fn signed_value(s: Seq<char>) -> Option<int> {
    let negative = s.len() > 0 && s[0] == '-';
    let body = unsigned_part(s);
    if body.len() > 0 && all_digits(body) && decimal_value(body) <= (if negative {
        0x8000_0000_0000_0000nat
    } else {
        0x7fff_ffff_ffff_ffffnat
    }) {
        Some(
            if negative {
                -(decimal_value(body) as int)
            } else {
                decimal_value(body) as int
            },
        )
    } else {
        None
    }
}

/// Reads a number without a sign, or with a plus sign, that is at most
/// `limit`.
pub fn parse_unsigned(chars: &Vec<char>, limit: u64) -> (r: Option<u64>)
    ensures
        r is Some <==> unsigned_value(chars@, limit as nat) is Some,
        r matches Some(v) ==> unsigned_value(chars@, limit as nat) == Some(v as nat),
{
    if chars.len() == 0 || chars[0] == '-' {
        return None;
    }
    let from: usize = if chars[0] == '+' {
        1
    } else {
        0
    };
    assert(chars@.subrange(from as int, chars.len() as int) =~= unsigned_part(chars@));
    if from == chars.len() {
        return None;
    }
    read_decimal(chars, from, chars.len(), limit)
}

/// Reads a number with an optional sign that fits in 64 bits.
pub fn parse_signed(chars: &Vec<char>) -> (r: Option<i64>)
    ensures
        r is Some <==> signed_value(chars@) is Some,
        r matches Some(v) ==> signed_value(chars@) == Some(v as int),
{
    if chars.len() == 0 {
        return None;
    }
    let negative = chars[0] == '-';
    let from: usize = if chars[0] == '+' || chars[0] == '-' {
        1
    } else {
        0
    };
    assert(chars@.subrange(from as int, chars.len() as int) =~= unsigned_part(chars@));
    if from == chars.len() {
        return None;
    }
    let limit: u64 = if negative {
        0x8000_0000_0000_0000
    } else {
        0x7fff_ffff_ffff_ffff
    };
    match read_decimal(chars, from, chars.len(), limit) {
        Some(v) => {
            if negative {
                if v == 0x8000_0000_0000_0000 {
                    Some(i64::MIN)
                } else {
                    Some(-(v as i64))
                }
            } else {
                Some(v as i64)
            }
        },
        None => None,
    }
}

/// Reads a number with an optional sign from a string, as `str::parse` does
/// for `i64`.
pub fn parse_i64(s: &str) -> (r: Option<i64>)
    ensures
        r is Some <==> signed_value(s@) is Some,
        r matches Some(v) ==> signed_value(s@) == Some(v as int),
{
    let chars = chars_of(s);
    parse_signed(&chars)
}

/// Reads a number, which may begin with a plus sign, from a string, as
/// `str::parse` does for `u32`.
pub fn parse_u32(s: &str) -> (r: Option<u32>)
    ensures
        r is Some <==> unsigned_value(s@, 0xffff_ffff) is Some,
        r matches Some(v) ==> unsigned_value(s@, 0xffff_ffff) == Some(v as nat),
{
    let chars = chars_of(s);
    match parse_unsigned(&chars, 0xffff_ffff) {
        Some(v) => Some(v as u32),
        None => None,
    }
}

/// Whether a string holds exactly the characters `want`.
pub fn chars_equal(chars: &Vec<char>, want: &str) -> (r: bool)
    ensures
        r == (chars@ == want@),
{
    let other = chars_of(want);
    if chars.len() != other.len() {
        return false;
    }
    let mut i: usize = 0;
    while i < chars.len()
        invariant
            0 <= i <= chars.len(),
            chars.len() == other.len(),
            other@ == want@,
            forall|k: int| 0 <= k < i ==> chars[k] == other[k],
        decreases chars.len() - i,
    {
        if chars[i] != other[i] {
            return false;
        }
        i += 1;
    }
    assert(chars@ =~= other@);
    true
}

/// The parts into which the separator `sep` cuts `s`.  There is always one
/// part more than there are separators, so that an empty text has one empty
/// part.
pub open spec fn split_seq(s: Seq<char>, sep: char) -> Seq<Seq<char>>
    decreases s.len(),
{
    if s.len() == 0 {
        seq![Seq::<char>::empty()]
    } else if s.last() == sep {
        split_seq(s.drop_last(), sep).push(Seq::empty())
    } else {
        split_seq(s.drop_last(), sep).drop_last().push(
            split_seq(s.drop_last(), sep).last().push(s.last()),
        )
    }
}

/// The characters of each part.
pub open spec fn parts_view(parts: Seq<Vec<char>>) -> Seq<Seq<char>> {
    Seq::new(parts.len(), |i: int| parts[i]@)
}

/// Cuts `chars` at every `sep`.
pub fn split_on(chars: &Vec<char>, sep: char) -> (r: Vec<Vec<char>>)
    ensures
        parts_view(r@) == split_seq(chars@, sep),
        r@.len() >= 1,
{
    let mut done: Vec<Vec<char>> = Vec::new();
    let mut current: Vec<char> = Vec::new();
    let mut i: usize = 0;
    proof {
        assert(chars@.take(0) =~= Seq::<char>::empty());
        assert(parts_view(done@).push(current@) =~= split_seq(chars@.take(0), sep));
    }
    while i < chars.len()
        invariant
            0 <= i <= chars.len(),
            parts_view(done@).push(current@) == split_seq(chars@.take(i as int), sep),
        decreases chars.len() - i,
    {
        let c = chars[i];
        let ghost before = parts_view(done@).push(current@);
        proof {
            assert(chars@.take(i + 1).drop_last() =~= chars@.take(i as int));
            assert(chars@.take(i + 1).last() == c);
            assert(before.drop_last() =~= parts_view(done@));
            assert(before.last() == current@);
        }
        if c == sep {
            done.push(current);
            current = Vec::new();
            proof {
                assert(parts_view(done@) =~= before);
            }
        } else {
            current.push(c);
            proof {
                assert(parts_view(done@).push(current@) =~= before.drop_last().push(
                    before.last().push(c),
                ));
            }
        }
        i += 1;
    }
    proof {
        assert(chars@.take(chars.len() as int) =~= chars@);
    }
    done.push(current);
    proof {
        assert(parts_view(done@) =~= split_seq(chars@, sep));
    }
    done
}

/// The fields of a line: the longest runs of characters that are no white
/// space, in their order.  What counts as white space is what
/// `char::is_whitespace` says.
pub uninterp spec fn whitespace_fields(line: Seq<char>) -> Seq<Seq<char>>;

/// `str::split_whitespace`, collected: the fields of the line.
#[verifier::external_body]
pub(crate) fn split_fields(line: &str) -> (r: Vec<Vec<char>>)
    ensures
        fields_view(r@) == whitespace_fields(line@),
{
    line.split_whitespace().map(|field| field.chars().collect()).collect()
}

/// The characters of each field.
pub open spec fn fields_view(fields: Seq<Vec<char>>) -> Seq<Seq<char>> {
    Seq::new(fields.len(), |i: int| fields[i]@)
}

/// `String::from_iter` on characters: the string that holds them.
#[verifier::external_body]
pub(crate) fn string_of(chars: &Vec<char>) -> (r: String)
    ensures
        r@ == chars@,
{
    chars.iter().collect()
}

/// `char::to_string`: the string that holds the one character.
#[verifier::external_body]
pub(crate) fn char_string(c: char) -> (r: String)
    ensures
        r@ == seq![c],
{
    c.to_string()
}

/// The groups into which empty lines cut the first `n` lines.  There is
/// always one group more than there are empty lines.
pub open spec fn groups_seq(lines: Seq<String>, n: int) -> Seq<Seq<String>>
    decreases n,
{
    if n <= 0 {
        seq![Seq::<String>::empty()]
    } else if lines[n - 1]@.len() == 0 {
        groups_seq(lines, n - 1).push(Seq::empty())
    } else {
        groups_seq(lines, n - 1).drop_last().push(
            groups_seq(lines, n - 1).last().push(lines[n - 1]),
        )
    }
}

/// The groups of lines that are set apart by empty lines; lines behind the
/// last empty line are a group only if there are any.
pub open spec fn line_groups(lines: Seq<String>) -> Seq<Seq<String>> {
    let all = groups_seq(lines, lines.len() as int);
    if all.last().len() == 0 {
        all.drop_last()
    } else {
        all
    }
}

/// The lines of each group.
pub open spec fn groups_view(groups: Seq<Vec<String>>) -> Seq<Seq<String>> {
    Seq::new(groups.len(), |i: int| groups[i]@)
}

/// Cuts the lines into groups at the empty lines.
pub fn split_groups(lines: &Vec<String>) -> (r: Vec<Vec<String>>)
    ensures
        groups_view(r@) == line_groups(lines@),
{
    let mut done: Vec<Vec<String>> = Vec::new();
    let mut current: Vec<String> = Vec::new();
    let mut i: usize = 0;
    proof {
        assert(groups_view(done@).push(current@) =~= groups_seq(lines@, 0));
    }
    while i < lines.len()
        invariant
            0 <= i <= lines@.len(),
            groups_view(done@).push(current@) == groups_seq(lines@, i as int),
        decreases lines@.len() - i,
    {
        let ghost before = groups_view(done@).push(current@);
        proof {
            assert(before.drop_last() =~= groups_view(done@));
            assert(before.last() == current@);
        }
        let line = lines[i].as_str();
        if line.unicode_len() == 0 {
            done.push(current);
            current = Vec::new();
            proof {
                assert(groups_view(done@) =~= before);
            }
        } else {
            let ghost old_current = current@;
            current.push(lines[i].clone());
            proof {
                assert(current@ == old_current.push(lines@[i as int]));
                assert(groups_view(done@).push(current@) =~= before.drop_last().push(
                    before.last().push(lines@[i as int]),
                ));
            }
        }
        i += 1;
    }
    if current.len() > 0 {
        done.push(current);
        proof {
            assert(groups_view(done@) =~= groups_seq(lines@, lines@.len() as int));
        }
    } else {
        proof {
            assert(groups_view(done@) =~= groups_seq(lines@, lines@.len() as int).drop_last());
        }
    }
    done
}

/// The text without the white space at its two ends.  What counts as white
/// space is what `char::is_whitespace` says.
pub uninterp spec fn trimmed(text: Seq<char>) -> Seq<char>;

/// `str::trim`, copied: the text without the white space at its two ends.
#[verifier::external_body]
pub(crate) fn trim(text: &str) -> (r: String)
    ensures
        r@ == trimmed(text@),
{
    text.trim().to_string()
}

/// The text without the white space at its end.  What counts as white space
/// is what `char::is_whitespace` says.
pub uninterp spec fn end_trimmed(text: Seq<char>) -> Seq<char>;

/// `str::trim_end`, copied: the text without the white space at its end.
#[verifier::external_body]
pub(crate) fn trim_end(text: &str) -> (r: String)
    ensures
        r@ == end_trimmed(text@),
{
    text.trim_end().to_string()
}

} // verus!
