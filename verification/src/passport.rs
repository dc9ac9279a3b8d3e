//! Passports: settings of the form `key:value`, and the rules that the
//! values must keep.
use crate::text::{
    all_digits, chars_equal, chars_of, decimal_value, fields_view, is_digit, line_groups,
    parse_signed, parts_view, read_decimal, signed_value, split_fields, split_groups, split_on,
    split_seq, string_of, whitespace_fields,
};
use crate::pattern::{is_match, regex_matches};
use regex::Regex;
use vstd::prelude::*;

verus! {

/// The settings of one passport, in the order in which they were given.  Of
/// two settings with the same key the later one counts.
pub struct Passport {
    pub attributes: Vec<(String, String)>,
}

/// The characters of the settings.
pub open spec fn settings_view(attributes: Seq<(String, String)>) -> Seq<(Seq<char>, Seq<char>)> {
    Seq::new(attributes.len(), |i: int| (attributes[i].0@, attributes[i].1@))
}

/// The value that the last of the first `n` settings with the key `key`
/// gives.
pub open spec fn lookup(settings: Seq<(Seq<char>, Seq<char>)>, key: Seq<char>, n: int) -> Option<
    Seq<char>,
>
    decreases n,
{
    if n <= 0 {
        None
    } else if settings[n - 1].0 == key {
        Some(settings[n - 1].1)
    } else {
        lookup(settings, key, n - 1)
    }
}

/// The two fields of a text that holds the delimiter exactly once.
pub open spec fn both_fields(delimiter: char, s: Seq<char>) -> Option<(Seq<char>, Seq<char>)> {
    if split_seq(s, delimiter).len() == 2 {
        Some((split_seq(s, delimiter)[0], split_seq(s, delimiter)[1]))
    } else {
        None
    }
}

/// Splits `s` at the delimiter into two fields.  Fails when the delimiter
/// does not occur exactly once.
pub fn two_fields(delimiter: char, s: &str) -> (r: Result<(String, String), &'static str>)
    ensures
        r is Ok <==> both_fields(delimiter, s@) is Some,
        r matches Ok(found) ==> both_fields(delimiter, s@) == Some((found.0@, found.1@)),
{
    let chars = chars_of(s);
    let parts = split_on(&chars, delimiter);
    if parts.len() == 2 {
        assert(parts_view(parts@)[0] == parts@[0]@ && parts_view(parts@)[1] == parts@[1]@);
        Ok((string_of(&parts[0]), string_of(&parts[1])))
    } else {
        Err("expected two fields")
    }
}

/// The settings that the first `n` of `texts` give, or `None` when one of
/// them does not hold a colon exactly once.
pub open spec fn settings_of(texts: Seq<Seq<char>>, n: int) -> Option<Seq<(Seq<char>, Seq<char>)>>
    decreases n,
{
    if n <= 0 {
        Some(Seq::empty())
    } else {
        match (settings_of(texts, n - 1), both_fields(':', texts[n - 1])) {
            (Some(found), Some(setting)) => Some(found.push(setting)),
            _ => None,
        }
    }
}

/// Nothing that follows can mend a setting that went wrong.
pub proof fn lemma_settings_stick(texts: Seq<Seq<char>>, n: int, m: int)
    requires
        0 <= n <= m,
        settings_of(texts, n) is None,
    ensures
        settings_of(texts, m) is None,
    decreases m - n,
{
    if n < m {
        lemma_settings_stick(texts, n, m - 1);
    }
}

/// The pieces of the first `n` lines that white space sets apart, line
/// after line.
pub open spec fn pieces_of(lines: Seq<String>, n: int) -> Seq<Seq<char>>
    decreases n,
{
    if n <= 0 {
        Seq::empty()
    } else {
        pieces_of(lines, n - 1) + whitespace_fields(lines[n - 1]@)
    }
}

/// Whether `c` is a digit or one of the letters `a` to `f`.
pub open spec fn is_hex(c: char) -> bool {
    is_digit(c) || ('a' <= c <= 'f')
}

/// A year is a number between `min_year` and `max_year`, written as
/// `str::parse` reads it.
pub open spec fn year_ok(v: Seq<char>, min_year: i32, max_year: i32) -> bool {
    signed_value(v) matches Some(y) && min_year <= y <= max_year
}

/// A height is a number and `cm` or `in`: 150 to 193 centimetres, or 59 to
/// 76 inches.
pub open spec fn height_ok(v: Seq<char>) -> bool {
    let digits = v.subrange(0, v.len() - 2);
    let unit = v.subrange(v.len() - 2, v.len() as int);
    &&& v.len() >= 3
    &&& all_digits(digits)
    &&& (unit == "cm"@ && 150 <= decimal_value(digits) <= 193) || (unit == "in"@ && 59
        <= decimal_value(digits) <= 76)
}

/// A hair colour begins with `#` and six digits or letters `a` to `f`.
pub open spec fn hair_ok(v: Seq<char>) -> bool {
    v.len() >= 7 && v[0] == '#' && forall|i: int| 1 <= i < 7 ==> is_hex(#[trigger] v[i])
}

/// An eye colour is one of seven.
pub open spec fn eye_ok(v: Seq<char>) -> bool {
    v == "amb"@ || v == "blu"@ || v == "brn"@ || v == "gry"@ || v == "grn"@ || v == "hzl"@ || v
        == "oth"@
}

/// A passport id is nine digits.
pub open spec fn id_ok(v: Seq<char>) -> bool {
    v.len() == 9 && all_digits(v)
}

impl Passport {
    /// The settings.
    pub open spec fn view(&self) -> Seq<(Seq<char>, Seq<char>)> {
        settings_view(self.attributes@)
    }

    /// The value of the key `key`, if the passport has one.
    pub open spec fn value(&self, key: Seq<char>) -> Option<Seq<char>> {
        lookup(self@, key, self@.len() as int)
    }

    /// Whether the passport has all seven keys that it must have.
    pub open spec fn complete(&self) -> bool {
        &&& self.value("byr"@) is Some
        &&& self.value("iyr"@) is Some
        &&& self.value("eyr"@) is Some
        &&& self.value("hgt"@) is Some
        &&& self.value("hcl"@) is Some
        &&& self.value("ecl"@) is Some
        &&& self.value("pid"@) is Some
    }

    /// Whether the passport is complete and every value keeps its rule.
    pub open spec fn proper(&self) -> bool {
        &&& self.complete()
        &&& year_ok(self.value("byr"@)->0, 1920, 2002)
        &&& year_ok(self.value("iyr"@)->0, 2010, 2020)
        &&& year_ok(self.value("eyr"@)->0, 2020, 2030)
        &&& height_ok(self.value("hgt"@)->0)
        &&& hair_ok(self.value("hcl"@)->0)
        &&& eye_ok(self.value("ecl"@)->0)
        &&& id_ok(self.value("pid"@)->0)
    }

    /// The characters of the value of `key`.
    pub fn get(&self, key: &str) -> (r: Option<Vec<char>>)
        ensures
            r is Some <==> self.value(key@) is Some,
            r matches Some(v) ==> self.value(key@) == Some(v@),
    {
        let mut i: usize = self.attributes.len();
        while i > 0
            invariant
                0 <= i <= self@.len(),
                self.value(key@) == lookup(self@, key@, i as int),
            decreases i,
        {
            i -= 1;
            let name = chars_of(self.attributes[i].0.as_str());
            assert(self@[i as int].0 == name@);
            if chars_equal(&name, key) {
                let v = chars_of(self.attributes[i].1.as_str());
                assert(self@[i as int].1 == v@);
                return Some(v);
            }
        }
        None
    }

    /// Makes a passport of settings of the form `key:value`.  Fails when a
    /// setting does not hold a colon exactly once.
    pub fn from_settings(settings: &Vec<Vec<char>>) -> (r: Result<Passport, &'static str>)
        ensures
            r is Ok <==> settings_of(fields_view(settings@), settings@.len() as int) is Some,
            r matches Ok(p) ==> Some(p@) == settings_of(
                fields_view(settings@),
                settings@.len() as int,
            ),
    {
        let mut h: Vec<(String, String)> = Vec::new();
        let ghost texts = fields_view(settings@);
        let mut i: usize = 0;
        while i < settings.len()
            invariant
                0 <= i <= settings@.len(),
                texts == fields_view(settings@),
                settings_of(texts, i as int) == Some(settings_view(h@)),
            decreases settings@.len() - i,
        {
            let setting = string_of(&settings[i]);
            assert(texts[i as int] == setting@);
            match two_fields(':', setting.as_str()) {
                Ok((attrib, value)) => {
                    let ghost before = settings_view(h@);
                    h.push((attrib, value));
                    assert(settings_view(h@) =~= before.push((attrib@, value@)));
                },
                Err(e) => {
                    proof {
                        lemma_settings_stick(texts, i + 1, settings@.len() as int);
                    }
                    return Err(e);
                },
            }
            i += 1;
        }
        Ok(Passport { attributes: h })
    }

    /// Makes a passport of the lines that describe it: the settings are set
    /// apart by white space.
    pub fn new(lines: &Vec<String>) -> (r: Result<Passport, &'static str>)
        ensures
            r is Ok <==> settings_of(
                pieces_of(lines@, lines@.len() as int),
                pieces_of(lines@, lines@.len() as int).len() as int,
            ) is Some,
            r matches Ok(p) ==> Some(p@) == settings_of(
                pieces_of(lines@, lines@.len() as int),
                pieces_of(lines@, lines@.len() as int).len() as int,
            ),
    {
        let mut settings: Vec<Vec<char>> = Vec::new();
        let mut i: usize = 0;
        while i < lines.len()
            invariant
                0 <= i <= lines@.len(),
                fields_view(settings@) == pieces_of(lines@, i as int),
            decreases lines@.len() - i,
        {
            let mut fields = split_fields(lines[i].as_str());
            let ghost before = fields_view(settings@);
            let ghost extra = fields_view(fields@);
            settings.append(&mut fields);
            assert(fields_view(settings@) =~= before + extra);
            i += 1;
        }
        Passport::from_settings(&settings)
    }

    /// Whether the passport has all seven keys that it must have.
    pub fn valid1(&self) -> (r: bool)
        ensures
            r == self.complete(),
    {
        self.get("byr").is_some() && self.get("iyr").is_some() && self.get("eyr").is_some()
            && self.get("hgt").is_some() && self.get("hcl").is_some() && self.get("ecl").is_some()
            && self.get("pid").is_some()
    }

    /// Whether the value of `key` is a year from `min_year` to `max_year`.
    pub fn valid_year(&self, key: &str, min_year: i32, max_year: i32) -> (r: bool)
        ensures
            r == (self.value(key@) matches Some(v) && year_ok(v, min_year, max_year)),
    {
        match self.get(key) {
            Some(year_str) => match parse_signed(&year_str) {
                Some(y) => y >= min_year as i64 && y <= max_year as i64,
                None => false,
            },
            None => false,
        }
    }

    /// Whether the hair colour keeps its rule.
    pub fn valid_hair_colour(&self) -> (r: bool)
        ensures
            r == (self.value("hcl"@) matches Some(v) && hair_ok(v)),
    {
        match self.get("hcl") {
            Some(v) => {
                if v.len() < 7 || v[0] != '#' {
                    return false;
                }
                let mut i: usize = 1;
                while i < 7
                    invariant
                        1 <= i <= 7,
                        v@.len() >= 7,
                        self.value("hcl"@) == Some(v@),
                        forall|k: int| 1 <= k < i ==> is_hex(#[trigger] v@[k]),
                    decreases 7 - i,
                {
                    let c = v[i];
                    if !(('0' <= c && c <= '9') || ('a' <= c && c <= 'f')) {
                        assert(!is_hex(v@[i as int]));
                        return false;
                    }
                    i += 1;
                }
                true
            },
            None => false,
        }
    }

    /// Whether the eye colour keeps its rule.
    pub fn valid_eye_colour(&self) -> (r: bool)
        ensures
            r == (self.value("ecl"@) matches Some(v) && eye_ok(v)),
    {
        match self.get("ecl") {
            Some(c) => chars_equal(&c, "amb") || chars_equal(&c, "blu") || chars_equal(&c, "brn")
                || chars_equal(&c, "gry") || chars_equal(&c, "grn") || chars_equal(&c, "hzl")
                || chars_equal(&c, "oth"),
            None => false,
        }
    }

    /// Whether the height keeps its rule.
    pub fn valid_height(&self) -> (r: bool)
        ensures
            r == (self.value("hgt"@) matches Some(v) && height_ok(v)),
    {
        match self.get("hgt") {
            Some(v) => {
                let n = v.len();
                if n < 3 {
                    return false;
                }
                proof {
                    reveal_strlit("cm");
                    reveal_strlit("in");
                    let unit = v@.subrange(n - 2, n as int);
                    assert(unit[0] == v@[n - 2] && unit[1] == v@[n - 1]);
                    assert(unit.len() == 2);
                    if v@[n - 2] == 'c' && v@[n - 1] == 'm' {
                        assert(unit =~= "cm"@);
                    }
                    if v@[n - 2] == 'i' && v@[n - 1] == 'n' {
                        assert(unit =~= "in"@);
                    }
                }
                let cm = v[n - 2] == 'c' && v[n - 1] == 'm';
                let inches = v[n - 2] == 'i' && v[n - 1] == 'n';
                match read_decimal(&v, 0, n - 2, 193) {
                    Some(h) => (cm && 150 <= h && h <= 193) || (inches && 59 <= h && h <= 76),
                    None => false,
                }
            },
            None => false,
        }
    }

    /// Whether the passport id keeps its rule.
    pub fn valid_passport_id(&self) -> (r: bool)
        ensures
            r == (self.value("pid"@) matches Some(v) && id_ok(v)),
    {
        match self.get("pid") {
            Some(v) => {
                if v.len() != 9 {
                    return false;
                }
                let mut i: usize = 0;
                while i < 9
                    invariant
                        0 <= i <= 9,
                        v@.len() == 9,
                        self.value("pid"@) == Some(v@),
                        forall|k: int| 0 <= k < i ==> is_digit(#[trigger] v@[k]),
                    decreases 9 - i,
                {
                    let c = v[i];
                    if !('0' <= c && c <= '9') {
                        assert(!is_digit(v@[i as int]));
                        return false;
                    }
                    i += 1;
                }
                true
            },
            None => false,
        }
    }

    /// Whether the passport is complete and every value keeps its rule.
    pub fn valid2(&self) -> (r: bool)
        ensures
            r == self.proper(),
    {
        self.valid1() && self.valid_year("byr", 1920, 2002) && self.valid_year("iyr", 2010, 2020)
            && self.valid_year("eyr", 2020, 2030) && self.valid_height()
            && self.valid_hair_colour() && self.valid_eye_colour() && self.valid_passport_id()
    }
}

/// The number of complete passports among the first `n`.
pub open spec fn complete_count(input: Seq<Passport>, n: int) -> nat
    decreases n,
{
    if n <= 0 {
        0
    } else {
        complete_count(input, n - 1) + if input[n - 1].complete() {
            1nat
        } else {
            0nat
        }
    }
}

/// The number of proper passports among the first `n`.
pub open spec fn proper_count(input: Seq<Passport>, n: int) -> nat
    decreases n,
{
    if n <= 0 {
        0
    } else {
        proper_count(input, n - 1) + if input[n - 1].proper() {
            1nat
        } else {
            0nat
        }
    }
}

/// The number of complete passports.
pub fn part1(input: &Vec<Passport>) -> (r: usize)
    ensures
        r == complete_count(input@, input@.len() as int),
{
    let mut count: usize = 0;
    let mut i: usize = 0;
    while i < input.len()
        invariant
            0 <= i <= input@.len(),
            count == complete_count(input@, i as int),
            count <= i,
        decreases input@.len() - i,
    {
        if input[i].valid1() {
            count += 1;
        }
        i += 1;
    }
    count
}

/// The number of proper passports.
pub fn part2(input: &Vec<Passport>) -> (r: usize)
    ensures
        r == proper_count(input@, input@.len() as int),
{
    let mut count: usize = 0;
    let mut i: usize = 0;
    while i < input.len()
        invariant
            0 <= i <= input@.len(),
            count == proper_count(input@, i as int),
            count <= i,
        decreases input@.len() - i,
    {
        if input[i].valid2() {
            count += 1;
        }
        i += 1;
    }
    count
}

/// The settings of the lines that describe one passport, if they can be
/// read.
pub open spec fn described(lines: Seq<String>) -> Option<Seq<(Seq<char>, Seq<char>)>> {
    settings_of(
        pieces_of(lines, lines.len() as int),
        pieces_of(lines, lines.len() as int).len() as int,
    )
}

/// Reads the passports of a batch: the passports are set apart by empty
/// lines.  Fails when a setting of a passport is no setting.
pub fn read_input(lines: &Vec<String>) -> (r: Result<Vec<Passport>, &'static str>)
    ensures
        r is Ok <==> forall|i: int|
            0 <= i < line_groups(lines@).len() ==> described(#[trigger] line_groups(lines@)[i]) is Some,
        r matches Ok(found) ==> found@.len() == line_groups(lines@).len() && forall|i: int|
            0 <= i < found@.len() ==> Some((#[trigger] found@[i])@) == described(
                line_groups(lines@)[i],
            ),
{
    let groups = split_groups(lines);
    let ghost all = line_groups(lines@);
    let mut result: Vec<Passport> = Vec::new();
    let mut i: usize = 0;
    while i < groups.len()
        invariant
            0 <= i <= groups@.len(),
            crate::text::groups_view(groups@) == all,
            all == line_groups(lines@),
            result@.len() == i,
            forall|k: int| 0 <= k < i ==> Some((#[trigger] result@[k])@) == described(all[k]),
        decreases groups@.len() - i,
    {
        assert(all[i as int] == groups@[i as int]@);
        match Passport::new(&groups[i]) {
            Ok(p) => {
                result.push(p);
            },
            Err(e) => {
                assert(described(all[i as int]) is None);
                return Err(e);
            },
        }
        i += 1;
    }
    proof {
        assert forall|k: int| 0 <= k < all.len() implies described(#[trigger] all[k]) is Some by {
            assert(Some(result@[k]@) == described(all[k]));
        }
    }
    Ok(result)
}

impl Passport {
    /// Whether the passport has a value for `key` that the pattern matches.
    pub fn attr_matches(&self, key: &str, rx: &Regex) -> (r: bool)
        ensures
            r == match self.value(key@) {
                Some(value) => regex_matches(*rx, value),
                None => false,
            },
    {
        match self.get(key) {
            Some(value) => is_match(rx, string_of(&value).as_str()),
            None => false,
        }
    }
}

} // verus!
