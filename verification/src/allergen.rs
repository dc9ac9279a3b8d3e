//! Foods, their ingredients and the allergens that they are known to hold.
use crate::pattern::{captures, compile, groups_view, regex_captures, regex_source};
use crate::text::{chars_of, parts_view, split_on, split_seq, string_of};
use regex::Regex;
use vstd::prelude::*;

verus! {

/// The parts into which a comma followed by a space cuts `s`.
pub open spec fn split_list(s: Seq<char>) -> Seq<Seq<char>>
    decreases s.len(),
{
    if s.len() == 0 {
        seq![Seq::<char>::empty()]
    } else if s.len() >= 2 && s[s.len() - 2] == ',' && s.last() == ' ' {
        split_list(s.take(s.len() - 2)).push(Seq::empty())
    } else {
        split_list(s.drop_last()).drop_last().push(
            split_list(s.drop_last()).last().push(s.last()),
        )
    }
}

/// A list has at least one part.
pub proof fn lemma_list_nonempty(s: Seq<char>)
    ensures
        split_list(s).len() >= 1,
    decreases s.len(),
{
    if s.len() == 0 {
    } else if s.len() >= 2 && s[s.len() - 2] == ',' && s.last() == ' ' {
        lemma_list_nonempty(s.take(s.len() - 2));
    } else {
        lemma_list_nonempty(s.drop_last());
    }
}

/// Cuts `chars` at every comma that a space follows.
pub fn split_at_commas(chars: &Vec<char>) -> (r: Vec<Vec<char>>)
    ensures
        parts_view(r@) == split_list(chars@),
        r@.len() >= 1,
{
    let mut done: Vec<Vec<char>> = Vec::new();
    let mut current: Vec<char> = Vec::new();
    let mut i: usize = 0;
    proof {
        assert(chars@.take(0) =~= Seq::<char>::empty());
        assert(parts_view(done@).push(current@) =~= split_list(chars@.take(0)));
    }
    while i < chars.len()
        invariant
            0 <= i <= chars.len(),
            parts_view(done@).push(current@) == split_list(chars@.take(i as int)),
            current@.len() > 0 ==> i > 0 && current@.last() == chars@[i - 1],
            current@.len() == 0 ==> i == 0 || chars@[i - 1] == ' ',
        decreases chars.len() - i,
    {
        let c = chars[i];
        let ghost before = parts_view(done@).push(current@);
        let ghost shorter = chars@.take(i as int);
        let ghost longer = chars@.take(i + 1);
        proof {
            assert(longer.drop_last() =~= shorter);
            assert(longer.last() == c);
            assert(before.drop_last() =~= parts_view(done@));
            assert(before.last() == current@);
        }
        if c == ' ' && current.len() > 0 && current[current.len() - 1] == ',' {
            proof {
                let least = chars@.take(i - 1);
                assert(longer.take(longer.len() - 2) =~= least);
                assert(longer[longer.len() - 2] == ',');
                assert(shorter.drop_last() =~= least);
                assert(shorter.last() == ',');
                lemma_list_nonempty(least);
                let inner = split_list(least);
                assert(before == inner.drop_last().push(inner.last().push(',')));
                assert(inner.drop_last() =~= parts_view(done@));
                assert(inner.last().push(',') == current@);
                assert(inner.last() =~= current@.drop_last());
                assert(inner =~= parts_view(done@).push(current@.drop_last()));
            }
            current.pop();
            done.push(current);
            current = Vec::new();
            proof {
                assert(parts_view(done@).push(current@) =~= split_list(longer));
            }
        } else {
            proof {
                if i > 0 && c == ' ' {
                    assert(longer[longer.len() - 2] == chars@[i - 1]);
                    assert(chars@[i - 1] != ',');
                }
            }
            current.push(c);
            proof {
                assert(parts_view(done@).push(current@) =~= before.drop_last().push(
                    before.last().push(c),
                ));
            }
        }
        i += 1;
    }
    proof {
        assert(chars@.take(chars.len() as int) =~= chars@);
    }
    done.push(current);
    proof {
        assert(parts_view(done@) =~= split_list(chars@));
    }
    done
}

/// Whether two names are the same.
pub fn same_name(a: &Vec<char>, b: &Vec<char>) -> (r: bool)
    ensures
        r == (a@ == b@),
{
    if a.len() != b.len() {
        return false;
    }
    let mut i: usize = 0;
    while i < a.len()
        invariant
            0 <= i <= a@.len(),
            a@.len() == b@.len(),
            forall|k: int| 0 <= k < i ==> a@[k] == b@[k],
        decreases a@.len() - i,
    {
        if a[i] != b[i] {
            return false;
        }
        i += 1;
    }
    assert(a@ =~= b@);
    true
}

/// One line of the list of foods: the names of its ingredients and the
/// names of the allergens that it is known to hold.
pub struct Listing {
    pub ingredients: Vec<Vec<char>>,
    pub allergens: Vec<Vec<char>>,
}

impl Listing {
    /// The names of the ingredients and those of the allergens.
    pub open spec fn view(&self) -> (Seq<Seq<char>>, Seq<Seq<char>>) {
        (parts_view(self.ingredients@), parts_view(self.allergens@))
    }
}

/// The listing that the groups of a match of the pattern for lines give:
/// the first group holds the ingredients with spaces between them, the
/// second the allergens with a comma and a space between them.
pub open spec fn listing_of(groups: Option<Seq<Option<Seq<char>>>>) -> Option<
    (Seq<Seq<char>>, Seq<Seq<char>>),
> {
    match groups {
        Some(found) => if found.len() >= 3 && found[1] is Some && found[2] is Some {
            Some((split_seq(found[1]->0, ' '), split_list(found[2]->0)))
        } else {
            None
        },
        None => None,
    }
}

/// The listing that the groups of a match give.
pub fn listing_from(groups: &Option<Vec<Option<String>>>) -> (r: Option<Listing>)
    ensures
        r is Some <==> listing_of(groups_view(*groups)) is Some,
        r matches Some(l) ==> listing_of(groups_view(*groups)) == Some(l@),
{
    match groups {
        Some(found) => {
            if found.len() < 3 {
                return None;
            }
            match (&found[1], &found[2]) {
                (Some(first), Some(second)) => {
                    let ingredients = split_on(&chars_of(first.as_str()), ' ');
                    let allergens = split_at_commas(&chars_of(second.as_str()));
                    Some(Listing { ingredients, allergens })
                },
                _ => None,
            }
        },
        None => None,
    }
}

/// The pattern for a line: ingredients, and in brackets after the word
/// `contains` the allergens.
pub fn line_pattern() -> (r: Result<Regex, regex::Error>)
    ensures
        r matches Ok(re) ==> regex_source(re) == "^(.*) [(]contains ([^)]*)[)]$"@,
{
    compile("^(.*) [(]contains ([^)]*)[)]$")
}

/// The number of the first line among the first `n` that the pattern does
/// not read as a listing.
pub open spec fn first_bad_line(lines: Seq<String>, pattern: Regex, n: int) -> Option<int>
    decreases n,
{
    if n <= 0 {
        None
    } else {
        match first_bad_line(lines, pattern, n - 1) {
            Some(i) => Some(i),
            None => if listing_of(regex_captures(pattern, lines[n - 1]@)) is None {
                Some(n - 1)
            } else {
                None
            },
        }
    }
}

/// Reads the lines with the pattern for lines.  Fails with the number of the
/// first line, counted from 0, that the pattern does not match.
pub fn parse(line_re: &Regex, lines: &Vec<String>) -> (r: Result<Vec<Listing>, usize>)
    ensures
        r matches Ok(found) ==> first_bad_line(
            lines@,
            *line_re,
            lines@.len() as int,
        ) is None && found@.len() == lines@.len() && forall|i: int|
            0 <= i < found@.len() ==> listing_of(
                regex_captures(*line_re, lines@[i]@),
            ) == Some((#[trigger] found@[i])@),
        r matches Err(i) ==> first_bad_line(lines@, *line_re, lines@.len() as int)
            == Some(i as int),
{
    let mut result: Vec<Listing> = Vec::new();
    let mut i: usize = 0;
    while i < lines.len()
        invariant
            0 <= i <= lines@.len(),
            first_bad_line(lines@, *line_re, i as int) is None,
            result@.len() == i,
            forall|k: int|
                0 <= k < i ==> listing_of(regex_captures(*line_re, lines@[k]@))
                    == Some((#[trigger] result@[k])@),
        decreases lines@.len() - i,
    {
        let groups = captures(line_re, lines[i].as_str());
        match listing_from(&groups) {
            Some(l) => {
                result.push(l);
            },
            None => {
                proof {
                    lemma_bad_line_sticks(
                        lines@,
                        *line_re,
                        i as int + 1,
                        lines@.len() as int,
                    );
                }
                return Err(i);
            },
        }
        i += 1;
    }
    Ok(result)
}

/// The first bad line among some lines is the first bad line among more.
pub proof fn lemma_bad_line_sticks(lines: Seq<String>, pattern: Regex, n: int, m: int)
    requires
        0 <= n <= m,
        first_bad_line(lines, pattern, n) is Some,
    ensures
        first_bad_line(lines, pattern, m) == first_bad_line(lines, pattern, n),
    decreases m - n,
{
    if n < m {
        lemma_bad_line_sticks(lines, pattern, n, m - 1);
    }
}

/// The table with the first `n` of the names added, each where the table
/// does not hold it yet.
pub open spec fn extend(table: Seq<Seq<char>>, names: Seq<Seq<char>>, n: int) -> Seq<Seq<char>>
    decreases n,
{
    if n <= 0 {
        table
    } else {
        let shorter = extend(table, names, n - 1);
        if shorter.contains(names[n - 1]) {
            shorter
        } else {
            shorter.push(names[n - 1])
        }
    }
}

/// The names of the ingredients of the first `k` listings, each once, in
/// the order in which they first occur.
pub open spec fn ingredient_table(listings: Seq<Listing>, k: int) -> Seq<Seq<char>>
    decreases k,
{
    if k <= 0 {
        Seq::empty()
    } else {
        extend(
            ingredient_table(listings, k - 1),
            listings[k - 1]@.0,
            listings[k - 1]@.0.len() as int,
        )
    }
}

/// The names of the allergens of the first `k` listings, each once, in the
/// order in which they first occur.
pub open spec fn allergen_table(listings: Seq<Listing>, k: int) -> Seq<Seq<char>>
    decreases k,
{
    if k <= 0 {
        Seq::empty()
    } else {
        extend(
            allergen_table(listings, k - 1),
            listings[k - 1]@.1,
            listings[k - 1]@.1.len() as int,
        )
    }
}

/// The place of a name in a table, if it stands there.
pub fn find_name(table: &Vec<Vec<char>>, name: &Vec<char>) -> (r: Option<usize>)
    ensures
        r is Some <==> parts_view(table@).contains(name@),
        r matches Some(i) ==> i < table@.len() && table@[i as int]@ == name@,
{
    let mut i: usize = 0;
    while i < table.len()
        invariant
            0 <= i <= table@.len(),
            forall|k: int| 0 <= k < i ==> parts_view(table@)[k] != name@,
        decreases table@.len() - i,
    {
        if same_name(&table[i], name) {
            assert(parts_view(table@)[i as int] == name@);
            return Some(i);
        }
        i += 1;
    }
    None
}

/// Adds to the table each of the names that it does not hold yet.
pub fn add_names(table: &mut Vec<Vec<char>>, names: &Vec<Vec<char>>)
    ensures
        parts_view(final(table)@) == extend(
            parts_view(old(table)@),
            parts_view(names@),
            names@.len() as int,
        ),
{
    let mut i: usize = 0;
    while i < names.len()
        invariant
            0 <= i <= names@.len(),
            parts_view(table@) == extend(parts_view(old(table)@), parts_view(names@), i as int),
        decreases names@.len() - i,
    {
        let ghost before = parts_view(table@);
        if find_name(table, &names[i]).is_none() {
            table.push(names[i].clone());
            proof {
                assert(parts_view(table@) =~= before.push(parts_view(names@)[i as int]));
            }
        }
        i += 1;
    }
}

/// For each name of the table whether it is among `names`.
pub fn marks(table: &Vec<Vec<char>>, names: &Vec<Vec<char>>) -> (r: Vec<bool>)
    ensures
        r@.len() == table@.len(),
        forall|i: int|
            0 <= i < table@.len() ==> #[trigger] r@[i] == parts_view(names@).contains(table@[i]@),
{
    let mut flags: Vec<bool> = Vec::new();
    let mut i: usize = 0;
    while i < table.len()
        invariant
            0 <= i <= table@.len(),
            flags@.len() == i,
            forall|k: int|
                0 <= k < i ==> #[trigger] flags@[k] == parts_view(names@).contains(table@[k]@),
        decreases table@.len() - i,
    {
        flags.push(find_name(names, &table[i]).is_some());
        i += 1;
    }
    flags
}

/// A food by numbers: for each ingredient of the table whether the food
/// lists it, and for each allergen whether the food is known to hold it.
pub struct Food {
    pub ingredients: Vec<bool>,
    pub allergens: Vec<bool>,
}

/// The foods by numbers, with the tables of the names.
pub struct Menu {
    pub ingredient_names: Vec<Vec<char>>,
    pub allergen_names: Vec<Vec<char>>,
    pub foods: Vec<Food>,
}

impl Menu {
    /// Whether every food has a mark for each ingredient and each allergen.
    pub open spec fn wf(&self) -> bool {
        forall|k: int|
            0 <= k < self.foods@.len() ==> (#[trigger] self.foods@[k]).ingredients@.len()
                == self.ingredient_names@.len() && self.foods@[k].allergens@.len()
                == self.allergen_names@.len()
    }

    /// Whether the menu holds what the listings say.
    pub open spec fn holds(&self, listings: Seq<Listing>) -> bool {
        &&& self.wf()
        &&& parts_view(self.ingredient_names@) == ingredient_table(listings, listings.len() as int)
        &&& parts_view(self.allergen_names@) == allergen_table(listings, listings.len() as int)
        &&& self.foods@.len() == listings.len()
        &&& forall|k: int, i: int|
            0 <= k < listings.len() && 0 <= i < self.ingredient_names@.len() ==> (
            #[trigger] self.foods@[k].ingredients@[i]) == listings[k]@.0.contains(
                self.ingredient_names@[i]@,
            )
        &&& forall|k: int, a: int|
            0 <= k < listings.len() && 0 <= a < self.allergen_names@.len() ==> (
            #[trigger] self.foods@[k].allergens@[a]) == listings[k]@.1.contains(
                self.allergen_names@[a]@,
            )
    }
}

/// Gives the ingredients and the allergens numbers, in the order in which
/// their names first occur, and marks for each food which of them it lists.
pub fn number(listings: &Vec<Listing>) -> (r: Menu)
    ensures
        r.holds(listings@),
{
    let mut ingredient_names: Vec<Vec<char>> = Vec::new();
    let mut allergen_names: Vec<Vec<char>> = Vec::new();
    let mut k: usize = 0;
    while k < listings.len()
        invariant
            0 <= k <= listings@.len(),
            parts_view(ingredient_names@) == ingredient_table(listings@, k as int),
            parts_view(allergen_names@) == allergen_table(listings@, k as int),
        decreases listings@.len() - k,
    {
        add_names(&mut ingredient_names, &listings[k].ingredients);
        add_names(&mut allergen_names, &listings[k].allergens);
        k += 1;
    }
    let mut foods: Vec<Food> = Vec::new();
    let mut k: usize = 0;
    while k < listings.len()
        invariant
            0 <= k <= listings@.len(),
            foods@.len() == k,
            forall|j: int|
                0 <= j < k ==> (#[trigger] foods@[j]).ingredients@.len() == ingredient_names@.len()
                    && foods@[j].allergens@.len() == allergen_names@.len(),
            forall|j: int, i: int|
                0 <= j < k && 0 <= i < ingredient_names@.len() ==> (
                #[trigger] foods@[j].ingredients@[i]) == listings@[j]@.0.contains(
                    ingredient_names@[i]@,
                ),
            forall|j: int, a: int|
                0 <= j < k && 0 <= a < allergen_names@.len() ==> (
                #[trigger] foods@[j].allergens@[a]) == listings@[j]@.1.contains(
                    allergen_names@[a]@,
                ),
        decreases listings@.len() - k,
    {
        let ingredients = marks(&ingredient_names, &listings[k].ingredients);
        let allergens = marks(&allergen_names, &listings[k].allergens);
        foods.push(Food { ingredients, allergens });
        k += 1;
    }
    Menu { ingredient_names, allergen_names, foods }
}

/// What is known of one ingredient.
pub struct Ingredient {
    pub name: Vec<char>,
    /// For each allergen whether the ingredient may still hold it.
    pub possible_allergens: Vec<bool>,
    /// For each allergen whether it is known that the ingredient does not
    /// hold it.
    pub excluded_allergens: Vec<bool>,
    /// The allergen that the ingredient is known to hold.
    pub definite_allergen: Option<usize>,
}

/// What is known of one ingredient, without its name.
pub struct Knowledge {
    pub possible: Seq<bool>,
    pub excluded: Seq<bool>,
    pub definite: Option<usize>,
}

/// How many of the first `n` marks are set.
pub open spec fn count_true(flags: Seq<bool>, n: int) -> nat
    decreases n,
{
    if n <= 0 {
        0
    } else {
        count_true(flags, n - 1) + if flags[n - 1] {
            1nat
        } else {
            0nat
        }
    }
}

/// The last of the first `n` marks that is set.
pub open spec fn last_true(flags: Seq<bool>, n: int) -> Option<usize>
    decreases n,
{
    if n <= 0 {
        None
    } else if flags[n - 1] {
        Some((n - 1) as usize)
    } else {
        last_true(flags, n - 1)
    }
}

/// The one mark that is set, where exactly one is.
pub open spec fn sole_of(flags: Seq<bool>) -> Option<usize> {
    if count_true(flags, flags.len() as int) == 1 {
        last_true(flags, flags.len() as int)
    } else {
        None
    }
}

/// No more marks are set than there are.
pub proof fn lemma_count_bounded(flags: Seq<bool>, n: int)
    requires
        0 <= n,
    ensures
        count_true(flags, n) <= n,
    decreases n,
{
    if n > 0 {
        lemma_count_bounded(flags, n - 1);
    }
}

/// How many of the marks are set.
pub fn count_flags(flags: &Vec<bool>) -> (r: usize)
    ensures
        r == count_true(flags@, flags@.len() as int),
{
    let mut total: usize = 0;
    let mut i: usize = 0;
    while i < flags.len()
        invariant
            0 <= i <= flags@.len(),
            total == count_true(flags@, i as int),
            total <= i,
        decreases flags@.len() - i,
    {
        if flags[i] {
            total += 1;
        }
        i += 1;
    }
    total
}

/// Whether an ingredient that is known to hold nothing else can be
/// concluded to hold the allergen `a`.
pub open spec fn may_conclude_holds(k: Knowledge, a: int) -> bool {
    &&& 0 <= a < k.possible.len()
    &&& k.excluded.len() == k.possible.len()
    &&& !k.excluded[a]
    &&& k.definite is None
    &&& forall|b: int| 0 <= b < k.possible.len() && b != a ==> !#[trigger] k.possible[b]
}

/// Whether an ingredient can be concluded not to hold the allergen `a`.
pub open spec fn may_conclude_lacks(k: Knowledge, a: int) -> bool {
    &&& 0 <= a < k.possible.len()
    &&& k.excluded.len() == k.possible.len()
    &&& k.definite != Some(a as usize)
}

/// What is known once an ingredient is concluded to hold the allergen `a`.
pub open spec fn holding(k: Knowledge, a: int) -> Knowledge {
    Knowledge {
        possible: k.possible.update(a, false),
        excluded: k.excluded,
        definite: Some(a as usize),
    }
}

/// What is known once an ingredient is concluded not to hold the allergen
/// `a`.
pub open spec fn lacking(k: Knowledge, a: int) -> Knowledge {
    Knowledge {
        possible: k.possible.update(a, false),
        excluded: k.excluded.update(a, true),
        definite: k.definite,
    }
}

impl Ingredient {
    /// What is known of the ingredient.
    pub open spec fn view(&self) -> Knowledge {
        Knowledge {
            possible: self.possible_allergens@,
            excluded: self.excluded_allergens@,
            definite: self.definite_allergen,
        }
    }

    /// An ingredient that may hold each of the allergens.
    pub fn new(name: &Vec<char>, n_allergens: usize) -> (r: Ingredient)
        ensures
            r.name@ == name@,
            r@.possible == Seq::new(n_allergens as nat, |a: int| true),
            r@.excluded == Seq::new(n_allergens as nat, |a: int| false),
            r@.definite is None,
    {
        let mut possible: Vec<bool> = Vec::new();
        let mut excluded: Vec<bool> = Vec::new();
        let mut a: usize = 0;
        while a < n_allergens
            invariant
                0 <= a <= n_allergens,
                possible@.len() == a,
                excluded@.len() == a,
                forall|b: int| 0 <= b < a ==> possible@[b] && !excluded@[b],
            decreases n_allergens - a,
        {
            possible.push(true);
            excluded.push(false);
            a += 1;
        }
        assert(possible@ =~= Seq::new(n_allergens as nat, |a: int| true));
        assert(excluded@ =~= Seq::new(n_allergens as nat, |a: int| false));
        Ingredient {
            name: name.clone(),
            possible_allergens: possible,
            excluded_allergens: excluded,
            definite_allergen: None,
        }
    }

    /// `Some(false)` where the ingredient is known to hold an allergen,
    /// `Some(true)` where it is known to hold none, `None` where it may
    /// still hold one.
    pub fn is_non_allergenic(&self) -> (r: Option<bool>)
        ensures
            r == (if self@.definite is Some {
                Some(false)
            } else if count_true(self@.possible, self@.possible.len() as int) > 0 {
                None
            } else {
                Some(true)
            }),
    {
        if self.definite_allergen.is_some() {
            Some(false)
        } else if count_flags(&self.possible_allergens) > 0 {
            None
        } else {
            Some(true)
        }
    }

    /// The allergen that the ingredient may hold, where there is exactly
    /// one.
    pub fn sole_possible_allergen(&self) -> (r: Option<usize>)
        ensures
            r == sole_of(self@.possible),
    {
        let mut total: usize = 0;
        let mut last: Option<usize> = None;
        let mut i: usize = 0;
        while i < self.possible_allergens.len()
            invariant
                0 <= i <= self.possible_allergens@.len(),
                total == count_true(self.possible_allergens@, i as int),
                total <= i,
                last == last_true(self.possible_allergens@, i as int),
            decreases self.possible_allergens@.len() - i,
        {
            if self.possible_allergens[i] {
                total += 1;
                last = Some(i);
            }
            i += 1;
        }
        if total == 1 {
            last
        } else {
            None
        }
    }

    /// Concludes that the ingredient holds the allergen.
    pub fn conclude_must_contain(&mut self, allergen: usize)
        requires
            may_conclude_holds(old(self)@, allergen as int),
        ensures
            final(self)@ == holding(old(self)@, allergen as int),
            final(self).name == old(self).name,
    {
        self.definite_allergen = Some(allergen);
        self.possible_allergens.set(allergen, false);
    }

    /// Concludes that the ingredient does not hold the allergen.
    pub fn conclude_must_not_contain(&mut self, allergen: usize)
        requires
            may_conclude_lacks(old(self)@, allergen as int),
        ensures
            final(self)@ == lacking(old(self)@, allergen as int),
            final(self).name == old(self).name,
    {
        self.excluded_allergens.set(allergen, true);
        self.possible_allergens.set(allergen, false);
    }
}

/// What is known of each ingredient.
pub open spec fn views(all: Seq<Ingredient>) -> Seq<Knowledge> {
    Seq::new(all.len(), |j: int| all[j]@)
}

/// Whether one of the first `k` foods holds the allergen `a` and does not
/// list the ingredient `i`: the allergen is in one ingredient only, so this
/// ingredient cannot be the one.
pub open spec fn ruled_out(foods: Seq<Food>, i: int, a: int, k: int) -> bool {
    exists|f: int| 0 <= f < k && (#[trigger] foods[f]).allergens@[a] && !foods[f].ingredients@[i]
}

/// What the foods say of the ingredient `i`, of which the first `n`
/// allergens have been looked at.
pub open spec fn first_look(menu: Menu, i: int, n: int) -> Knowledge {
    Knowledge {
        possible: Seq::new(
            menu.allergen_names@.len(),
            |a: int| !(a < n && ruled_out(menu.foods@, i, a, menu.foods@.len() as int)),
        ),
        excluded: Seq::new(
            menu.allergen_names@.len(),
            |a: int| a < n && ruled_out(menu.foods@, i, a, menu.foods@.len() as int),
        ),
        definite: None,
    }
}

/// What the foods say of each ingredient, before anything is concluded.
pub open spec fn start(menu: Menu) -> Seq<Knowledge> {
    Seq::new(
        menu.ingredient_names@.len(),
        |i: int| first_look(menu, i, menu.allergen_names@.len() as int),
    )
}

/// Whether a food holds the allergen `a` and does not list the ingredient
/// `i`.
pub fn is_ruled_out(menu: &Menu, i: usize, a: usize) -> (r: bool)
    requires
        menu.wf(),
        i < menu.ingredient_names@.len(),
        a < menu.allergen_names@.len(),
    ensures
        r == ruled_out(menu.foods@, i as int, a as int, menu.foods@.len() as int),
{
    let mut f: usize = 0;
    while f < menu.foods.len()
        invariant
            0 <= f <= menu.foods@.len(),
            menu.wf(),
            i < menu.ingredient_names@.len(),
            a < menu.allergen_names@.len(),
            !ruled_out(menu.foods@, i as int, a as int, f as int),
        decreases menu.foods@.len() - f,
    {
        assert(menu.foods@[f as int].allergens@.len() == menu.allergen_names@.len());
        if menu.foods[f].allergens[a] && !menu.foods[f].ingredients[i] {
            return true;
        }
        f += 1;
    }
    false
}

/// Whether what is known of each ingredient speaks of `na` allergens.
pub open spec fn in_range(state: Seq<Knowledge>, na: int) -> bool {
    forall|j: int|
        0 <= j < state.len() ==> (#[trigger] state[j]).possible.len() == na && (
        state[j].definite matches Some(a) ==> a < na)
}

/// What the foods say of each ingredient.
pub fn initial(menu: &Menu) -> (r: Vec<Ingredient>)
    requires
        menu.wf(),
    ensures
        views(r@) == start(*menu),
        in_range(views(r@), menu.allergen_names@.len() as int),
        r@.len() == menu.ingredient_names@.len(),
        forall|i: int| 0 <= i < r@.len() ==> (#[trigger] r@[i]).name@ == menu.ingredient_names@[i]@,
{
    let na = menu.allergen_names.len();
    let mut all: Vec<Ingredient> = Vec::new();
    let mut i: usize = 0;
    while i < menu.ingredient_names.len()
        invariant
            0 <= i <= menu.ingredient_names@.len(),
            menu.wf(),
            na == menu.allergen_names@.len(),
            all@.len() == i,
            forall|j: int| 0 <= j < i ==> (#[trigger] all@[j])@ == first_look(*menu, j, na as int),
            forall|j: int| 0 <= j < i ==> (#[trigger] all@[j]).name@ == menu.ingredient_names@[j]@,
        decreases menu.ingredient_names@.len() - i,
    {
        let mut ing = Ingredient::new(&menu.ingredient_names[i], na);
        let ghost name = ing.name;
        proof {
            assert(ing@.possible =~= first_look(*menu, i as int, 0).possible);
            assert(ing@.excluded =~= first_look(*menu, i as int, 0).excluded);
        }
        let mut a: usize = 0;
        while a < na
            invariant
                0 <= a <= na,
                menu.wf(),
                i < menu.ingredient_names@.len(),
                na == menu.allergen_names@.len(),
                ing@ == first_look(*menu, i as int, a as int),
                ing.name == name,
            decreases na - a,
        {
            let ghost before = ing@;
            if is_ruled_out(menu, i, a) {
                ing.conclude_must_not_contain(a);
            }
            proof {
                let after = first_look(*menu, i as int, a as int + 1);
                assert(ing@.possible =~= after.possible);
                assert(ing@.excluded =~= after.excluded);
            }
            a += 1;
        }
        all.push(ing);
        i += 1;
    }
    proof {
        assert(views(all@) =~= start(*menu));
    }
    all
}

/// Each of the first `n` ingredients that may hold exactly one allergen,
/// with that allergen.
pub open spec fn discoveries(state: Seq<Knowledge>, n: int) -> Seq<(usize, usize)>
    decreases n,
{
    if n <= 0 {
        Seq::empty()
    } else {
        match sole_of(state[n - 1].possible) {
            Some(a) => discoveries(state, n - 1).push(((n - 1) as usize, a)),
            None => discoveries(state, n - 1),
        }
    }
}

/// Whether it can be concluded that the ingredient `who` holds the allergen
/// `a` and that no other ingredient does.
pub open spec fn may_conclude(state: Seq<Knowledge>, who: int, a: int) -> bool {
    forall|j: int|
        0 <= j < state.len() ==> if j == who {
            may_conclude_holds(#[trigger] state[j], a)
        } else {
            may_conclude_lacks(state[j], a)
        }
}

/// What is known once it is concluded that the ingredient `who` holds the
/// allergen `a` and that no other ingredient does.
pub open spec fn concluded(state: Seq<Knowledge>, who: int, a: int) -> Seq<Knowledge> {
    Seq::new(
        state.len(),
        |j: int|
            if j == who {
                holding(state[j], a)
            } else {
                lacking(state[j], a)
            },
    )
}

/// What is known after the first `m` of the discoveries, each concluded in
/// its turn; `None` where one of them cannot be concluded.
pub open spec fn apply_all(state: Seq<Knowledge>, found: Seq<(usize, usize)>, m: int) -> Option<
    Seq<Knowledge>,
>
    decreases m,
{
    if m <= 0 {
        Some(state)
    } else {
        match apply_all(state, found, m - 1) {
            None => None,
            Some(s) => if may_conclude(s, found[m - 1].0 as int, found[m - 1].1 as int) {
                Some(concluded(s, found[m - 1].0 as int, found[m - 1].1 as int))
            } else {
                None
            },
        }
    }
}

/// For how many pairs of one of the first `n` ingredients and an allergen it
/// is open whether the ingredient holds the allergen.
pub open spec fn unknowns(state: Seq<Knowledge>, n: int) -> nat
    decreases n,
{
    if n <= 0 {
        0
    } else {
        unknowns(state, n - 1) + count_true(
            state[n - 1].possible,
            state[n - 1].possible.len() as int,
        )
    }
}

/// Why the allergens cannot be found.
#[derive(Debug, PartialEq, Eq, Clone, Copy)]
pub enum SolveError {
    /// The line with this number, counted from 0, is no listing.
    BadLine(usize),
    /// Two conclusions contradict each other.
    Contradiction,
    /// A round concluded nothing while questions were open.
    NotSolvable,
}

/// What is known in the end: round after round, each ingredient that may
/// hold exactly one allergen is concluded to hold it, and all others not to
/// hold it, until no question is open.
pub open spec fn settle(state: Seq<Knowledge>) -> Result<Seq<Knowledge>, SolveError>
    decreases unknowns(state, state.len() as int),
{
    if unknowns(state, state.len() as int) == 0 {
        Ok(state)
    } else {
        let found = discoveries(state, state.len() as int);
        match apply_all(state, found, found.len() as int) {
            None => Err(SolveError::Contradiction),
            Some(next) => if unknowns(next, next.len() as int) >= unknowns(
                state,
                state.len() as int,
            ) {
                Err(SolveError::NotSolvable)
            } else {
                settle(next)
            },
        }
    }
}

/// For how many pairs of an ingredient and an allergen it is open whether
/// the ingredient holds the allergen.
pub fn count_unknowns(all_ingredients: &Vec<Ingredient>) -> (r: u128)
    ensures
        r == unknowns(views(all_ingredients@), all_ingredients@.len() as int),
{
    let mut total: u128 = 0;
    let mut i: usize = 0;
    while i < all_ingredients.len()
        invariant
            0 <= i <= all_ingredients@.len(),
            total == unknowns(views(all_ingredients@), i as int),
            total <= i * 0xffff_ffff_ffff_ffff,
        decreases all_ingredients@.len() - i,
    {
        let n = count_flags(&all_ingredients[i].possible_allergens);
        proof {
            lemma_count_bounded(
                all_ingredients@[i as int].possible_allergens@,
                all_ingredients@[i as int].possible_allergens@.len() as int,
            );
            assert(views(all_ingredients@)[i as int].possible
                == all_ingredients@[i as int].possible_allergens@);
            assert(n <= 0xffff_ffff_ffff_ffff);
            assert((i + 1) * 0xffff_ffff_ffff_ffff == i * 0xffff_ffff_ffff_ffff
                + 0xffff_ffff_ffff_ffff) by (nonlinear_arith);
            assert((i + 1) * 0xffff_ffff_ffff_ffff <= 0xffff_ffff_ffff_ffff
                * 0xffff_ffff_ffff_ffff) by (nonlinear_arith)
                requires
                    i + 1 <= 0xffff_ffff_ffff_ffff,
            ;
        }
        total = total + (n as u128);
        i += 1;
    }
    total
}

/// Each ingredient that may hold exactly one allergen, with that allergen.
pub fn deduce_sole_possible_allergens(all_ingredients: &Vec<Ingredient>) -> (r: Vec<
    (usize, usize),
>)
    ensures
        r@ == discoveries(views(all_ingredients@), all_ingredients@.len() as int),
{
    let mut found: Vec<(usize, usize)> = Vec::new();
    let mut i: usize = 0;
    while i < all_ingredients.len()
        invariant
            0 <= i <= all_ingredients@.len(),
            found@ == discoveries(views(all_ingredients@), i as int),
        decreases all_ingredients@.len() - i,
    {
        assert(views(all_ingredients@)[i as int].possible
            == all_ingredients@[i as int].possible_allergens@);
        match all_ingredients[i].sole_possible_allergen() {
            None => {},
            Some(candidate) => {
                found.push((i, candidate));
            },
        }
        i += 1;
    }
    found
}

/// Whether no mark but the one at `a` is set.
fn only_at(flags: &Vec<bool>, a: usize) -> (r: bool)
    ensures
        r == (forall|b: int| 0 <= b < flags@.len() && b != a ==> !#[trigger] flags@[b]),
{
    let mut b: usize = 0;
    while b < flags.len()
        invariant
            0 <= b <= flags@.len(),
            forall|k: int| 0 <= k < b && k != a ==> !#[trigger] flags@[k],
        decreases flags@.len() - b,
    {
        if b != a && flags[b] {
            return false;
        }
        b += 1;
    }
    true
}

/// Whether the ingredient can be concluded to hold the allergen.
fn can_hold(ing: &Ingredient, a: usize) -> (r: bool)
    ensures
        r == may_conclude_holds(ing@, a as int),
{
    a < ing.possible_allergens.len() && ing.excluded_allergens.len()
        == ing.possible_allergens.len() && !ing.excluded_allergens[a]
        && ing.definite_allergen.is_none() && only_at(&ing.possible_allergens, a)
}

/// Whether the ingredient can be concluded not to hold the allergen.
fn can_lack(ing: &Ingredient, a: usize) -> (r: bool)
    ensures
        r == may_conclude_lacks(ing@, a as int),
{
    a < ing.possible_allergens.len() && ing.excluded_allergens.len()
        == ing.possible_allergens.len() && match ing.definite_allergen {
        Some(d) => d != a,
        None => true,
    }
}

/// Concludes that the ingredient `who` holds the allergen `a` and that no
/// other ingredient does.  Gives `false`, and leaves the ingredients in no
/// state to go on with, where that cannot be concluded.
pub fn conclude(all_ingredients: &mut Vec<Ingredient>, who: usize, a: usize) -> (ok: bool)
    ensures
        ok == may_conclude(views(old(all_ingredients)@), who as int, a as int),
        final(all_ingredients)@.len() == old(all_ingredients)@.len(),
        forall|j: int|
            0 <= j < old(all_ingredients)@.len() ==> (#[trigger] final(all_ingredients)@[j]).name
                == old(all_ingredients)@[j].name,
        ok ==> views(final(all_ingredients)@) == concluded(
            views(old(all_ingredients)@),
            who as int,
            a as int,
        ),
{
    let ghost before = all_ingredients@;
    let n = all_ingredients.len();
    let mut j: usize = 0;
    while j < n
        invariant
            0 <= j <= n,
            n == before.len(),
            before == old(all_ingredients)@,
            all_ingredients@.len() == n,
            forall|k: int| 0 <= k < n ==> (#[trigger] all_ingredients@[k]).name == before[k].name,
            forall|k: int| j <= k < n ==> #[trigger] all_ingredients@[k] == before[k],
            forall|k: int|
                0 <= k < j ==> if k == who {
                    may_conclude_holds(#[trigger] views(before)[k], a as int)
                } else {
                    may_conclude_lacks(views(before)[k], a as int)
                },
            forall|k: int|
                0 <= k < j ==> (#[trigger] all_ingredients@[k])@ == concluded(
                    views(before),
                    who as int,
                    a as int,
                )[k],
        decreases n - j,
    {
        assert(views(before)[j as int] == before[j as int]@);
        assert(all_ingredients@[j as int] == before[j as int]);
        let ghost earlier = all_ingredients@;
        if j == who {
            if !can_hold(&all_ingredients[j], a) {
                return false;
            }
            all_ingredients[j].conclude_must_contain(a);
        } else {
            if !can_lack(&all_ingredients[j], a) {
                return false;
            }
            all_ingredients[j].conclude_must_not_contain(a);
        }
        proof {
            assert forall|k: int| 0 <= k < n implies (#[trigger] all_ingredients@[k]).name
                == before[k].name by {
                if k != j {
                    assert(all_ingredients@[k] == earlier[k]);
                }
            }
            assert forall|k: int| 0 <= k < j + 1 implies (#[trigger] all_ingredients@[k])@
                == concluded(views(before), who as int, a as int)[k] by {
                if k != j {
                    assert(all_ingredients@[k] == earlier[k]);
                }
            }
            assert forall|k: int| j + 1 <= k < n implies #[trigger] all_ingredients@[k]
                == before[k] by {
                assert(all_ingredients@[k] == earlier[k]);
            }
        }
        j += 1;
    }
    proof {
        assert(views(all_ingredients@) =~= concluded(views(before), who as int, a as int));
    }
    true
}

/// Where one of the first discoveries cannot be concluded, the discoveries
/// cannot.
pub proof fn lemma_apply_sticks(
    state: Seq<Knowledge>,
    found: Seq<(usize, usize)>,
    m: int,
    n: int,
)
    requires
        0 <= m <= n,
        apply_all(state, found, m) is None,
    ensures
        apply_all(state, found, n) is None,
    decreases n - m,
{
    if m < n {
        lemma_apply_sticks(state, found, m, n - 1);
    }
}

/// Finds for each ingredient the allergen that it holds, if any: round after
/// round, each ingredient that may hold exactly one allergen is concluded to
/// hold it, and all others not to hold it, until no question is open.
pub fn solve(menu: &Menu) -> (r: Result<Vec<Ingredient>, SolveError>)
    requires
        menu.wf(),
    ensures
        r is Ok <==> settle(start(*menu)) is Ok,
        r matches Err(e) ==> settle(start(*menu)) == Err::<Seq<Knowledge>, SolveError>(e),
        r matches Ok(all) ==> settle(start(*menu)) == Ok::<Seq<Knowledge>, SolveError>(
            views(all@),
        ) && in_range(views(all@), menu.allergen_names@.len() as int) && all@.len()
            == menu.ingredient_names@.len() && forall|i: int|
            0 <= i < all@.len() ==> (#[trigger] all@[i]).name@ == menu.ingredient_names@[i]@,
{
    let mut all = initial(menu);
    let mut prev = count_unknowns(&all);
    while prev != 0
        invariant
            settle(start(*menu)) == settle(views(all@)),
            prev == unknowns(views(all@), all@.len() as int),
            in_range(views(all@), menu.allergen_names@.len() as int),
            all@.len() == menu.ingredient_names@.len(),
            forall|i: int|
                0 <= i < all@.len() ==> (#[trigger] all@[i]).name@ == menu.ingredient_names@[i]@,
        decreases prev,
    {
        let ghost at_start = views(all@);
        let found = deduce_sole_possible_allergens(&all);
        let mut m: usize = 0;
        while m < found.len()
            invariant
                0 <= m <= found@.len(),
                found@ == discoveries(at_start, at_start.len() as int),
                apply_all(at_start, found@, m as int) == Some(views(all@)),
                in_range(views(all@), menu.allergen_names@.len() as int),
                all@.len() == menu.ingredient_names@.len(),
                at_start.len() == all@.len(),
                settle(start(*menu)) == settle(at_start),
                prev == unknowns(at_start, at_start.len() as int),
                prev != 0,
                forall|i: int|
                    0 <= i < all@.len() ==> (#[trigger] all@[i]).name@
                        == menu.ingredient_names@[i]@,
            decreases found@.len() - m,
        {
            let (who, allergen) = found[m];
            let ghost earlier = views(all@);
            if !conclude(&mut all, who, allergen) {
                proof {
                    assert(apply_all(at_start, found@, m + 1) is None);
                    lemma_apply_sticks(at_start, found@, m + 1, found@.len() as int);
                }
                return Err(SolveError::Contradiction);
            }
            proof {
                assert forall|j: int| 0 <= j < all@.len() implies (#[trigger] views(
                    all@,
                )[j]).possible.len() == menu.allergen_names@.len() && (views(
                    all@,
                )[j].definite matches Some(a) ==> a < menu.allergen_names@.len()) by {
                    assert(earlier[j].possible.len() == menu.allergen_names@.len());
                    assert(views(all@)[j] == concluded(earlier, who as int, allergen as int)[j]);
                }
            }
            m += 1;
        }
        let curr = count_unknowns(&all);
        if curr >= prev {
            return Err(SolveError::NotSolvable);
        }
        prev = curr;
    }
    Ok(all)
}

/// Whether the listings are what the pattern reads from the lines.
pub open spec fn read_as(lines: Seq<String>, pattern: Regex, listings: Seq<Listing>) -> bool {
    listings.len() == lines.len() && forall|i: int|
        0 <= i < listings.len() ==> listing_of(regex_captures(pattern, lines[i]@)) == Some(
            (#[trigger] listings[i])@,
        )
}

/// Whether the foods of the lines, read with the pattern and numbered,
/// settle into `outcome`.
pub open spec fn settles_into(
    lines: Seq<String>,
    pattern: Regex,
    outcome: Result<Seq<Knowledge>, SolveError>,
) -> bool {
    exists|listings: Seq<Listing>, menu: Menu| #[trigger]
        read_as(lines, pattern, listings) && #[trigger] menu.holds(listings) && settle(start(menu))
            == outcome
}

/// Reads the lines with the pattern for lines, numbers the ingredients and
/// the allergens, and finds for each ingredient the allergen that it holds.
pub fn solve1(line_re: &Regex, lines: &Vec<String>) -> (r: Result<
    (Menu, Vec<Ingredient>),
    SolveError,
>)
    ensures
        r matches Err(SolveError::BadLine(i)) ==> first_bad_line(
            lines@,
            *line_re,
            lines@.len() as int,
        ) == Some(i as int),
        first_bad_line(lines@, *line_re, lines@.len() as int) matches Some(i) ==> r
            matches Err(SolveError::BadLine(at)) && at == i,
        r matches Err(e) ==> e is BadLine || (first_bad_line(
            lines@,
            *line_re,
            lines@.len() as int,
        ) is None && settles_into(
            lines@,
            *line_re,
            Err::<Seq<Knowledge>, SolveError>(e),
        )),
        r matches Ok(found) ==> found.0.wf() && settle(start(found.0)) == Ok::<
            Seq<Knowledge>,
            SolveError,
        >(views(found.1@)) && in_range(views(found.1@), found.0.allergen_names@.len() as int)
            && found.1@.len() == found.0.ingredient_names@.len() && exists|
            listings: Seq<Listing>,
        |
            read_as(lines@, *line_re, listings) && found.0.holds(listings),
{
    let listings = match parse(line_re, lines) {
        Ok(listings) => listings,
        Err(i) => {
            return Err(SolveError::BadLine(i));
        },
    };
    let menu = number(&listings);
    proof {
        assert(read_as(lines@, *line_re, listings@));
        assert(menu.holds(listings@));
        assert(settles_into(lines@, *line_re, settle(start(menu))));
        lemma_settle_errors(start(menu));
    }
    match solve(&menu) {
        Ok(all) => Ok((menu, all)),
        Err(e) => Err(e),
    }
}

/// Settling never fails for a bad line.
pub proof fn lemma_settle_errors(state: Seq<Knowledge>)
    ensures
        settle(state) matches Err(e) ==> e == SolveError::Contradiction || e
            == SolveError::NotSolvable,
    decreases unknowns(state, state.len() as int),
{
    if unknowns(state, state.len() as int) != 0 {
        let found = discoveries(state, state.len() as int);
        match apply_all(state, found, found.len() as int) {
            None => {},
            Some(next) => {
                if unknowns(next, next.len() as int) < unknowns(state, state.len() as int) {
                    lemma_settle_errors(next);
                }
            },
        }
    }
}

/// Whether an ingredient is known to hold no allergen.
pub open spec fn is_safe(k: Knowledge) -> bool {
    k.definite is None && count_true(k.possible, k.possible.len() as int) == 0
}

/// How many of the first `n` ingredients the food lists that are known to
/// hold no allergen.
pub open spec fn safe_in(food: Food, state: Seq<Knowledge>, n: int) -> nat
    decreases n,
{
    if n <= 0 {
        0
    } else {
        safe_in(food, state, n - 1) + if food.ingredients@[n - 1] && is_safe(state[n - 1]) {
            1nat
        } else {
            0nat
        }
    }
}

/// How often the first `k` foods list an ingredient that is known to hold no
/// allergen.
pub open spec fn mentions(foods: Seq<Food>, state: Seq<Knowledge>, k: int) -> nat
    decreases k,
{
    if k <= 0 {
        0
    } else {
        mentions(foods, state, k - 1) + safe_in(foods[k - 1], state, state.len() as int)
    }
}

/// How often the foods list an ingredient that is known to hold no allergen.
pub fn count_mentions(menu: &Menu, all_ingredients: &Vec<Ingredient>) -> (r: u128)
    requires
        menu.wf(),
        all_ingredients@.len() == menu.ingredient_names@.len(),
    ensures
        r == mentions(menu.foods@, views(all_ingredients@), menu.foods@.len() as int),
{
    let ni = all_ingredients.len();
    let mut safe: Vec<bool> = Vec::new();
    let mut i: usize = 0;
    while i < ni
        invariant
            0 <= i <= ni,
            ni == all_ingredients@.len(),
            safe@.len() == i,
            forall|j: int| 0 <= j < i ==> #[trigger] safe@[j] == is_safe(views(all_ingredients@)[j]),
        decreases ni - i,
    {
        assert(views(all_ingredients@)[i as int] == all_ingredients@[i as int]@);
        let harmless = match all_ingredients[i].is_non_allergenic() {
            Some(true) => true,
            _ => false,
        };
        safe.push(harmless);
        i += 1;
    }
    let mut total: u128 = 0;
    let mut k: usize = 0;
    while k < menu.foods.len()
        invariant
            0 <= k <= menu.foods@.len(),
            menu.wf(),
            ni == all_ingredients@.len(),
            ni == menu.ingredient_names@.len(),
            safe@.len() == ni,
            forall|j: int| 0 <= j < ni ==> #[trigger] safe@[j] == is_safe(views(all_ingredients@)[j]),
            total == mentions(menu.foods@, views(all_ingredients@), k as int),
            total <= k * 0xffff_ffff_ffff_ffff,
        decreases menu.foods@.len() - k,
    {
        let mut here: usize = 0;
        let mut i: usize = 0;
        assert(menu.foods@[k as int].ingredients@.len() == ni);
        while i < ni
            invariant
                0 <= i <= ni,
                0 <= k < menu.foods@.len(),
                ni == all_ingredients@.len(),
                menu.foods@[k as int].ingredients@.len() == ni,
                safe@.len() == ni,
                forall|j: int|
                    0 <= j < ni ==> #[trigger] safe@[j] == is_safe(views(all_ingredients@)[j]),
                here == safe_in(menu.foods@[k as int], views(all_ingredients@), i as int),
                here <= i,
            decreases ni - i,
        {
            if menu.foods[k].ingredients[i] && safe[i] {
                here += 1;
            }
            i += 1;
        }
        proof {
            assert((k + 1) * 0xffff_ffff_ffff_ffff == k * 0xffff_ffff_ffff_ffff
                + 0xffff_ffff_ffff_ffff) by (nonlinear_arith);
            assert((k + 1) * 0xffff_ffff_ffff_ffff <= 0xffff_ffff_ffff_ffff
                * 0xffff_ffff_ffff_ffff) by (nonlinear_arith)
                requires
                    k + 1 <= 0xffff_ffff_ffff_ffff,
            ;
        }
        total = total + (here as u128);
        k += 1;
    }
    total
}

/// Reads the lines, finds the allergens, and counts how often the foods list
/// an ingredient that holds none.
pub fn part1(line_re: &Regex, lines: &Vec<String>) -> (r: Result<
    (u128, Menu, Vec<Ingredient>),
    SolveError,
>)
    ensures
        first_bad_line(lines@, *line_re, lines@.len() as int) matches Some(i) ==> r
            matches Err(SolveError::BadLine(at)) && at == i,
        r matches Err(e) ==> e is BadLine || (first_bad_line(
            lines@,
            *line_re,
            lines@.len() as int,
        ) is None && settles_into(
            lines@,
            *line_re,
            Err::<Seq<Knowledge>, SolveError>(e),
        )),
        r matches Ok(found) ==> found.1.wf() && settle(start(found.1)) == Ok::<
            Seq<Knowledge>,
            SolveError,
        >(views(found.2@)) && in_range(views(found.2@), found.1.allergen_names@.len() as int)
            && found.2@.len() == found.1.ingredient_names@.len() && found.0 == mentions(
            found.1.foods@,
            views(found.2@),
            found.1.foods@.len() as int,
        ) && exists|listings: Seq<Listing>|
            read_as(lines@, *line_re, listings) && found.1.holds(listings),
{
    match solve1(line_re, lines) {
        Ok((menu, all)) => {
            let n = count_mentions(&menu, &all);
            Ok((n, menu, all))
        },
        Err(e) => Err(e),
    }
}

/// Whether the name `a` comes before the name `b` in the order of a
/// dictionary, character by character.
pub open spec fn name_before(a: Seq<char>, b: Seq<char>) -> bool
    decreases a.len(),
{
    if b.len() == 0 {
        false
    } else if a.len() == 0 {
        true
    } else if (a[0] as u32) < (b[0] as u32) {
        true
    } else if (a[0] as u32) > (b[0] as u32) {
        false
    } else {
        name_before(a.skip(1), b.skip(1))
    }
}

/// Of two names at most one comes before the other.
pub proof fn lemma_before_one_way(a: Seq<char>, b: Seq<char>)
    requires
        name_before(a, b),
    ensures
        !name_before(b, a),
    decreases a.len(),
{
    if a.len() > 0 && b.len() > 0 && (a[0] as u32) == (b[0] as u32) {
        lemma_before_one_way(a.skip(1), b.skip(1));
    }
}

/// Where `a` does not come before `b` and `b` not before `c`, `a` does not
/// come before `c`.
pub proof fn lemma_not_before_chain(a: Seq<char>, b: Seq<char>, c: Seq<char>)
    requires
        !name_before(a, b),
        !name_before(b, c),
    ensures
        !name_before(a, c),
    decreases a.len(),
{
    if a.len() > 0 && b.len() > 0 && c.len() > 0 && (a[0] as u32) == (b[0] as u32) && (
    b[0] as u32) == (c[0] as u32) {
        lemma_not_before_chain(a.skip(1), b.skip(1), c.skip(1));
    }
}

/// Whether the name `a` comes before the name `b`.
pub fn is_before(a: &Vec<char>, b: &Vec<char>) -> (r: bool)
    ensures
        r == name_before(a@, b@),
{
    let mut i: usize = 0;
    proof {
        assert(a@.skip(0) =~= a@);
        assert(b@.skip(0) =~= b@);
    }
    loop
        invariant
            0 <= i <= a@.len(),
            i <= b@.len(),
            name_before(a@, b@) == name_before(a@.skip(i as int), b@.skip(i as int)),
        decreases a@.len() - i,
    {
        if i >= b.len() {
            return false;
        }
        if i >= a.len() {
            return true;
        }
        let x = a[i] as u32;
        let y = b[i] as u32;
        proof {
            assert(a@.skip(i as int)[0] == a@[i as int]);
            assert(b@.skip(i as int)[0] == b@[i as int]);
            assert(a@.skip(i as int).skip(1) =~= a@.skip(i + 1));
            assert(b@.skip(i as int).skip(1) =~= b@.skip(i + 1));
        }
        if x < y {
            return true;
        }
        if x > y {
            return false;
        }
        i += 1;
    }
}

/// Whether the pairs of an allergen and the ingredient that holds it are in
/// the order of the names of the allergens: no allergen of a later pair
/// comes before that of an earlier one.
pub open spec fn in_order(names: Seq<Seq<char>>, pairs: Seq<(usize, usize)>) -> bool {
    forall|t: int, u: int|
        0 <= t < u < pairs.len() ==> !name_before(
            names[(#[trigger] pairs[u]).0 as int],
            names[(#[trigger] pairs[t]).0 as int],
        )
}

/// Whether the pairs are those of the first `n` ingredients that are known
/// to hold an allergen, each once, the allergen first.
pub open spec fn pairs_of(state: Seq<Knowledge>, pairs: Seq<(usize, usize)>, n: int) -> bool {
    &&& forall|t: int|
        0 <= t < pairs.len() ==> (#[trigger] pairs[t]).1 < n && state[pairs[t].1 as int].definite
            == Some(pairs[t].0)
    &&& forall|t: int, u: int|
        0 <= t < u < pairs.len() ==> (#[trigger] pairs[t]).1 != (#[trigger] pairs[u]).1
    &&& forall|j: int|
        0 <= j < n ==> ((#[trigger] state[j]).definite matches Some(a) ==> pairs.contains(
            (a, j as usize),
        ))
}

/// The ingredients that are known to hold an allergen, each with its
/// allergen before it, in the order of the names of the allergens.
pub fn dangerous(menu: &Menu, all_ingredients: &Vec<Ingredient>) -> (r: Vec<(usize, usize)>)
    requires
        in_range(views(all_ingredients@), menu.allergen_names@.len() as int),
    ensures
        in_order(parts_view(menu.allergen_names@), r@),
        pairs_of(views(all_ingredients@), r@, all_ingredients@.len() as int),
{
    let ghost names = parts_view(menu.allergen_names@);
    let ghost state = views(all_ingredients@);
    let mut pairs: Vec<(usize, usize)> = Vec::new();
    let mut i: usize = 0;
    while i < all_ingredients.len()
        invariant
            0 <= i <= all_ingredients@.len(),
            names == parts_view(menu.allergen_names@),
            state == views(all_ingredients@),
            in_range(state, menu.allergen_names@.len() as int),
            in_order(names, pairs@),
            pairs_of(state, pairs@, i as int),
            forall|t: int|
                0 <= t < pairs@.len() ==> (#[trigger] pairs@[t]).0 < menu.allergen_names@.len(),
        decreases all_ingredients@.len() - i,
    {
        assert(state[i as int] == all_ingredients@[i as int]@);
        match all_ingredients[i].definite_allergen {
            None => {},
            Some(a) => {
                assert(a < menu.allergen_names@.len());
                let mut p: usize = 0;
                loop
                    invariant
                        0 <= p <= pairs@.len(),
                        a < menu.allergen_names@.len(),
                        names == parts_view(menu.allergen_names@),
                        forall|t: int|
                            0 <= t < pairs@.len() ==> (#[trigger] pairs@[t]).0
                                < menu.allergen_names@.len(),
                        forall|t: int|
                            0 <= t < p ==> name_before(
                                names[(#[trigger] pairs@[t]).0 as int],
                                names[a as int],
                            ),
                    ensures
                        p < pairs@.len() ==> !name_before(
                            names[pairs@[p as int].0 as int],
                            names[a as int],
                        ),
                    decreases pairs@.len() - p,
                {
                    if p >= pairs.len() {
                        break;
                    }
                    let other = pairs[p].0;
                    assert(names[other as int] == menu.allergen_names@[other as int]@);
                    assert(names[a as int] == menu.allergen_names@[a as int]@);
                    if !is_before(&menu.allergen_names[other], &menu.allergen_names[a]) {
                        break;
                    }
                    p += 1;
                }
                let ghost before = pairs@;
                pairs.insert(p, (a, i));
                proof {
                    let after = pairs@;
                    assert forall|t: int| 0 <= t < after.len() implies (#[trigger] after[t]).0
                        < menu.allergen_names@.len() by {
                        if t < p {
                            assert(after[t] == before[t]);
                        } else if t > p {
                            assert(after[t] == before[t - 1]);
                        }
                    }
                    assert forall|t: int, u: int| 0 <= t < u < after.len() implies !name_before(
                        names[(#[trigger] after[u]).0 as int],
                        names[(#[trigger] after[t]).0 as int],
                    ) by {
                        if u == p {
                            assert(after[t] == before[t]);
                            lemma_before_one_way(names[before[t].0 as int], names[a as int]);
                        } else if t == p {
                            assert(after[u] == before[u - 1]);
                            if u - 1 > p {
                                assert(!name_before(
                                    names[before[u - 1].0 as int],
                                    names[before[p as int].0 as int],
                                ));
                                lemma_not_before_chain(
                                    names[before[u - 1].0 as int],
                                    names[before[p as int].0 as int],
                                    names[a as int],
                                );
                            }
                        } else {
                            let t0 = if t < p {
                                t
                            } else {
                                t - 1
                            };
                            let u0 = if u < p {
                                u
                            } else {
                                u - 1
                            };
                            assert(after[t] == before[t0]);
                            assert(after[u] == before[u0]);
                        }
                    }
                    assert forall|t: int| 0 <= t < after.len() implies (#[trigger] after[t]).1 < i
                        + 1 && state[after[t].1 as int].definite == Some(after[t].0) by {
                        if t < p {
                            assert(after[t] == before[t]);
                        } else if t > p {
                            assert(after[t] == before[t - 1]);
                        }
                    }
                    assert forall|t: int, u: int| 0 <= t < u < after.len() implies (
                    #[trigger] after[t]).1 != (#[trigger] after[u]).1 by {
                        let t0 = if t < p {
                            t
                        } else {
                            t - 1
                        };
                        let u0 = if u < p {
                            u
                        } else {
                            u - 1
                        };
                        if t != p {
                            assert(after[t] == before[t0]);
                        }
                        if u != p {
                            assert(after[u] == before[u0]);
                        }
                    }
                    assert forall|j: int| 0 <= j < i + 1 implies ((
                    #[trigger] state[j]).definite matches Some(b) ==> after.contains(
                        (b, j as usize),
                    )) by {
                        if state[j].definite is Some {
                            let b = state[j].definite->0;
                            if j == i {
                                assert(after[p as int] == (b, j as usize));
                            } else {
                                assert(before.contains((b, j as usize)));
                                let t = choose|t: int|
                                    0 <= t < before.len() && before[t] == (b, j as usize);
                                if t < p {
                                    assert(after[t] == before[t]);
                                } else {
                                    assert(after[t + 1] == before[t]);
                                }
                            }
                        }
                    }
                }
            },
        }
        i += 1;
    }
    pairs
}

/// The first `n` names with a comma between each two.
pub open spec fn joined(names: Seq<Seq<char>>, n: int) -> Seq<char>
    decreases n,
{
    if n <= 0 {
        Seq::empty()
    } else if n == 1 {
        names[0]
    } else {
        joined(names, n - 1) + seq![','] + names[n - 1]
    }
}

/// The names of the ingredients of the pairs.
pub open spec fn names_of(menu: Menu, pairs: Seq<(usize, usize)>) -> Seq<Seq<char>> {
    Seq::new(pairs.len(), |t: int| menu.ingredient_names@[pairs[t].1 as int]@)
}

/// The names of the ingredients that hold an allergen, in the order of the
/// names of their allergens, with a comma between each two.
pub fn part2(menu: &Menu, all_ingredients: &Vec<Ingredient>) -> (r: (Vec<(usize, usize)>, String))
    requires
        in_range(views(all_ingredients@), menu.allergen_names@.len() as int),
        all_ingredients@.len() == menu.ingredient_names@.len(),
    ensures
        in_order(parts_view(menu.allergen_names@), r.0@),
        pairs_of(views(all_ingredients@), r.0@, all_ingredients@.len() as int),
        r.1@ == joined(names_of(*menu, r.0@), r.0@.len() as int),
{
    let pairs = dangerous(menu, all_ingredients);
    let ghost names = names_of(*menu, pairs@);
    let mut text: Vec<char> = Vec::new();
    let mut t: usize = 0;
    while t < pairs.len()
        invariant
            0 <= t <= pairs@.len(),
            names == names_of(*menu, pairs@),
            pairs_of(views(all_ingredients@), pairs@, all_ingredients@.len() as int),
            all_ingredients@.len() == menu.ingredient_names@.len(),
            text@ == joined(names, t as int),
        decreases pairs@.len() - t,
    {
        if t > 0 {
            text.push(',');
        }
        let ghost start_of_name = text@;
        let name = &menu.ingredient_names[pairs[t].1];
        let mut c: usize = 0;
        while c < name.len()
            invariant
                0 <= c <= name@.len(),
                text@ == start_of_name + name@.take(c as int),
            decreases name@.len() - c,
        {
            text.push(name[c]);
            proof {
                assert(name@.take(c + 1) =~= name@.take(c as int).push(name@[c as int]));
                assert(text@ =~= start_of_name + name@.take(c + 1));
            }
            c += 1;
        }
        proof {
            assert(name@.take(name@.len() as int) =~= name@);
            assert(names[t as int] == name@);
            if t == 0 {
                assert(text@ =~= names[0]);
            } else {
                assert(start_of_name =~= joined(names, t as int) + seq![',']);
            }
        }
        t += 1;
    }
    (pairs, string_of(&text))
}

} // verus!
