//! Rules about bags: which bags of which colours a bag of a colour must
//! hold.
use crate::pattern::{
    captures, compile, groups_view, is_match, regex_captures, regex_matches, regex_source,
};
use crate::text::{
    chars_equal, chars_of, parse_unsigned, parts_view, split_on, split_seq, string_of,
    unsigned_value,
};
use regex::Regex;
use vstd::prelude::*;

verus! {

/// What is known of the bags of one colour.
pub struct Bag {
    /// The colours of the bags that it must hold, each with its number.
    pub required_children: Vec<(String, u64)>,
    /// The colours of the bags that may hold it.
    pub allowed_parents: Vec<String>,
}

/// What is known of all bags, colour by colour, in the order in which the
/// colours were first named.
pub struct BagDefs {
    pub definitions: Vec<(String, Bag)>,
}

/// Why a question about the bags has no answer.
#[derive(Debug, Clone, Copy, PartialEq, Eq, Structural)]
pub enum BagError {
    /// Nothing is known of a colour that the question leads to.
    UnknownColour,
    /// The rules lead from bag to bag more often than was allowed.
    TooDeep,
    /// The number of bags does not fit in 64 bits.
    Overflow,
}

/// The contents of a bag: colours and numbers.
pub open spec fn contents_view(children: Seq<(String, u64)>) -> Seq<(Seq<char>, u64)> {
    Seq::new(children.len(), |i: int| (children[i].0@, children[i].1))
}

/// The rules: for each colour the contents of its bags.
pub open spec fn rules_view(definitions: Seq<(String, Bag)>) -> Seq<(Seq<char>, Seq<(Seq<char>, u64)>)> {
    Seq::new(
        definitions.len(),
        |i: int| (definitions[i].0@, contents_view(definitions[i].1.required_children@)),
    )
}

/// The first place among the first `n` rules at which the rule for `colour`
/// stands.
pub open spec fn place_of(
    rules: Seq<(Seq<char>, Seq<(Seq<char>, u64)>)>,
    colour: Seq<char>,
    n: int,
) -> Option<int>
    decreases n,
{
    if n <= 0 {
        None
    } else if place_of(rules, colour, n - 1) is Some {
        place_of(rules, colour, n - 1)
    } else if rules[n - 1].0 == colour {
        Some(n - 1)
    } else {
        None
    }
}

/// The first place among the first `n` contents at which the colour
/// `colour` stands.
pub open spec fn child_place(contents: Seq<(Seq<char>, u64)>, colour: Seq<char>, n: int) -> Option<
    int,
>
    decreases n,
{
    if n <= 0 {
        None
    } else if child_place(contents, colour, n - 1) is Some {
        child_place(contents, colour, n - 1)
    } else if contents[n - 1].0 == colour {
        Some(n - 1)
    } else {
        None
    }
}

/// Whether one of the first `n` contents has the colour `colour`.
pub open spec fn holds_directly(contents: Seq<(Seq<char>, u64)>, colour: Seq<char>, n: int) -> bool {
    child_place(contents, colour, n) is Some
}

/// The contents after it was noted that `quantity` bags of the colour
/// `colour` are required: the number takes the place of the number that
/// stood there for the colour, or is put behind the others.
pub open spec fn noted(contents: Seq<(Seq<char>, u64)>, colour: Seq<char>, quantity: u64) -> Seq<
    (Seq<char>, u64),
> {
    match child_place(contents, colour, contents.len() as int) {
        Some(at) => contents.update(at, (colour, quantity)),
        None => contents.push((colour, quantity)),
    }
}

/// The first place of a colour stays the first when more contents follow.
pub proof fn lemma_child_place_sticks(
    contents: Seq<(Seq<char>, u64)>,
    colour: Seq<char>,
    n: int,
    m: int,
)
    requires
        0 <= n <= m,
        child_place(contents, colour, n) is Some,
    ensures
        child_place(contents, colour, m) == child_place(contents, colour, n),
    decreases m - n,
{
    if n < m {
        lemma_child_place_sticks(contents, colour, n, m - 1);
    }
}

/// Whether a bag of the colour `parent` holds a bag of the colour `wanted`,
/// directly or inside the bags it holds.  The rules are followed from bag to
/// bag at most `depth` times.
pub open spec fn holds(
    rules: Seq<(Seq<char>, Seq<(Seq<char>, u64)>)>,
    parent: Seq<char>,
    wanted: Seq<char>,
    depth: nat,
) -> Result<bool, BagError>
    decreases depth, 1nat, 0nat,
{
    match place_of(rules, parent, rules.len() as int) {
        None => Err(BagError::UnknownColour),
        Some(at) => if holds_directly(rules[at].1, wanted, rules[at].1.len() as int) {
            Ok(true)
        } else if depth == 0 {
            if rules[at].1.len() == 0 {
                Ok(false)
            } else {
                Err(BagError::TooDeep)
            }
        } else {
            holds_inside(rules, rules[at].1, rules[at].1.len(), wanted, (depth - 1) as nat)
        },
    }
}

/// Whether a bag of one of the first `n` colours of `contents` holds a bag
/// of the colour `wanted`.  The contents are gone through in their order,
/// and the first failure ends the search.
pub open spec fn holds_inside(
    rules: Seq<(Seq<char>, Seq<(Seq<char>, u64)>)>,
    contents: Seq<(Seq<char>, u64)>,
    n: nat,
    wanted: Seq<char>,
    depth: nat,
) -> Result<bool, BagError>
    decreases depth, 2nat, n,
{
    if n == 0 {
        Ok(false)
    } else {
        match holds_inside(rules, contents, (n - 1) as nat, wanted, depth) {
            Err(e) => Err(e),
            Ok(true) => Ok(true),
            Ok(false) => holds(rules, contents[n - 1].0, wanted, depth),
        }
    }
}

/// The number of bags that a bag of the colour `parent` holds in all.
pub open spec fn held(
    rules: Seq<(Seq<char>, Seq<(Seq<char>, u64)>)>,
    parent: Seq<char>,
    depth: nat,
) -> Result<u64, BagError>
    decreases depth, 1nat, 0nat,
{
    match place_of(rules, parent, rules.len() as int) {
        None => Err(BagError::UnknownColour),
        Some(at) => if rules[at].1.len() == 0 {
            Ok(0u64)
        } else if depth == 0 {
            Err(BagError::TooDeep)
        } else {
            held_inside(rules, rules[at].1, rules[at].1.len(), (depth - 1) as nat)
        },
    }
}

/// The number of bags that the first `n` of `contents` come to: each bag
/// itself and what it holds, as often as it is required.
pub open spec fn held_inside(
    rules: Seq<(Seq<char>, Seq<(Seq<char>, u64)>)>,
    contents: Seq<(Seq<char>, u64)>,
    n: nat,
    depth: nat,
) -> Result<u64, BagError>
    decreases depth, 2nat, n,
{
    if n == 0 {
        Ok(0u64)
    } else {
        match held_inside(rules, contents, (n - 1) as nat, depth) {
            Err(e) => Err(e),
            Ok(before) => match held(rules, contents[n - 1].0, depth) {
                Err(e) => Err(e),
                Ok(inside) => if before + contents[n - 1].1 * (1 + inside) <= u64::MAX {
                    Ok((before + contents[n - 1].1 * (1 + inside)) as u64)
                } else {
                    Err(BagError::Overflow)
                },
            },
        }
    }
}

/// The rules after a rule for `colour` was made, unless there was one.
pub open spec fn with_colour(
    rules: Seq<(Seq<char>, Seq<(Seq<char>, u64)>)>,
    colour: Seq<char>,
) -> Seq<(Seq<char>, Seq<(Seq<char>, u64)>)> {
    if place_of(rules, colour, rules.len() as int) is Some {
        rules
    } else {
        rules.push((colour, Seq::empty()))
    }
}

/// The rules after it was noted that a bag of the colour `parent` must hold
/// `quantity` bags of the colour `child`: both colours have rules, and the
/// rule of the parent has the number noted.
pub open spec fn with_rule(
    rules: Seq<(Seq<char>, Seq<(Seq<char>, u64)>)>,
    parent: Seq<char>,
    child: Seq<char>,
    quantity: u64,
) -> Seq<(Seq<char>, Seq<(Seq<char>, u64)>)> {
    let first = with_colour(rules, parent);
    let at = place_of(first, parent, first.len() as int)->0;
    let second = first.update(at, (first[at].0, noted(first[at].1, child, quantity)));
    with_colour(second, child)
}

/// Whether the text `a` is the colour `b`.
fn same_colour(a: &String, b: &str) -> (r: bool)
    ensures
        r == (a@ == b@),
{
    let chars = chars_of(a.as_str());
    chars_equal(&chars, b)
}

impl Bag {
    /// A bag of which nothing is known yet.
    pub fn new(_col: &str) -> (r: Bag)
        ensures
            r.required_children@.len() == 0,
            r.allowed_parents@.len() == 0,
    {
        Bag { required_children: Vec::new(), allowed_parents: Vec::new() }
    }

    /// Notes that the bag must hold `quantity` bags of the colour `colour`.
    /// A number that was noted for the colour before is given up.
    pub fn add_required_child(&mut self, colour: &str, quantity: &u64)
        ensures
            final(self).allowed_parents == old(self).allowed_parents,
            contents_view(final(self).required_children@) == noted(
                contents_view(old(self).required_children@),
                colour@,
                *quantity,
            ),
    {
        let ghost before = contents_view(self.required_children@);
        let mut i: usize = 0;
        while i < self.required_children.len()
            invariant
                0 <= i <= self.required_children@.len(),
                *self == *old(self),
                before == contents_view(self.required_children@),
                child_place(before, colour@, i as int) is None,
            decreases self.required_children@.len() - i,
        {
            if same_colour(&self.required_children[i].0, colour) {
                proof {
                    assert(before[i as int].0 == colour@);
                    lemma_child_place_sticks(before, colour@, i + 1, before.len() as int);
                }
                self.required_children.set(i, (colour.to_owned(), *quantity));
                assert(contents_view(self.required_children@) =~= before.update(
                    i as int,
                    (colour@, *quantity),
                ));
                return;
            }
            i += 1;
        }
        self.required_children.push((colour.to_owned(), *quantity));
        assert(contents_view(self.required_children@) =~= before.push((colour@, *quantity)));
    }

    /// Notes that a bag of the colour `colour` may hold this bag.
    pub fn add_allowed_parent(&mut self, colour: &str)
        ensures
            final(self).required_children == old(self).required_children,
            exists|i: int|
                0 <= i < final(self).allowed_parents@.len() && (
                #[trigger] final(self).allowed_parents@[i])@ == colour@,
            final(self).allowed_parents@.len() == old(self).allowed_parents@.len()
                || final(self).allowed_parents@ == old(self).allowed_parents@.push(
                final(self).allowed_parents@.last(),
            ),
    {
        let mut i: usize = 0;
        while i < self.allowed_parents.len()
            invariant
                0 <= i <= self.allowed_parents@.len(),
                *self == *old(self),
                forall|k: int| 0 <= k < i ==> (#[trigger] self.allowed_parents@[k])@ != colour@,
            decreases self.allowed_parents@.len() - i,
        {
            if same_colour(&self.allowed_parents[i], colour) {
                assert(self.allowed_parents@[i as int]@ == colour@);
                return;
            }
            i += 1;
        }
        self.allowed_parents.push(colour.to_owned());
        assert(self.allowed_parents@[self.allowed_parents@.len() - 1]@ == colour@);
    }
}

impl BagDefs {
    /// The rules.
    pub open spec fn view(&self) -> Seq<(Seq<char>, Seq<(Seq<char>, u64)>)> {
        rules_view(self.definitions@)
    }

    /// No rules.
    pub fn new() -> (r: BagDefs)
        ensures
            r@.len() == 0,
    {
        BagDefs { definitions: Vec::new() }
    }

    /// The place at which the rule for `colour` stands, if there is one.
    pub fn find(&self, colour: &str) -> (r: Option<usize>)
        ensures
            r is Some <==> place_of(self@, colour@, self@.len() as int) is Some,
            r matches Some(at) ==> place_of(self@, colour@, self@.len() as int) == Some(at as int)
                && at < self@.len() && self@[at as int].0 == colour@,
    {
        let mut i: usize = 0;
        while i < self.definitions.len()
            invariant
                0 <= i <= self@.len(),
                place_of(self@, colour@, i as int) is None,
            decreases self@.len() - i,
        {
            if same_colour(&self.definitions[i].0, colour) {
                proof {
                    assert(self@[i as int].0 == colour@);
                    lemma_place_sticks(self@, colour@, i + 1, self@.len() as int);
                }
                return Some(i);
            }
            i += 1;
        }
        None
    }

    /// Makes a rule without contents for `colour`, unless there is a rule.
    pub fn maybe_add_bag(&mut self, colour: &str)
        ensures
            place_of(old(self)@, colour@, old(self)@.len() as int) is Some ==> *final(self) == *old(self),
            place_of(old(self)@, colour@, old(self)@.len() as int) is None ==> final(self)@ == old(
                self,
            )@.push((colour@, Seq::empty())),
    {
        if self.find(colour).is_none() {
            let ghost before = self@;
            self.definitions.push((colour.to_owned(), Bag::new(colour)));
            proof {
                assert(contents_view(self.definitions@.last().1.required_children@) =~= Seq::<
                    (Seq<char>, u64),
                >::empty());
                assert(self@ =~= before.push((colour@, Seq::empty())));
            }
        }
    }

    /// The place of the rule for `colour`, which is made if it is not there.
    pub fn get_or_add_bag(&mut self, colour: &str) -> (r: usize)
        ensures
            r < final(self)@.len(),
            final(self)@[r as int].0 == colour@,
            place_of(final(self)@, colour@, final(self)@.len() as int) == Some(r as int),
            place_of(old(self)@, colour@, old(self)@.len() as int) is Some ==> *final(self) == *old(self),
            place_of(old(self)@, colour@, old(self)@.len() as int) is None ==> final(self)@ == old(
                self,
            )@.push((colour@, Seq::empty())),
    {
        self.maybe_add_bag(colour);
        match self.find(colour) {
            Some(at) => at,
            None => {
                proof {
                    let n = self@.len() as int;
                    if place_of(old(self)@, colour@, old(self)@.len() as int) is None {
                        assert(self@[n - 1].0 == colour@);
                        assert(place_of(self@, colour@, n) is Some);
                    }
                }
                0
            },
        }
    }

    /// Notes that a bag of the colour `parent_colour` must hold `quantity`
    /// bags of the colour `child_colour`, and that the latter may be held by
    /// the former.
    pub fn add_bag(&mut self, parent_colour: &str, child_colour: &str, quantity: &u64)
        ensures
            final(self)@ == with_rule(old(self)@, parent_colour@, child_colour@, *quantity),
    {
        let at = self.get_or_add_bag(parent_colour);
        let ghost before = self@;
        let mut taken = self.definitions.remove(at);
        assert(taken.0@ == before[at as int].0);
        assert(contents_view(taken.1.required_children@) == before[at as int].1);
        taken.1.add_required_child(child_colour, quantity);
        self.definitions.insert(at, taken);
        proof {
            assert(self@ =~= before.update(
                at as int,
                (before[at as int].0, noted(before[at as int].1, child_colour@, *quantity)),
            ));
        }
        let child_at = self.get_or_add_bag(child_colour);
        let ghost middle = self@;
        let mut child = self.definitions.remove(child_at);
        child.1.add_allowed_parent(parent_colour);
        self.definitions.insert(child_at, child);
        proof {
            assert(self@ =~= middle);
        }
    }

    /// Whether a bag of the colour `parent_colour` holds a bag of the colour
    /// `wanted`, directly or inside the bags it holds.
    pub fn can_contain(&self, parent_colour: &str, wanted: &str, depth: usize) -> (r: Result<
        bool,
        BagError,
    >)
        ensures
            r == holds(self@, parent_colour@, wanted@, depth as nat),
        decreases depth, 1nat, 0nat,
    {
        let at = match self.find(parent_colour) {
            None => {
                return Err(BagError::UnknownColour);
            },
            Some(at) => at,
        };
        let children = &self.definitions[at].1.required_children;
        assert(self@[at as int].1 == contents_view(children@));
        let mut k: usize = 0;
        while k < children.len()
            invariant
                0 <= k <= children@.len(),
                place_of(self@, parent_colour@, self@.len() as int) == Some(at as int),
                self@[at as int].1 == contents_view(children@),
                !holds_directly(contents_view(children@), wanted@, k as int),
            decreases children@.len() - k,
        {
            if same_colour(&children[k].0, wanted) {
                assert(contents_view(children@)[k as int].0 == wanted@);
                proof {
                    lemma_child_place_sticks(
                        contents_view(children@),
                        wanted@,
                        k + 1,
                        children@.len() as int,
                    );
                }
                return Ok(true);
            }
            k += 1;
        }
        if depth == 0 {
            if children.len() == 0 {
                return Ok(false);
            }
            return Err(BagError::TooDeep);
        }
        let mut k: usize = 0;
        while k < children.len()
            invariant
                0 <= k <= children@.len(),
                depth > 0,
                place_of(self@, parent_colour@, self@.len() as int) == Some(at as int),
                self@[at as int].1 == contents_view(children@),
                !holds_directly(contents_view(children@), wanted@, children@.len() as int),
                holds_inside(
                    self@,
                    contents_view(children@),
                    k as nat,
                    wanted@,
                    (depth - 1) as nat,
                ) == Ok::<bool, BagError>(false),
            decreases children@.len() - k,
        {
            assert(contents_view(children@)[k as int].0 == children@[k as int].0@);
            match self.can_contain(children[k].0.as_str(), wanted, depth - 1) {
                Ok(true) => {
                    proof {
                        lemma_inside_sticks(
                            self@,
                            contents_view(children@),
                            (k + 1) as nat,
                            children@.len(),
                            wanted@,
                            (depth - 1) as nat,
                        );
                    }
                    return Ok(true);
                },
                Ok(false) => {},
                Err(e) => {
                    proof {
                        lemma_inside_sticks(
                            self@,
                            contents_view(children@),
                            (k + 1) as nat,
                            children@.len(),
                            wanted@,
                            (depth - 1) as nat,
                        );
                    }
                    return Err(e);
                },
            }
            k += 1;
        }
        Ok(false)
    }

    /// The number of bags that a bag of the colour `parent_colour` holds in
    /// all.
    pub fn count_children(&self, parent_colour: &str, depth: usize) -> (r: Result<u64, BagError>)
        ensures
            r == held(self@, parent_colour@, depth as nat),
        decreases depth, 1nat, 0nat,
    {
        let at = match self.find(parent_colour) {
            None => {
                return Err(BagError::UnknownColour);
            },
            Some(at) => at,
        };
        let children = &self.definitions[at].1.required_children;
        assert(self@[at as int].1 == contents_view(children@));
        if children.len() == 0 {
            return Ok(0);
        }
        if depth == 0 {
            return Err(BagError::TooDeep);
        }
        let mut total: u64 = 0;
        let mut k: usize = 0;
        while k < children.len()
            invariant
                0 <= k <= children@.len(),
                depth > 0,
                children@.len() > 0,
                place_of(self@, parent_colour@, self@.len() as int) == Some(at as int),
                self@[at as int].1 == contents_view(children@),
                held_inside(self@, contents_view(children@), k as nat, (depth - 1) as nat) == Ok::<
                    u64,
                    BagError,
                >(total),
            decreases children@.len() - k,
        {
            assert(contents_view(children@)[k as int] == (children@[k as int].0@, children@[k as int].1));
            let inside = match self.count_children(children[k].0.as_str(), depth - 1) {
                Ok(inside) => inside,
                Err(e) => {
                    proof {
                        lemma_held_sticks(
                            self@,
                            contents_view(children@),
                            (k + 1) as nat,
                            children@.len(),
                            (depth - 1) as nat,
                        );
                    }
                    return Err(e);
                },
            };
            let quantity = children[k].1;
            assert(quantity * (1 + inside) <= 0xffff_ffff_ffff_ffff * 0x1_0000_0000_0000_0000)
                by (nonlinear_arith)
                requires
                    0 <= quantity <= 0xffff_ffff_ffff_ffff,
                    0 <= inside <= 0xffff_ffff_ffff_ffff,
            ;
            let sum: u128 = total as u128 + (quantity as u128) * (1 + inside as u128);
            if sum > u64::MAX as u128 {
                proof {
                    lemma_held_sticks(
                        self@,
                        contents_view(children@),
                        (k + 1) as nat,
                        children@.len(),
                        (depth - 1) as nat,
                    );
                }
                return Err(BagError::Overflow);
            }
            total = sum as u64;
            k += 1;
        }
        Ok(total)
    }

    /// The colours of the first `n` rules whose bags hold a bag of the colour
    /// `wanted`, or the first failure.
    pub open spec fn parents_among(
        rules: Seq<(Seq<char>, Seq<(Seq<char>, u64)>)>,
        wanted: Seq<char>,
        n: nat,
        depth: nat,
    ) -> Result<Seq<Seq<char>>, BagError>
        decreases n,
    {
        if n == 0 {
            Ok(Seq::empty())
        } else {
            match BagDefs::parents_among(rules, wanted, (n - 1) as nat, depth) {
                Err(e) => Err(e),
                Ok(found) => match holds(rules, rules[n - 1].0, wanted, depth) {
                    Err(e) => Err(e),
                    Ok(true) => Ok(found.push(rules[n - 1].0)),
                    Ok(false) => Ok(found),
                },
            }
        }
    }

    /// The colours of the bags that hold a bag of the colour `colour_wanted`,
    /// directly or inside the bags they hold, in the order of the rules.
    pub fn possible_parents(&self, colour_wanted: &str, depth: usize) -> (r: Result<
        Vec<String>,
        BagError,
    >)
        ensures
            r is Ok <==> BagDefs::parents_among(self@, colour_wanted@, self@.len(), depth as nat) is Ok,
            r matches Ok(found) ==> BagDefs::parents_among(
                self@,
                colour_wanted@,
                self@.len(),
                depth as nat,
            ) == Ok::<Seq<Seq<char>>, BagError>(Seq::new(found@.len(), |i: int| found@[i]@)),
            r matches Err(e) ==> BagDefs::parents_among(
                self@,
                colour_wanted@,
                self@.len(),
                depth as nat,
            ) == Err::<Seq<Seq<char>>, BagError>(e),
    {
        let mut result: Vec<String> = Vec::new();
        let mut i: usize = 0;
        assert(Seq::new(result@.len(), |k: int| result@[k]@) =~= Seq::<Seq<char>>::empty());
        while i < self.definitions.len()
            invariant
                0 <= i <= self@.len(),
                BagDefs::parents_among(self@, colour_wanted@, i as nat, depth as nat) == Ok::<
                    Seq<Seq<char>>,
                    BagError,
                >(Seq::new(result@.len(), |k: int| result@[k]@)),
            decreases self@.len() - i,
        {
            let colour = &self.definitions[i].0;
            assert(self@[i as int].0 == colour@);
            match self.can_contain(colour.as_str(), colour_wanted, depth) {
                Ok(true) => {
                    let ghost before = Seq::new(result@.len(), |k: int| result@[k]@);
                    result.push(colour.clone());
                    assert(Seq::new(result@.len(), |k: int| result@[k]@) =~= before.push(colour@));
                },
                Ok(false) => {},
                Err(e) => {
                    proof {
                        BagDefs::lemma_parents_stick(
                            self@,
                            colour_wanted@,
                            (i + 1) as nat,
                            self@.len(),
                            depth as nat,
                        );
                    }
                    return Err(e);
                },
            }
            i += 1;
        }
        Ok(result)
    }

    /// Once a question about one rule has no answer, the rules after it
    /// change nothing.
    pub proof fn lemma_parents_stick(
        rules: Seq<(Seq<char>, Seq<(Seq<char>, u64)>)>,
        wanted: Seq<char>,
        n: nat,
        m: nat,
        depth: nat,
    )
        requires
            n <= m,
            BagDefs::parents_among(rules, wanted, n, depth) is Err,
        ensures
            BagDefs::parents_among(rules, wanted, m, depth) == BagDefs::parents_among(
                rules,
                wanted,
                n,
                depth,
            ),
        decreases m - n,
    {
        if n < m {
            BagDefs::lemma_parents_stick(rules, wanted, n, (m - 1) as nat, depth);
        }
    }
}

/// The first place of a colour stays the first when more rules follow.
pub proof fn lemma_place_sticks(
    rules: Seq<(Seq<char>, Seq<(Seq<char>, u64)>)>,
    colour: Seq<char>,
    n: int,
    m: int,
)
    requires
        0 <= n <= m,
        place_of(rules, colour, n) is Some,
    ensures
        place_of(rules, colour, m) == place_of(rules, colour, n),
    decreases m - n,
{
    if n < m {
        lemma_place_sticks(rules, colour, n, m - 1);
    }
}

/// Once the search inside the contents has ended, the contents after that
/// change nothing.
pub proof fn lemma_inside_sticks(
    rules: Seq<(Seq<char>, Seq<(Seq<char>, u64)>)>,
    contents: Seq<(Seq<char>, u64)>,
    n: nat,
    m: nat,
    wanted: Seq<char>,
    depth: nat,
)
    requires
        n <= m,
        holds_inside(rules, contents, n, wanted, depth) != Ok::<bool, BagError>(false),
    ensures
        holds_inside(rules, contents, m, wanted, depth) == holds_inside(
            rules,
            contents,
            n,
            wanted,
            depth,
        ),
    decreases m - n,
{
    if n < m {
        lemma_inside_sticks(rules, contents, n, (m - 1) as nat, wanted, depth);
    }
}

/// Once the count has failed, the contents after that change nothing.
pub proof fn lemma_held_sticks(
    rules: Seq<(Seq<char>, Seq<(Seq<char>, u64)>)>,
    contents: Seq<(Seq<char>, u64)>,
    n: nat,
    m: nat,
    depth: nat,
)
    requires
        n <= m,
        held_inside(rules, contents, n, depth) is Err,
    ensures
        held_inside(rules, contents, m, depth) == held_inside(rules, contents, n, depth),
    decreases m - n,
{
    if n < m {
        lemma_held_sticks(rules, contents, n, (m - 1) as nat, depth);
    }
}

/// Why a line is no rule.
#[derive(Debug, Clone, Copy, PartialEq, Eq, Structural)]
pub enum LineError {
    /// The line does not say what a bag contains.
    Malformed,
    /// The piece of the contents with this number, counted from 0, names no
    /// number of bags of a colour.
    BadItem(usize),
}

/// The text without the full stops at its end.
pub open spec fn without_stops(s: Seq<char>) -> Seq<char>
    decreases s.len(),
{
    if s.len() > 0 && s.last() == '.' {
        without_stops(s.drop_last())
    } else {
        s
    }
}

/// The colour and the number that the groups of a match of the pattern for
/// the pieces of contents give: the number is the first group and the colour
/// the second.
pub open spec fn item_of(groups: Option<Seq<Option<Seq<char>>>>) -> Option<(Seq<char>, u64)> {
    match groups {
        Some(found) => if found.len() >= 3 && found[1] is Some && found[2] is Some
            && unsigned_value(found[1]->0, u64::MAX as nat) is Some {
            Some((found[2]->0, unsigned_value(found[1]->0, u64::MAX as nat)->0 as u64))
        } else {
            None
        },
        None => None,
    }
}

/// The contents that the first `n` pieces give, or the first piece that
/// gives none.
pub open spec fn contents_of(item_pattern: Regex, pieces: Seq<Seq<char>>, n: int) -> Result<
    Seq<(Seq<char>, u64)>,
    LineError,
>
    decreases n,
{
    if n <= 0 {
        Ok(Seq::empty())
    } else {
        match contents_of(item_pattern, pieces, n - 1) {
            Err(e) => Err(e),
            Ok(before) => match item_of(regex_captures(item_pattern, pieces[n - 1])) {
                Some((colour, quantity)) => Ok(noted(before, colour, quantity)),
                None => Err(LineError::BadItem((n - 1) as usize)),
            },
        }
    }
}

/// Once a piece gives no contents, the pieces after it change nothing.
pub proof fn lemma_contents_stick(item_pattern: Regex, pieces: Seq<Seq<char>>, n: int, m: int)
    requires
        0 <= n <= m,
        contents_of(item_pattern, pieces, n) is Err,
    ensures
        contents_of(item_pattern, pieces, m) == contents_of(item_pattern, pieces, n),
    decreases m - n,
{
    if n < m {
        lemma_contents_stick(item_pattern, pieces, n, m - 1);
    }
}

/// The rule that a line gives, as three patterns read it: the pattern for
/// the line has a group for the colour and a group for the contents; the
/// pattern for no contents tells whether there are any; and the pattern for
/// a piece of the contents, which are cut at the commas, has a group for the
/// number and a group for the colour.
pub open spec fn rule_of(
    line_pattern: Regex,
    empty_pattern: Regex,
    item_pattern: Regex,
    text: Seq<char>,
) -> Result<(Seq<char>, Seq<(Seq<char>, u64)>), LineError> {
    match regex_captures(line_pattern, without_stops(text)) {
        None => Err(LineError::Malformed),
        Some(found) => if !(found.len() >= 3 && found[1] is Some && found[2] is Some) {
            Err(LineError::Malformed)
        } else if regex_matches(empty_pattern, found[2]->0) {
            Ok((found[1]->0, Seq::empty()))
        } else {
            match contents_of(
                item_pattern,
                split_seq(found[2]->0, ','),
                split_seq(found[2]->0, ',').len() as int,
            ) {
                Ok(contents) => Ok((found[1]->0, contents)),
                Err(e) => Err(e),
            }
        },
    }
}

/// The characters without the full stops at their end.
pub fn trim_stops(chars: &Vec<char>) -> (r: Vec<char>)
    ensures
        r@ == without_stops(chars@),
{
    let mut n: usize = chars.len();
    assert(chars@.take(n as int) =~= chars@);
    while n > 0 && chars[n - 1] == '.'
        invariant
            0 <= n <= chars.len(),
            without_stops(chars@) == without_stops(chars@.take(n as int)),
        decreases n,
    {
        assert(chars@.take(n as int).drop_last() =~= chars@.take(n - 1));
        n -= 1;
    }
    let mut out: Vec<char> = Vec::new();
    let mut i: usize = 0;
    while i < n
        invariant
            0 <= i <= n <= chars.len(),
            out@ == chars@.take(i as int),
        decreases n - i,
    {
        out.push(chars[i]);
        assert(out@ =~= chars@.take(i + 1));
        i += 1;
    }
    proof {
        let kept = chars@.take(n as int);
        if n > 0 {
            assert(kept.last() == chars@[n - 1]);
        }
    }
    out
}

/// The colour and the number that the groups of a match give.
pub fn item_from(groups: &Option<Vec<Option<String>>>) -> (r: Option<(String, u64)>)
    ensures
        r is Some <==> item_of(groups_view(*groups)) is Some,
        r matches Some(found) ==> item_of(groups_view(*groups)) == Some((found.0@, found.1)),
{
    match groups {
        Some(found) => {
            if found.len() < 3 {
                return None;
            }
            match (&found[1], &found[2]) {
                (Some(number), Some(colour)) => {
                    let digits = chars_of(number.as_str());
                    match parse_unsigned(&digits, 0xffff_ffff_ffff_ffff) {
                        Some(quantity) => Some((colour.clone(), quantity)),
                        None => None,
                    }
                },
                _ => None,
            }
        },
        None => None,
    }
}

/// Reads a rule such as `light red bags contain 1 bright white bag, 2 muted
/// yellow bags.` with the three patterns for the line, for no contents, and
/// for a piece of the contents.
pub fn parse_line(line_re: &Regex, empty_re: &Regex, item_re: &Regex, orig_line: &str) -> (r: Result<
    (String, Vec<(String, u64)>),
    LineError,
>)
    ensures
        r is Ok <==> rule_of(
            *line_re,
            *empty_re,
            *item_re,
            orig_line@,
        ) is Ok,
        r matches Ok(found) ==> rule_of(
            *line_re,
            *empty_re,
            *item_re,
            orig_line@,
        ) == Ok::<(Seq<char>, Seq<(Seq<char>, u64)>), LineError>(
            (found.0@, contents_view(found.1@)),
        ),
        r matches Err(e) ==> rule_of(
            *line_re,
            *empty_re,
            *item_re,
            orig_line@,
        ) == Err::<(Seq<char>, Seq<(Seq<char>, u64)>), LineError>(e),
{
    let line = string_of(&trim_stops(&chars_of(orig_line)));
    let groups = captures(line_re, line.as_str());
    let found = match &groups {
        None => {
            return Err(LineError::Malformed);
        },
        Some(found) => found,
    };
    if found.len() < 3 {
        return Err(LineError::Malformed);
    }
    let (parent_colour, contents_str) = match (&found[1], &found[2]) {
        (Some(colour), Some(contents)) => (colour, contents),
        _ => {
            return Err(LineError::Malformed);
        },
    };
    let mut bag = Bag::new(parent_colour.as_str());
    assert(contents_view(bag.required_children@) =~= Seq::<(Seq<char>, u64)>::empty());
    if is_match(empty_re, contents_str.as_str()) {
        return Ok((parent_colour.clone(), bag.required_children));
    }
    let pieces = split_on(&chars_of(contents_str.as_str()), ',');
    let ghost all = split_seq(contents_str@, ',');
    let mut k: usize = 0;
    while k < pieces.len()
        invariant
            0 <= k <= pieces@.len(),
            parts_view(pieces@) == all,
            all == split_seq(contents_str@, ','),
            groups_view(groups) == regex_captures(*line_re, without_stops(orig_line@)),
            groups == Some(*found),
            found@.len() >= 3,
            found@[1] == Some(*parent_colour),
            found@[2] == Some(*contents_str),
            !regex_matches(*empty_re, contents_str@),
            contents_of(*item_re, all, k as int) == Ok::<
                Seq<(Seq<char>, u64)>,
                LineError,
            >(contents_view(bag.required_children@)),
        decreases pieces@.len() - k,
    {
        let piece = string_of(&pieces[k]);
        assert(all[k as int] == piece@);
        let item = captures(item_re, piece.as_str());
        match item_from(&item) {
            Some((colour, quantity)) => {
                bag.add_required_child(colour.as_str(), &quantity);
            },
            None => {
                proof {
                    lemma_contents_stick(*item_re, all, k + 1, all.len() as int);
                }
                return Err(LineError::BadItem(k));
            },
        }
        k += 1;
    }
    Ok((parent_colour.clone(), bag.required_children))
}

/// The pattern for a line: the colour of a bag and what it holds.
pub fn line_pattern() -> (r: Result<Regex, regex::Error>)
    ensures
        r matches Ok(re) ==> regex_source(re) == r"^(.*) bags contain (.*)$"@,
{
    compile(r"^(.*) bags contain (.*)$")
}

/// The pattern for the words that say that a bag holds no bags.
pub fn empty_pattern() -> (r: Result<Regex, regex::Error>)
    ensures
        r matches Ok(re) ==> regex_source(re) == r"no other bags$"@,
{
    compile(r"no other bags$")
}

/// The pattern for one item of what a bag holds: a number and a colour.
pub fn item_pattern() -> (r: Result<Regex, regex::Error>)
    ensures
        r matches Ok(re) ==> regex_source(re) == r" ?(\d*) (.*) bags?"@,
{
    compile(r" ?(\d*) (.*) bags?")
}


} // verus!
