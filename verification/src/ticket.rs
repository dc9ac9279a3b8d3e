//! Tickets: rows of numbers, and the fields that say which numbers are
//! valid.
use crate::pattern::{captures, compile, groups_view, regex_captures, regex_source};
use crate::text::{
    chars_equal, chars_of, parse_signed, parts_view, signed_value, split_on, split_seq,
};
use regex::Regex;
use vstd::prelude::*;

verus! {

/// The numbers from `low` to `high`, both included.
#[derive(Debug, Clone, Copy, PartialEq, Eq, Structural)]
pub struct ValueRange {
    pub low: i32,
    pub high: i32,
}

/// A field of a ticket: its name and the two ranges in which its values
/// lie.
pub struct Field {
    pub name: String,
    pub first: ValueRange,
    pub second: ValueRange,
}

/// A ticket: one value for each field.
#[derive(Debug, PartialEq, Eq)]
pub struct Ticket {
    pub values: Vec<i32>,
}

/// The fields, my ticket and the tickets nearby.
pub struct Input {
    pub fields: Vec<Field>,
    pub my_ticket: Ticket,
    pub nearby: Vec<Ticket>,
}

impl ValueRange {
    /// Whether `v` lies in the range.
    pub open spec fn holds(self, v: i32) -> bool {
        self.low <= v <= self.high
    }
}

impl Field {
    /// Whether `v` lies in one of the two ranges.
    pub open spec fn admits(&self, v: i32) -> bool {
        self.first.holds(v) || self.second.holds(v)
    }

    /// Whether `v` is valid for this field.
    pub fn is_valid_value(&self, v: &i32) -> (r: bool)
        ensures
            r == self.admits(*v),
    {
        (self.first.low <= *v && *v <= self.first.high) || (self.second.low <= *v && *v
            <= self.second.high)
    }
}

impl Input {
    /// Whether `v` is valid for some field.
    pub fn is_valid_value(&self, v: &i32) -> (r: bool)
        ensures
            r == exists|i: int| 0 <= i < self.fields@.len() && (#[trigger] self.fields@[i]).admits(*v),
    {
        let mut i: usize = 0;
        while i < self.fields.len()
            invariant
                0 <= i <= self.fields@.len(),
                forall|k: int| 0 <= k < i ==> !(#[trigger] self.fields@[k]).admits(*v),
            decreases self.fields@.len() - i,
        {
            if self.fields[i].is_valid_value(v) {
                return true;
            }
            i += 1;
        }
        false
    }
}

/// The value that a part of a ticket denotes, if it is a number that fits
/// in 32 bits with a sign.
pub open spec fn ticket_value(part: Seq<char>) -> Option<i32> {
    match signed_value(part) {
        Some(v) => if i32::MIN <= v <= i32::MAX {
            Some(v as i32)
        } else {
            None
        },
        None => None,
    }
}

/// Reads a ticket: numbers set apart by commas.  Fails with the number of
/// the first part, counted from 0, that is no number.
pub fn read_ticket(s: &str) -> (r: Result<Ticket, usize>)
    ensures
        r matches Ok(t) ==> t.values@.len() == split_seq(s@, ',').len() && forall|i: int|
            0 <= i < t.values@.len() ==> ticket_value(#[trigger] split_seq(s@, ',')[i]) == Some(
                t.values@[i],
            ),
        r matches Err(k) ==> k < split_seq(s@, ',').len() && ticket_value(split_seq(s@, ',')[k as int])
            is None && forall|i: int| 0 <= i < k ==> ticket_value(#[trigger] split_seq(s@, ',')[i]) is Some,
{
    let chars = chars_of(s);
    let parts = split_on(&chars, ',');
    let ghost all = split_seq(s@, ',');
    let mut vs: Vec<i32> = Vec::new();
    let mut i: usize = 0;
    while i < parts.len()
        invariant
            0 <= i <= parts@.len(),
            parts_view(parts@) == all,
            all == split_seq(s@, ','),
            vs@.len() == i,
            forall|k: int| 0 <= k < i ==> ticket_value(#[trigger] all[k]) == Some(vs@[k]),
        decreases parts@.len() - i,
    {
        assert(all[i as int] == parts@[i as int]@);
        match parse_signed(&parts[i]) {
            Some(v) => {
                if v < -0x8000_0000 || v > 0x7fff_ffff {
                    return Err(i);
                }
                vs.push(v as i32);
            },
            None => {
                return Err(i);
            },
        }
        i += 1;
    }
    Ok(Ticket { values: vs })
}

/// Whether a value is valid for one of the fields.
pub open spec fn admitted(fields: Seq<Field>, v: i32) -> bool {
    exists|i: int| 0 <= i < fields.len() && (#[trigger] fields[i]).admits(v)
}

/// The sum of the values among the first `n` of a ticket that are valid for
/// no field.
pub open spec fn invalid_sum(fields: Seq<Field>, values: Seq<i32>, n: int) -> int
    decreases n,
{
    if n <= 0 {
        0
    } else {
        invalid_sum(fields, values, n - 1) + if admitted(fields, values[n - 1]) {
            0
        } else {
            values[n - 1] as int
        }
    }
}

/// Whether every value of a ticket is valid for some field.
pub open spec fn ticket_ok(fields: Seq<Field>, values: Seq<i32>) -> bool {
    forall|i: int| 0 <= i < values.len() ==> admitted(fields, #[trigger] values[i])
}

/// The sum of the invalid values of the first `n` tickets.
pub open spec fn scanning_error(fields: Seq<Field>, tickets: Seq<Ticket>, n: int) -> int
    decreases n,
{
    if n <= 0 {
        0
    } else {
        scanning_error(fields, tickets, n - 1) + invalid_sum(
            fields,
            tickets[n - 1].values@,
            tickets[n - 1].values@.len() as int,
        )
    }
}

/// The valid ones among the first `n` tickets, in their order.
pub open spec fn valid_among(fields: Seq<Field>, tickets: Seq<Ticket>, n: int) -> Seq<Seq<i32>>
    decreases n,
{
    if n <= 0 {
        Seq::empty()
    } else if ticket_ok(fields, tickets[n - 1].values@) {
        valid_among(fields, tickets, n - 1).push(tickets[n - 1].values@)
    } else {
        valid_among(fields, tickets, n - 1)
    }
}

/// The values of tickets.
pub open spec fn tickets_view(tickets: Seq<Ticket>) -> Seq<Seq<i32>> {
    Seq::new(tickets.len(), |i: int| tickets[i].values@)
}

/// Whether the sum of the invalid values of the first `t` tickets is at
/// most half of what 128 bits with a sign can hold.
pub open spec fn in_reach(fields: Seq<Field>, tickets: Seq<Ticket>, t: int) -> bool {
    i128::MIN / 2 <= scanning_error(fields, tickets, t) <= i128::MAX / 2
}

/// The tickets nearby of which every value is valid for some field, and the
/// sum of the values that are valid for none.  `None` when the sum before
/// some ticket is beyond half of what 128 bits with a sign can hold.
pub fn part1(input: &Input) -> (r: Option<(Vec<Ticket>, i128)>)
    ensures
        r is Some <==> forall|t: int|
            0 <= t < input.nearby@.len() ==> #[trigger] in_reach(input.fields@, input.nearby@, t),
        r matches Some(found) ==> tickets_view(found.0@) == valid_among(
            input.fields@,
            input.nearby@,
            input.nearby@.len() as int,
        ) && found.1 == scanning_error(input.fields@, input.nearby@, input.nearby@.len() as int),
{
    let mut total: i128 = 0;
    let mut valid_tickets: Vec<Ticket> = Vec::new();
    let mut t: usize = 0;
    proof {
        assert(tickets_view(valid_tickets@) =~= Seq::<Seq<i32>>::empty());
    }
    while t < input.nearby.len()
        invariant
            0 <= t <= input.nearby@.len(),
            tickets_view(valid_tickets@) == valid_among(input.fields@, input.nearby@, t as int),
            total == scanning_error(input.fields@, input.nearby@, t as int),
            forall|k: int| 0 <= k < t ==> #[trigger] in_reach(input.fields@, input.nearby@, k),
        decreases input.nearby@.len() - t,
    {
        let ticket = &input.nearby[t];
        let mut this_ticket_valid = true;
        let mut sum: i128 = 0;
        let mut copy: Vec<i32> = Vec::new();
        let mut i: usize = 0;
        while i < ticket.values.len()
            invariant
                0 <= i <= ticket.values@.len(),
                copy@ == ticket.values@.take(i as int),
                sum == invalid_sum(input.fields@, ticket.values@, i as int),
                -0x8000_0000 * i <= sum <= 0x8000_0000 * i,
                this_ticket_valid <==> forall|k: int|
                    0 <= k < i ==> admitted(input.fields@, #[trigger] ticket.values@[k]),
            decreases ticket.values@.len() - i,
        {
            let v = ticket.values[i];
            if !input.is_valid_value(&v) {
                sum = sum + v as i128;
                this_ticket_valid = false;
            }
            copy.push(v);
            assert(copy@ =~= ticket.values@.take(i + 1));
            i += 1;
        }
        assert(ticket.values@.take(ticket.values@.len() as int) =~= ticket.values@);
        if total > i128::MAX / 2 || total < i128::MIN / 2 {
            assert(!in_reach(input.fields@, input.nearby@, t as int));
            return None;
        }
        total = total + sum;
        if this_ticket_valid {
            let ghost before = tickets_view(valid_tickets@);
            valid_tickets.push(Ticket { values: copy });
            assert(tickets_view(valid_tickets@) =~= before.push(ticket.values@));
        }
        t += 1;
    }
    Some((valid_tickets, total))
}

/// The field that the groups of a match of the pattern for fields give:
/// the name is the first group and the four ends of the two ranges are the
/// next four.
pub open spec fn field_of(groups: Option<Seq<Option<Seq<char>>>>) -> Option<
    (Seq<char>, ValueRange, ValueRange),
> {
    match groups {
        Some(found) => if found.len() >= 6 && found[1] is Some && found[2] is Some
            && found[3] is Some && found[4] is Some && found[5] is Some && ticket_value(
            found[2]->0,
        ) is Some && ticket_value(found[3]->0) is Some && ticket_value(found[4]->0) is Some
            && ticket_value(found[5]->0) is Some {
            Some(
                (
                    found[1]->0,
                    ValueRange {
                        low: ticket_value(found[2]->0)->0,
                        high: ticket_value(found[3]->0)->0,
                    },
                    ValueRange {
                        low: ticket_value(found[4]->0)->0,
                        high: ticket_value(found[5]->0)->0,
                    },
                ),
            )
        } else {
            None
        },
        None => None,
    }
}

/// Reads a number that fits in 32 bits with a sign.
fn read_value(text: &String) -> (r: Option<i32>)
    ensures
        r == ticket_value(text@),
{
    let chars = chars_of(text.as_str());
    match parse_signed(&chars) {
        Some(v) => {
            if v < -0x8000_0000 || v > 0x7fff_ffff {
                None
            } else {
                Some(v as i32)
            }
        },
        None => None,
    }
}

/// The field that the groups of a match give.
pub fn field_from(groups: &Option<Vec<Option<String>>>) -> (r: Option<Field>)
    ensures
        r is Some <==> field_of(groups_view(*groups)) is Some,
        r matches Some(f) ==> field_of(groups_view(*groups)) == Some((f.name@, f.first, f.second)),
{
    match groups {
        Some(found) => {
            if found.len() < 6 {
                return None;
            }
            match (&found[1], &found[2], &found[3], &found[4], &found[5]) {
                (Some(name), Some(a), Some(b), Some(c), Some(d)) => {
                    match (read_value(a), read_value(b), read_value(c), read_value(d)) {
                        (Some(a), Some(b), Some(c), Some(d)) => Some(
                            Field {
                                name: name.clone(),
                                first: ValueRange { low: a, high: b },
                                second: ValueRange { low: c, high: d },
                            },
                        ),
                        _ => None,
                    }
                },
                _ => None,
            }
        },
        None => None,
    }
}

impl Field {
    /// Reads a field such as `class: 1-3 or 5-7` with the pattern for
    /// fields, which is to have a group for the name and four groups for the
    /// ends of the two ranges.
    pub fn new(field_pattern: &Regex, s: &str) -> (r: Option<Field>)
        ensures
            r is Some <==> field_of(regex_captures(*field_pattern, s@)) is Some,
            r matches Some(f) ==> field_of(regex_captures(*field_pattern, s@))
                == Some((f.name@, f.first, f.second)),
    {
        let groups = captures(field_pattern, s);
        field_from(&groups)
    }
}

/// Whether the field `f` may stand at the place `i` of the tickets: the
/// value at that place of every ticket is valid for it.
pub open spec fn may_stand(f: Field, tickets: Seq<Ticket>, i: int) -> bool {
    forall|t: int| 0 <= t < tickets.len() ==> f.admits((#[trigger] tickets[t]).values@[i])
}

/// Whether the place `i` is the place of one of the fields.
pub open spec fn taken(positions: Seq<Option<usize>>, i: int) -> bool {
    exists|f: int| 0 <= f < positions.len() && #[trigger] positions[f] == Some(i as usize)
}

/// Whether `i` is a candidate for the place of the field with the number
/// `f`: neither has the field a place nor is the place taken, and the field
/// may stand there.
pub open spec fn is_candidate(
    fields: Seq<Field>,
    positions: Seq<Option<usize>>,
    tickets: Seq<Ticket>,
    f: int,
    i: int,
) -> bool {
    positions[f] is None && !taken(positions, i) && may_stand(fields[f], tickets, i)
}

/// The candidates among the first `n` places for the place of the field `f`,
/// in rising order.
pub open spec fn candidates_of(
    fields: Seq<Field>,
    positions: Seq<Option<usize>>,
    tickets: Seq<Ticket>,
    f: int,
    n: int,
) -> Seq<usize>
    decreases n,
{
    if n <= 0 {
        Seq::empty()
    } else if is_candidate(fields, positions, tickets, f, n - 1) {
        candidates_of(fields, positions, tickets, f, n - 1).push((n - 1) as usize)
    } else {
        candidates_of(fields, positions, tickets, f, n - 1)
    }
}

/// Whether all tickets have `nf` values.
pub open spec fn all_of_length(tickets: Seq<Ticket>, nf: int) -> bool {
    forall|t: int| 0 <= t < tickets.len() ==> (#[trigger] tickets[t]).values@.len() == nf
}

/// Whether the field `f` may stand at the place `i`.
fn stands(f: &Field, tickets: &Vec<Ticket>, i: usize, nf: usize) -> (r: bool)
    requires
        i < nf,
        all_of_length(tickets@, nf as int),
    ensures
        r == may_stand(*f, tickets@, i as int),
{
    let mut t: usize = 0;
    while t < tickets.len()
        invariant
            0 <= t <= tickets@.len(),
            i < nf,
            all_of_length(tickets@, nf as int),
            forall|k: int| 0 <= k < t ==> f.admits((#[trigger] tickets@[k]).values@[i as int]),
        decreases tickets@.len() - t,
    {
        assert(tickets@[t as int].values@.len() == nf);
        let v = tickets[t].values[i];
        if !f.is_valid_value(&v) {
            return false;
        }
        t += 1;
    }
    true
}

/// Whether the place `i` is taken.
fn is_taken(positions: &Vec<Option<usize>>, i: usize) -> (r: bool)
    ensures
        r == taken(positions@, i as int),
{
    let mut f: usize = 0;
    while f < positions.len()
        invariant
            0 <= f <= positions@.len(),
            forall|k: int| 0 <= k < f ==> #[trigger] positions@[k] != Some(i),
        decreases positions@.len() - f,
    {
        match positions[f] {
            Some(p) => {
                if p == i {
                    assert(positions@[f as int] == Some(i));
                    return true;
                }
            },
            None => {},
        }
        f += 1;
    }
    false
}

/// For each field the places at which it may stand, in rising order.  A
/// field that has a place has no candidates, and a place that is taken is no
/// candidate.
pub fn compute_candidates(
    fields: &Vec<Field>,
    field_position: &Vec<Option<usize>>,
    nf: usize,
    valid_tickets: &Vec<Ticket>,
) -> (r: Vec<Vec<usize>>)
    requires
        field_position@.len() == fields@.len(),
        all_of_length(valid_tickets@, nf as int),
    ensures
        r@.len() == fields@.len(),
        forall|f: int|
            0 <= f < fields@.len() ==> (#[trigger] r@[f])@ == candidates_of(
                fields@,
                field_position@,
                valid_tickets@,
                f,
                nf as int,
            ),
{
    let mut candidates: Vec<Vec<usize>> = Vec::new();
    let mut f: usize = 0;
    while f < fields.len()
        invariant
            0 <= f <= fields@.len(),
            field_position@.len() == fields@.len(),
            all_of_length(valid_tickets@, nf as int),
            candidates@.len() == f,
            forall|k: int|
                0 <= k < f ==> (#[trigger] candidates@[k])@ == candidates_of(
                    fields@,
                    field_position@,
                    valid_tickets@,
                    k,
                    nf as int,
                ),
        decreases fields@.len() - f,
    {
        let mut places: Vec<usize> = Vec::new();
        let mut i: usize = 0;
        while i < nf
            invariant
                0 <= i <= nf,
                0 <= f < fields@.len(),
                field_position@.len() == fields@.len(),
                all_of_length(valid_tickets@, nf as int),
                places@ == candidates_of(
                    fields@,
                    field_position@,
                    valid_tickets@,
                    f as int,
                    i as int,
                ),
            decreases nf - i,
        {
            if field_position[f].is_none() && !is_taken(field_position, i) && stands(
                &fields[f],
                valid_tickets,
                i,
                nf,
            ) {
                places.push(i);
            }
            i += 1;
        }
        candidates.push(places);
        f += 1;
    }
    candidates
}

/// The number of fields among the first `n` that have no place.
pub open spec fn unplaced(positions: Seq<Option<usize>>, n: int) -> nat
    decreases n,
{
    if n <= 0 {
        0
    } else {
        unplaced(positions, n - 1) + if positions[n - 1] is None {
            1nat
        } else {
            0nat
        }
    }
}

/// Whether every field that has a place may stand there.
pub open spec fn places_fit(
    fields: Seq<Field>,
    positions: Seq<Option<usize>>,
    tickets: Seq<Ticket>,
    nf: int,
) -> bool {
    forall|f: int|
        0 <= f < positions.len() ==> (#[trigger] positions[f] matches Some(p) ==> p < nf
            && may_stand(fields[f], tickets, p as int))
}

/// Giving a place to a field that had none leaves one field less without a
/// place.
pub proof fn lemma_unplaced_after(positions: Seq<Option<usize>>, f: int, p: usize, n: int)
    requires
        0 <= f < positions.len(),
        0 <= n <= positions.len(),
        positions[f] is None,
    ensures
        unplaced(positions.update(f, Some(p)), n) == unplaced(positions, n) - (if f < n {
            1int
        } else {
            0int
        }),
    decreases n,
{
    if n > 0 {
        lemma_unplaced_after(positions, f, p, n - 1);
    }
}

/// Every candidate is a place among the first `n` at which the field may
/// stand.
pub proof fn lemma_candidates_fit(
    fields: Seq<Field>,
    positions: Seq<Option<usize>>,
    tickets: Seq<Ticket>,
    f: int,
    n: int,
    k: int,
)
    requires
        0 <= n <= usize::MAX,
        0 <= k < candidates_of(fields, positions, tickets, f, n).len(),
    ensures
        candidates_of(fields, positions, tickets, f, n)[k] < n,
        is_candidate(
            fields,
            positions,
            tickets,
            f,
            candidates_of(fields, positions, tickets, f, n)[k] as int,
        ),
    decreases n,
{
    if n > 0 {
        let before = candidates_of(fields, positions, tickets, f, n - 1);
        if k < before.len() {
            lemma_candidates_fit(fields, positions, tickets, f, n - 1, k);
        } else {
            assert(((n - 1) as usize) as int == n - 1);
        }
    }
}

/// One round: every field that has exactly one candidate gets it as its
/// place.
pub open spec fn round(
    fields: Seq<Field>,
    positions: Seq<Option<usize>>,
    tickets: Seq<Ticket>,
    nf: int,
) -> Seq<Option<usize>> {
    Seq::new(
        positions.len(),
        |f: int|
            {
                let found = candidates_of(fields, positions, tickets, f, nf);
                if found.len() == 1 {
                    Some(found[0])
                } else {
                    positions[f]
                }
            },
    )
}

/// The places after as many rounds as it takes to give every field one, and
/// at most `fuel` of them; `None` where a round changes nothing while a
/// field is without a place.
pub open spec fn settle(
    fields: Seq<Field>,
    positions: Seq<Option<usize>>,
    tickets: Seq<Ticket>,
    nf: int,
    fuel: nat,
) -> Option<Seq<Option<usize>>>
    decreases fuel,
{
    if unplaced(positions, positions.len() as int) == 0 {
        Some(positions)
    } else if fuel == 0 {
        None
    } else {
        let next = round(fields, positions, tickets, nf);
        if next == positions {
            None
        } else {
            settle(fields, next, tickets, nf, (fuel - 1) as nat)
        }
    }
}

/// The places of the fields where none has one yet.
pub open spec fn no_places(n: nat) -> Seq<Option<usize>> {
    Seq::new(n, |f: int| None)
}

/// A field that has a place has no candidates.
pub proof fn lemma_placed_has_none(
    fields: Seq<Field>,
    positions: Seq<Option<usize>>,
    tickets: Seq<Ticket>,
    f: int,
    n: int,
)
    requires
        positions[f] is Some,
    ensures
        candidates_of(fields, positions, tickets, f, n).len() == 0,
    decreases n,
{
    if n > 0 {
        lemma_placed_has_none(fields, positions, tickets, f, n - 1);
    }
}

/// A round leaves no more fields without a place than there were, and fewer
/// where it changes anything.
pub proof fn lemma_round_places(
    fields: Seq<Field>,
    positions: Seq<Option<usize>>,
    tickets: Seq<Ticket>,
    nf: int,
    n: int,
)
    requires
        0 <= n <= positions.len(),
    ensures
        unplaced(round(fields, positions, tickets, nf), n) <= unplaced(positions, n),
        (exists|f: int| 0 <= f < n && round(fields, positions, tickets, nf)[f] != positions[f])
            ==> unplaced(round(fields, positions, tickets, nf), n) < unplaced(positions, n),
    decreases n,
{
    if n > 0 {
        lemma_round_places(fields, positions, tickets, nf, n - 1);
        let next = round(fields, positions, tickets, nf);
        if positions[n - 1] is Some {
            lemma_placed_has_none(fields, positions, tickets, n - 1, nf);
            assert(next[n - 1] == positions[n - 1]);
        }
        if exists|f: int| 0 <= f < n && next[f] != positions[f] {
            let f = choose|f: int| 0 <= f < n && next[f] != positions[f];
            if f < n - 1 {
                assert(exists|f: int| 0 <= f < n - 1 && next[f] != positions[f]);
            } else {
                assert(positions[n - 1] is None);
                assert(next[n - 1] is Some);
            }
        }
    }
}

/// With enough fuel for one round for each field without a place, more
/// changes nothing.
pub proof fn lemma_settle_fuel(
    fields: Seq<Field>,
    positions: Seq<Option<usize>>,
    tickets: Seq<Ticket>,
    nf: int,
    a: nat,
    b: nat,
)
    requires
        a >= unplaced(positions, positions.len() as int),
        b >= unplaced(positions, positions.len() as int),
    ensures
        settle(fields, positions, tickets, nf, a) == settle(fields, positions, tickets, nf, b),
    decreases a,
{
    if unplaced(positions, positions.len() as int) > 0 {
        let next = round(fields, positions, tickets, nf);
        if next != positions {
            if forall|f: int| 0 <= f < positions.len() ==> next[f] == positions[f] {
                assert(next =~= positions);
            }
            lemma_round_places(fields, positions, tickets, nf, positions.len() as int);
            lemma_settle_fuel(fields, next, tickets, nf, (a - 1) as nat, (b - 1) as nat);
        }
    }
}

/// Finds the place of every field: round after round, every field that has
/// exactly one candidate gets it as its place.  `None` when a round gives no
/// field a place while fields are without one.
pub fn assign_fields(fields: &Vec<Field>, nf: usize, valid_tickets: &Vec<Ticket>) -> (r: Option<
    Vec<usize>,
>)
    requires
        all_of_length(valid_tickets@, nf as int),
    ensures
        r is Some <==> settle(
            fields@,
            no_places(fields@.len()),
            valid_tickets@,
            nf as int,
            fields@.len(),
        ) is Some,
        r matches Some(places) ==> places@.len() == fields@.len() && (forall|f: int|
            0 <= f < fields@.len() ==> (#[trigger] settle(
                fields@,
                no_places(fields@.len()),
                valid_tickets@,
                nf as int,
                fields@.len(),
            )->0[f]) == Some(places@[f])) && (forall|f: int|
            0 <= f < fields@.len() ==> (#[trigger] places@[f]) < nf && may_stand(
                fields@[f],
                valid_tickets@,
                places@[f] as int,
            )),
{
    let mut positions: Vec<Option<usize>> = Vec::new();
    let mut f: usize = 0;
    while f < fields.len()
        invariant
            0 <= f <= fields@.len(),
            positions@.len() == f,
            forall|k: int| 0 <= k < f ==> (#[trigger] positions@[k]) is None,
        decreases fields@.len() - f,
    {
        positions.push(None);
        f += 1;
    }
    proof {
        lemma_unplaced_all(positions@, positions@.len() as int);
        assert(positions@ =~= no_places(fields@.len()));
    }
    let ghost goal = settle(
        fields@,
        no_places(fields@.len()),
        valid_tickets@,
        nf as int,
        fields@.len(),
    );
    let mut todo: usize = fields.len();
    while todo > 0
        invariant
            positions@.len() == fields@.len(),
            all_of_length(valid_tickets@, nf as int),
            todo == unplaced(positions@, positions@.len() as int),
            places_fit(fields@, positions@, valid_tickets@, nf as int),
            goal == settle(fields@, positions@, valid_tickets@, nf as int, todo as nat),
            goal == settle(
                fields@,
                no_places(fields@.len()),
                valid_tickets@,
                nf as int,
                fields@.len(),
            ),
        decreases todo,
    {
        let candidates = compute_candidates(fields, &positions, nf, valid_tickets);
        let ghost at_start = positions@;
        let ghost next = round(fields@, at_start, valid_tickets@, nf as int);
        let mut progress = false;
        let before = todo;
        let mut f: usize = 0;
        while f < fields.len()
            invariant
                before == unplaced(at_start, at_start.len() as int),
                goal == settle(fields@, at_start, valid_tickets@, nf as int, before as nat),
                0 <= f <= fields@.len(),
                positions@.len() == fields@.len(),
                candidates@.len() == fields@.len(),
                all_of_length(valid_tickets@, nf as int),
                forall|k: int|
                    0 <= k < fields@.len() ==> (#[trigger] candidates@[k])@ == candidates_of(
                        fields@,
                        at_start,
                        valid_tickets@,
                        k,
                        nf as int,
                    ),
                at_start.len() == fields@.len(),
                next == round(fields@, at_start, valid_tickets@, nf as int),
                forall|k: int| f <= k < fields@.len() ==> #[trigger] positions@[k] == at_start[k],
                forall|k: int| 0 <= k < f ==> #[trigger] positions@[k] == next[k],
                todo == unplaced(positions@, positions@.len() as int),
                todo <= before,
                progress ==> todo < before,
                !progress ==> positions@ == at_start,
                places_fit(fields@, positions@, valid_tickets@, nf as int),
            decreases fields@.len() - f,
        {
            if candidates[f].len() == 1 {
                let only = candidates[f][0];
                proof {
                    lemma_candidates_fit(fields@, at_start, valid_tickets@, f as int, nf as int, 0);
                    lemma_unplaced_after(
                        positions@,
                        f as int,
                        only,
                        positions@.len() as int,
                    );
                }
                let ghost old_positions = positions@;
                positions.set(f, Some(only));
                proof {
                    assert forall|k: int| 0 <= k < positions@.len() implies (
                    #[trigger] positions@[k] matches Some(p) ==> p < nf && may_stand(
                        fields@[k],
                        valid_tickets@,
                        p as int,
                    )) by {
                        if k != f {
                            assert(positions@[k] == old_positions[k]);
                        }
                    }
                }
                todo = todo - 1;
                progress = true;
            }
            f += 1;
        }
        proof {
            assert(positions@ =~= next);
            assert(goal == settle(fields@, at_start, valid_tickets@, nf as int, before as nat));
            assert(unplaced(at_start, at_start.len() as int) == before);
            if !progress {
                assert(next == at_start);
                assert(goal is None);
            } else {
                assert(next != at_start);
                assert(goal == settle(
                    fields@,
                    next,
                    valid_tickets@,
                    nf as int,
                    (before - 1) as nat,
                ));
                lemma_settle_fuel(
                    fields@,
                    next,
                    valid_tickets@,
                    nf as int,
                    (before - 1) as nat,
                    todo as nat,
                );
            }
        }
        if !progress {
            return None;
        }
    }
    let mut places: Vec<usize> = Vec::new();
    let mut f: usize = 0;
    while f < fields.len()
        invariant
            0 <= f <= fields@.len(),
            positions@.len() == fields@.len(),
            unplaced(positions@, positions@.len() as int) == 0,
            goal == Some(positions@),
            goal == settle(
                fields@,
                no_places(fields@.len()),
                valid_tickets@,
                nf as int,
                fields@.len(),
            ),
            places_fit(fields@, positions@, valid_tickets@, nf as int),
            places@.len() == f,
            forall|k: int| 0 <= k < f ==> positions@[k] == Some(#[trigger] places@[k]),
            forall|k: int|
                0 <= k < f ==> (#[trigger] places@[k]) < nf && may_stand(
                    fields@[k],
                    valid_tickets@,
                    places@[k] as int,
                ),
        decreases fields@.len() - f,
    {
        proof {
            if positions@[f as int] is None {
                lemma_unplaced_some(positions@, f as int, positions@.len() as int);
            }
        }
        match positions[f] {
            Some(p) => {
                places.push(p);
            },
            None => {
                return None;
            },
        }
        f += 1;
    }
    Some(places)
}

/// Where no field has a place, all are without one.
pub proof fn lemma_unplaced_all(positions: Seq<Option<usize>>, n: int)
    requires
        0 <= n <= positions.len(),
        forall|k: int| 0 <= k < n ==> (#[trigger] positions[k]) is None,
    ensures
        unplaced(positions, n) == n,
    decreases n,
{
    if n > 0 {
        lemma_unplaced_all(positions, n - 1);
    }
}

/// A field without a place counts.
pub proof fn lemma_unplaced_some(positions: Seq<Option<usize>>, f: int, n: int)
    requires
        0 <= f < n <= positions.len(),
        positions[f] is None,
    ensures
        unplaced(positions, n) >= 1,
    decreases n,
{
    if n - 1 > f {
        lemma_unplaced_some(positions, f, n - 1);
    }
}

/// Whether a name begins with the characters of `prefix`.
pub open spec fn begins_with(name: Seq<char>, prefix: Seq<char>) -> bool {
    name.len() >= prefix.len() && name.subrange(0, prefix.len() as int) == prefix
}

/// Whether a name begins with the characters of `prefix`.
pub fn has_prefix(name: &str, prefix: &str) -> (r: bool)
    ensures
        r == begins_with(name@, prefix@),
{
    let chars = chars_of(name);
    let want = chars_of(prefix);
    if chars.len() < want.len() {
        return false;
    }
    let mut i: usize = 0;
    while i < want.len()
        invariant
            0 <= i <= want@.len() <= chars@.len(),
            chars@ == name@,
            want@ == prefix@,
            forall|k: int| 0 <= k < i ==> chars@[k] == want@[k],
        decreases want@.len() - i,
    {
        if chars[i] != want[i] {
            assert(name@.subrange(0, prefix@.len() as int)[i as int] != prefix@[i as int]);
            return false;
        }
        i += 1;
    }
    assert(name@.subrange(0, prefix@.len() as int) =~= prefix@);
    true
}

/// The product of the values of one ticket at the places of those among the
/// first `n` fields whose names begin with `departure`.
pub open spec fn departure_product(
    fields: Seq<Field>,
    places: Seq<usize>,
    mine: Seq<i32>,
    n: int,
) -> int
    decreases n,
{
    if n <= 0 {
        1
    } else if begins_with(fields[n - 1].name@, "departure"@) {
        departure_product(fields, places, mine, n - 1) * mine[places[n - 1] as int]
    } else {
        departure_product(fields, places, mine, n - 1)
    }
}

/// Whether the product fits in 64 bits with a sign after each of the first
/// `n` fields.
pub open spec fn product_fits(fields: Seq<Field>, places: Seq<usize>, mine: Seq<i32>, n: int) -> bool
    decreases n,
{
    n <= 0 || (product_fits(fields, places, mine, n - 1) && i64::MIN <= departure_product(
        fields,
        places,
        mine,
        n,
    ) <= i64::MAX)
}

/// Why the product of the departure values cannot be given.
#[derive(Debug, PartialEq, Eq, Clone, Copy)]
pub enum AssignError {
    /// A round gave no field a place and some field is without one.
    Stuck,
    /// The product does not fit in 64 bits with a sign.
    TooLarge,
}

/// The places of all fields, where every field has one.
pub open spec fn settled_places(settled: Seq<Option<usize>>) -> Seq<usize> {
    Seq::new(settled.len(), |f: int| settled[f]->0)
}

/// What `part2` gives for the fields, the tickets and one's own ticket.
pub open spec fn departure_answer(fields: Seq<Field>, tickets: Seq<Ticket>, mine: Seq<i32>) -> Result<
    i64,
    AssignError,
> {
    match settle(fields, no_places(fields.len()), tickets, mine.len() as int, fields.len()) {
        None => Err(AssignError::Stuck),
        Some(settled) => {
            let places = settled_places(settled);
            if product_fits(fields, places, mine, fields.len() as int) {
                Ok(departure_product(fields, places, mine, fields.len() as int) as i64)
            } else {
                Err(AssignError::TooLarge)
            }
        },
    }
}

/// Finds the place of every field from the valid tickets and multiplies the
/// values of one's own ticket at the places of the fields whose names begin
/// with `departure`.  All tickets are to be as long as one's own.
pub fn part2(input: &Input, valid_tickets: &Vec<Ticket>) -> (r: Result<i64, AssignError>)
    requires
        all_of_length(valid_tickets@, input.my_ticket.values@.len() as int),
    ensures
        r == departure_answer(input.fields@, valid_tickets@, input.my_ticket.values@),
{
    let nf = input.my_ticket.values.len();
    let places = match assign_fields(&input.fields, nf, valid_tickets) {
        Some(places) => places,
        None => {
            return Err(AssignError::Stuck);
        },
    };
    let ghost settled = settle(
        input.fields@,
        no_places(input.fields@.len()),
        valid_tickets@,
        nf as int,
        input.fields@.len(),
    )->0;
    proof {
        assert(settled.len() == input.fields@.len()) by {
            lemma_settle_length(
                input.fields@,
                no_places(input.fields@.len()),
                valid_tickets@,
                nf as int,
                input.fields@.len(),
            );
        }
        assert(places@ =~= settled_places(settled));
    }
    let mut product: i64 = 1;
    let mut f: usize = 0;
    while f < input.fields.len()
        invariant
            0 <= f <= input.fields@.len(),
            places@.len() == input.fields@.len(),
            nf == input.my_ticket.values@.len(),
            settle(
                input.fields@,
                no_places(input.fields@.len()),
                valid_tickets@,
                nf as int,
                input.fields@.len(),
            ) == Some(settled),
            places@ == settled_places(settled),
            forall|k: int| 0 <= k < places@.len() ==> (#[trigger] places@[k]) < nf,
            product_fits(input.fields@, places@, input.my_ticket.values@, f as int),
            product == departure_product(
                input.fields@,
                places@,
                input.my_ticket.values@,
                f as int,
            ),
        decreases input.fields@.len() - f,
    {
        if has_prefix(input.fields[f].name.as_str(), "departure") {
            assert(places@[f as int] < nf);
            let v: i64 = input.my_ticket.values[places[f]] as i64;
            match product.checked_mul(v) {
                Some(next) => {
                    product = next;
                },
                None => {
                    proof {
                        assert(!product_fits(
                            input.fields@,
                            places@,
                            input.my_ticket.values@,
                            f as int + 1,
                        ));
                        lemma_fits_sticks(
                            input.fields@,
                            places@,
                            input.my_ticket.values@,
                            f as int + 1,
                            input.fields@.len() as int,
                        );
                    }
                    return Err(AssignError::TooLarge);
                },
            }
        }
        f += 1;
    }
    Ok(product)
}

/// Settling keeps the number of fields.
pub proof fn lemma_settle_length(
    fields: Seq<Field>,
    positions: Seq<Option<usize>>,
    tickets: Seq<Ticket>,
    nf: int,
    fuel: nat,
)
    ensures
        settle(fields, positions, tickets, nf, fuel) matches Some(settled) ==> settled.len()
            == positions.len(),
    decreases fuel,
{
    if unplaced(positions, positions.len() as int) != 0 && fuel != 0 {
        let next = round(fields, positions, tickets, nf);
        if next != positions {
            lemma_settle_length(fields, next, tickets, nf, (fuel - 1) as nat);
        }
    }
}

/// A product that does not fit after some field does not fit after a later
/// one.
pub proof fn lemma_fits_sticks(
    fields: Seq<Field>,
    places: Seq<usize>,
    mine: Seq<i32>,
    n: int,
    m: int,
)
    requires
        0 <= n <= m,
        !product_fits(fields, places, mine, n),
    ensures
        !product_fits(fields, places, mine, m),
    decreases m - n,
{
    if n < m {
        lemma_fits_sticks(fields, places, mine, n, m - 1);
    }
}

/// Why the lines of an input cannot be read.
#[derive(Debug, PartialEq, Eq, Clone, Copy)]
pub enum ReadError {
    /// The line with this number, counted from 0, is no field.
    BadField(usize),
    /// The input ends before the empty line that closes the fields.
    MissingTicket,
    /// The input ends where a line is wanted.
    PrematureEnd,
    /// The line with this number is not the line that is wanted there.
    Unexpected(usize),
    /// The line with this number is no ticket.
    BadTicket(usize),
}

/// The characters of each line.
pub open spec fn texts(lines: Seq<String>) -> Seq<Seq<char>> {
    Seq::new(lines.len(), |i: int| lines[i]@)
}

/// The values of the ticket that a line holds, if each of its parts is a
/// number.
pub open spec fn ticket_of(line: Seq<char>) -> Option<Seq<i32>> {
    let parts = split_seq(line, ',');
    if forall|i: int| 0 <= i < parts.len() ==> ticket_value(#[trigger] parts[i]) is Some {
        Some(Seq::new(parts.len(), |i: int| ticket_value(parts[i])->0))
    } else {
        None
    }
}

/// The number of the empty line that closes the fields, looking from the
/// line `i` on, where the lines before it are fields to the pattern.
pub open spec fn fields_end(lines: Seq<Seq<char>>, pattern: Regex, i: int) -> Result<
    int,
    ReadError,
>
    decreases lines.len() - i,
{
    if i < 0 || i >= lines.len() {
        Err(ReadError::MissingTicket)
    } else if lines[i].len() == 0 {
        Ok(i)
    } else if field_of(regex_captures(pattern, lines[i])) is None {
        Err(ReadError::BadField(i as usize))
    } else {
        fields_end(lines, pattern, i + 1)
    }
}

/// The number of the first line from the line `i` on that is no ticket.
pub open spec fn first_bad_ticket(lines: Seq<Seq<char>>, i: int) -> Option<int>
    decreases lines.len() - i,
{
    if i < 0 || i >= lines.len() {
        None
    } else if ticket_of(lines[i]) is None {
        Some(i)
    } else {
        first_bad_ticket(lines, i + 1)
    }
}

/// What is wrong with the lines of an input, if anything: the fields, an
/// empty line, the line `your ticket:`, a ticket, an empty line, the line
/// `nearby tickets:`, and tickets to the end.
pub open spec fn input_fault(lines: Seq<Seq<char>>, pattern: Regex) -> Option<ReadError> {
    match fields_end(lines, pattern, 0) {
        Err(e) => Some(e),
        Ok(b) => if b + 1 >= lines.len() {
            Some(ReadError::PrematureEnd)
        } else if lines[b + 1] != "your ticket:"@ {
            Some(ReadError::Unexpected((b + 1) as usize))
        } else if b + 2 >= lines.len() {
            Some(ReadError::PrematureEnd)
        } else if ticket_of(lines[b + 2]) is None {
            Some(ReadError::BadTicket((b + 2) as usize))
        } else if b + 3 >= lines.len() {
            Some(ReadError::PrematureEnd)
        } else if lines[b + 3].len() != 0 {
            Some(ReadError::Unexpected((b + 3) as usize))
        } else if b + 4 >= lines.len() {
            Some(ReadError::PrematureEnd)
        } else if lines[b + 4] != "nearby tickets:"@ {
            Some(ReadError::Unexpected((b + 4) as usize))
        } else {
            match first_bad_ticket(lines, b + 5) {
                Some(i) => Some(ReadError::BadTicket(i as usize)),
                None => None,
            }
        },
    }
}

/// Whether an input holds what the lines say.
pub open spec fn input_holds(input: Input, lines: Seq<Seq<char>>, pattern: Regex) -> bool {
    let b = fields_end(lines, pattern, 0)->Ok_0;
    &&& input.fields@.len() == b
    &&& forall|i: int|
        0 <= i < b ==> field_of(regex_captures(pattern, lines[i])) == Some(
            ((#[trigger] input.fields@[i]).name@, input.fields@[i].first, input.fields@[i].second),
        )
    &&& Some(input.my_ticket.values@) == ticket_of(lines[b + 2])
    &&& input.nearby@.len() == lines.len() - (b + 5)
    &&& forall|i: int|
        0 <= i < input.nearby@.len() ==> Some((#[trigger] input.nearby@[i]).values@) == ticket_of(
            lines[b + 5 + i],
        )
}

/// Reads the ticket of one line.
fn ticket_from(line: &String) -> (r: Option<Ticket>)
    ensures
        r is Some <==> ticket_of(line@) is Some,
        r matches Some(t) ==> Some(t.values@) == ticket_of(line@),
{
    match read_ticket(line.as_str()) {
        Ok(t) => {
            assert(t.values@ =~= ticket_of(line@)->0);
            Some(t)
        },
        Err(_) => None,
    }
}

/// Reads an input from its lines.  The fields are read with the pattern for
/// fields.
pub fn read_input(field_pattern: &Regex, input: &Vec<String>) -> (r: Result<Input, ReadError>)
    ensures
        r is Ok <==> input_fault(texts(input@), *field_pattern) is None,
        r matches Err(e) ==> input_fault(texts(input@), *field_pattern) == Some(e),
        r matches Ok(found) ==> input_holds(
            found,
            texts(input@),
            *field_pattern,
        ),
{
    let ghost lines = texts(input@);
    let ghost pattern = *field_pattern;
    let n = input.len();
    let mut fields: Vec<Field> = Vec::new();
    let mut b: usize = 0;
    loop
        invariant
            0 <= b <= n,
            n == input@.len(),
            lines == texts(input@),
            pattern == *field_pattern,
            fields_end(lines, pattern, 0) == fields_end(lines, pattern, b as int),
            fields@.len() == b,
            forall|i: int|
                0 <= i < b ==> field_of(regex_captures(pattern, lines[i])) == Some(
                    ((#[trigger] fields@[i]).name@, fields@[i].first, fields@[i].second),
                ),
        ensures
            b < n,
            fields_end(lines, pattern, 0) == Ok::<int, ReadError>(b as int),
            fields@.len() == b,
            forall|i: int|
                0 <= i < b ==> field_of(regex_captures(pattern, lines[i])) == Some(
                    ((#[trigger] fields@[i]).name@, fields@[i].first, fields@[i].second),
                ),
        decreases n - b,
    {
        if b >= n {
            return Err(ReadError::MissingTicket);
        }
        assert(lines[b as int] == input@[b as int]@);
        let chars = chars_of(input[b].as_str());
        if chars.len() == 0 {
            break;
        }
        match Field::new(field_pattern, input[b].as_str()) {
            Some(f) => {
                fields.push(f);
            },
            None => {
                return Err(ReadError::BadField(b));
            },
        }
        b += 1;
    }
    if n - b < 2 {
        return Err(ReadError::PrematureEnd);
    }
    assert(lines[b + 1] == input@[b + 1]@);
    if !chars_equal(&chars_of(input[b + 1].as_str()), "your ticket:") {
        return Err(ReadError::Unexpected(b + 1));
    }
    if n - b < 3 {
        return Err(ReadError::PrematureEnd);
    }
    assert(lines[b + 2] == input@[b + 2]@);
    let my_ticket = match ticket_from(&input[b + 2]) {
        Some(t) => t,
        None => {
            return Err(ReadError::BadTicket(b + 2));
        },
    };
    if n - b < 4 {
        return Err(ReadError::PrematureEnd);
    }
    assert(lines[b + 3] == input@[b + 3]@);
    if chars_of(input[b + 3].as_str()).len() != 0 {
        return Err(ReadError::Unexpected(b + 3));
    }
    if n - b < 5 {
        return Err(ReadError::PrematureEnd);
    }
    assert(lines[b + 4] == input@[b + 4]@);
    if !chars_equal(&chars_of(input[b + 4].as_str()), "nearby tickets:") {
        return Err(ReadError::Unexpected(b + 4));
    }
    let mut nearby: Vec<Ticket> = Vec::new();
    let mut i: usize = b + 5;
    while i < n
        invariant
            b + 5 <= i <= n,
            n == input@.len(),
            lines == texts(input@),
            pattern == *field_pattern,
            fields_end(lines, pattern, 0) == Ok::<int, ReadError>(b as int),
            lines[b + 1] == "your ticket:"@,
            ticket_of(lines[b + 2]) is Some,
            lines[b + 3].len() == 0,
            lines[b + 4] == "nearby tickets:"@,
            first_bad_ticket(lines, b + 5) == first_bad_ticket(lines, i as int),
            nearby@.len() == i - (b + 5),
            forall|k: int|
                0 <= k < nearby@.len() ==> Some((#[trigger] nearby@[k]).values@) == ticket_of(
                    lines[b + 5 + k],
                ),
        decreases n - i,
    {
        assert(lines[i as int] == input@[i as int]@);
        match ticket_from(&input[i]) {
            Some(t) => {
                nearby.push(t);
            },
            None => {
                return Err(ReadError::BadTicket(i));
            },
        }
        i += 1;
    }
    Ok(Input { fields, my_ticket, nearby })
}

/// The pattern for fields: a name, a colon and two ranges with `or` between
/// them.
pub fn field_pattern() -> (r: Result<Regex, regex::Error>)
    ensures
        r matches Ok(re) ==> regex_source(re) == r"^([^:]*): (\d+)-(\d+) or (\d+)-(\d+)$"@,
{
    compile(r"^([^:]*): (\d+)-(\d+) or (\d+)-(\d+)$")
}

} // verus!
