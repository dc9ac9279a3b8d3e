//! A memory game: after the starting numbers, each turn names how long ago
//! the number of the turn before was named the time before that, or 0 if it
//! never was.
use std::collections::HashMap;
use vstd::prelude::*;

verus! {

broadcast use vstd::std_specs::hash::group_hash_axioms;

/// The number that is said in turn `t`, counted from 0.
pub open spec fn said(start: Seq<usize>, t: int) -> int
    decreases t, 0int,
{
    if t < 0 {
        0
    } else if t < start.len() {
        start[t] as int
    } else if t == 0 {
        0
    } else {
        match said_before(start, said(start, t - 1), t - 1) {
            Some(when) => t - 1 - when,
            None => 0,
        }
    }
}

/// The last turn before turn `n` in which `v` was said.
pub open spec fn said_before(start: Seq<usize>, v: int, n: int) -> Option<int>
    decreases n, 1int,
{
    if n <= 0 {
        None
    } else if said(start, n - 1) == v {
        Some(n - 1)
    } else {
        said_before(start, v, n - 1)
    }
}

/// What is said is a turn or a starting number, so that it is never
/// negative, and after the start it is less than the number of the turn.
pub proof fn lemma_said_bounds(start: Seq<usize>, t: int)
    requires
        0 <= t,
    ensures
        0 <= said(start, t),
        t >= start.len() ==> said(start, t) < t || t == 0,
        said(start, t) <= usize::MAX || t >= start.len(),
    decreases t,
{
    if t >= start.len() && t > 0 {
        lemma_said_before_bounds(start, said(start, t - 1), t - 1);
    }
}

/// The turn in which a number was said last is a turn.
pub proof fn lemma_said_before_bounds(start: Seq<usize>, v: int, n: int)
    ensures
        said_before(start, v, n) matches Some(when) ==> 0 <= when < n && said(start, when) == v,
        said_before(start, v, n) is None ==> forall|j: int| 0 <= j < n ==> said(start, j) != v,
    decreases n,
{
    if n > 0 && said(start, n - 1) != v {
        lemma_said_before_bounds(start, v, n - 1);
    }
}

/// Plays `turns` turns and gives the number that is said last; `None` when
/// no turn is played.
pub fn playgame(start_numbers: &Vec<usize>, turns: &usize, verbose: bool) -> (r: Option<usize>)
    ensures
        *turns == 0 ==> r is None,
        *turns > 0 ==> r == Some(said(start_numbers@, *turns - 1) as usize),
{
    // For every number the last turn in which it was said, the turn before
    // this one not counted.
    let mut last_said: HashMap<usize, usize> = HashMap::new();
    let mut last_number: Option<usize> = None;
    let ghost start = start_numbers@;
    let mut turn: usize = 0;
    while turn < *turns
        invariant
            0 <= turn <= *turns,
            start == start_numbers@,
            turn == 0 ==> last_number is None,
            turn > 0 ==> last_number == Some(said(start, turn - 1) as usize) && said(
                start,
                turn - 1,
            ) <= usize::MAX,
            forall|v: usize|
                last_said@.contains_key(v) <==> said_before(start, v as int, turn - 1) is Some,
            forall|v: usize| #[trigger]
                last_said@.contains_key(v) ==> Some(last_said@[v] as int) == said_before(
                    start,
                    v as int,
                    turn - 1,
                ),
        decreases *turns - turn,
    {
        proof {
            if turn > 0 {
                lemma_said_bounds(start, turn - 1);
            }
        }
        let this_number: usize = if turn < start_numbers.len() {
            start_numbers[turn]
        } else {
            match last_number {
                None => 0,
                Some(last) => {
                    proof {
                        lemma_said_before_bounds(start, last as int, turn - 1);
                    }
                    match last_said.get(&last) {
                        None => 0,
                        Some(when) => turn - 1 - *when,
                    }
                },
            }
        };
        proof {
            lemma_said_bounds(start, turn as int);
            assert(this_number == said(start, turn as int));
        }
        match last_number {
            None => {},
            Some(last) => {
                last_said.insert(last, turn - 1);
            },
        }
        proof {
            assert forall|v: usize|
                last_said@.contains_key(v) <==> said_before(start, v as int, turn as int) is Some by {
                lemma_said_before_bounds(start, v as int, turn - 1);
            }
            assert forall|v: usize| #[trigger] last_said@.contains_key(v) implies Some(
                last_said@[v] as int,
            ) == said_before(start, v as int, turn as int) by {
                lemma_said_before_bounds(start, v as int, turn - 1);
            }
        }
        last_number = Some(this_number);
        turn += 1;
    }
    last_number
}

} // verus!
