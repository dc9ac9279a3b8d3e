//! Boarding passes: a seat is found by halving a range once for every
//! character of its code.
use crate::text::char_string;
use vstd::prelude::*;
use vstd::string::StrSliceExecFns;
use vstd::string::StringExecFns;

verus! {

/// `std::io::Error`, which is carried and never looked into.
#[verifier::external_type_specification]
#[verifier::external_body]
pub struct ExIoError(std::io::Error);

/// Why the seats cannot be told.
#[derive(Debug)]
pub enum SeatError {
    /// The range to search is empty from the start.
    EmptyStartingRange,
    /// There is no boarding pass.
    NoInput,
    /// A boarding pass is malformed; the text says how.
    InvalidInput(String),
    /// The boarding passes could not be read.
    ReadError { source: std::io::Error },
}

/// What is wrong with the code of a seat.
pub enum SearchFault {
    /// The range to search is empty from the start.
    EmptyRange,
    /// The range is down to one seat and there are characters left.
    TooMany,
    /// A character is neither of the two directions.
    BadDirection(char),
    /// The characters are used up and the range holds more than one seat.
    Insufficient,
}

/// The message that goes with a fault of the code.
pub open spec fn fault_message(f: SearchFault) -> Seq<char> {
    match f {
        SearchFault::EmptyRange => Seq::empty(),
        SearchFault::TooMany => "too many seat directions"@,
        SearchFault::BadDirection(c) => "invalid direction character '"@ + seq![c] + "'"@,
        SearchFault::Insufficient => "insufficient seat directions"@,
    }
}

/// The range from `lower` up to, not including, `upper` after it was halved
/// once for each of `choices`: the lower direction keeps the lower half, the
/// upper direction the upper half.
pub open spec fn narrowed(
    lower: int,
    upper: int,
    lower_directive: char,
    upper_directive: char,
    choices: Seq<char>,
) -> Result<(int, int), SearchFault>
    decreases choices.len(),
{
    if choices.len() == 0 {
        Ok((lower, upper))
    } else if upper == lower + 1 {
        Err(SearchFault::TooMany)
    } else if choices[0] == lower_directive {
        narrowed(
            lower,
            lower + (upper - lower) / 2,
            lower_directive,
            upper_directive,
            choices.drop_first(),
        )
    } else if choices[0] == upper_directive {
        narrowed(
            lower + (upper - lower) / 2,
            upper,
            lower_directive,
            upper_directive,
            choices.drop_first(),
        )
    } else {
        Err(SearchFault::BadDirection(choices[0]))
    }
}

/// The one seat that is left of the range after all choices, or what is
/// wrong.
pub open spec fn searched(
    lower: int,
    upper: int,
    lower_directive: char,
    upper_directive: char,
    choices: Seq<char>,
) -> Result<int, SearchFault> {
    if lower >= upper {
        Err(SearchFault::EmptyRange)
    } else {
        match narrowed(lower, upper, lower_directive, upper_directive, choices) {
            Ok((l, u)) => if u == l + 1 {
                Ok(l)
            } else {
                Err(SearchFault::Insufficient)
            },
            Err(f) => Err(f),
        }
    }
}

/// Whether the error `e` reports the fault `f`.
pub open spec fn reports(e: SeatError, f: SearchFault) -> bool {
    match f {
        SearchFault::EmptyRange => e is EmptyStartingRange,
        _ => (e matches SeatError::InvalidInput(msg) && msg@ == fault_message(f)),
    }
}

/// Halving keeps a range that holds at least two seats non-empty and inside
/// the range it came from.
proof fn lemma_halves(lower: int, upper: int)
    requires
        lower + 1 < upper,
    ensures
        lower < lower + (upper - lower) / 2 < upper,
{
}

/// Finds the seat that the characters of `choices` lead to in the range
/// from `lower_incl` up to, not including, `upper_excl`.
pub fn binary_search(
    lower_incl: i32,
    upper_excl: i32,
    lower_directive: char,
    upper_directive: char,
    choices: &str,
) -> (r: Result<i32, SeatError>)
    requires
        upper_excl - lower_incl <= i32::MAX,
    ensures
        r is Ok <==> searched(
            lower_incl as int,
            upper_excl as int,
            lower_directive,
            upper_directive,
            choices@,
        ) is Ok,
        r matches Ok(seat) ==> searched(
            lower_incl as int,
            upper_excl as int,
            lower_directive,
            upper_directive,
            choices@,
        ) == Ok::<int, SearchFault>(seat as int),
        r matches Err(e) ==> reports(
            e,
            searched(
                lower_incl as int,
                upper_excl as int,
                lower_directive,
                upper_directive,
                choices@,
            )->Err_0,
        ),
{
    if lower_incl >= upper_excl {
        return Err(SeatError::EmptyStartingRange);
    }
    let mut lower = lower_incl;
    let mut upper = upper_excl;
    let n = choices.unicode_len();
    let mut i: usize = 0;
    proof {
        assert(choices@.skip(0) =~= choices@);
    }
    while i < n
        invariant
            0 <= i <= n,
            n == choices@.len(),
            lower_incl <= lower < upper <= upper_excl,
            upper_excl - lower_incl <= i32::MAX,
            narrowed(
                lower_incl as int,
                upper_excl as int,
                lower_directive,
                upper_directive,
                choices@,
            ) == narrowed(
                lower as int,
                upper as int,
                lower_directive,
                upper_directive,
                choices@.skip(i as int),
            ),
        decreases n - i,
    {
        let choice = choices.get_char(i);
        proof {
            assert(choices@.skip(i as int)[0] == choice);
            assert(choices@.skip(i as int).drop_first() =~= choices@.skip(i + 1));
        }
        if upper == lower + 1 {
            return Err(SeatError::InvalidInput(String::from_str("too many seat directions")));
        }
        proof {
            lemma_halves(lower as int, upper as int);
        }
        let mid = lower + (upper - lower) / 2;
        if choice == lower_directive {
            upper = mid;
        } else if choice == upper_directive {
            lower = mid;
        } else {
            let message = String::from_str("invalid direction character '").concat(
                char_string(choice).as_str(),
            ).concat("'");
            return Err(SeatError::InvalidInput(message));
        }
        i += 1;
    }
    if upper == lower + 1 {
        Ok(lower)
    } else {
        Err(SeatError::InvalidInput(String::from_str("insufficient seat directions")))
    }
}

/// The number of a seat whose code is `r` for the row and `c` for the
/// column.
pub open spec fn seat_id(r: int, c: int) -> int {
    r * 8 + c
}

/// The number of the seat that a boarding pass names: its first seven
/// characters choose one of 128 rows with `F` and `B`, the others one of 8
/// columns with `L` and `R`.
pub fn decode_seat(directions: &str) -> (r: Result<i32, SeatError>)
    requires
        directions.is_ascii(),
        directions@.len() >= 7,
    ensures
        r is Ok <==> searched(0, 128, 'F', 'B', directions@.take(7)) is Ok && searched(
            0,
            8,
            'L',
            'R',
            directions@.skip(7),
        ) is Ok,
        r matches Ok(id) ==> id == seat_id(
            searched(0, 128, 'F', 'B', directions@.take(7))->Ok_0,
            searched(0, 8, 'L', 'R', directions@.skip(7))->Ok_0,
        ),
        r matches Err(e) ==> reports(
            e,
            if searched(0, 128, 'F', 'B', directions@.take(7)) is Err {
                searched(0, 128, 'F', 'B', directions@.take(7))->Err_0
            } else {
                searched(0, 8, 'L', 'R', directions@.skip(7))->Err_0
            },
        ),
{
    let n = directions.unicode_len();
    let row_code = directions.substring_ascii(0, 7);
    let column_code = directions.substring_ascii(7, n);
    assert(row_code@ =~= directions@.take(7));
    assert(column_code@ =~= directions@.skip(7));
    let r = match binary_search(0, 128, 'F', 'B', row_code) {
        Ok(r) => r,
        Err(e) => {
            return Err(e);
        },
    };
    let c = match binary_search(0, 8, 'L', 'R', column_code) {
        Ok(c) => c,
        Err(e) => {
            return Err(e);
        },
    };
    proof {
        lemma_narrowed_inside(0, 128, 'F', 'B', directions@.take(7));
        lemma_narrowed_inside(0, 8, 'L', 'R', directions@.skip(7));
    }
    Ok(r * 8 + c)
}

/// Halving never leaves the range it started from.
pub proof fn lemma_narrowed_inside(
    lower: int,
    upper: int,
    lower_directive: char,
    upper_directive: char,
    choices: Seq<char>,
)
    requires
        lower < upper,
    ensures
        (narrowed(lower, upper, lower_directive, upper_directive, choices) matches Ok((l, u))
            ==> lower <= l < u <= upper),
    decreases choices.len(),
{
    if choices.len() > 0 && upper != lower + 1 {
        lemma_halves(lower, upper);
        let mid = lower + (upper - lower) / 2;
        if choices[0] == lower_directive {
            lemma_narrowed_inside(lower, mid, lower_directive, upper_directive, choices.drop_first());
        } else if choices[0] == upper_directive {
            lemma_narrowed_inside(mid, upper, lower_directive, upper_directive, choices.drop_first());
        }
    }
}

/// Whether the seat with the id `v` is among the seats.
pub open spec fn taken(seats: Seq<i32>, v: int) -> bool {
    exists|i: int| 0 <= i < seats.len() && #[trigger] seats[i] == v
}

/// Whether the seat with the id `v` is among the seats.
pub fn is_taken(seats: &Vec<i32>, v: i32) -> (r: bool)
    ensures
        r == taken(seats@, v as int),
{
    let mut i: usize = 0;
    while i < seats.len()
        invariant
            0 <= i <= seats@.len(),
            forall|k: int| 0 <= k < i ==> #[trigger] seats@[k] != v,
        decreases seats@.len() - i,
    {
        if seats[i] == v {
            return true;
        }
        i += 1;
    }
    false
}

/// The largest id among the seats.
pub fn part1(seats: &Vec<i32>) -> (r: Result<i32, SeatError>)
    ensures
        seats@.len() == 0 ==> r matches Err(SeatError::NoInput),
        seats@.len() > 0 ==> (r matches Ok(m) && taken(seats@, m as int) && forall|i: int|
            0 <= i < seats@.len() ==> #[trigger] seats@[i] <= m),
{
    if seats.len() == 0 {
        return Err(SeatError::NoInput);
    }
    let mut largest = seats[0];
    let mut i: usize = 1;
    while i < seats.len()
        invariant
            1 <= i <= seats@.len(),
            taken(seats@, largest as int),
            forall|k: int| 0 <= k < i ==> #[trigger] seats@[k] <= largest,
        decreases seats@.len() - i,
    {
        if seats[i] > largest {
            largest = seats[i];
        }
        i += 1;
    }
    Ok(largest)
}

/// The id of the first seat that is free: the id after the least id among
/// the seats whose following id is not among them.
pub fn part2(seats: &Vec<i32>) -> (r: Result<i32, SeatError>)
    requires
        forall|i: int| 0 <= i < seats@.len() ==> #[trigger] seats@[i] < i32::MAX,
    ensures
        seats@.len() == 0 ==> (r matches Err(SeatError::InvalidInput(msg)) && msg@
            == "there are no gaps in the boarding passes"@),
        seats@.len() > 0 ==> (r matches Ok(free) && taken(seats@, free - 1) && !taken(
            seats@,
            free as int,
        ) && forall|s: int| #[trigger] taken(seats@, s) && s < free - 1 ==> taken(seats@, s + 1)),
{
    let largest = match part1(seats) {
        Ok(m) => m,
        Err(_) => {
            return Err(
                SeatError::InvalidInput(
                    String::from_str("there are no gaps in the boarding passes"),
                ),
            );
        },
    };
    let mut before = largest;
    let mut i: usize = 0;
    while i < seats.len()
        invariant
            0 <= i <= seats@.len(),
            forall|k: int| 0 <= k < seats@.len() ==> #[trigger] seats@[k] < i32::MAX,
            taken(seats@, before as int),
            !taken(seats@, before + 1),
            forall|k: int| 0 <= k < i && seats@[k] < before ==> taken(seats@, #[trigger] seats@[k] + 1),
        decreases seats@.len() - i,
    {
        let seat = seats[i];
        if seat < before && !is_taken(seats, seat + 1) {
            before = seat;
        }
        i += 1;
    }
    Ok(before + 1)
}

} // verus!
