//! Steering a ship: headings in quarter turns and the turning of a waypoint.
use crate::text::{chars_of, parse_signed, signed_value};
use vstd::prelude::*;
use vstd::string::StrSliceExecFns;
use vstd::string::StringExecFns;

verus! {

/// The heading, counted in quarter turns, brought into the range from 0
/// to 3.
pub fn normalise_heading(h: i64) -> (r: i64)
    ensures
        0 <= r < 4,
        r == h % 4,
{
    let mut h = h;
    let ghost start = h;
    while h >= 4
        invariant
            h % 4 == start % 4,
            start >= 4 ==> h >= 0,
            start < 4 ==> h == start,
        decreases h,
    {
        h -= 4;
    }
    while h < 0
        invariant
            h % 4 == start % 4,
            h < 4,
        decreases 4 - h,
    {
        h += 4;
    }
    h
}

/// The waypoint `(x, y)` after `k` quarter turns to the right about the
/// ship: one quarter turn takes `(x, y)` to `(y, -x)`.
pub open spec fn turned_right(x: int, y: int, k: nat) -> (int, int)
    decreases k,
{
    if k == 0 {
        (x, y)
    } else {
        turned_right(y, -x, (k - 1) as nat)
    }
}

/// The number of quarter turns to the right that a turn stands for.
pub open spec fn quarter_turns(direction: Seq<char>, amount: int) -> int {
    if direction == "L"@ {
        (360 - amount) / 90
    } else {
        amount / 90
    }
}

/// The waypoint after a turn of `amount` degrees to the left (`L`) or to
/// the right (`R`).  The turn must come to 0, 90, 180 or 270 degrees to the
/// right.
pub fn rotate(direction: &str, amount: i64, waypoint_rel_x: i64, waypoint_rel_y: i64) -> (r: (
    i64,
    i64,
))
    requires
        direction@ == "L"@ || direction@ == "R"@,
        direction@ == "R"@ ==> amount == 0 || amount == 90 || amount == 180 || amount == 270,
        direction@ == "L"@ ==> amount == 90 || amount == 180 || amount == 270 || amount == 360,
        i64::MIN < waypoint_rel_x,
        i64::MIN < waypoint_rel_y,
    ensures
        (r.0 as int, r.1 as int) == turned_right(
            waypoint_rel_x as int,
            waypoint_rel_y as int,
            quarter_turns(direction@, amount as int) as nat,
        ),
{
    proof {
        reveal_strlit("L");
        reveal_strlit("R");
    }
    let chars = chars_of(direction);
    let mut turns: i64 = if chars[0] == 'L' {
        (360 - amount) / 90
    } else {
        amount / 90
    };
    let mut x = waypoint_rel_x;
    let mut y = waypoint_rel_y;
    while turns > 0
        invariant
            0 <= turns <= 3,
            i64::MIN < x,
            i64::MIN < y,
            turned_right(x as int, y as int, turns as nat) == turned_right(
                waypoint_rel_x as int,
                waypoint_rel_y as int,
                quarter_turns(direction@, amount as int) as nat,
            ),
        decreases turns,
    {
        let t = x;
        x = y;
        y = -t;
        turns -= 1;
    }
    (x, y)
}

/// What an instruction says: its first character and the number behind it.
pub open spec fn instruction_of(s: Seq<char>) -> Option<(char, int)> {
    match signed_value(s.skip(1)) {
        Some(n) => Some((s[0], n)),
        None => None,
    }
}

/// Reads an instruction: one character that says what to do and a number
/// that says how much.  `None` when what follows the character is no number.
pub fn parse_instr(s: &str) -> (r: Option<(String, i64)>)
    requires
        s@.len() >= 1,
    ensures
        r is Some <==> instruction_of(s@) is Some,
        r matches Some(found) ==> found.0@ == seq![s@[0]] && instruction_of(s@) == Some(
            (s@[0], found.1 as int),
        ),
{
    let chars = chars_of(s);
    let mut rest: Vec<char> = Vec::new();
    let mut i: usize = 1;
    while i < chars.len()
        invariant
            1 <= i <= chars.len(),
            rest@ == chars@.subrange(1, i as int),
        decreases chars.len() - i,
    {
        rest.push(chars[i]);
        assert(rest@ =~= chars@.subrange(1, i + 1));
        i += 1;
    }
    assert(rest@ =~= s@.skip(1));
    match parse_signed(&rest) {
        Some(n) => {
            let first = s.substring_char(0, 1);
            assert(first@ =~= seq![s@[0]]);
            Some((String::from_str(first), n))
        },
        None => None,
    }
}

/// Why a ship cannot be steered.
#[derive(Debug, Clone, Copy, PartialEq, Eq, Structural)]
pub enum ShipError {
    /// The line with this number, counted from 0, is no instruction: it is
    /// empty, or what follows its first character is no number.
    BadInstruction(usize),
    /// The line with this number begins with a character that stands for
    /// nothing.
    UnknownInstruction(usize),
    /// The turn of the line with this number does not come to 0, 90, 180 or
    /// 270 degrees to the right.
    BadTurn(usize),
    /// After the line with this number the ship or the waypoint is further
    /// away than 64 bits with a sign can tell.
    Overflow(usize),
}

/// A ship: where it is and where it heads, counted in quarter turns to the
/// right from east; or where it is and where its waypoint is, seen from the
/// ship.
pub struct Ship {
    pub x: int,
    pub y: int,
    pub heading: int,
    pub waypoint_x: int,
    pub waypoint_y: int,
}

/// Whether a number fits in 64 bits with a sign.
pub open spec fn fits(v: int) -> bool {
    i64::MIN <= v <= i64::MAX
}

/// What a step of the length 1 in the heading `h` adds to `x` and `y`.
pub open spec fn heading_step(h: int) -> (int, int) {
    if h == 0 {
        (1, 0)
    } else if h == 1 {
        (0, -1)
    } else if h == 2 {
        (-1, 0)
    } else {
        (0, 1)
    }
}

/// The ship after an instruction of the first kind: `N`, `E`, `S`, `W` move
/// the ship, `L` and `R` turn it by quarter turns, and `F` moves it the way
/// it heads.  `None` for any other instruction.
pub open spec fn steered(s: Ship, c: char, amount: int) -> Option<Ship> {
    if c == 'N' {
        Some(Ship { y: s.y + amount, ..s })
    } else if c == 'E' {
        Some(Ship { x: s.x + amount, ..s })
    } else if c == 'S' {
        Some(Ship { y: s.y - amount, ..s })
    } else if c == 'W' {
        Some(Ship { x: s.x - amount, ..s })
    } else if c == 'R' {
        Some(Ship { heading: (s.heading + quarters(amount)) % 4, ..s })
    } else if c == 'L' {
        Some(Ship { heading: (s.heading - quarters(amount)) % 4, ..s })
    } else if c == 'F' {
        Some(
            Ship {
                x: s.x + heading_step(s.heading).0 * amount,
                y: s.y + heading_step(s.heading).1 * amount,
                ..s
            },
        )
    } else {
        None
    }
}

/// The ship after the first `n` lines are obeyed as instructions of the
/// first kind, or the first failure.
pub open spec fn sailed(lines: Seq<String>, n: int) -> Result<Ship, ShipError>
    decreases n,
{
    if n <= 0 {
        Ok(Ship { x: 0, y: 0, heading: 0, waypoint_x: 10, waypoint_y: 1 })
    } else {
        match sailed(lines, n - 1) {
            Err(e) => Err(e),
            Ok(s) => {
                let line = lines[n - 1]@;
                if line.len() == 0 || instruction_of(line) is None {
                    Err(ShipError::BadInstruction((n - 1) as usize))
                } else {
                    match steered(s, line[0], instruction_of(line)->Some_0.1) {
                        None => Err(ShipError::UnknownInstruction((n - 1) as usize)),
                        Some(next) => if fits(next.x) && fits(next.y) {
                            Ok(next)
                        } else {
                            Err(ShipError::Overflow((n - 1) as usize))
                        },
                    }
                }
            },
        }
    }
}

/// Once a line cannot be obeyed, the lines after it change nothing.
pub proof fn lemma_sailed_sticks(lines: Seq<String>, n: int, m: int)
    requires
        0 <= n <= m,
        sailed(lines, n) is Err,
    ensures
        sailed(lines, m) == sailed(lines, n),
    decreases m - n,
{
    if n < m {
        lemma_sailed_sticks(lines, n, m - 1);
    }
}

/// The way from the start to the ship along the two axes, if it can be told
/// in 64 bits.
pub open spec fn distance(end: Result<Ship, ShipError>, lines: int) -> Result<i64, ShipError> {
    match end {
        Err(e) => Err(e),
        Ok(s) => {
            let d = (if s.x < 0 {
                -s.x
            } else {
                s.x
            }) + (if s.y < 0 {
                -s.y
            } else {
                s.y
            });
            if fits(d) {
                Ok(d as i64)
            } else {
                Err(ShipError::Overflow(lines as usize))
            }
        },
    }
}

/// The number of quarter turns in `amount` degrees: the degrees divided by
/// 90, what is left over thrown away.
pub open spec fn quarters(amount: int) -> int {
    if amount >= 0 {
        amount / 90
    } else {
        -((-amount) / 90)
    }
}

/// Executable form of [`quarters`].
fn quarters_of(amount: i64) -> (r: i64)
    ensures
        r == quarters(amount as int),
        -0x200_0000_0000_0000 <= r <= 0x200_0000_0000_0000,
{
    if amount >= 0 {
        amount / 90
    } else if amount > -90 {
        0
    } else {
        -((-(amount + 90)) / 90) - 1
    }
}

/// `a + b * c`, if it fits.
fn add_times(a: i64, b: i64, c: i64) -> (r: Option<i64>)
    ensures
        r is Some <==> fits(a + b * c),
        r matches Some(v) ==> v == a + b * c,
{
    assert(-0x4000_0000_0000_0000_0000_0000_0000_0000 <= b * c
        <= 0x4000_0000_0000_0000_0000_0000_0000_0000) by (nonlinear_arith)
        requires
            -0x8000_0000_0000_0000 <= b <= 0x8000_0000_0000_0000,
            -0x8000_0000_0000_0000 <= c <= 0x8000_0000_0000_0000,
    ;
    let product: i128 = (b as i128) * (c as i128);
    let sum: i128 = a as i128 + product;
    if sum < i64::MIN as i128 || sum > i64::MAX as i128 {
        None
    } else {
        Some(sum as i64)
    }
}

/// Obeys the lines as instructions of the first kind and gives the way from
/// the start to where the ship ends, along the two axes.
pub fn part1(instructions: &Vec<String>) -> (r: Result<i64, ShipError>)
    ensures
        r == distance(sailed(instructions@, instructions@.len() as int), instructions@.len() as int),
{
    let mut heading: i64 = 0;
    let mut x: i64 = 0;
    let mut y: i64 = 0;
    let mut i: usize = 0;
    while i < instructions.len()
        invariant
            0 <= i <= instructions@.len(),
            0 <= heading < 4,
            sailed(instructions@, i as int) == Ok::<Ship, ShipError>(
                Ship {
                    x: x as int,
                    y: y as int,
                    heading: heading as int,
                    waypoint_x: 10,
                    waypoint_y: 1,
                },
            ),
        decreases instructions@.len() - i,
    {
        let line = instructions[i].as_str();
        if line.unicode_len() == 0 {
            proof {
                lemma_sailed_sticks(instructions@, i + 1, instructions@.len() as int);
            }
            return Err(ShipError::BadInstruction(i));
        }
        let (c, amount) = match parse_instr(line) {
            Some((_, amount)) => (line.get_char(0), amount),
            None => {
                proof {
                    lemma_sailed_sticks(instructions@, i + 1, instructions@.len() as int);
                }
                return Err(ShipError::BadInstruction(i));
            },
        };
        let moved: Option<(i64, i64)> = if c == 'N' {
            match add_times(y, 1, amount) {
                Some(v) => Some((x, v)),
                None => None,
            }
        } else if c == 'E' {
            match add_times(x, 1, amount) {
                Some(v) => Some((v, y)),
                None => None,
            }
        } else if c == 'S' {
            match add_times(y, -1, amount) {
                Some(v) => Some((x, v)),
                None => None,
            }
        } else if c == 'W' {
            match add_times(x, -1, amount) {
                Some(v) => Some((v, y)),
                None => None,
            }
        } else if c == 'R' {
            heading = normalise_heading(heading + quarters_of(amount));
            Some((x, y))
        } else if c == 'L' {
            heading = normalise_heading(heading - quarters_of(amount));
            Some((x, y))
        } else if c == 'F' {
            let (dx, dy): (i64, i64) = if heading == 0 {
                (1, 0)
            } else if heading == 1 {
                (0, -1)
            } else if heading == 2 {
                (-1, 0)
            } else {
                (0, 1)
            };
            match (add_times(x, dx, amount), add_times(y, dy, amount)) {
                (Some(nx), Some(ny)) => Some((nx, ny)),
                _ => None,
            }
        } else {
            proof {
                lemma_sailed_sticks(instructions@, i + 1, instructions@.len() as int);
            }
            return Err(ShipError::UnknownInstruction(i));
        };
        match moved {
            Some((nx, ny)) => {
                x = nx;
                y = ny;
            },
            None => {
                proof {
                    lemma_sailed_sticks(instructions@, i + 1, instructions@.len() as int);
                }
                return Err(ShipError::Overflow(i));
            },
        }
        i += 1;
    }
    let ax: i128 = if x < 0 {
        -(x as i128)
    } else {
        x as i128
    };
    let ay: i128 = if y < 0 {
        -(y as i128)
    } else {
        y as i128
    };
    if ax + ay > i64::MAX as i128 {
        Err(ShipError::Overflow(instructions.len()))
    } else {
        Ok((ax + ay) as i64)
    }
}

/// Whether a turn can be made: it comes to 0, 90, 180 or 270 degrees to the
/// right.
pub open spec fn turn_ok(c: char, amount: int) -> bool {
    if c == 'R' {
        amount == 0 || amount == 90 || amount == 180 || amount == 270
    } else {
        amount == 90 || amount == 180 || amount == 270 || amount == 360
    }
}

/// What an instruction of the second kind does.
pub enum Guided {
    /// The ship and its waypoint after the instruction.
    Next(Ship),
    /// The instruction is a turn that cannot be made.
    BadTurn,
    /// The first character stands for nothing.
    Unknown,
}

/// The ship after an instruction of the second kind: `N`, `E`, `S`, `W`
/// move the waypoint, `L` and `R` turn it about the ship, and `F` moves the
/// ship to the waypoint as often as the number says.
pub open spec fn guided(s: Ship, c: char, amount: int) -> Guided {
    if c == 'N' {
        Guided::Next(Ship { waypoint_y: s.waypoint_y + amount, ..s })
    } else if c == 'E' {
        Guided::Next(Ship { waypoint_x: s.waypoint_x + amount, ..s })
    } else if c == 'S' {
        Guided::Next(Ship { waypoint_y: s.waypoint_y - amount, ..s })
    } else if c == 'W' {
        Guided::Next(Ship { waypoint_x: s.waypoint_x - amount, ..s })
    } else if c == 'R' || c == 'L' {
        if turn_ok(c, amount) {
            Guided::Next(
                Ship {
                    waypoint_x: turned_right(
                        s.waypoint_x,
                        s.waypoint_y,
                        quarter_turns(seq![c], amount) as nat,
                    ).0,
                    waypoint_y: turned_right(
                        s.waypoint_x,
                        s.waypoint_y,
                        quarter_turns(seq![c], amount) as nat,
                    ).1,
                    ..s
                },
            )
        } else {
            Guided::BadTurn
        }
    } else if c == 'F' {
        Guided::Next(
            Ship { x: s.x + s.waypoint_x * amount, y: s.y + s.waypoint_y * amount, ..s },
        )
    } else {
        Guided::Unknown
    }
}

/// Whether the ship and its waypoint can be told in 64 bits, the waypoint so
/// that it can be turned.
pub open spec fn tellable(s: Ship) -> bool {
    fits(s.x) && fits(s.y) && i64::MIN < s.waypoint_x <= i64::MAX && i64::MIN < s.waypoint_y
        <= i64::MAX
}

/// The ship after the first `n` lines are obeyed as instructions of the
/// second kind, or the first failure.
pub open spec fn piloted(lines: Seq<String>, n: int) -> Result<Ship, ShipError>
    decreases n,
{
    if n <= 0 {
        Ok(Ship { x: 0, y: 0, heading: 0, waypoint_x: 10, waypoint_y: 1 })
    } else {
        match piloted(lines, n - 1) {
            Err(e) => Err(e),
            Ok(s) => {
                let line = lines[n - 1]@;
                if line.len() == 0 || instruction_of(line) is None {
                    Err(ShipError::BadInstruction((n - 1) as usize))
                } else {
                    match guided(s, line[0], instruction_of(line)->Some_0.1) {
                        Guided::Unknown => Err(ShipError::UnknownInstruction((n - 1) as usize)),
                        Guided::BadTurn => Err(ShipError::BadTurn((n - 1) as usize)),
                        Guided::Next(next) => if tellable(next) {
                            Ok(next)
                        } else {
                            Err(ShipError::Overflow((n - 1) as usize))
                        },
                    }
                }
            },
        }
    }
}

/// Once a line cannot be obeyed, the lines after it change nothing.
pub proof fn lemma_piloted_sticks(lines: Seq<String>, n: int, m: int)
    requires
        0 <= n <= m,
        piloted(lines, n) is Err,
    ensures
        piloted(lines, m) == piloted(lines, n),
    decreases m - n,
{
    if n < m {
        lemma_piloted_sticks(lines, n, m - 1);
    }
}

/// A waypoint that can be turned can be turned again after it was turned.
pub proof fn lemma_turned_fits(x: int, y: int, k: nat)
    requires
        i64::MIN < x <= i64::MAX,
        i64::MIN < y <= i64::MAX,
    ensures
        i64::MIN < turned_right(x, y, k).0 <= i64::MAX,
        i64::MIN < turned_right(x, y, k).1 <= i64::MAX,
    decreases k,
{
    if k > 0 {
        lemma_turned_fits(y, -x, (k - 1) as nat);
    }
}

/// Obeys the lines as instructions of the second kind and gives the way
/// from the start to where the ship ends, along the two axes.
pub fn part2(instructions: &Vec<String>) -> (r: Result<i64, ShipError>)
    ensures
        r == distance(
            piloted(instructions@, instructions@.len() as int),
            instructions@.len() as int,
        ),
{
    let mut ship_x: i64 = 0;
    let mut ship_y: i64 = 0;
    let mut waypoint_rel_x: i64 = 10;
    let mut waypoint_rel_y: i64 = 1;
    let mut i: usize = 0;
    while i < instructions.len()
        invariant
            0 <= i <= instructions@.len(),
            i64::MIN < waypoint_rel_x,
            i64::MIN < waypoint_rel_y,
            piloted(instructions@, i as int) == Ok::<Ship, ShipError>(
                Ship {
                    x: ship_x as int,
                    y: ship_y as int,
                    heading: 0,
                    waypoint_x: waypoint_rel_x as int,
                    waypoint_y: waypoint_rel_y as int,
                },
            ),
        decreases instructions@.len() - i,
    {
        let line = instructions[i].as_str();
        if line.unicode_len() == 0 {
            proof {
                lemma_piloted_sticks(instructions@, i + 1, instructions@.len() as int);
            }
            return Err(ShipError::BadInstruction(i));
        }
        let (c, amount) = match parse_instr(line) {
            Some((_, amount)) => (line.get_char(0), amount),
            None => {
                proof {
                    lemma_piloted_sticks(instructions@, i + 1, instructions@.len() as int);
                }
                return Err(ShipError::BadInstruction(i));
            },
        };
        let moved: Option<(i64, i64, i64, i64)> = if c == 'N' {
            match add_times(waypoint_rel_y, 1, amount) {
                Some(v) => Some((ship_x, ship_y, waypoint_rel_x, v)),
                None => None,
            }
        } else if c == 'E' {
            match add_times(waypoint_rel_x, 1, amount) {
                Some(v) => Some((ship_x, ship_y, v, waypoint_rel_y)),
                None => None,
            }
        } else if c == 'S' {
            match add_times(waypoint_rel_y, -1, amount) {
                Some(v) => Some((ship_x, ship_y, waypoint_rel_x, v)),
                None => None,
            }
        } else if c == 'W' {
            match add_times(waypoint_rel_x, -1, amount) {
                Some(v) => Some((ship_x, ship_y, v, waypoint_rel_y)),
                None => None,
            }
        } else if c == 'R' || c == 'L' {
            let right = c == 'R';
            let ok = if right {
                amount == 0 || amount == 90 || amount == 180 || amount == 270
            } else {
                amount == 90 || amount == 180 || amount == 270 || amount == 360
            };
            if !ok {
                proof {
                    lemma_piloted_sticks(instructions@, i + 1, instructions@.len() as int);
                }
                return Err(ShipError::BadTurn(i));
            }
            proof {
                reveal_strlit("R");
                reveal_strlit("L");
                assert("R"@ =~= seq!['R']);
                assert("L"@ =~= seq!['L']);
                assert("R"@[0] != "L"@[0]);
                lemma_turned_fits(
                    waypoint_rel_x as int,
                    waypoint_rel_y as int,
                    quarter_turns(seq![c], amount as int) as nat,
                );
            }
            let rotated = rotate(
                if right {
                    "R"
                } else {
                    "L"
                },
                amount,
                waypoint_rel_x,
                waypoint_rel_y,
            );
            Some((ship_x, ship_y, rotated.0, rotated.1))
        } else if c == 'F' {
            match (
                add_times(ship_x, waypoint_rel_x, amount),
                add_times(ship_y, waypoint_rel_y, amount),
            ) {
                (Some(nx), Some(ny)) => Some((nx, ny, waypoint_rel_x, waypoint_rel_y)),
                _ => None,
            }
        } else {
            proof {
                lemma_piloted_sticks(instructions@, i + 1, instructions@.len() as int);
            }
            return Err(ShipError::UnknownInstruction(i));
        };
        match moved {
            Some((nx, ny, wx, wy)) => {
                if wx == i64::MIN || wy == i64::MIN {
                    proof {
                        lemma_piloted_sticks(instructions@, i + 1, instructions@.len() as int);
                    }
                    return Err(ShipError::Overflow(i));
                }
                ship_x = nx;
                ship_y = ny;
                waypoint_rel_x = wx;
                waypoint_rel_y = wy;
            },
            None => {
                proof {
                    lemma_piloted_sticks(instructions@, i + 1, instructions@.len() as int);
                }
                return Err(ShipError::Overflow(i));
            },
        }
        i += 1;
    }
    let ax: i128 = if ship_x < 0 {
        -(ship_x as i128)
    } else {
        ship_x as i128
    };
    let ay: i128 = if ship_y < 0 {
        -(ship_y as i128)
    } else {
        ship_y as i128
    };
    if ax + ay > i64::MAX as i128 {
        Err(ShipError::Overflow(instructions.len()))
    } else {
        Ok((ax + ay) as i64)
    }
}

} // verus!
