//! A waiting area: seats fill and empty by how many occupied seats are
//! nearby, round after round.
use crate::text::chars_of;
use vstd::prelude::*;
use vstd::string::StringSliceAdditionalSpecFns;

verus! {

/// A place of the waiting area: a seat, occupied or not, or floor.
#[derive(Clone, Copy, Debug, PartialEq, Eq, Structural)]
pub enum Position {
    Seat(bool),
    Floor,
}

/// A step to a place nearby.
#[derive(Debug, Clone, Copy, PartialEq, Eq, Structural)]
pub struct Direction {
    pub dx: i64,
    pub dy: i64,
}

/// The waiting area, row by row.
pub struct Grid {
    pub seats: Vec<Vec<Position>>,
    pub grid_width: usize,
}

/// How the occupied seats nearby are counted.
#[derive(Debug, Clone, Copy, PartialEq, Eq, Structural)]
pub enum Counting {
    /// The eight places around a seat count.
    Adjacent,
    /// In each of the eight directions the first seat in sight counts.
    LineOfSight,
}

/// Why lines are no waiting area.
#[derive(Debug, Clone, Copy, PartialEq, Eq, Structural)]
pub enum GridError {
    /// The lines differ in length, counted in bytes.
    VariableLength,
    /// A character is none of `#`, `L`, `.`.
    UnexpectedCharacter(char),
}

/// The direction with the number `k`: north, and on clockwise.
pub open spec fn direction(k: int) -> Direction {
    if k == 0 {
        Direction { dx: 0, dy: -1i64 }
    } else if k == 1 {
        Direction { dx: 1, dy: -1i64 }
    } else if k == 2 {
        Direction { dx: 1, dy: 0 }
    } else if k == 3 {
        Direction { dx: 1, dy: 1 }
    } else if k == 4 {
        Direction { dx: 0, dy: 1 }
    } else if k == 5 {
        Direction { dx: -1i64, dy: 1 }
    } else if k == 6 {
        Direction { dx: -1i64, dy: 0 }
    } else {
        Direction { dx: -1i64, dy: -1i64 }
    }
}

/// The eight directions.
pub fn all_directions() -> (r: [Direction; 8])
    ensures
        forall|k: int| 0 <= k < 8 ==> #[trigger] r[k] == direction(k),
{
    [
        Direction { dx: 0, dy: -1 },
        Direction { dx: 1, dy: -1 },
        Direction { dx: 1, dy: 0 },
        Direction { dx: 1, dy: 1 },
        Direction { dx: 0, dy: 1 },
        Direction { dx: -1, dy: 1 },
        Direction { dx: -1, dy: 0 },
        Direction { dx: -1, dy: -1 },
    ]
}

/// What a place becomes, and whether that is a change: an empty seat with
/// no occupied seat nearby is taken, an occupied seat with `limit` or more
/// occupied seats nearby is left, and everything else stays.
pub open spec fn next_of(current: Position, neighbour_count: nat, limit: nat) -> (Position, bool) {
    match current {
        Position::Seat(false) => if neighbour_count == 0 {
            (Position::Seat(true), true)
        } else {
            (current, false)
        },
        Position::Seat(true) => if neighbour_count >= limit {
            (Position::Seat(false), true)
        } else {
            (current, false)
        },
        Position::Floor => (Position::Floor, false),
    }
}

/// What a place becomes in the next round, and whether that is a change.
pub fn get_next(current: &Position, neighbour_count: usize, overcrowding_limit: usize) -> (r: (
    Position,
    bool,
))
    ensures
        r == next_of(*current, neighbour_count as nat, overcrowding_limit as nat),
{
    match current {
        Position::Seat(false) => {
            if neighbour_count == 0 {
                (Position::Seat(true), true)
            } else {
                (*current, false)
            }
        },
        Position::Seat(true) => {
            if neighbour_count >= overcrowding_limit {
                (Position::Seat(false), true)
            } else {
                (*current, false)
            }
        },
        Position::Floor => (Position::Floor, false),
    }
}

/// The rows of a grid.
pub open spec fn rows_of(seats: Seq<Vec<Position>>) -> Seq<Seq<Position>> {
    Seq::new(seats.len(), |y: int| seats[y]@)
}

/// What stands at `(x, y)`, if that is a place of the area.
pub open spec fn place_at(rows: Seq<Seq<Position>>, width: int, x: int, y: int) -> Option<Position> {
    if x < 0 || y < 0 || x >= width || y >= rows.len() {
        None
    } else {
        Some(rows[y][x])
    }
}

/// 1 if an occupied seat stands at `(x, y)`, else 0.
pub open spec fn occupied_at(rows: Seq<Seq<Position>>, width: int, x: int, y: int) -> nat {
    if place_at(rows, width, x, y) == Some(Position::Seat(true)) {
        1
    } else {
        0
    }
}

/// The number of occupied seats among the places next to `(x, y)` in the
/// first `k` directions.
pub open spec fn adjacent_count(rows: Seq<Seq<Position>>, width: int, x: int, y: int, k: int) -> nat
    decreases k,
{
    if k <= 0 {
        0
    } else {
        adjacent_count(rows, width, x, y, k - 1) + occupied_at(
            rows,
            width,
            x + direction(k - 1).dx,
            y + direction(k - 1).dy,
        )
    }
}

/// What is seen from `(x, y)`, this place included, along the direction
/// `d`: 1 if the first seat is occupied, 0 if it is empty or the area ends
/// before a seat.  No more than `fuel` steps are taken.
pub open spec fn look(
    rows: Seq<Seq<Position>>,
    width: int,
    x: int,
    y: int,
    d: Direction,
    fuel: nat,
) -> nat
    decreases fuel,
{
    match place_at(rows, width, x, y) {
        None => 0,
        Some(Position::Seat(true)) => 1,
        Some(Position::Seat(false)) => 0,
        Some(Position::Floor) => if fuel == 0 {
            0
        } else {
            look(rows, width, x + d.dx, y + d.dy, d, (fuel - 1) as nat)
        },
    }
}

/// What is seen from the place next to `(x, y)` along `d`.  The sight
/// cannot be longer than the area is wide and high together.
pub open spec fn seen(rows: Seq<Seq<Position>>, width: int, x: int, y: int, d: Direction) -> nat {
    look(rows, width, x + d.dx, y + d.dy, d, (width + rows.len()) as nat)
}

/// The number of occupied seats seen from `(x, y)` in the first `k`
/// directions.
pub open spec fn sight_count(rows: Seq<Seq<Position>>, width: int, x: int, y: int, k: int) -> nat
    decreases k,
{
    if k <= 0 {
        0
    } else {
        sight_count(rows, width, x, y, k - 1) + seen(rows, width, x, y, direction(k - 1))
    }
}

/// The number of occupied seats near `(x, y)` as `how` counts them.
pub open spec fn near_count(
    rows: Seq<Seq<Position>>,
    width: int,
    how: Counting,
    x: int,
    y: int,
) -> nat {
    match how {
        Counting::Adjacent => adjacent_count(rows, width, x, y, 8),
        Counting::LineOfSight => sight_count(rows, width, x, y, 8),
    }
}

/// The place `(x, y)` in the next round.
pub open spec fn next_place(
    rows: Seq<Seq<Position>>,
    width: int,
    how: Counting,
    limit: nat,
    x: int,
    y: int,
) -> (Position, bool) {
    next_of(rows[y][x], near_count(rows, width, how, x, y), limit)
}

/// The area in the next round.
pub open spec fn next_rows(rows: Seq<Seq<Position>>, width: int, how: Counting, limit: nat) -> Seq<
    Seq<Position>,
> {
    Seq::new(
        rows.len(),
        |y: int| Seq::new(width as nat, |x: int| next_place(rows, width, how, limit, x, y).0),
    )
}

/// Whether a place changes from this round to the next.
pub open spec fn changes(rows: Seq<Seq<Position>>, width: int, how: Counting, limit: nat) -> bool {
    exists|x: int, y: int|
        0 <= y < rows.len() && 0 <= x < width && (#[trigger] next_place(
            rows,
            width,
            how,
            limit,
            x,
            y,
        )).1
}

/// The number of occupied seats among the first `n` places of a row.
pub open spec fn row_occupation(row: Seq<Position>, n: int) -> nat
    decreases n,
{
    if n <= 0 {
        0
    } else {
        row_occupation(row, n - 1) + if row[n - 1] == Position::Seat(true) {
            1nat
        } else {
            0nat
        }
    }
}

/// The number of occupied seats in the first `n` rows.
pub open spec fn occupation(rows: Seq<Seq<Position>>, n: int) -> nat
    decreases n,
{
    if n <= 0 {
        0
    } else {
        occupation(rows, n - 1) + row_occupation(rows[n - 1], rows[n - 1].len() as int)
    }
}

/// The place that a character stands for.
pub open spec fn place_of(c: char) -> Option<Position> {
    if c == '#' {
        Some(Position::Seat(true))
    } else if c == 'L' {
        Some(Position::Seat(false))
    } else if c == '.' {
        Some(Position::Floor)
    } else {
        None
    }
}

/// The first character of the text that stands for no place, if there is
/// one among the first `n`.
pub open spec fn first_bad(line: Seq<char>, n: int) -> Option<char>
    decreases n,
{
    if n <= 0 {
        None
    } else if first_bad(line, n - 1) is Some {
        first_bad(line, n - 1)
    } else if place_of(line[n - 1]) is None {
        Some(line[n - 1])
    } else {
        None
    }
}

/// The first character of the first `n` lines that stands for no place.
pub open spec fn first_bad_of(lines: Seq<String>, n: int) -> Option<char>
    decreases n,
{
    if n <= 0 {
        None
    } else if first_bad_of(lines, n - 1) is Some {
        first_bad_of(lines, n - 1)
    } else {
        first_bad(lines[n - 1]@, lines[n - 1]@.len() as int)
    }
}

/// The row that a line gives: `width` places, of which those that the line
/// has a character for are what the character says, and the others floor.
pub open spec fn row_of(line: Seq<char>, width: int) -> Seq<Position> {
    Seq::new(
        width as nat,
        |x: int|
            if x < line.len() && place_of(line[x]) is Some {
                place_of(line[x])->0
            } else {
                Position::Floor
            },
    )
}

/// The length of a text in bytes.
pub open spec fn byte_len(s: Seq<char>) -> nat {
    vstd::utf8::encode_utf8(s).len()
}

/// Whether all lines are as long, in bytes, as the first.
pub open spec fn same_length(lines: Seq<String>) -> bool {
    forall|i: int|
        0 <= i < lines.len() ==> #[trigger] byte_len(lines[i]@)
            == byte_len(lines[0]@)
}

impl Grid {
    /// The rows.
    pub open spec fn view(&self) -> Seq<Seq<Position>> {
        rows_of(self.seats@)
    }

    /// Every row is as wide as the grid, and the places can be counted in
    /// 64 bits with a sign.
    pub open spec fn wf(&self) -> bool {
        &&& forall|y: int| 0 <= y < self@.len() ==> (#[trigger] self@[y]).len() == self.grid_width
        &&& self.grid_width < i64::MAX / 4
        &&& self@.len() < i64::MAX / 4
    }

    /// Reads the area from its lines: `#` is an occupied seat, `L` an empty
    /// one, `.` floor.  Lines of different lengths are reported before a
    /// wrong character.
    pub fn new(lines: &Vec<String>) -> (r: Result<Grid, GridError>)
        requires
            lines@.len() < i64::MAX / 4,
            forall|i: int|
                0 <= i < lines@.len() ==> #[trigger] byte_len(lines@[i]@) < i64::MAX / 4 && byte_len(
                    lines@[i]@,
                ) <= usize::MAX,
        ensures
            r is Ok <==> same_length(lines@) && first_bad_of(lines@, lines@.len() as int) is None,
            r matches Err(e) ==> e == (if !same_length(lines@) {
                GridError::VariableLength
            } else {
                GridError::UnexpectedCharacter(first_bad_of(lines@, lines@.len() as int)->0)
            }),
            r matches Ok(g) ==> g.wf() && g@.len() == lines@.len() && (lines@.len() > 0
                ==> g.grid_width == byte_len(lines@[0]@)) && (lines@.len() == 0
                ==> g.grid_width == 0) && forall|y: int|
                0 <= y < lines@.len() ==> #[trigger] g@[y] == row_of(lines@[y]@, g.grid_width as int),
    {
        let height = lines.len();
        if height == 0 {
            return Ok(Grid { seats: Vec::new(), grid_width: 0 });
        }
        let first = lines[0].as_str();
        let width = first.len();
        assert(first.spec_bytes() == vstd::utf8::encode_utf8(lines@[0]@));
        assert(byte_len(lines@[0]@) < i64::MAX / 4 && byte_len(lines@[0]@) <= usize::MAX);
        let mut i: usize = 1;
        while i < height
            invariant
                1 <= i <= height,
                height == lines@.len(),
                width == byte_len(lines@[0]@),
                forall|k: int|
                    0 <= k < lines@.len() ==> #[trigger] byte_len(lines@[k]@) < i64::MAX / 4
                        && byte_len(lines@[k]@) <= usize::MAX,
                forall|k: int|
                    0 <= k < i ==> #[trigger] byte_len(lines@[k]@) == width,
            decreases height - i,
        {
            let line = lines[i].as_str();
            assert(line.spec_bytes() == vstd::utf8::encode_utf8(lines@[i as int]@));
            assert(byte_len(lines@[i as int]@) <= usize::MAX);
            if line.len() != width {
                return Err(GridError::VariableLength);
            }
            i += 1;
        }
        let mut sd: Vec<Vec<Position>> = Vec::new();
        let mut y: usize = 0;
        while y < height
            invariant
                0 <= y <= height,
                height == lines@.len(),
                height < i64::MAX / 4,
                width < i64::MAX / 4,
                width == byte_len(lines@[0]@),
                same_length(lines@),
                sd@.len() == y,
                first_bad_of(lines@, y as int) is None,
                forall|k: int| 0 <= k < y ==> (#[trigger] sd@[k])@ == row_of(lines@[k]@, width as int),
            decreases height - y,
        {
            let chars = chars_of(lines[y].as_str());
            let ghost line = lines@[y as int]@;
            let mut row: Vec<Position> = Vec::new();
            let mut x: usize = 0;
            while x < width
                invariant
                    0 <= x <= width,
                    row@.len() == x,
                    row@ == Seq::new(x as nat, |k: int| Position::Floor),
                decreases width - x,
            {
                row.push(Position::Floor);
                assert(row@ =~= Seq::new((x + 1) as nat, |k: int| Position::Floor));
                x += 1;
            }
            let mut x: usize = 0;
            while x < chars.len()
                invariant
                    0 <= x <= chars.len(),
                    chars@ == line,
                    line == lines@[y as int]@,
                    0 <= y < height,
                    height == lines@.len(),
                    row@.len() == width,
                    first_bad(line, x as int) is None,
                    first_bad_of(lines@, y as int) is None,
                    same_length(lines@),
                    forall|k: int|
                        0 <= k < width ==> #[trigger] row@[k] == (if k < x {
                            row_of(line, width as int)[k]
                        } else {
                            Position::Floor
                        }),
                decreases chars.len() - x,
            {
                let ch = chars[x];
                let p = if ch == '#' {
                    Position::Seat(true)
                } else if ch == 'L' {
                    Position::Seat(false)
                } else if ch == '.' {
                    Position::Floor
                } else {
                    proof {
                        assert(first_bad(line, x + 1) == Some(ch));
                        lemma_bad_sticks(line, x + 1, line.len() as int);
                        assert(first_bad_of(lines@, y + 1) == Some(ch));
                        lemma_bad_of_sticks(lines@, y + 1, lines@.len() as int);
                    }
                    return Err(GridError::UnexpectedCharacter(ch));
                };
                if x < width {
                    row.set(x, p);
                }
                x += 1;
            }
            assert(row@ =~= row_of(line, width as int));
            sd.push(row);
            y += 1;
        }
        let g = Grid { seats: sd, grid_width: width };
        assert forall|k: int| 0 <= k < lines@.len() implies #[trigger] g@[k] == row_of(
            lines@[k]@,
            g.grid_width as int,
        ) by {
            assert(sd@[k]@ == row_of(lines@[k]@, width as int));
        }
        Ok(g)
    }

    /// The number of rows.
    pub fn height(&self) -> (r: usize)
        ensures
            r == self@.len(),
    {
        self.seats.len()
    }

    /// The number of occupied seats.
    pub fn total_occupation(&self) -> (r: usize)
        requires
            occupation(self@, self@.len() as int) <= usize::MAX,
        ensures
            r == occupation(self@, self@.len() as int),
    {
        let mut total: usize = 0;
        let mut y: usize = 0;
        while y < self.seats.len()
            invariant
                0 <= y <= self@.len(),
                occupation(self@, self@.len() as int) <= usize::MAX,
                total == occupation(self@, y as int),
            decreases self@.len() - y,
        {
            let row = &self.seats[y];
            assert(row@ == self@[y as int]);
            proof {
                lemma_occupation_grows(self@, y + 1, self@.len() as int);
            }
            let mut x: usize = 0;
            let mut count: usize = 0;
            while x < row.len()
                invariant
                    0 <= x <= row@.len(),
                    count == row_occupation(row@, x as int),
                    count <= x,
                decreases row@.len() - x,
            {
                if let Position::Seat(true) = row[x] {
                    count += 1;
                }
                x += 1;
            }
            total = total + count;
            y += 1;
        }
        total
    }

    /// What stands at `(x, y)`, if that is a place of the area.
    pub fn at(&self, x: i64, y: i64) -> (r: Option<Position>)
        requires
            self.wf(),
        ensures
            r == place_at(self@, self.grid_width as int, x as int, y as int),
    {
        if x < 0 || y < 0 || x >= self.grid_width as i64 || y >= self.seats.len() as i64 {
            None
        } else {
            assert(self@[y as int].len() == self.grid_width);
            Some(self.seats[y as usize][x as usize])
        }
    }

    /// The number of occupied seats among the eight places around `(x, y)`.
    pub fn immediate_neighbours_occupied(&self, x: i64, y: i64) -> (r: usize)
        requires
            self.wf(),
            i64::MIN < x < i64::MAX,
            i64::MIN < y < i64::MAX,
        ensures
            r == adjacent_count(self@, self.grid_width as int, x as int, y as int, 8),
    {
        let directions = all_directions();
        let mut count: usize = 0;
        let mut k: usize = 0;
        while k < 8
            invariant
                0 <= k <= 8,
                self.wf(),
                i64::MIN < x < i64::MAX,
                i64::MIN < y < i64::MAX,
                forall|j: int| 0 <= j < 8 ==> #[trigger] directions[j] == direction(j),
                count == adjacent_count(self@, self.grid_width as int, x as int, y as int, k as int),
                count <= k,
            decreases 8 - k,
        {
            let d = directions[k];
            assert(d == direction(k as int));
            if let Some(Position::Seat(true)) = self.at(x + d.dx, y + d.dy) {
                count += 1;
            }
            k += 1;
        }
        count
    }

    /// 1 if the first seat that is seen from `(x, y)` in the direction `d`
    /// is occupied, else 0.
    pub fn line_of_sight_neighbour(&self, x: i64, y: i64, d: &Direction) -> (r: usize)
        requires
            self.wf(),
            i64::MIN < x < i64::MAX,
            i64::MIN < y < i64::MAX,
            -1 <= d.dx <= 1,
            -1 <= d.dy <= 1,
            d.dx != 0 || d.dy != 0,
        ensures
            r == seen(self@, self.grid_width as int, x as int, y as int, *d),
            r <= 1,
    {
        let width = self.grid_width as i64;
        let height = self.seats.len() as i64;
        let mut px: i64 = x + d.dx;
        let mut py: i64 = y + d.dy;
        let ghost mut fuel: nat = (width + height) as nat;
        loop
            invariant
                self.wf(),
                width == self.grid_width,
                height == self@.len(),
                -1 <= d.dx <= 1,
                -1 <= d.dy <= 1,
                d.dx != 0 || d.dy != 0,
                i64::MIN + 1 < px < i64::MAX - 1 || place_at(
                    self@,
                    width as int,
                    px as int,
                    py as int,
                ) is None,
                i64::MIN + 1 < py < i64::MAX - 1 || place_at(
                    self@,
                    width as int,
                    px as int,
                    py as int,
                ) is None,
                seen(self@, width as int, x as int, y as int, *d) == look(
                    self@,
                    width as int,
                    px as int,
                    py as int,
                    *d,
                    fuel,
                ),
                place_at(self@, width as int, px as int, py as int) is Some ==> fuel >= (if d.dx
                    == 1 {
                    width - px
                } else if d.dx == -1 {
                    px + 1
                } else if d.dy == 1 {
                    height - py
                } else {
                    py + 1
                }),
            decreases fuel,
        {
            match self.at(px, py) {
                None => {
                    return 0;
                },
                Some(Position::Seat(true)) => {
                    return 1;
                },
                Some(Position::Seat(false)) => {
                    return 0;
                },
                Some(Position::Floor) => {
                    px = px + d.dx;
                    py = py + d.dy;
                    proof {
                        fuel = (fuel - 1) as nat;
                    }
                },
            }
        }
    }

    /// The number of occupied seats that are seen from `(x, y)` in the eight
    /// directions.
    pub fn line_of_sight_neighbours_occupied(&self, x: i64, y: i64) -> (r: usize)
        requires
            self.wf(),
            i64::MIN < x < i64::MAX,
            i64::MIN < y < i64::MAX,
        ensures
            r == sight_count(self@, self.grid_width as int, x as int, y as int, 8),
    {
        let directions = all_directions();
        let mut count: usize = 0;
        let mut k: usize = 0;
        while k < 8
            invariant
                0 <= k <= 8,
                self.wf(),
                i64::MIN < x < i64::MAX,
                i64::MIN < y < i64::MAX,
                forall|j: int| 0 <= j < 8 ==> #[trigger] directions[j] == direction(j),
                count == sight_count(self@, self.grid_width as int, x as int, y as int, k as int),
                count <= k,
            decreases 8 - k,
        {
            let d = directions[k];
            assert(d == direction(k as int));
            count = count + self.line_of_sight_neighbour(x, y, &d);
            k += 1;
        }
        count
    }

    /// The number of occupied seats near `(x, y)` as `how` counts them.
    pub fn neighbours_occupied(&self, how: Counting, x: i64, y: i64) -> (r: usize)
        requires
            self.wf(),
            i64::MIN < x < i64::MAX,
            i64::MIN < y < i64::MAX,
        ensures
            r == near_count(self@, self.grid_width as int, how, x as int, y as int),
    {
        match how {
            Counting::Adjacent => self.immediate_neighbours_occupied(x, y),
            Counting::LineOfSight => self.line_of_sight_neighbours_occupied(x, y),
        }
    }

    /// The area in the next round, and whether any place changed.
    pub fn iterate(&self, neighbour_counter: Counting, overcrowding_limit: usize) -> (r: (Grid, bool))
        requires
            self.wf(),
        ensures
            r.0.wf(),
            r.0.grid_width == self.grid_width,
            r.0@ == next_rows(
                self@,
                self.grid_width as int,
                neighbour_counter,
                overcrowding_limit as nat,
            ),
            r.1 == changes(
                self@,
                self.grid_width as int,
                neighbour_counter,
                overcrowding_limit as nat,
            ),
    {
        let ghost rows = self@;
        let ghost width = self.grid_width as int;
        let ghost limit = overcrowding_limit as nat;
        let mut changed: bool = false;
        let mut next: Vec<Vec<Position>> = Vec::new();
        let mut y: usize = 0;
        while y < self.seats.len()
            invariant
                0 <= y <= self@.len(),
                self.wf(),
                rows == self@,
                width == self.grid_width,
                limit == overcrowding_limit,
                next@.len() == y,
                forall|k: int|
                    0 <= k < y ==> (#[trigger] next@[k])@ == next_rows(
                        rows,
                        width,
                        neighbour_counter,
                        limit,
                    )[k],
                changed <==> exists|i: int, j: int|
                    0 <= j < y && 0 <= i < width && (#[trigger] next_place(
                        rows,
                        width,
                        neighbour_counter,
                        limit,
                        i,
                        j,
                    )).1,
            decreases self@.len() - y,
        {
            let row = &self.seats[y];
            assert(row@ == rows[y as int]);
            assert(rows[y as int].len() == width);
            let mut fresh: Vec<Position> = Vec::new();
            let mut x: usize = 0;
            while x < row.len()
                invariant
                    0 <= x <= row@.len(),
                    0 <= y < self@.len(),
                    self.wf(),
                    rows == self@,
                    row@ == rows[y as int],
                    row@.len() == width,
                    width == self.grid_width,
                    limit == overcrowding_limit,
                    fresh@.len() == x,
                    forall|i: int|
                        0 <= i < x ==> #[trigger] fresh@[i] == next_place(
                            rows,
                            width,
                            neighbour_counter,
                            limit,
                            i,
                            y as int,
                        ).0,
                    changed <==> exists|i: int, j: int|
                        ((0 <= j < y && 0 <= i < width) || (j == y && 0 <= i < x))
                            && (#[trigger] next_place(rows, width, neighbour_counter, limit, i, j)).1,
                decreases row@.len() - x,
            {
                let count = self.neighbours_occupied(neighbour_counter, x as i64, y as i64);
                let (p, change) = get_next(&row[x], count, overcrowding_limit);
                assert((p, change) == next_place(
                    rows,
                    width,
                    neighbour_counter,
                    limit,
                    x as int,
                    y as int,
                ));
                if change {
                    changed = true;
                }
                fresh.push(p);
                x += 1;
            }
            assert(fresh@ =~= next_rows(rows, width, neighbour_counter, limit)[y as int]);
            next.push(fresh);
            y += 1;
        }
        let g = Grid { seats: next, grid_width: self.grid_width };
        assert(g@ =~= next_rows(rows, width, neighbour_counter, limit));
        (g, changed)
    }
}

/// The area after rounds were played until nothing changed, but no more
/// than `rounds` rounds, and the number of the round in which nothing
/// changed; `None` when `rounds` rounds did not suffice.
pub open spec fn settled(
    rows: Seq<Seq<Position>>,
    width: int,
    how: Counting,
    limit: nat,
    rounds: nat,
) -> Option<(int, Seq<Seq<Position>>)>
    decreases rounds,
{
    if rounds == 0 {
        None
    } else if !changes(rows, width, how, limit) {
        Some((1int, rows))
    } else {
        match settled(next_rows(rows, width, how, limit), width, how, limit, (rounds - 1) as nat) {
            Some((n, last)) => Some((n + 1, last)),
            None => None,
        }
    }
}

/// Plays rounds until a round changes nothing, and gives the number of that
/// round and the area.  It is not known whether every area settles, so no
/// more than `max_rounds` rounds are played.
pub fn iterate_until_stable(
    initial: Grid,
    occ_counter: Counting,
    overcrowding_limit: usize,
    max_rounds: usize,
) -> (r: Option<(i64, Grid)>)
    requires
        initial.wf(),
        max_rounds < i64::MAX,
    ensures
        r is Some <==> settled(
            initial@,
            initial.grid_width as int,
            occ_counter,
            overcrowding_limit as nat,
            max_rounds as nat,
        ) is Some,
        r matches Some(found) ==> settled(
            initial@,
            initial.grid_width as int,
            occ_counter,
            overcrowding_limit as nat,
            max_rounds as nat,
        ) == Some((found.0 as int, found.1@)),
{
    let ghost width = initial.grid_width as int;
    let ghost limit = overcrowding_limit as nat;
    let ghost whole = settled(initial@, width, occ_counter, limit, max_rounds as nat);
    let mut current = initial;
    let mut iteration: usize = 0;
    while iteration < max_rounds
        invariant
            0 <= iteration <= max_rounds,
            max_rounds < i64::MAX,
            current.wf(),
            current.grid_width == width,
            limit == overcrowding_limit,
            width == initial.grid_width,
            whole == settled(initial@, width, occ_counter, limit, max_rounds as nat),
            whole == (match settled(
                current@,
                width,
                occ_counter,
                limit,
                (max_rounds - iteration) as nat,
            ) {
                Some((n, last)) => Some((n + iteration, last)),
                None => None,
            }),
        decreases max_rounds - iteration,
    {
        let (next, changed) = current.iterate(occ_counter, overcrowding_limit);
        if !changed {
            return Some(((iteration + 1) as i64, current));
        }
        current = next;
        iteration += 1;
    }
    None
}

/// Once a character that stands for no place was found, the characters
/// after it change nothing.
pub proof fn lemma_bad_sticks(line: Seq<char>, n: int, m: int)
    requires
        0 <= n <= m,
        first_bad(line, n) is Some,
    ensures
        first_bad(line, m) == first_bad(line, n),
    decreases m - n,
{
    if n < m {
        lemma_bad_sticks(line, n, m - 1);
    }
}

/// Once a line with a character that stands for no place was found, the
/// lines after it change nothing.
pub proof fn lemma_bad_of_sticks(lines: Seq<String>, n: int, m: int)
    requires
        0 <= n <= m,
        first_bad_of(lines, n) is Some,
    ensures
        first_bad_of(lines, m) == first_bad_of(lines, n),
    decreases m - n,
{
    if n < m {
        lemma_bad_of_sticks(lines, n, m - 1);
    }
}

/// More rows hold at least as many occupied seats.
pub proof fn lemma_occupation_grows(rows: Seq<Seq<Position>>, n: int, m: int)
    requires
        n <= m,
    ensures
        occupation(rows, n) <= occupation(rows, m),
    decreases m - n,
{
    if n < m {
        lemma_occupation_grows(rows, n, m - 1);
    }
}

} // verus!
