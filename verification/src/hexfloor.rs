//! A floor of six-sided tiles that are white or black.  Tiles are named by
//! two ordinates: a step east adds 2 to `x`, a step north-east adds 1 to
//! both.
use crate::solution::{key_of, lemma_position_key_injective, position_key, Position};
use crate::text::chars_of;
use std::collections::HashSet;
use vstd::prelude::*;
use vstd::std_specs::iter::IteratorSpec;

verus! {

broadcast use vstd::std_specs::hash::group_hash_axioms;

/// The six directions from a tile to its neighbours.
#[derive(Debug, Clone, Copy, PartialEq, Eq, Structural)]
pub enum Direction {
    NE,
    E,
    SE,
    SW,
    W,
    NW,
}

/// The black tiles.
pub struct Floor {
    pub black_tiles: HashSet<u64>,
}

impl Direction {
    /// What a step in this direction adds to the ordinates.
    pub open spec fn delta_of(self) -> (int, int) {
        match self {
            Direction::NE => (1, 1),
            Direction::E => (2, 0),
            Direction::SE => (1, -1),
            Direction::SW => (-1, -1),
            Direction::W => (-2, 0),
            Direction::NW => (-1, 1),
        }
    }

    /// The direction that leads back.
    pub open spec fn back(self) -> Direction {
        match self {
            Direction::NE => Direction::SW,
            Direction::E => Direction::W,
            Direction::SE => Direction::NW,
            Direction::SW => Direction::NE,
            Direction::W => Direction::E,
            Direction::NW => Direction::SE,
        }
    }

    /// The direction with the number `k`.
    pub open spec fn at(k: int) -> Direction {
        if k == 0 {
            Direction::NE
        } else if k == 1 {
            Direction::E
        } else if k == 2 {
            Direction::SE
        } else if k == 3 {
            Direction::SW
        } else if k == 4 {
            Direction::W
        } else {
            Direction::NW
        }
    }

    /// The number of the direction.
    pub open spec fn number(self) -> int {
        match self {
            Direction::NE => 0,
            Direction::E => 1,
            Direction::SE => 2,
            Direction::SW => 3,
            Direction::W => 4,
            Direction::NW => 5,
        }
    }

    /// What a step in this direction adds to the ordinates.
    pub fn delta(&self) -> (r: (i32, i32))
        ensures
            (r.0 as int, r.1 as int) == self.delta_of(),
    {
        match self {
            Direction::NE => (1, 1),
            Direction::E => (2, 0),
            Direction::SE => (1, -1),
            Direction::SW => (-1, -1),
            Direction::W => (-2, 0),
            Direction::NW => (-1, 1),
        }
    }

    /// The six directions.
    pub fn all() -> (r: [Direction; 6])
        ensures
            forall|k: int| 0 <= k < 6 ==> #[trigger] r[k] == Direction::at(k),
    {
        [Direction::NE, Direction::E, Direction::SE, Direction::SW, Direction::W, Direction::NW]
    }
}

/// Whether a step in any direction from `p`, and one more, stays among the
/// tiles that 32 bits can name.
pub open spec fn roomy(p: Position) -> bool {
    -0x7fff_fff0 < p.x < 0x7fff_fff0 && -0x7fff_fff0 < p.y < 0x7fff_fff0
}

/// The tile that a step in the direction `d` leads to.
pub open spec fn moved(p: Position, d: Direction) -> Position {
    Position { x: (p.x + d.delta_of().0) as i32, y: (p.y + d.delta_of().1) as i32 }
}

/// The tile that a step in the direction `d` leads to.
pub fn delta(p: &Position, d: &Direction) -> (r: Position)
    requires
        roomy(*p),
    ensures
        r == moved(*p, *d),
{
    let step = d.delta();
    Position { x: p.x + step.0, y: p.y + step.1 }
}

/// What one more character makes of the letter that was kept: `n` and `s`
/// are kept for the letter that follows them, and `e` and `w` end a
/// direction.  `None` where the letters name no direction.
pub open spec fn direction_step(saved: Option<char>, current: char) -> Option<
    (Option<char>, Option<Direction>),
> {
    if saved is None && (current == 'n' || current == 's') {
        Some((Some(current), None))
    } else if saved == Some('n') && current == 'e' {
        Some((None, Some(Direction::NE)))
    } else if saved is None && current == 'e' {
        Some((None, Some(Direction::E)))
    } else if saved == Some('s') && current == 'e' {
        Some((None, Some(Direction::SE)))
    } else if saved == Some('s') && current == 'w' {
        Some((None, Some(Direction::SW)))
    } else if saved is None && current == 'w' {
        Some((None, Some(Direction::W)))
    } else if saved == Some('n') && current == 'w' {
        Some((None, Some(Direction::NW)))
    } else {
        None
    }
}

/// Takes one more character of a path into account.
pub fn get_direction(saved: &Option<char>, current: char) -> (r: Option<
    (Option<char>, Option<Direction>),
>)
    ensures
        r == direction_step(*saved, current),
{
    match saved {
        None => {
            if current == 'n' || current == 's' {
                Some((Some(current), None))
            } else if current == 'e' {
                Some((None, Some(Direction::E)))
            } else if current == 'w' {
                Some((None, Some(Direction::W)))
            } else {
                None
            }
        },
        Some(kept) => {
            if *kept == 'n' && current == 'e' {
                Some((None, Some(Direction::NE)))
            } else if *kept == 's' && current == 'e' {
                Some((None, Some(Direction::SE)))
            } else if *kept == 's' && current == 'w' {
                Some((None, Some(Direction::SW)))
            } else if *kept == 'n' && current == 'w' {
                Some((None, Some(Direction::NW)))
            } else {
                None
            }
        },
    }
}

/// The directions that the first `n` characters of a path spell, and the
/// letter that is kept for the next; `None` where the letters name no
/// direction.
pub open spec fn spelled(s: Seq<char>, n: int) -> Option<(Option<char>, Seq<Direction>)>
    decreases n,
{
    if n <= 0 {
        Some((None, Seq::empty()))
    } else {
        match spelled(s, n - 1) {
            None => None,
            Some((saved, dirs)) => match direction_step(saved, s[n - 1]) {
                None => None,
                Some((keep, Some(d))) => Some((keep, dirs.push(d))),
                Some((keep, None)) => Some((keep, dirs)),
            },
        }
    }
}

/// Nothing that follows can mend a path that went wrong.
pub proof fn lemma_spelled_sticks(s: Seq<char>, n: int, m: int)
    requires
        0 <= n <= m,
        spelled(s, n) is None,
    ensures
        spelled(s, m) is None,
    decreases m - n,
{
    if n < m {
        lemma_spelled_sticks(s, n, m - 1);
    }
}

/// A path spells at most as many directions as it has characters.
pub proof fn lemma_spelled_length(s: Seq<char>, n: int)
    requires
        0 <= n,
    ensures
        spelled(s, n) matches Some(found) ==> found.1.len() <= n,
    decreases n,
{
    if n > 0 {
        lemma_spelled_length(s, n - 1);
    }
}

/// The directions of a path such as `nwwswee`.  A letter `n` or `s` at the
/// very end is passed over.  `None` where the letters name no direction.
pub fn split_directions(s: &str) -> (r: Option<Vec<Direction>>)
    ensures
        r is Some <==> spelled(s@, s@.len() as int) is Some,
        r matches Some(dirs) ==> spelled(s@, s@.len() as int)->Some_0.1 == dirs@,
{
    let chars = chars_of(s);
    let mut result: Vec<Direction> = Vec::new();
    let mut saved: Option<char> = None;
    let mut i: usize = 0;
    while i < chars.len()
        invariant
            0 <= i <= chars.len(),
            chars@ == s@,
            spelled(s@, i as int) == Some((saved, result@)),
        decreases chars.len() - i,
    {
        match get_direction(&saved, chars[i]) {
            None => {
                proof {
                    lemma_spelled_sticks(s@, i + 1, s@.len() as int);
                }
                return None;
            },
            Some((keep, d)) => {
                match d {
                    None => {},
                    Some(dir) => {
                        result.push(dir);
                    },
                }
                saved = keep;
            },
        }
        i += 1;
    }
    Some(result)
}

/// The tile that is reached from `p` by the first `n` of the directions.
pub open spec fn walked(p: Position, dirs: Seq<Direction>, n: int) -> Position
    decreases n,
{
    if n <= 0 {
        p
    } else {
        moved(walked(p, dirs, n - 1), dirs[n - 1])
    }
}

/// Whether the tile `p` is black.
pub open spec fn black_at(black: Set<u64>, p: Position) -> bool {
    black.contains(position_key(p))
}

/// The number of black tiles among the neighbours of `p` in the first `k`
/// directions.
pub open spec fn black_neighbours(black: Set<u64>, p: Position, k: int) -> nat
    decreases k,
{
    if k <= 0 {
        0
    } else {
        black_neighbours(black, p, k - 1) + if black_at(black, moved(p, Direction::at(k - 1))) {
            1nat
        } else {
            0nat
        }
    }
}

/// Whether the tile `p` is black on the next day: a black tile stays black
/// with one or two black neighbours, and a white tile turns black with
/// exactly two.
pub open spec fn black_next(black: Set<u64>, p: Position) -> bool {
    roomy(p) && (if black_at(black, p) {
        black_neighbours(black, p, 6) == 1 || black_neighbours(black, p, 6) == 2
    } else {
        black_neighbours(black, p, 6) == 2
    })
}

/// The black tiles of the next day.
pub open spec fn next_black(black: Set<u64>) -> Set<u64> {
    Set::new(|k: u64| exists|p: Position| k == position_key(p) && black_next(black, p))
}

/// Whether every black tile lies so that its neighbours and theirs can be
/// named.
pub open spec fn all_roomy(black: Set<u64>) -> bool {
    forall|p: Position| black_at(black, p) ==> -0x4000_0000 < p.x < 0x4000_0000 && -0x4000_0000
        < p.y < 0x4000_0000
}

/// The tile that is filed under the number `k`.
pub fn position_of_key(k: u64) -> (p: Position)
    ensures
        position_key(p) == k,
{
    let x: i64 = (k / 0x1_0000_0000) as i64 - 0x8000_0000;
    let y: i64 = (k % 0x1_0000_0000) as i64 - 0x8000_0000;
    Position { x: x as i32, y: y as i32 }
}

/// A tile with a black neighbour has one in some direction.
pub proof fn lemma_some_neighbour(black: Set<u64>, p: Position, k: int)
    requires
        0 <= k <= 6,
        black_neighbours(black, p, k) > 0,
    ensures
        exists|i: int| 0 <= i < k && black_at(black, moved(p, #[trigger] Direction::at(i))),
    decreases k,
{
    if k > 0 {
        if black_at(black, moved(p, Direction::at(k - 1))) {
        } else {
            lemma_some_neighbour(black, p, k - 1);
            let i = choose|i: int|
                0 <= i < k - 1 && black_at(black, moved(p, #[trigger] Direction::at(i)));
            assert(0 <= i < k);
        }
    }
}

impl Floor {
    /// The numbers of the black tiles.
    pub open spec fn view(&self) -> Set<u64> {
        self.black_tiles@
    }

    /// A floor on which every tile is white.
    pub fn new() -> (r: Floor)
        ensures
            r@ == Set::<u64>::empty(),
    {
        Floor { black_tiles: HashSet::new() }
    }

    /// Turns the tile `p` over.
    pub fn flip(&mut self, p: Position)
        ensures
            final(self)@ == (if black_at(old(self)@, p) {
                old(self)@.remove(position_key(p))
            } else {
                old(self)@.insert(position_key(p))
            }),
    {
        let k = key_of(&p);
        if self.black_tiles.contains(&k) {
            self.black_tiles.remove(&k);
        } else {
            self.black_tiles.insert(k);
        }
    }

    /// The number of black tiles.
    pub fn count_black_tiles(&self) -> (r: usize)
        ensures
            r == self@.len(),
    {
        self.black_tiles.len()
    }

    /// Follows the path `line` from the tile in the middle and turns the
    /// tile at its end over.  Tells whether the path could be read; if not,
    /// nothing changes.
    pub fn obey(&mut self, line: &str) -> (r: bool)
        requires
            line@.len() < 0x2000_0000,
        ensures
            r == spelled(line@, line@.len() as int) is Some,
            !r ==> final(self)@ == old(self)@,
            r ==> final(self)@ == ({
                let dirs = spelled(line@, line@.len() as int)->Some_0.1;
                let end = walked(Position { x: 0, y: 0 }, dirs, dirs.len() as int);
                if black_at(old(self)@, end) {
                    old(self)@.remove(position_key(end))
                } else {
                    old(self)@.insert(position_key(end))
                }
            }),
    {
        let dirs = match split_directions(line) {
            Some(dirs) => dirs,
            None => {
                return false;
            },
        };
        proof {
            lemma_spelled_length(line@, line@.len() as int);
        }
        let mut p = Position { x: 0, y: 0 };
        let mut i: usize = 0;
        while i < dirs.len()
            invariant
                0 <= i <= dirs.len(),
                dirs@.len() < 0x2000_0000,
                p == walked(Position { x: 0, y: 0 }, dirs@, i as int),
                -2 * i <= p.x <= 2 * i,
                -2 * i <= p.y <= 2 * i,
            decreases dirs.len() - i,
        {
            p = delta(&p, &dirs[i]);
            i += 1;
        }
        self.flip(p);
        true
    }

    /// Whether the tile `p` is black on the next day.
    pub fn turns_black(&self, p: &Position) -> (r: bool)
        requires
            roomy(*p),
        ensures
            r == black_next(self@, *p),
    {
        let directions = Direction::all();
        let mut count: usize = 0;
        let mut k: usize = 0;
        while k < 6
            invariant
                0 <= k <= 6,
                roomy(*p),
                forall|j: int| 0 <= j < 6 ==> #[trigger] directions[j] == Direction::at(j),
                count == black_neighbours(self@, *p, k as int),
                count <= k,
            decreases 6 - k,
        {
            let d = directions[k];
            assert(d == Direction::at(k as int));
            let n = delta(p, &d);
            let key = key_of(&n);
            if self.black_tiles.contains(&key) {
                count += 1;
            }
            k += 1;
        }
        let key = key_of(p);
        if self.black_tiles.contains(&key) {
            count == 1 || count == 2
        } else {
            count == 2
        }
    }

    /// The floor of the next day: every black tile with no or with more than
    /// two black neighbours turns white, and every white tile with exactly
    /// two black neighbours turns black.
    pub fn iterate(&self) -> (r: Floor)
        requires
            all_roomy(self@),
        ensures
            r@ == next_black(self@),
    {
        let ghost black = self@;
        let ghost all = vstd::std_specs::hash::spec_hash_keys_iter(&self.black_tiles).remaining();
        let ghost mut done: int = 0;
        let directions = Direction::all();
        let mut next: HashSet<u64> = HashSet::new();
        let tiles = self.black_tiles.iter();
        for k in it: tiles
            invariant
                it.seq() == all,
                done == it.index(),
                black == self@,
                all.unref().to_set() == black,
                all_roomy(black),
                forall|j: int| 0 <= j < 6 ==> #[trigger] directions[j] == Direction::at(j),
                forall|key: u64|
                    next@.contains(key) ==> exists|p: Position|
                        key == position_key(p) && black_next(black, p),
                forall|j: int, i: int|
                    0 <= j < done && 0 <= i < 6 ==> {
                        let p = moved(position_at(*#[trigger] all[j]), #[trigger] Direction::at(i));
                        black_next(black, p) ==> next@.contains(position_key(p))
                    },
        {
            assert(all[done] == k);
            let t = position_of_key(*k);
            proof {
                assert(all.unref()[done] == *k);
                assert(all.unref().to_set().contains(*k));
                assert(black_at(black, t));
                lemma_position_at(*k, t);
            }
            let mut i: usize = 0;
            while i < 6
                invariant
                    0 <= i <= 6,
                    black == self@,
                    all_roomy(black),
                    black_at(black, t),
                    t == position_at(*k),
                    forall|j: int| 0 <= j < 6 ==> #[trigger] directions[j] == Direction::at(j),
                    forall|key: u64|
                        next@.contains(key) ==> exists|p: Position|
                            key == position_key(p) && black_next(black, p),
                    forall|j: int, n: int|
                        0 <= j < done && 0 <= n < 6 ==> {
                            let p = moved(
                                position_at(*#[trigger] all[j]),
                                #[trigger] Direction::at(n),
                            );
                            black_next(black, p) ==> next@.contains(position_key(p))
                        },
                    forall|n: int|
                        0 <= n < i ==> {
                            let p = moved(t, #[trigger] Direction::at(n));
                            black_next(black, p) ==> next@.contains(position_key(p))
                        },
                decreases 6 - i,
            {
                let d = directions[i];
                assert(d == Direction::at(i as int));
                let p = delta(&t, &d);
                if self.turns_black(&p) {
                    let key = key_of(&p);
                    next.insert(key);
                }
                i += 1;
            }
            proof {
                done = done + 1;
            }
        }
        proof {
            assert(done == all.len());
            assert forall|key: u64| next@.contains(key) <==> next_black(black).contains(key) by {
                if next_black(black).contains(key) {
                    let p = choose|p: Position| key == position_key(p) && black_next(black, p);
                    assert(black_neighbours(black, p, 6) > 0);
                    lemma_some_neighbour(black, p, 6);
                    let i = choose|i: int|
                        0 <= i < 6 && black_at(black, moved(p, #[trigger] Direction::at(i)));
                    let d = Direction::at(i);
                    let t = moved(p, d);
                    let tk = position_key(t);
                    assert(all.unref().to_set().contains(tk));
                    let j = choose|j: int| 0 <= j < all.unref().len() && all.unref()[j] == tk;
                    assert(*all[j] == tk);
                    lemma_position_at(tk, t);
                    assert(moved(t, d.back()) == p);
                    assert(Direction::at(d.back().number()) == d.back());
                    let n = d.back().number();
                    assert(moved(position_at(*all[j]), Direction::at(n)) == p);
                }
            }
            assert(next@ =~= next_black(black));
        }
        Floor { black_tiles: next }
    }
}

/// The tile that is filed under the number `k`.
pub open spec fn position_at(k: u64) -> Position {
    Position { x: (k / 0x1_0000_0000 - 0x8000_0000) as i32, y: (k % 0x1_0000_0000 - 0x8000_0000) as i32 }
}

/// A tile is the tile that is filed under its number.
pub proof fn lemma_position_at(k: u64, p: Position)
    requires
        position_key(p) == k,
    ensures
        position_at(k) == p,
{
    let q = position_at(k);
    assert(position_key(q) == k);
    lemma_position_key_injective(p, q);
}

} // verus!
