//! The layout under construction: which tile lies where, and the frontier of
//! borders that still face an empty position.
use crate::edge::{fingerprint, EdgePattern};
use crate::manipulation::{Direction, Manipulation};
use crate::tile::{Tile, TileId};
use std::collections::HashMap;
use vstd::prelude::*;

verus! {

broadcast use vstd::std_specs::hash::group_hash_axioms;

/// A place on the plane.  East is the direction of growing `x`, north that of
/// growing `y`.
#[derive(Debug, Copy, Clone, PartialEq, Eq, Hash, Structural)]
pub struct Position {
    pub x: i32,
    pub y: i32,
}

/// A border of a placed tile that faces an empty position.
#[derive(Debug, Clone, Copy, PartialEq, Eq, Structural)]
pub struct ExposedEdge {
    pub edge_pattern: EdgePattern,
    pub pos: Position,
    pub direction: Direction,
}

/// Which tile lies where and how it is turned, in both directions, and the
/// frontier.
pub struct TileLocationSolution {
    pub tile_to_position: HashMap<i32, (Position, Manipulation)>,
    pub position_to_tile: HashMap<u64, i32>,
    pub exposed_edges: Vec<ExposedEdge>,
}

/// The position next to `p` in the direction `d`.
pub open spec fn neighbour(p: Position, d: Direction) -> Position {
    match d {
        Direction::N => Position { x: p.x, y: (p.y + 1) as i32 },
        Direction::E => Position { x: (p.x + 1) as i32, y: p.y },
        Direction::S => Position { x: p.x, y: (p.y - 1) as i32 },
        Direction::W => Position { x: (p.x - 1) as i32, y: p.y },
    }
}

/// Whether `p` has a neighbour on every side, that is, lies off the rim of
/// the plane that 32 bits can address.
pub open spec fn inner(p: Position) -> bool {
    i32::MIN < p.x < i32::MAX && i32::MIN < p.y < i32::MAX
}

/// The number under which a position is filed: the two coordinates, each
/// moved into the range from 0, side by side.
pub open spec fn position_key(p: Position) -> u64 {
    ((p.x + 0x8000_0000) * 0x1_0000_0000 + (p.y + 0x8000_0000)) as u64
}

/// Different positions are filed under different numbers.
pub proof fn lemma_position_key_injective(p: Position, q: Position)
    requires
        position_key(p) == position_key(q),
    ensures
        p == q,
{
    let a = p.x + 0x8000_0000;
    let b = p.y + 0x8000_0000;
    let c = q.x + 0x8000_0000;
    let d = q.y + 0x8000_0000;
    assert(a * 0x1_0000_0000 + b == c * 0x1_0000_0000 + d);
    assert(a == c) by (nonlinear_arith)
        requires
            a * 0x1_0000_0000 + b == c * 0x1_0000_0000 + d,
            0 <= b < 0x1_0000_0000,
            0 <= d < 0x1_0000_0000,
    ;
}

/// Stepping to a neighbour and back leads to where one started.
pub proof fn lemma_neighbour_back(p: Position, d: Direction)
    requires
        inner(p),
    ensures
        neighbour(neighbour(p, d), d.opposite()) == p,
        neighbour(p, d) != p,
{
}

/// The position next to `pos` in the direction `edge`.
pub fn get_neighbour(pos: &Position, edge: Direction) -> (r: Position)
    requires
        inner(*pos),
    ensures
        r == neighbour(*pos, edge),
{
    match edge {
        Direction::N => Position { x: pos.x, y: pos.y + 1 },
        Direction::E => Position { x: pos.x + 1, y: pos.y },
        Direction::S => Position { x: pos.x, y: pos.y - 1 },
        Direction::W => Position { x: pos.x - 1, y: pos.y },
    }
}

/// Executable form of [`position_key`].
pub fn key_of(p: &Position) -> (r: u64)
    ensures
        r == position_key(*p),
{
    let x: u64 = (p.x as i64 + 0x8000_0000) as u64;
    let y: u64 = (p.y as i64 + 0x8000_0000) as u64;
    x * 0x1_0000_0000 + y
}

/// The positions that are filed in `filed`.
pub open spec fn occupied_in(filed: Map<u64, i32>) -> Set<Position> {
    Set::new(|p: Position| filed.contains_key(position_key(p)))
}

/// The side of a tile that an edge stands for.
pub open spec fn side_of(e: ExposedEdge) -> (Position, Direction) {
    (e.pos, e.direction)
}

/// Whether no two edges of `edges` stand for the same side of the same tile.
pub open spec fn distinct_sides(edges: Seq<ExposedEdge>) -> bool {
    forall|i: int, j: int|
        0 <= i < j < edges.len() ==> side_of(#[trigger] edges[i]) != side_of(#[trigger] edges[j])
}

/// Whether `e` is the border of a tile newly placed at `pos` on one of its
/// first `k` sides, and faces an empty position.
pub open spec fn is_fresh(
    e: ExposedEdge,
    rows: Seq<Seq<u8>>,
    width: nat,
    pos: Position,
    occupied: Set<Position>,
    k: int,
) -> bool {
    exists|n: int|
        0 <= n < k && e == edge_of(rows, width, pos, #[trigger] direction_at(n))
            && !occupied.contains(neighbour(pos, direction_at(n)))
}

/// The edges of `edges` that do not face `pos`, in their order.
pub open spec fn without_facing(edges: Seq<ExposedEdge>, pos: Position) -> Seq<ExposedEdge>
    decreases edges.len(),
{
    if edges.len() == 0 {
        edges
    } else if neighbour(edges.last().pos, edges.last().direction) == pos {
        without_facing(edges.drop_last(), pos)
    } else {
        without_facing(edges.drop_last(), pos).push(edges.last())
    }
}

/// Whether `edges` holds the border of the tile at `p` on the side `d`.
pub open spec fn has_edge(edges: Seq<ExposedEdge>, p: Position, d: Direction) -> bool {
    exists|i: int| 0 <= i < edges.len() && (#[trigger] edges[i]).pos == p && edges[i].direction == d
}

/// The border on the side `d` of a tile at `pos` whose matrix is `rows`.
pub open spec fn edge_of(rows: Seq<Seq<u8>>, width: nat, pos: Position, d: Direction) -> ExposedEdge {
    ExposedEdge { edge_pattern: EdgePattern { bits: fingerprint(rows, width, d) }, pos, direction: d }
}

/// The direction with the number `k` in the order north, east, south, west.
pub open spec fn direction_at(k: int) -> Direction {
    if k == 0 {
        Direction::N
    } else if k == 1 {
        Direction::E
    } else if k == 2 {
        Direction::S
    } else {
        Direction::W
    }
}

/// The borders of a tile newly placed at `pos` that face an empty position,
/// among its first `k` sides in the order north, east, south, west.
/// `occupied` tells which positions hold a tile.
pub open spec fn fresh_edges(
    rows: Seq<Seq<u8>>,
    width: nat,
    pos: Position,
    occupied: Set<Position>,
    k: int,
) -> Seq<ExposedEdge>
    decreases k,
{
    if k <= 0 {
        Seq::empty()
    } else if occupied.contains(neighbour(pos, direction_at(k - 1))) {
        fresh_edges(rows, width, pos, occupied, k - 1)
    } else {
        fresh_edges(rows, width, pos, occupied, k - 1).push(
            edge_of(rows, width, pos, direction_at(k - 1)),
        )
    }
}

/// What a solution says, without the way it is stored: where each placed
/// tile lies and how it is turned, which tile lies at each occupied position,
/// and the frontier.
pub struct Layout {
    pub placed: Map<i32, (Position, Manipulation)>,
    pub at: Map<Position, i32>,
    pub frontier: Seq<ExposedEdge>,
}

impl Layout {
    /// The layout in which nothing is placed.
    pub open spec fn empty() -> Layout {
        Layout { placed: Map::empty(), at: Map::empty(), frontier: Seq::empty() }
    }

    /// The layout after the tile `id`, whose matrix as it is turned is `rows`,
    /// was put at `pos`.
    pub open spec fn place(
        self,
        rows: Seq<Seq<u8>>,
        width: nat,
        id: i32,
        how: Manipulation,
        pos: Position,
    ) -> Layout {
        Layout {
            placed: self.placed.insert(id, (pos, how)),
            at: self.at.insert(pos, id),
            frontier: without_facing(self.frontier, pos) + fresh_edges(
                rows,
                width,
                pos,
                self.at.insert(pos, id).dom(),
                4,
            ),
        }
    }
}

impl TileLocationSolution {
    /// What the solution says.
    pub open spec fn view(&self) -> Layout {
        Layout {
            placed: self.tile_to_position@,
            at: Map::new(|p: Position| self.is_occupied(p), |p: Position| self.tile_at(p)),
            frontier: self.exposed_edges@,
        }
    }

    /// The placed tiles: from the id of a tile to its position and
    /// manipulation.
    pub open spec fn placed(&self) -> Map<i32, (Position, Manipulation)> {
        self.tile_to_position@
    }

    /// Whether a tile lies at `p`.
    pub open spec fn is_occupied(&self, p: Position) -> bool {
        self.position_to_tile@.contains_key(position_key(p))
    }

    /// The set of positions that hold a tile.
    pub open spec fn occupied_set(&self) -> Set<Position> {
        occupied_in(self.position_to_tile@)
    }

    /// The id of the tile at `p`, where there is one.
    pub open spec fn tile_at(&self, p: Position) -> i32 {
        self.position_to_tile@[position_key(p)]
    }

    /// The frontier.
    pub open spec fn frontier(&self) -> Seq<ExposedEdge> {
        self.exposed_edges@
    }

    /// The two mappings are inverse to each other.
    pub open spec fn maps_agree(&self) -> bool {
        &&& forall|id: i32| #[trigger]
            self.placed().contains_key(id) ==> self.is_occupied(self.placed()[id].0)
                && self.tile_at(self.placed()[id].0) == id && inner(self.placed()[id].0)
        &&& forall|k: u64| #[trigger]
            self.position_to_tile@.contains_key(k) ==> self.placed().contains_key(
                self.position_to_tile@[k],
            ) && position_key(self.placed()[self.position_to_tile@[k]].0) == k
    }

    /// The frontier holds exactly the borders of placed tiles that face an
    /// empty position, each once.
    pub open spec fn frontier_exact(&self) -> bool {
        &&& forall|i: int|
            0 <= i < self.frontier().len() ==> self.is_occupied((#[trigger] self.frontier()[i]).pos)
                && !self.is_occupied(neighbour(self.frontier()[i].pos, self.frontier()[i].direction))
        &&& forall|p: Position, d: Direction|
            self.is_occupied(p) && !self.is_occupied(#[trigger] neighbour(p, d)) ==> has_edge(
                self.frontier(),
                p,
                d,
            )
        &&& distinct_sides(self.frontier())
    }

    /// The invariant of a solution: no tile twice, no position twice, and a
    /// frontier that is up to date.
    pub open spec fn wf(&self) -> bool {
        self.maps_agree() && self.frontier_exact()
    }

    /// The solution in which nothing is placed.
    pub fn new() -> (r: TileLocationSolution)
        ensures
            r.wf(),
            r@ == Layout::empty(),
            forall|p: Position| !r.is_occupied(p),
    {
        let r = TileLocationSolution {
            tile_to_position: HashMap::new(),
            position_to_tile: HashMap::new(),
            exposed_edges: Vec::new(),
        };
        assert(r@.at =~= Map::<Position, i32>::empty());
        r
    }

    /// Whether a tile lies at `pos`.
    pub fn occupied(&self, pos: &Position) -> (r: bool)
        ensures
            r == self.is_occupied(*pos),
    {
        let k = key_of(pos);
        self.position_to_tile.contains_key(&k)
    }

    /// Where the tile `tile_id` lies and how it is turned, if it is placed.
    pub fn get_position_of_tile(&self, tile_id: &TileId) -> (r: Option<(Position, Manipulation)>)
        ensures
            r is Some <==> self.placed().contains_key(tile_id.val),
            r matches Some(found) ==> found == self.placed()[tile_id.val],
    {
        match self.tile_to_position.get(&tile_id.val) {
            Some(found) => Some(*found),
            None => None,
        }
    }

    /// The tile at `pos` and how it is turned, if there is one.
    pub fn get_tile_at_position(&self, pos: &Position) -> (r: Option<(TileId, Manipulation)>)
        requires
            self.maps_agree(),
        ensures
            r is Some <==> self.is_occupied(*pos),
            r matches Some(found) ==> found.0.val == self.tile_at(*pos) && self.placed().contains_key(
                found.0.val,
            ) && self.placed()[found.0.val] == (*pos, found.1),
    {
        let k = key_of(pos);
        match self.position_to_tile.get(&k) {
            Some(tid) => {
                match self.tile_to_position.get(tid) {
                    Some(found) => {
                        proof {
                            lemma_position_key_injective(found.0, *pos);
                        }
                        Some((TileId { val: *tid }, found.1))
                    },
                    None => None,
                }
            },
            None => None,
        }
    }

    /// The number of placed tiles.
    pub fn len(&self) -> (r: usize)
        ensures
            r == self.placed().len(),
    {
        self.tile_to_position.len()
    }

    /// Puts `tile`, turned as `how` says, at `pos`, and brings the frontier
    /// up to date: the borders that faced `pos` leave it, and the borders of
    /// the new tile that face an empty position join it at the end, in the
    /// order north, east, south, west.
    pub fn place_tile(&mut self, tile: &Tile, how: &Manipulation, pos: &Position)
        requires
            old(self).wf(),
            tile.wf(),
            !old(self).placed().contains_key(tile.id.val),
            !old(self).is_occupied(*pos),
            inner(*pos),
        ensures
            final(self).wf(),
            final(self).placed() == old(self).placed().insert(tile.id.val, (*pos, *how)),
            forall|p: Position| final(self).is_occupied(p) <==> old(self).is_occupied(p) || p == *pos,
            forall|p: Position|
                old(self).is_occupied(p) ==> final(self).tile_at(p) == old(self).tile_at(p),
            final(self).tile_at(*pos) == tile.id.val,
            final(self).frontier() == without_facing(old(self).frontier(), *pos) + fresh_edges(
                how.apply(tile.d@, tile.size()),
                tile.size(),
                *pos,
                final(self).occupied_set(),
                4,
            ),
            final(self)@ == old(self)@.place(
                how.apply(tile.d@, tile.size()),
                tile.size(),
                tile.id.val,
                *how,
                *pos,
            ),
    {
        let ghost before = *self;
        let k = key_of(pos);
        self.tile_to_position.insert(tile.id.val, (*pos, *how));
        self.position_to_tile.insert(k, tile.id.val);
        proof {
            assert forall|p: Position| self.is_occupied(p) <==> before.is_occupied(p) || p
                == *pos by {
                if position_key(p) == k {
                    lemma_position_key_injective(p, *pos);
                }
            }
            assert forall|p: Position| before.is_occupied(p) implies self.tile_at(p)
                == before.tile_at(p) by {
                if position_key(p) == k {
                    lemma_position_key_injective(p, *pos);
                }
            }
            assert(self.maps_agree()) by {
                assert forall|id: i32| #[trigger] self.placed().contains_key(id) implies self.is_occupied(
                    self.placed()[id].0,
                ) && self.tile_at(self.placed()[id].0) == id && inner(self.placed()[id].0) by {
                    if id != tile.id.val {
                        assert(before.placed().contains_key(id));
                        let p = before.placed()[id].0;
                        assert(before.is_occupied(p));
                        if position_key(p) == k {
                            lemma_position_key_injective(p, *pos);
                        }
                    }
                }
                assert forall|kk: u64| #[trigger]
                    self.position_to_tile@.contains_key(kk) implies self.placed().contains_key(
                    self.position_to_tile@[kk],
                ) && position_key(self.placed()[self.position_to_tile@[kk]].0) == kk by {
                    if kk != k {
                        assert(before.position_to_tile@.contains_key(kk));
                    }
                }
            }
        }
        // The borders that faced the new tile are no longer exposed.
        let mut kept: Vec<ExposedEdge> = Vec::new();
        let mut i: usize = 0;
        proof {
            assert(before.frontier().take(0) =~= Seq::<ExposedEdge>::empty());
        }
        while i < self.exposed_edges.len()
            invariant
                0 <= i <= self.exposed_edges.len(),
                self.exposed_edges@ == before.frontier(),
                self.position_to_tile@ == before.position_to_tile@.insert(k, tile.id.val),
                k == position_key(*pos),
                before.wf(),
                !before.is_occupied(*pos),
                kept@ == without_facing(before.frontier().take(i as int), *pos),
            decreases self.exposed_edges.len() - i,
        {
            let exposure = self.exposed_edges[i];
            proof {
                assert(before.frontier()[i as int] == exposure);
                let p = exposure.pos;
                assert(before.is_occupied(p));
                let id = before.tile_at(p);
                assert(before.position_to_tile@.contains_key(position_key(p)));
                assert(before.placed().contains_key(id));
                lemma_position_key_injective(before.placed()[id].0, p);
                assert(inner(p));
                assert(before.frontier().take(i + 1).drop_last() =~= before.frontier().take(i as int));
                assert(before.frontier().take(i + 1).last() == exposure);
                let nb = neighbour(p, exposure.direction);
                assert(!before.is_occupied(nb));
                if position_key(nb) == k {
                    lemma_position_key_injective(nb, *pos);
                }
            }
            let facing = get_neighbour(&exposure.pos, exposure.direction);
            if !self.occupied(&facing) {
                kept.push(exposure);
            }
            i += 1;
        }
        proof {
            assert(before.frontier().take(before.frontier().len() as int) =~= before.frontier());
        }
        // The borders of the new tile that touch nothing are exposed.
        let tile_bits = tile.manipulated(how);
        let ghost rows = how.apply(tile.d@, tile.size());
        let ghost base = kept@;
        proof {
            crate::tile::lemma_apply_binary(*how, tile.d@, tile.size());
        }
        let directions = Direction::all();
        let mut j: usize = 0;
        while j < 4
            invariant
                0 <= j <= 4,
                directions@ == seq![Direction::N, Direction::E, Direction::S, Direction::W],
                inner(*pos),
                tile.wf(),
                tile_bits.wf(),
                tile_bits.width() == tile.size(),
                tile_bits.height() == tile.size(),
                tile_bits@ == rows,
                crate::tile::binary(rows),
                base == without_facing(before.frontier(), *pos),
                kept@ == base + fresh_edges(rows, tile.size(), *pos, self.occupied_set(), j as int),
            decreases 4 - j,
        {
            let d = directions[j];
            assert(d == direction_at(j as int));
            let n = get_neighbour(pos, d);
            if !self.occupied(&n) {
                kept.push(
                    ExposedEdge {
                        edge_pattern: EdgePattern::from_matrix(&d, &tile_bits),
                        pos: *pos,
                        direction: d,
                    },
                );
            }
            assert(kept@ =~= base + fresh_edges(
                rows,
                tile.size(),
                *pos,
                self.occupied_set(),
                j + 1,
            ));
            j += 1;
        }
        self.exposed_edges = kept;
        proof {
            lemma_frontier_after(before, *self, *pos, rows, tile.size());
            assert(self@.at =~= before@.at.insert(*pos, tile.id.val));
            assert(self.occupied_set() =~= before@.at.insert(*pos, tile.id.val).dom());
        }
    }
}

/// `without_facing` keeps exactly the edges that do not face `pos`.
pub proof fn lemma_without_facing_members(edges: Seq<ExposedEdge>, pos: Position, e: ExposedEdge)
    ensures
        without_facing(edges, pos).contains(e) <==> edges.contains(e) && neighbour(
            e.pos,
            e.direction,
        ) != pos,
    decreases edges.len(),
{
    let kept = without_facing(edges, pos);
    if edges.len() > 0 {
        let rest = edges.drop_last();
        let kept_rest = without_facing(rest, pos);
        let last = edges.last();
        lemma_without_facing_members(rest, pos, e);
        if kept.contains(e) {
            let a = choose|a: int| 0 <= a < kept.len() && kept[a] == e;
            if a < kept_rest.len() {
                assert(kept_rest[a] == e);
                assert(kept_rest.contains(e));
                let i = choose|i: int| 0 <= i < rest.len() && rest[i] == e;
                assert(edges[i] == e);
            } else {
                assert(edges[edges.len() - 1] == e);
            }
        }
        if edges.contains(e) && neighbour(e.pos, e.direction) != pos {
            let i = choose|i: int| 0 <= i < edges.len() && edges[i] == e;
            if i < rest.len() {
                assert(rest[i] == e);
                assert(rest.contains(e));
                let a = choose|a: int| 0 <= a < kept_rest.len() && kept_rest[a] == e;
                assert(kept[a] == e);
            } else {
                assert(kept[kept.len() - 1] == e);
            }
        }
    }
}

/// `without_facing` keeps the edges distinct.
pub proof fn lemma_without_facing_distinct(edges: Seq<ExposedEdge>, pos: Position)
    requires
        distinct_sides(edges),
    ensures
        distinct_sides(without_facing(edges, pos)),
    decreases edges.len(),
{
    let kept = without_facing(edges, pos);
    if edges.len() > 0 {
        let rest = edges.drop_last();
        let kept_rest = without_facing(rest, pos);
        assert(distinct_sides(rest)) by {
            assert forall|i: int, j: int| 0 <= i < j < rest.len() implies side_of(
                #[trigger] rest[i],
            ) != side_of(#[trigger] rest[j]) by {
                assert(rest[i] == edges[i] && rest[j] == edges[j]);
            }
        }
        lemma_without_facing_distinct(rest, pos);
        assert forall|a: int, b: int| 0 <= a < b < kept.len() implies side_of(#[trigger] kept[a])
            != side_of(#[trigger] kept[b]) by {
            if b < kept_rest.len() {
                assert(kept[a] == kept_rest[a] && kept[b] == kept_rest[b]);
            } else {
                assert(kept[a] == kept_rest[a]);
                assert(kept_rest.contains(kept_rest[a]));
                lemma_without_facing_members(rest, pos, kept_rest[a]);
                let i = choose|i: int| 0 <= i < rest.len() && rest[i] == kept_rest[a];
                assert(edges[i] == kept[a]);
                assert(edges[edges.len() - 1] == kept[b]);
            }
        }
    }
}

/// The fresh edges are exactly the borders of the new tile on the sides that
/// face an empty position.
pub proof fn lemma_fresh_members(
    rows: Seq<Seq<u8>>,
    width: nat,
    pos: Position,
    occupied: Set<Position>,
    k: int,
    e: ExposedEdge,
)
    requires
        0 <= k <= 4,
    ensures
        fresh_edges(rows, width, pos, occupied, k).contains(e) <==> is_fresh(
            e,
            rows,
            width,
            pos,
            occupied,
            k,
        ),
    decreases k,
{
    let cur = fresh_edges(rows, width, pos, occupied, k);
    if k > 0 {
        let prev = fresh_edges(rows, width, pos, occupied, k - 1);
        lemma_fresh_members(rows, width, pos, occupied, k - 1, e);
        let d = direction_at(k - 1);
        if cur.contains(e) {
            let a = choose|a: int| 0 <= a < cur.len() && cur[a] == e;
            if a < prev.len() {
                assert(prev[a] == e);
                assert(prev.contains(e));
                let n = choose|n: int|
                    0 <= n < k - 1 && e == edge_of(rows, width, pos, #[trigger] direction_at(n))
                        && !occupied.contains(neighbour(pos, direction_at(n)));
                assert(0 <= n < k && e == edge_of(rows, width, pos, direction_at(n)));
            } else {
                assert(e == edge_of(rows, width, pos, direction_at(k - 1)));
            }
        }
        if is_fresh(e, rows, width, pos, occupied, k) {
            let n = choose|n: int|
                0 <= n < k && e == edge_of(rows, width, pos, #[trigger] direction_at(n))
                    && !occupied.contains(neighbour(pos, direction_at(n)));
            if n < k - 1 {
                assert(is_fresh(e, rows, width, pos, occupied, k - 1));
                let a = choose|a: int| 0 <= a < prev.len() && prev[a] == e;
                assert(cur[a] == e);
            } else {
                assert(cur[cur.len() - 1] == e);
            }
        }
    } else {
        assert(!cur.contains(e));
    }
}

/// The fresh edges stand for different sides.
pub proof fn lemma_fresh_distinct(
    rows: Seq<Seq<u8>>,
    width: nat,
    pos: Position,
    occupied: Set<Position>,
    k: int,
)
    requires
        0 <= k <= 4,
    ensures
        distinct_sides(fresh_edges(rows, width, pos, occupied, k)),
    decreases k,
{
    let cur = fresh_edges(rows, width, pos, occupied, k);
    if k > 0 {
        let prev = fresh_edges(rows, width, pos, occupied, k - 1);
        lemma_fresh_distinct(rows, width, pos, occupied, k - 1);
        assert forall|a: int, b: int| 0 <= a < b < cur.len() implies side_of(#[trigger] cur[a])
            != side_of(#[trigger] cur[b]) by {
            if b < prev.len() {
                assert(cur[a] == prev[a] && cur[b] == prev[b]);
            } else {
                assert(prev.contains(prev[a]));
                lemma_fresh_members(rows, width, pos, occupied, k - 1, prev[a]);
                let n = choose|n: int|
                    0 <= n < k - 1 && prev[a] == edge_of(
                        rows,
                        width,
                        pos,
                        #[trigger] direction_at(n),
                    ) && !occupied.contains(neighbour(pos, direction_at(n)));
                assert(cur[b] == edge_of(rows, width, pos, direction_at(k - 1)));
                assert(direction_at(n) != direction_at(k - 1));
            }
        }
    }
}

/// After a tile was put at `pos`, the frontier made of the old edges that do
/// not face `pos` and of the fresh edges of the new tile is exact again.
proof fn lemma_frontier_after(
    before: TileLocationSolution,
    after: TileLocationSolution,
    pos: Position,
    rows: Seq<Seq<u8>>,
    width: nat,
)
    requires
        before.wf(),
        after.maps_agree(),
        inner(pos),
        !before.is_occupied(pos),
        forall|p: Position| after.is_occupied(p) <==> before.is_occupied(p) || p == pos,
        after.frontier() == without_facing(before.frontier(), pos) + fresh_edges(
            rows,
            width,
            pos,
            after.occupied_set(),
            4,
        ),
    ensures
        after.frontier_exact(),
{
    let old_edges = before.frontier();
    let kept = without_facing(old_edges, pos);
    let occ = after.occupied_set();
    let fresh = fresh_edges(rows, width, pos, occ, 4);
    let all = after.frontier();
    lemma_without_facing_distinct(old_edges, pos);
    lemma_fresh_distinct(rows, width, pos, occ, 4);
    assert forall|i: int| 0 <= i < all.len() implies after.is_occupied((#[trigger] all[i]).pos)
        && !after.is_occupied(neighbour(all[i].pos, all[i].direction)) by {
        if i < kept.len() {
            assert(all[i] == kept[i]);
            assert(kept.contains(kept[i]));
            lemma_without_facing_members(old_edges, pos, kept[i]);
            let o = choose|o: int| 0 <= o < old_edges.len() && old_edges[o] == kept[i];
            assert(before.is_occupied(old_edges[o].pos));
        } else {
            let e = fresh[i - kept.len()];
            assert(all[i] == e);
            assert(fresh.contains(e));
            lemma_fresh_members(rows, width, pos, occ, 4, e);
            let n = choose|n: int|
                0 <= n < 4 && e == edge_of(rows, width, pos, #[trigger] direction_at(n))
                    && !occ.contains(neighbour(pos, direction_at(n)));
            assert(!after.is_occupied(neighbour(pos, direction_at(n))));
        }
    }
    assert forall|p: Position, d: Direction|
        after.is_occupied(p) && !after.is_occupied(#[trigger] neighbour(p, d)) implies has_edge(
        all,
        p,
        d,
    ) by {
        if p == pos {
            let n = if d == Direction::N {
                0int
            } else if d == Direction::E {
                1int
            } else if d == Direction::S {
                2int
            } else {
                3int
            };
            assert(direction_at(n) == d);
            let e = edge_of(rows, width, pos, d);
            assert(!occ.contains(neighbour(pos, direction_at(n))));
            assert(is_fresh(e, rows, width, pos, occ, 4));
            lemma_fresh_members(rows, width, pos, occ, 4, e);
            let i = choose|i: int| 0 <= i < fresh.len() && fresh[i] == e;
            assert(all[kept.len() + i] == e);
        } else {
            assert(before.is_occupied(p));
            assert(!before.is_occupied(neighbour(p, d)));
            assert(has_edge(old_edges, p, d));
            let o = choose|o: int|
                0 <= o < old_edges.len() && (#[trigger] old_edges[o]).pos == p
                    && old_edges[o].direction == d;
            let e = old_edges[o];
            assert(old_edges.contains(e));
            lemma_without_facing_members(old_edges, pos, e);
            let k = choose|k: int| 0 <= k < kept.len() && kept[k] == e;
            assert(all[k] == e);
        }
    }
    assert forall|i: int, j: int| 0 <= i < j < all.len() implies side_of(#[trigger] all[i])
        != side_of(#[trigger] all[j]) by {
        if j < kept.len() {
            assert(all[i] == kept[i] && all[j] == kept[j]);
        } else if i < kept.len() {
            assert(all[i] == kept[i]);
            assert(kept.contains(kept[i]));
            lemma_without_facing_members(old_edges, pos, kept[i]);
            let o = choose|o: int| 0 <= o < old_edges.len() && old_edges[o] == kept[i];
            assert(before.is_occupied(old_edges[o].pos));
            let e = fresh[j - kept.len()];
            assert(all[j] == e);
            assert(fresh.contains(e));
            lemma_fresh_members(rows, width, pos, occ, 4, e);
        } else {
            assert(all[i] == fresh[i - kept.len()] && all[j] == fresh[j - kept.len()]);
        }
    }
}

} // verus!
