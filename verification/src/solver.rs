//! The edge index and the placement of tiles by constraint propagation.
//!
//! The solver starts with the tile of the lowest id at the origin and then
//! repeats one step: it walks the frontier in order and, at the first edge
//! whose empty neighbour position admits exactly one candidate, places that
//! candidate there.  A candidate is an entry of the edge index under the
//! fingerprint of the edge whose tile is not placed yet and which fits every
//! placed neighbour of the position.  When a whole walk places nothing, the
//! solver reports a deadlock.
use crate::catalog::TileCatalog;
use crate::edge::{edge_match, edges_match, fingerprint, get_edge_keys};
use crate::error::JigsawError;
use crate::manipulation::{Direction, Manipulation, Rotation};
use crate::solution::{
    direction_at, get_neighbour, inner, neighbour, ExposedEdge, Layout, Position,
    TileLocationSolution,
};
use crate::tile::TileId;
use std::collections::HashMap;
use std::collections::HashSet;
use vstd::prelude::*;

verus! {

broadcast use vstd::std_specs::hash::group_hash_axioms;

/// One way to show a fingerprint: a tile and a manipulation of it.
#[derive(Debug, Clone, Copy, PartialEq, Eq, Structural)]
pub struct TileIndexEntry {
    pub tile_id: TileId,
    pub manipulation: Manipulation,
}

/// The manipulation with the number `k`.
pub open spec fn manipulation_at(k: int) -> Manipulation {
    Manipulation { rot: Rotation::of(k % 4), flip: k >= 4 }
}

/// The catalog shows `32 * len` borders: for every tile in the order of the
/// catalog, for every manipulation in the order of their numbers, the four
/// sides in the order north, east, south, west.  This is the entry that border
/// number `n` gives.
pub open spec fn exposure_entry(catalog: &TileCatalog, n: int) -> TileIndexEntry {
    TileIndexEntry { tile_id: catalog@[n / 32].id, manipulation: manipulation_at((n % 32) / 4) }
}

/// The fingerprint of border number `n`.
pub open spec fn exposure_bits(catalog: &TileCatalog, n: int) -> i32 {
    fingerprint(
        manipulation_at((n % 32) / 4).apply(catalog@[n / 32].d@, catalog.size()),
        catalog.size(),
        direction_at(n % 4),
    )
}

/// The entries that the first `n` borders give under the fingerprint `f`, in
/// their order.  A manipulation that shows `f` on two sides is listed twice.
pub open spec fn entries_under(catalog: &TileCatalog, f: i32, n: int) -> Seq<TileIndexEntry>
    decreases n,
{
    if n <= 0 {
        Seq::empty()
    } else if exposure_bits(catalog, n - 1) == f {
        entries_under(catalog, f, n - 1).push(exposure_entry(catalog, n - 1))
    } else {
        entries_under(catalog, f, n - 1)
    }
}

/// What an index holds: the list of entries under each fingerprint.
pub open spec fn index_view(ix: &HashMap<i32, Vec<TileIndexEntry>>) -> Map<
    i32,
    Seq<TileIndexEntry>,
> {
    Map::new(|f: i32| ix@.contains_key(f), |f: i32| ix@[f]@)
}

/// Whether `ix` holds, under each fingerprint, the entries that the first `n`
/// borders of the catalog give, and nothing else.
pub open spec fn indexes_first(ix: Map<i32, Seq<TileIndexEntry>>, catalog: &TileCatalog, n: int) -> bool {
    forall|f: i32|
        (#[trigger] ix.contains_key(f) <==> entries_under(catalog, f, n).len() > 0) && (
        ix.contains_key(f) ==> ix[f] == entries_under(catalog, f, n))
}

/// Whether `ix` is the edge index of the catalog.
pub open spec fn is_index_of(ix: Map<i32, Seq<TileIndexEntry>>, catalog: &TileCatalog) -> bool {
    indexes_first(ix, catalog, 32 * (catalog@.len() as int))
}

/// Whether every entry of `ix` names a tile of the catalog.
pub open spec fn index_sound(ix: Map<i32, Seq<TileIndexEntry>>, catalog: &TileCatalog) -> bool {
    forall|f: i32, i: int|
        ix.contains_key(f) && 0 <= i < ix[f].len() ==> catalog.has((#[trigger] ix[f][i]).tile_id.val)
}

/// Every entry under a fingerprint names a tile of the catalog.
pub proof fn lemma_entries_known(catalog: &TileCatalog, f: i32, n: int, i: int)
    requires
        0 <= n <= 32 * catalog@.len(),
        0 <= i < entries_under(catalog, f, n).len(),
    ensures
        catalog.has(entries_under(catalog, f, n)[i].tile_id.val),
    decreases n,
{
    if n > 0 {
        let prev = entries_under(catalog, f, n - 1);
        if i < prev.len() {
            lemma_entries_known(catalog, f, n - 1, i);
        } else {
            assert(catalog@[(n - 1) / 32].id.val == entries_under(catalog, f, n)[i].tile_id.val);
        }
    }
}

/// The edge index of a catalog names only tiles of the catalog.
pub proof fn lemma_index_is_sound(ix: Map<i32, Seq<TileIndexEntry>>, catalog: &TileCatalog)
    requires
        is_index_of(ix, catalog),
    ensures
        index_sound(ix, catalog),
{
    assert forall|f: i32, i: int| ix.contains_key(f) && 0 <= i < ix[f].len() implies catalog.has(
        (#[trigger] ix[f][i]).tile_id.val,
    ) by {
        lemma_entries_known(catalog, f, 32 * (catalog@.len() as int), i);
    }
}

/// The list under a fingerprint only grows as more borders are taken in.
pub proof fn lemma_entries_grow(catalog: &TileCatalog, f: i32, n: int, m: int)
    requires
        n <= m,
    ensures
        entries_under(catalog, f, n).len() <= entries_under(catalog, f, m).len(),
    decreases m - n,
{
    if n < m {
        lemma_entries_grow(catalog, f, n, m - 1);
    }
}

/// The number of a direction in the order north, east, south, west.
pub open spec fn direction_number(d: Direction) -> int {
    match d {
        Direction::N => 0,
        Direction::E => 1,
        Direction::S => 2,
        Direction::W => 3,
    }
}

/// The index is complete: the fingerprint of every side of every
/// manipulation of every tile of the catalog has a list in the edge index.
pub proof fn lemma_index_complete(
    ix: Map<i32, Seq<TileIndexEntry>>,
    catalog: &TileCatalog,
    t: int,
    how: Manipulation,
    d: Direction,
)
    requires
        catalog.wf(),
        is_index_of(ix, catalog),
        0 <= t < catalog@.len(),
    ensures
        ix.contains_key(fingerprint(how.apply(catalog@[t].d@, catalog.size()), catalog.size(), d)),
{
    let f = fingerprint(how.apply(catalog@[t].d@, catalog.size()), catalog.size(), d);
    let n = 32 * t + 4 * how.index() + direction_number(d);
    assert(n / 32 == t && (n % 32) / 4 == how.index() && n % 4 == direction_number(d));
    assert(manipulation_at(how.index()) == how);
    assert(direction_at(direction_number(d)) == d);
    assert(exposure_bits(catalog, n) == f);
    assert(entries_under(catalog, f, n + 1).len() > 0);
    lemma_entries_grow(catalog, f, n + 1, 32 * (catalog@.len() as int));
    assert(ix.contains_key(f) <==> entries_under(catalog, f, 32 * (catalog@.len() as int)).len() > 0);
}

/// With the edge index of the catalog, every edge of a faithful frontier is
/// found in the index.
pub proof fn lemma_frontier_indexed(
    ix: Map<i32, Seq<TileIndexEntry>>,
    catalog: &TileCatalog,
    l: Layout,
    i: int,
)
    requires
        catalog.wf(),
        is_index_of(ix, catalog),
        layout_ok(l),
        placed_known(catalog, l),
        frontier_faithful(catalog, l),
        0 <= i < l.frontier.len(),
    ensures
        ix.contains_key(l.frontier[i].edge_pattern.bits),
{
    let e = l.frontier[i];
    let id = l.at[e.pos];
    assert(l.placed.contains_key(id));
    assert(catalog.has(id));
    let t = catalog.index_of(id);
    lemma_index_complete(ix, catalog, t, l.placed[id].1, e.direction);
}

/// Builds the edge index: under each fingerprint, every tile and
/// manipulation that shows it on some side.
pub fn make_tile_index(tiles: &TileCatalog) -> (r: HashMap<i32, Vec<TileIndexEntry>>)
    requires
        tiles.wf(),
    ensures
        is_index_of(index_view(&r), tiles),
        index_sound(index_view(&r), tiles),
{
    let mut result: HashMap<i32, Vec<TileIndexEntry>> = HashMap::new();
    let all = Manipulation::all();
    let mut t: usize = 0;
    while t < tiles.len()
        invariant
            0 <= t <= tiles@.len(),
            tiles.wf(),
            all.len() == 8,
            forall|i: int| 0 <= i < 8 ==> (#[trigger] all[i]).index() == i,
            indexes_first(index_view(&result), tiles, 32 * t),
        decreases tiles@.len() - t,
    {
        let tile = &tiles.tiles[t];
        assert(tiles@[t as int].wf());
        assert(tile.size() == tiles.size());
        let mut m: usize = 0;
        while m < 8
            invariant
                0 <= m <= 8,
                0 <= t < tiles@.len(),
                tiles.wf(),
                *tile == tiles@[t as int],
                tile.wf(),
                tile.size() == tiles.size(),
                all.len() == 8,
                forall|i: int| 0 <= i < 8 ==> (#[trigger] all[i]).index() == i,
                indexes_first(index_view(&result), tiles, 32 * t + 4 * m),
            decreases 8 - m,
        {
            let manip = all[m];
            assert(manip.index() == m);
            assert(manip == manipulation_at(m as int));
            let v = tile.manipulated(&manip);
            let keys = get_edge_keys(&v);
            let mut s: usize = 0;
            while s < 4
                invariant
                    0 <= s <= 4,
                    0 <= m < 8,
                    0 <= t < tiles@.len(),
                    *tile == tiles@[t as int],
                    tile.size() == tiles.size(),
                    manip == manipulation_at(m as int),
                    v@ == manip.apply(tile.d@, tile.size()),
                    v.width() == tile.size(),
                    forall|i: int|
                        0 <= i < 4 ==> (#[trigger] keys[i]).pattern.bits == fingerprint(
                            v@,
                            v.width(),
                            direction_at(i),
                        ),
                    indexes_first(index_view(&result), tiles, 32 * t + 4 * m + s),
                decreases 4 - s,
            {
                let ghost n = 32 * t + 4 * m + s;
                let ghost before = index_view(&result);
                let key = keys[s].pattern.bits;
                let entry = TileIndexEntry { tile_id: tile.id, manipulation: manip };
                assert(n / 32 == t && (n % 32) / 4 == m && n % 4 == s);
                assert(exposure_bits(tiles, n) == key);
                assert(exposure_entry(tiles, n) == entry);
                let ghost stored = result@;
                assert(before.contains_key(key) <==> entries_under(tiles, key, n).len() > 0);
                assert(before.contains_key(key) ==> before[key] == entries_under(tiles, key, n));
                let mut list = match result.remove(&key) {
                    Some(list) => list,
                    None => Vec::new(),
                };
                assert(stored.contains_key(key) ==> list == stored[key]);
                assert(list@ =~= entries_under(tiles, key, n));
                assert(result@ == stored.remove(key));
                list.push(entry);
                result.insert(key, list);
                proof {
                    let after = index_view(&result);
                    assert forall|f: i32|
                        (#[trigger] after.contains_key(f) <==> entries_under(tiles, f, n + 1).len()
                            > 0) && (after.contains_key(f) ==> after[f] == entries_under(
                            tiles,
                            f,
                            n + 1,
                        )) by {
                        if f != key {
                            assert(before.contains_key(f) == after.contains_key(f));
                            assert(before.contains_key(f) <==> entries_under(tiles, f, n).len() > 0);
                            if after.contains_key(f) {
                                assert(after[f] == before[f]);
                            }
                        }
                    }
                }
                s += 1;
            }
            m += 1;
        }
        t += 1;
    }
    proof {
        lemma_index_is_sound(index_view(&result), tiles);
    }
    result
}

/// The matrix of the tile that lies at `p`, as it is turned.
pub open spec fn variant_at(catalog: &TileCatalog, l: Layout, p: Position) -> Seq<Seq<u8>> {
    catalog.variant(l.at[p], l.placed[l.at[p]].1)
}

/// Whether the candidate `entry` fits at `pos`: on every side on which `pos`
/// has a placed neighbour, the match rule holds between the two.
pub open spec fn fits(catalog: &TileCatalog, l: Layout, entry: TileIndexEntry, pos: Position) -> bool {
    forall|d: Direction|
        l.at.contains_key(#[trigger] neighbour(pos, d)) ==> edges_match(
            catalog.variant(entry.tile_id.val, entry.manipulation),
            catalog.size(),
            d,
            variant_at(catalog, l, neighbour(pos, d)),
            catalog.size(),
        )
}

/// Whether the candidate `entry` may be placed at `pos`: its tile is not
/// placed yet and it fits.
pub open spec fn survives(catalog: &TileCatalog, l: Layout, entry: TileIndexEntry, pos: Position) -> bool {
    !l.placed.contains_key(entry.tile_id.val) && fits(catalog, l, entry, pos)
}

/// The entries of `list` that may be placed at `pos`, in their order.
pub open spec fn survivors(
    catalog: &TileCatalog,
    l: Layout,
    list: Seq<TileIndexEntry>,
    pos: Position,
) -> Seq<TileIndexEntry>
    decreases list.len(),
{
    if list.len() == 0 {
        list
    } else if survives(catalog, l, list.last(), pos) {
        survivors(catalog, l, list.drop_last(), pos).push(list.last())
    } else {
        survivors(catalog, l, list.drop_last(), pos)
    }
}

/// Whether every placed tile is a tile of the catalog.
pub open spec fn placed_known(catalog: &TileCatalog, l: Layout) -> bool {
    forall|id: i32| #[trigger] l.placed.contains_key(id) ==> catalog.has(id)
}

/// Whether the tile of `cand`, turned as `cand` says, fits every placed
/// neighbour of the empty position `proposed_pos`.
pub fn candidate_fits_neighbours(
    cand: &TileIndexEntry,
    proposed_pos: &Position,
    tiles: &TileCatalog,
    solution: &TileLocationSolution,
) -> (r: bool)
    requires
        tiles.wf(),
        solution.wf(),
        placed_known(tiles, solution@),
        tiles.has(cand.tile_id.val),
        inner(*proposed_pos),
        !solution.is_occupied(*proposed_pos),
    ensures
        r == fits(tiles, solution@, *cand, *proposed_pos),
{
    let candidate_tile = match tiles.get(&cand.tile_id) {
        Some(t) => t,
        None => {
            return false;
        },
    };
    let candidate = candidate_tile.manipulated(&cand.manipulation);
    let directions = Direction::all();
    let mut k: usize = 0;
    while k < 4
        invariant
            0 <= k <= 4,
            tiles.wf(),
            solution.wf(),
            placed_known(tiles, solution@),
            inner(*proposed_pos),
            directions@ == seq![Direction::N, Direction::E, Direction::S, Direction::W],
            candidate.wf(),
            candidate.width() == tiles.size(),
            candidate.height() == tiles.size(),
            tiles.size() >= 1,
            crate::tile::binary(candidate@),
            candidate@ == tiles.variant(cand.tile_id.val, cand.manipulation),
            forall|j: int|
                0 <= j < k && solution@.at.contains_key(
                    neighbour(*proposed_pos, #[trigger] direction_at(j)),
                ) ==> edges_match(
                    candidate@,
                    tiles.size(),
                    direction_at(j),
                    variant_at(tiles, solution@, neighbour(*proposed_pos, direction_at(j))),
                    tiles.size(),
                ),
        decreases 4 - k,
    {
        let neighbour_direction = directions[k];
        assert(neighbour_direction == direction_at(k as int));
        let neighbour_pos = get_neighbour(proposed_pos, neighbour_direction);
        match solution.get_tile_at_position(&neighbour_pos) {
            None => {},
            Some((neighbour_id, neighbour_manipulation)) => {
                assert(solution@.at.contains_key(neighbour_pos));
                assert(solution@.at[neighbour_pos] == neighbour_id.val);
                assert(solution@.placed.contains_key(neighbour_id.val));
                match tiles.get(&neighbour_id) {
                    None => {
                        assert(false);
                    },
                    Some(other) => {
                        let turned = other.manipulated(&neighbour_manipulation);
                        if !edge_match(&candidate, &neighbour_direction, &turned) {
                            assert(!fits(tiles, solution@, *cand, *proposed_pos));
                            return false;
                        }
                    },
                }
            },
        }
        k += 1;
    }
    proof {
        assert forall|d: Direction|
            solution@.at.contains_key(#[trigger] neighbour(*proposed_pos, d)) implies edges_match(
            tiles.variant(cand.tile_id.val, cand.manipulation),
            tiles.size(),
            d,
            variant_at(tiles, solution@, neighbour(*proposed_pos, d)),
            tiles.size(),
        ) by {
            let j = match d {
                Direction::N => 0int,
                Direction::E => 1int,
                Direction::S => 2int,
                Direction::W => 3int,
            };
            assert(direction_at(j) == d);
        }
    }
    true
}

/// The candidates for the empty position that `exposed_edge` faces: the
/// entries of the index under the fingerprint of the edge whose tile is not
/// placed and which fit there, in the order of the index.  An edge whose
/// fingerprint the index lacks is an inconsistency.
pub fn get_candidates(
    tiles: &TileCatalog,
    ix: &HashMap<i32, Vec<TileIndexEntry>>,
    solution: &TileLocationSolution,
    exposed_edge: &ExposedEdge,
) -> (r: Result<Vec<TileIndexEntry>, JigsawError>)
    requires
        tiles.wf(),
        solution.wf(),
        placed_known(tiles, solution@),
        index_sound(index_view(ix), tiles),
        inner(exposed_edge.pos),
        inner(neighbour(exposed_edge.pos, exposed_edge.direction)),
        !solution.is_occupied(neighbour(exposed_edge.pos, exposed_edge.direction)),
    ensures
        r is Ok <==> index_view(ix).contains_key(exposed_edge.edge_pattern.bits),
        r matches Err(e) ==> e == JigsawError::IndexInconsistency,
        r matches Ok(found) ==> found@ == survivors(
            tiles,
            solution@,
            index_view(ix)[exposed_edge.edge_pattern.bits],
            neighbour(exposed_edge.pos, exposed_edge.direction),
        ),
{
    let empty_pos = get_neighbour(&exposed_edge.pos, exposed_edge.direction);
    let list = match ix.get(&exposed_edge.edge_pattern.bits) {
        Some(list) => list,
        None => {
            return Err(JigsawError::IndexInconsistency);
        },
    };
    assert(list@ == index_view(ix)[exposed_edge.edge_pattern.bits]);
    let mut result: Vec<TileIndexEntry> = Vec::new();
    let mut i: usize = 0;
    proof {
        assert(list@.take(0) =~= Seq::<TileIndexEntry>::empty());
    }
    while i < list.len()
        invariant
            0 <= i <= list.len(),
            tiles.wf(),
            solution.wf(),
            placed_known(tiles, solution@),
            index_sound(index_view(ix), tiles),
            index_view(ix).contains_key(exposed_edge.edge_pattern.bits),
            list@ == index_view(ix)[exposed_edge.edge_pattern.bits],
            inner(empty_pos),
            !solution.is_occupied(empty_pos),
            result@ == survivors(tiles, solution@, list@.take(i as int), empty_pos),
        decreases list.len() - i,
    {
        let cand = list[i];
        proof {
            assert(list@.take(i + 1).drop_last() =~= list@.take(i as int));
            assert(list@.take(i + 1).last() == cand);
            assert(index_view(ix)[exposed_edge.edge_pattern.bits][i as int] == cand);
            assert(tiles.has(cand.tile_id.val));
        }
        if solution.get_position_of_tile(&cand.tile_id).is_none() {
            if candidate_fits_neighbours(&cand, &empty_pos, tiles, solution) {
                result.push(cand);
            }
        }
        i += 1;
    }
    assert(list@.take(list.len() as int) =~= list@);
    Ok(result)
}

/// The empty position that an edge faces.
pub open spec fn facing(e: ExposedEdge) -> Position {
    neighbour(e.pos, e.direction)
}

/// The candidates for the position that the edge `e` faces.
pub open spec fn candidates_at(
    catalog: &TileCatalog,
    ix: Map<i32, Seq<TileIndexEntry>>,
    l: Layout,
    e: ExposedEdge,
) -> Seq<TileIndexEntry> {
    survivors(catalog, l, ix[e.edge_pattern.bits], facing(e))
}

/// How a walk along the frontier ends.
pub enum Walk {
    /// The edge with this number is the first one that has exactly one
    /// candidate.
    Place(int),
    /// No edge has exactly one candidate.
    Deadlock,
    /// The fingerprint of an edge is missing from the index.
    Inconsistent,
}

/// The walk along the frontier from the edge number `i` on.
pub open spec fn scan(
    catalog: &TileCatalog,
    ix: Map<i32, Seq<TileIndexEntry>>,
    l: Layout,
    i: int,
) -> Walk
    decreases l.frontier.len() - i,
{
    if i < 0 || i >= l.frontier.len() {
        Walk::Deadlock
    } else if !ix.contains_key(l.frontier[i].edge_pattern.bits) {
        Walk::Inconsistent
    } else if candidates_at(catalog, ix, l, l.frontier[i]).len() == 1 {
        Walk::Place(i)
    } else {
        scan(catalog, ix, l, i + 1)
    }
}

/// The layout after the candidate `c` was placed at `pos`.
pub open spec fn with_candidate(catalog: &TileCatalog, l: Layout, c: TileIndexEntry, pos: Position) -> Layout {
    l.place(
        catalog.variant(c.tile_id.val, c.manipulation),
        catalog.size(),
        c.tile_id.val,
        c.manipulation,
        pos,
    )
}

/// One step of the solver: the layout after the first forced placement, or
/// the reason why there is none.
pub open spec fn step(catalog: &TileCatalog, ix: Map<i32, Seq<TileIndexEntry>>, l: Layout) -> Result<
    Layout,
    JigsawError,
> {
    match scan(catalog, ix, l, 0) {
        Walk::Place(i) => Ok(
            with_candidate(
                catalog,
                l,
                candidates_at(catalog, ix, l, l.frontier[i])[0],
                facing(l.frontier[i]),
            ),
        ),
        Walk::Deadlock => Err(JigsawError::SolverDeadlock),
        Walk::Inconsistent => Err(JigsawError::IndexInconsistency),
    }
}

/// `remaining` steps of the solver, or the first failure.
pub open spec fn run(
    catalog: &TileCatalog,
    ix: Map<i32, Seq<TileIndexEntry>>,
    l: Layout,
    remaining: nat,
) -> Result<Layout, JigsawError>
    decreases remaining,
{
    if remaining == 0 {
        Ok(l)
    } else {
        match step(catalog, ix, l) {
            Ok(next) => run(catalog, ix, next, (remaining - 1) as nat),
            Err(e) => Err(e),
        }
    }
}

/// The layout with which the solver starts: the tile `id`, turned as `how`
/// says, at the origin.
pub open spec fn seed_layout(catalog: &TileCatalog, id: i32, how: Manipulation) -> Layout {
    with_candidate(
        catalog,
        Layout::empty(),
        TileIndexEntry { tile_id: TileId { val: id }, manipulation: how },
        Position { x: 0, y: 0 },
    )
}

/// What the solver makes of a catalog, an index and a manipulation for the
/// first tile: nothing of no tiles; else it places the tile of the lowest id
/// and takes as many steps as there are other tiles.
pub open spec fn solve(catalog: &TileCatalog, ix: Map<i32, Seq<TileIndexEntry>>, how: Manipulation) -> Result<
    Layout,
    JigsawError,
> {
    if catalog@.len() == 0 {
        Ok(Layout::empty())
    } else {
        run(catalog, ix, seed_layout(catalog, catalog.lowest(), how), (catalog@.len() - 1) as nat)
    }
}

/// Whether the two mappings of a layout agree and the neighbours of every
/// occupied position can be named.
pub open spec fn layout_ok(l: Layout) -> bool {
    &&& forall|p: Position| #[trigger]
        l.at.contains_key(p) ==> l.placed.contains_key(l.at[p]) && l.placed[l.at[p]].0 == p
            && inner(p)
    &&& forall|id: i32| #[trigger]
        l.placed.contains_key(id) ==> l.at.contains_key(l.placed[id].0) && l.at[l.placed[id].0]
            == id
}

/// The adjacency law: wherever two placed tiles touch, their touching
/// borders satisfy the match rule.
pub open spec fn adjacent_match(catalog: &TileCatalog, l: Layout) -> bool {
    forall|p: Position, d: Direction|
        l.at.contains_key(p) && l.at.contains_key(#[trigger] neighbour(p, d)) ==> edges_match(
            variant_at(catalog, l, p),
            catalog.size(),
            d,
            variant_at(catalog, l, neighbour(p, d)),
            catalog.size(),
        )
}

/// Whether every edge of the frontier belongs to a placed tile and carries
/// the fingerprint of that tile, as it is turned, on the side of the edge.
pub open spec fn frontier_faithful(catalog: &TileCatalog, l: Layout) -> bool {
    forall|i: int|
        0 <= i < l.frontier.len() ==> l.at.contains_key((#[trigger] l.frontier[i]).pos)
            && l.frontier[i].edge_pattern.bits == fingerprint(
            variant_at(catalog, l, l.frontier[i].pos),
            catalog.size(),
            l.frontier[i].direction,
        )
}

/// Whether every occupied position lies less than `k` steps from the origin
/// along each axis.
pub open spec fn within(l: Layout, k: int) -> bool {
    forall|p: Position| #[trigger] l.at.contains_key(p) ==> -k < p.x < k && -k < p.y < k
}

/// What holds of the solver's state between two steps.  `todo` is the set of
/// the ids of the tiles that are not placed yet.
pub open spec fn solver_inv(catalog: &TileCatalog, sol: &TileLocationSolution, todo: Set<i32>) -> bool {
    &&& catalog.wf()
    &&& sol.wf()
    &&& placed_known(catalog, sol@)
    &&& adjacent_match(catalog, sol@)
    &&& frontier_faithful(catalog, sol@)
    &&& todo.finite()
    &&& todo.len() <= catalog@.len()
    &&& sol@.placed.dom().finite()
    &&& sol@.placed.dom().len() + todo.len() == catalog@.len()
    &&& within(sol@, catalog@.len() - todo.len())
    &&& forall|id: i32| todo.contains(id) <==> catalog.has(id) && !sol@.placed.contains_key(id)
}

/// The view of a well-formed solution is a layout whose mappings agree.
pub proof fn lemma_view_ok(sol: &TileLocationSolution)
    requires
        sol.maps_agree(),
    ensures
        layout_ok(sol@),
{
    assert forall|p: Position| #[trigger] sol@.at.contains_key(p) implies sol@.placed.contains_key(
        sol@.at[p],
    ) && sol@.placed[sol@.at[p]].0 == p && inner(p) by {
        let k = crate::solution::position_key(p);
        assert(sol.position_to_tile@.contains_key(k));
        crate::solution::lemma_position_key_injective(sol.placed()[sol.position_to_tile@[k]].0, p);
    }
    assert forall|id: i32| #[trigger] sol@.placed.contains_key(id) implies sol@.at.contains_key(
        sol@.placed[id].0,
    ) && sol@.at[sol@.placed[id].0] == id by {
        assert(sol.placed().contains_key(id));
        assert(sol.is_occupied(sol.placed()[id].0));
    }
}

/// Placing a candidate that fits keeps the adjacency law, keeps every placed
/// tile known, and moves the rim of the layout out by at most one step.
pub proof fn lemma_place_keeps_laws(
    catalog: &TileCatalog,
    l: Layout,
    c: TileIndexEntry,
    pos: Position,
    k: int,
)
    requires
        layout_ok(l),
        placed_known(catalog, l),
        adjacent_match(catalog, l),
        frontier_faithful(catalog, l),
        within(l, k),
        catalog.has(c.tile_id.val),
        survives(catalog, l, c, pos),
        !l.at.contains_key(pos),
        inner(pos),
        -(k + 1) < pos.x < k + 1,
        -(k + 1) < pos.y < k + 1,
    ensures
        placed_known(catalog, with_candidate(catalog, l, c, pos)),
        adjacent_match(catalog, with_candidate(catalog, l, c, pos)),
        frontier_faithful(catalog, with_candidate(catalog, l, c, pos)),
        within(with_candidate(catalog, l, c, pos), k + 1),
{
    let next = with_candidate(catalog, l, c, pos);
    let id = c.tile_id.val;
    let rows = catalog.variant(id, c.manipulation);
    let kept = crate::solution::without_facing(l.frontier, pos);
    let fresh = crate::solution::fresh_edges(rows, catalog.size(), pos, next.at.dom(), 4);
    assert forall|i: int| 0 <= i < next.frontier.len() implies next.at.contains_key(
        (#[trigger] next.frontier[i]).pos,
    ) && next.frontier[i].edge_pattern.bits == fingerprint(
        variant_at(catalog, next, next.frontier[i].pos),
        catalog.size(),
        next.frontier[i].direction,
    ) by {
        let e = next.frontier[i];
        if i < kept.len() {
            assert(e == kept[i]);
            assert(kept.contains(e));
            crate::solution::lemma_without_facing_members(l.frontier, pos, e);
            let o = choose|o: int| 0 <= o < l.frontier.len() && l.frontier[o] == e;
            assert(l.at.contains_key(l.frontier[o].pos));
            assert(l.placed.contains_key(l.at[e.pos]));
        } else {
            assert(e == fresh[i - kept.len()]);
            assert(fresh.contains(e));
            crate::solution::lemma_fresh_members(rows, catalog.size(), pos, next.at.dom(), 4, e);
        }
    }
    assert forall|p: Position| #[trigger] next.at.contains_key(p) implies -(k + 1) < p.x < k + 1
        && -(k + 1) < p.y < k + 1 by {
        if p != pos {
            assert(l.at.contains_key(p));
        }
    }
    assert forall|p: Position, d: Direction|
        next.at.contains_key(p) && next.at.contains_key(
            #[trigger] neighbour(p, d),
        ) implies edges_match(
        variant_at(catalog, next, p),
        catalog.size(),
        d,
        variant_at(catalog, next, neighbour(p, d)),
        catalog.size(),
    ) by {
        let nb = neighbour(p, d);
        if p == pos {
            assert(nb != pos);
            assert(l.at.contains_key(nb));
            assert(l.placed.contains_key(l.at[nb]));
        } else if nb == pos {
            assert(l.at.contains_key(p));
            assert(l.placed.contains_key(l.at[p]));
            crate::solution::lemma_neighbour_back(p, d);
            assert(neighbour(pos, d.opposite()) == p);
            assert(d.opposite().opposite() == d);
        } else {
            assert(l.at.contains_key(p) && l.at.contains_key(nb));
            assert(l.placed.contains_key(l.at[p]));
            assert(l.placed.contains_key(l.at[nb]));
        }
    }
}

/// The lowest id of a catalog with at least one tile.
pub proof fn lemma_lowest_unique(catalog: &TileCatalog, a: i32)
    requires
        catalog.is_lowest(a),
    ensures
        catalog.lowest() == a,
{
    let b = catalog.lowest();
    assert(catalog.is_lowest(b));
    let i = choose|i: int| 0 <= i < catalog@.len() && (#[trigger] catalog@[i]).id.val == a;
    let j = choose|j: int| 0 <= j < catalog@.len() && (#[trigger] catalog@[j]).id.val == b;
    assert(b <= catalog@[i].id.val);
    assert(a <= catalog@[j].id.val);
}

/// Places the tile `tile_id` of the catalog, turned as `how` says, at `pos`
/// and strikes it from the set of tiles that are still to be placed.
pub fn place(
    tile_id: &TileId,
    how: &Manipulation,
    pos: &Position,
    tiles: &TileCatalog,
    solution: &mut TileLocationSolution,
    todo: &mut HashSet<i32>,
)
    requires
        tiles.wf(),
        old(solution).wf(),
        tiles.has(tile_id.val),
        !old(solution).placed().contains_key(tile_id.val),
        !old(solution).is_occupied(*pos),
        inner(*pos),
        old(todo)@.contains(tile_id.val),
    ensures
        final(solution).wf(),
        final(solution)@ == with_candidate(
            tiles,
            old(solution)@,
            TileIndexEntry { tile_id: *tile_id, manipulation: *how },
            *pos,
        ),
        final(todo)@ == old(todo)@.remove(tile_id.val),
{
    match tiles.get(tile_id) {
        Some(tile) => {
            todo.remove(&tile_id.val);
            solution.place_tile(tile, how, pos);
        },
        None => {},
    }
}

/// One step of the solver: walks the frontier and makes the first forced
/// placement.  When there is none, nothing changes and the reason is
/// returned.
pub fn solve1x(
    tiles: &TileCatalog,
    ix: &HashMap<i32, Vec<TileIndexEntry>>,
    solution: &mut TileLocationSolution,
    todo: &mut HashSet<i32>,
) -> (r: Result<(), JigsawError>)
    requires
        solver_inv(tiles, old(solution), old(todo)@),
        index_sound(index_view(ix), tiles),
    ensures
        match step(tiles, index_view(ix), old(solution)@) {
            Ok(next) => r is Ok && final(solution)@ == next && solver_inv(
                tiles,
                final(solution),
                final(todo)@,
            ) && final(todo)@.len() == old(todo)@.len() - 1,
            Err(e) => r == Err::<(), JigsawError>(e) && final(solution)@ == old(solution)@
                && final(todo)@ == old(todo)@,
        },
        is_index_of(index_view(ix), tiles) ==> r != Err::<(), JigsawError>(
            JigsawError::IndexInconsistency,
        ),
{
    let ghost l = solution@;
    let ghost ixv = index_view(ix);
    let ghost k = tiles@.len() - todo@.len();
    let n = solution.exposed_edges.len();
    let mut i: usize = 0;
    proof {
        lemma_view_ok(solution);
    }
    while i < n
        invariant
            0 <= i <= n,
            n == l.frontier.len(),
            *solution == *old(solution),
            *todo == *old(todo),
            l == solution@,
            ixv == index_view(ix),
            k == tiles@.len() - todo@.len(),
            solver_inv(tiles, solution, todo@),
            layout_ok(l),
            index_sound(ixv, tiles),
            scan(tiles, ixv, l, 0) == scan(tiles, ixv, l, i as int),
        decreases n - i,
    {
        let exposed_edge = solution.exposed_edges[i];
        proof {
            assert(l.frontier[i as int] == exposed_edge);
            assert(solution.is_occupied(exposed_edge.pos));
            assert(l.at.contains_key(exposed_edge.pos));
            assert(inner(exposed_edge.pos));
        }
        let pos = get_neighbour(&exposed_edge.pos, exposed_edge.direction);
        match get_candidates(tiles, ix, solution, &exposed_edge) {
            Err(e) => {
                proof {
                    if is_index_of(ixv, tiles) {
                        lemma_frontier_indexed(ixv, tiles, l, i as int);
                    }
                }
                return Err(e);
            },
            Ok(candidates) => {
                if candidates.len() == 1 {
                    let c = candidates[0];
                    proof {
                        let list = ixv[exposed_edge.edge_pattern.bits];
                        lemma_survivors(tiles, l, list, pos, 0);
                        assert(survives(tiles, l, c, pos));
                        lemma_place_keeps_laws(tiles, l, c, pos, k);
                        assert(todo@.contains(c.tile_id.val));
                    }
                    place(&c.tile_id, &c.manipulation, &pos, tiles, solution, todo);
                    proof {
                        assert(c == TileIndexEntry {
                            tile_id: c.tile_id,
                            manipulation: c.manipulation,
                        });
                    }
                    return Ok(());
                }
            },
        }
        i += 1;
    }
    Err(JigsawError::SolverDeadlock)
}

/// Every survivor is an entry of the list that survives.
pub proof fn lemma_survivors(
    catalog: &TileCatalog,
    l: Layout,
    list: Seq<TileIndexEntry>,
    pos: Position,
    i: int,
)
    requires
        0 <= i < survivors(catalog, l, list, pos).len(),
    ensures
        survives(catalog, l, survivors(catalog, l, list, pos)[i], pos),
        list.contains(survivors(catalog, l, list, pos)[i]),
    decreases list.len(),
{
    if list.len() > 0 {
        let rest = survivors(catalog, l, list.drop_last(), pos);
        if i < rest.len() {
            lemma_survivors(catalog, l, list.drop_last(), pos, i);
            let w = choose|w: int| 0 <= w < list.drop_last().len() && list.drop_last()[w] == rest[i];
            assert(list[w] == rest[i]);
        } else {
            assert(list[list.len() - 1] == list.last());
        }
    }
}

/// Places every tile of the catalog: the tile of the lowest id at the origin,
/// turned as `initial_manip` says, and then one forced placement after the
/// other.  Fails when a step finds no forced placement.
pub fn solve1(
    tiles: &TileCatalog,
    ix: &HashMap<i32, Vec<TileIndexEntry>>,
    initial_manip: &Manipulation,
) -> (r: Result<TileLocationSolution, JigsawError>)
    requires
        tiles.wf(),
        index_sound(index_view(ix), tiles),
    ensures
        r is Ok <==> solve(tiles, index_view(ix), *initial_manip) is Ok,
        r matches Err(e) ==> solve(tiles, index_view(ix), *initial_manip) == Err::<
            Layout,
            JigsawError,
        >(e),
        r matches Ok(s) ==> {
            &&& solve(tiles, index_view(ix), *initial_manip) == Ok::<Layout, JigsawError>(s@)
            &&& s.wf()
            &&& adjacent_match(tiles, s@)
            &&& frontier_faithful(tiles, s@)
            &&& s@.placed.dom() == tiles.ids()
            &&& s@.placed.dom().len() == tiles@.len()
            &&& s@.at.dom().len() == tiles@.len()
            &&& crate::assemble::rectangle_law(s@, tiles@.len() as int)
        },
        is_index_of(index_view(ix), tiles) ==> !(r matches Err(JigsawError::IndexInconsistency)),
{
    let mut todo: HashSet<i32> = HashSet::new();
    let mut i: usize = 0;
    while i < tiles.len()
        invariant
            0 <= i <= tiles@.len(),
            tiles.wf(),
            todo@.finite(),
            todo@.len() == i,
            forall|id: i32|
                todo@.contains(id) <==> exists|k: int|
                    0 <= k < i && (#[trigger] tiles@[k]).id.val == id,
        decreases tiles@.len() - i,
    {
        let id = tiles.tiles[i].id.val;
        proof {
            if todo@.contains(id) {
                let k = choose|k: int| 0 <= k < i && (#[trigger] tiles@[k]).id.val == id;
                assert(tiles@[k].id.val != tiles@[i as int].id.val);
            }
        }
        todo.insert(id);
        proof {
            assert forall|x: i32| todo@.contains(x) <==> exists|k: int|
                0 <= k < i + 1 && (#[trigger] tiles@[k]).id.val == x by {
                if x == id {
                    assert(tiles@[i as int].id.val == x);
                }
                if exists|k: int| 0 <= k < i + 1 && (#[trigger] tiles@[k]).id.val == x {
                    let k = choose|k: int| 0 <= k < i + 1 && (#[trigger] tiles@[k]).id.val == x;
                    if k < i {
                        assert(tiles@[k].id.val == x);
                    }
                }
            }
        }
        i += 1;
    }
    let initial = match tiles.lowest_id() {
        Some(n) => n,
        None => {
            let empty = TileLocationSolution::new();
            proof {
                assert(empty@.placed.dom() =~= Set::<i32>::empty());
                lemma_view_ok(&empty);
                crate::assemble::lemma_rectangle_law(tiles, empty@);
            }
            return Ok(empty);
        },
    };
    proof {
        lemma_lowest_unique(tiles, initial.val);
    }
    let mut solution = TileLocationSolution::new();
    let origin = Position { x: 0, y: 0 };
    let ghost ixv = index_view(ix);
    let ghost seed = seed_layout(tiles, initial.val, *initial_manip);
    let ghost total = tiles@.len();
    place(&initial, initial_manip, &origin, tiles, &mut solution, &mut todo);
    proof {
        let c = TileIndexEntry { tile_id: initial, manipulation: *initial_manip };
        assert(solution@ == seed);
        assert(Layout::empty().at.dom() =~= Set::<Position>::empty());
        assert(layout_ok(Layout::empty()));
        assert(fits(tiles, Layout::empty(), c, origin));
        assert(frontier_faithful(tiles, Layout::empty()));
        lemma_place_keeps_laws(tiles, Layout::empty(), c, origin, 0);
        assert(Layout::empty().placed.dom() =~= Set::<i32>::empty());
        assert(solution@.placed.dom() =~= Set::<i32>::empty().insert(initial.val));
        assert forall|id: i32| todo@.contains(id) <==> tiles.has(id) && !solution@.placed.contains_key(
            id,
        ) by {
            if tiles.has(id) {
                let k = choose|k: int| 0 <= k < tiles@.len() && (#[trigger] tiles@[k]).id.val == id;
                assert(tiles@[k].id.val == id);
            }
        }
    }
    while !todo.is_empty()
        invariant
            solver_inv(tiles, &solution, todo@),
            index_sound(index_view(ix), tiles),
            ixv == index_view(ix),
            total == tiles@.len(),
            total > 0,
            solve(tiles, ixv, *initial_manip) == run(tiles, ixv, solution@, todo@.len()),
        decreases todo@.len(),
    {
        match solve1x(tiles, ix, &mut solution, &mut todo) {
            Ok(()) => {},
            Err(e) => {
                return Err(e);
            },
        }
    }
    proof {
        assert(todo@.len() == 0);
        assert(solution@.placed.dom() =~= tiles.ids()) by {
            assert forall|id: i32| solution@.placed.dom().contains(id) <==> tiles.ids().contains(
                id,
            ) by {
                if tiles.has(id) && !solution@.placed.contains_key(id) {
                    assert(todo@.contains(id));
                }
            }
        }
        lemma_view_ok(&solution);
        crate::assemble::lemma_rectangle_law(tiles, solution@);
    }
    Ok(solution)
}

} // verus!
