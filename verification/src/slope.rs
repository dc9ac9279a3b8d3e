//! Sliding down a slope of trees that repeats to the right.
use crate::text::chars_of;
use std::collections::HashSet;
use vstd::prelude::*;

verus! {

broadcast use vstd::std_specs::hash::group_hash_axioms;

/// A place on the map, counted from the top left.
#[derive(Debug, PartialEq, Eq, Clone, Copy, Structural)]
pub struct Pos {
    pub x: usize,
    pub y: usize,
}

/// The number under which a place is filed: its two ordinates side by side.
pub open spec fn pos_key(x: int, y: int) -> u128 {
    (x * 0x1_0000_0000_0000_0000 + y) as u128
}

/// Executable form of [`pos_key`].
pub fn key_of(p: &Pos) -> (k: u128)
    ensures
        k == pos_key(p.x as int, p.y as int),
{
    (p.x as u128) * 0x1_0000_0000_0000_0000 + (p.y as u128)
}

/// The number of trees that are met from `(x, y)` on, when each step leads
/// `dx` to the right, around the edge of the map, and `dy` down.
pub open spec fn trees_from(
    trees: Set<u128>,
    x: int,
    y: int,
    dx: int,
    dy: int,
    map_width: int,
    slope_height: int,
) -> nat
    decreases (if y < slope_height {
        slope_height - y
    } else {
        0
    }),
{
    if y >= slope_height || dy <= 0 {
        0
    } else {
        (if trees.contains(pos_key(x, y)) {
            1nat
        } else {
            0nat
        }) + trees_from(trees, (x + dx) % map_width, y + dy, dx, dy, map_width, slope_height)
    }
}

/// There are at most as many trees on the way as rows are left.
pub proof fn lemma_trees_bounded(
    trees: Set<u128>,
    x: int,
    y: int,
    dx: int,
    dy: int,
    map_width: int,
    slope_height: int,
)
    ensures
        trees_from(trees, x, y, dx, dy, map_width, slope_height) <= (if y < slope_height {
            slope_height - y
        } else {
            0
        }),
    decreases (if y < slope_height {
        slope_height - y
    } else {
        0
    }),
{
    if y < slope_height && dy > 0 {
        lemma_trees_bounded(trees, (x + dx) % map_width, y + dy, dx, dy, map_width, slope_height);
    }
}

/// Counts the trees on the way from the top left corner down the slope.
pub fn count_trees(
    tree_positions: &HashSet<u128>,
    dx: usize,
    dy: usize,
    map_width: usize,
    slope_height: usize,
) -> (count: usize)
    requires
        map_width > 0,
        dy > 0,
        dx + map_width <= usize::MAX,
        slope_height + dy <= usize::MAX,
    ensures
        count == trees_from(
            tree_positions@,
            0,
            0,
            dx as int,
            dy as int,
            map_width as int,
            slope_height as int,
        ),
{
    let mut x: usize = 0;
    let mut y: usize = 0;
    let mut count: usize = 0;
    let ghost whole = trees_from(
        tree_positions@,
        0,
        0,
        dx as int,
        dy as int,
        map_width as int,
        slope_height as int,
    );
    proof {
        lemma_trees_bounded(tree_positions@, 0, 0, dx as int, dy as int, map_width as int, slope_height as int);
    }
    while y < slope_height
        invariant
            map_width > 0,
            dy > 0,
            dx + map_width <= usize::MAX,
            slope_height + dy <= usize::MAX,
            x < map_width,
            y < slope_height + dy,
            whole <= slope_height,
            count + trees_from(
                tree_positions@,
                x as int,
                y as int,
                dx as int,
                dy as int,
                map_width as int,
                slope_height as int,
            ) == whole,
        decreases slope_height + dy - y,
    {
        let k = key_of(&Pos { x, y });
        if tree_positions.contains(&k) {
            count += 1;
        }
        x = (x + dx) % map_width;
        y = y + dy;
    }
    count
}

/// The trees on the way that leads 3 to the right for each step down.
pub fn part1(tree_positions: &HashSet<u128>, map_width: usize, slope_height: usize) -> (r: usize)
    requires
        map_width > 0,
        3 + map_width <= usize::MAX,
        slope_height + 1 <= usize::MAX,
    ensures
        r == trees_from(tree_positions@, 0, 0, 3, 1, map_width as int, slope_height as int),
{
    count_trees(tree_positions, 3, 1, map_width, slope_height)
}

/// The trees of a line of the map: the places in row `y` at which the line
/// has a `#`.
pub open spec fn line_trees(line: Seq<char>, y: int) -> Set<u128> {
    Set::new(|k: u128| exists|x: int| 0 <= x < line.len() && line[x] == '#' && k == pos_key(x, y))
}

/// Takes the trees of one line of the map into the set and gives the width
/// of the line.
pub fn read_line(line: &str, y: usize, tree_positions: &mut HashSet<u128>) -> (width: usize)
    ensures
        width == line@.len(),
        final(tree_positions)@ == old(tree_positions)@.union(line_trees(line@, y as int)),
{
    let chars = chars_of(line);
    let mut x: usize = 0;
    proof {
        assert(tree_positions@ =~= old(tree_positions)@.union(line_trees(chars@.take(0), y as int)));
    }
    while x < chars.len()
        invariant
            0 <= x <= chars.len(),
            tree_positions@ == old(tree_positions)@.union(
                line_trees(chars@.take(x as int), y as int),
            ),
        decreases chars.len() - x,
    {
        let ghost before = tree_positions@;
        let c = chars[x];
        if c == '#' {
            let k = key_of(&Pos { x, y });
            tree_positions.insert(k);
        }
        proof {
            let old_part = line_trees(chars@.take(x as int), y as int);
            let new_part = line_trees(chars@.take(x + 1), y as int);
            assert forall|k: u128| new_part.contains(k) <==> old_part.contains(k) || (c == '#' && k
                == pos_key(x as int, y as int)) by {
                if new_part.contains(k) {
                    let w = choose|w: int|
                        0 <= w < chars@.take(x + 1).len() && chars@.take(x + 1)[w] == '#' && k
                            == pos_key(w, y as int);
                    if w < x {
                        assert(chars@.take(x as int)[w] == '#');
                    }
                }
                if old_part.contains(k) {
                    let w = choose|w: int|
                        0 <= w < chars@.take(x as int).len() && chars@.take(x as int)[w] == '#' && k
                            == pos_key(w, y as int);
                    assert(chars@.take(x + 1)[w] == '#');
                }
                if c == '#' && k == pos_key(x as int, y as int) {
                    assert(chars@.take(x + 1)[x as int] == '#');
                }
            }
            assert(tree_positions@ =~= old(tree_positions)@.union(new_part));
        }
        x += 1;
    }
    assert(chars@.take(chars.len() as int) =~= chars@);
    chars.len()
}

/// The trees of the first `n` lines of a map.
pub open spec fn map_trees(lines: Seq<String>, n: int) -> Set<u128>
    decreases n,
{
    if n <= 0 {
        Set::empty()
    } else {
        map_trees(lines, n - 1).union(line_trees(lines[n - 1]@, n - 1))
    }
}

/// The width of the widest of the first `n` lines.
pub open spec fn map_width(lines: Seq<String>, n: int) -> nat
    decreases n,
{
    if n <= 0 {
        0
    } else if lines[n - 1]@.len() > map_width(lines, n - 1) {
        lines[n - 1]@.len()
    } else {
        map_width(lines, n - 1)
    }
}

/// Reads a map from its lines: the places of the trees, the width of the
/// widest line, and the number of lines.
pub fn read_map(lines: &Vec<String>) -> (r: (HashSet<u128>, usize, usize))
    ensures
        r.0@ == map_trees(lines@, lines@.len() as int),
        r.1 == map_width(lines@, lines@.len() as int),
        r.2 == lines@.len(),
{
    let mut tree_positions: HashSet<u128> = HashSet::new();
    let mut width: usize = 0;
    let mut y: usize = 0;
    while y < lines.len()
        invariant
            0 <= y <= lines@.len(),
            tree_positions@ == map_trees(lines@, y as int),
            width == map_width(lines@, y as int),
        decreases lines@.len() - y,
    {
        let w = read_line(lines[y].as_str(), y, &mut tree_positions);
        if w > width {
            width = w;
        }
        y += 1;
    }
    (tree_positions, width, lines.len())
}

/// The product of the numbers of trees on the five ways that lead 1, 3, 5 or
/// 7 to the right for each step down, or 1 to the right for two steps down.
/// `None` when the product does not fit.
pub fn part2(tree_positions: &HashSet<u128>, map_width: usize, slope_height: usize) -> (r: Option<
    usize,
>)
    requires
        map_width > 0,
        7 + map_width <= usize::MAX,
        slope_height + 2 <= usize::MAX,
    ensures
        r is Some <==> trees_from(tree_positions@, 0, 0, 1, 1, map_width as int, slope_height as int)
            * trees_from(tree_positions@, 0, 0, 3, 1, map_width as int, slope_height as int)
            * trees_from(tree_positions@, 0, 0, 5, 1, map_width as int, slope_height as int)
            * trees_from(tree_positions@, 0, 0, 7, 1, map_width as int, slope_height as int)
            * trees_from(tree_positions@, 0, 0, 1, 2, map_width as int, slope_height as int)
            <= usize::MAX,
        r matches Some(product) ==> product == trees_from(
            tree_positions@,
            0,
            0,
            1,
            1,
            map_width as int,
            slope_height as int,
        ) * trees_from(tree_positions@, 0, 0, 3, 1, map_width as int, slope_height as int)
            * trees_from(tree_positions@, 0, 0, 5, 1, map_width as int, slope_height as int)
            * trees_from(tree_positions@, 0, 0, 7, 1, map_width as int, slope_height as int)
            * trees_from(tree_positions@, 0, 0, 1, 2, map_width as int, slope_height as int),
{
    let a = count_trees(tree_positions, 1, 1, map_width, slope_height);
    let b = count_trees(tree_positions, 3, 1, map_width, slope_height);
    let c = count_trees(tree_positions, 5, 1, map_width, slope_height);
    let d = count_trees(tree_positions, 7, 1, map_width, slope_height);
    let e = count_trees(tree_positions, 1, 2, map_width, slope_height);
    times_all(a, b, c, d, e)
}

/// The product of five numbers, if it fits.
fn times_all(a: usize, b: usize, c: usize, d: usize, e: usize) -> (r: Option<usize>)
    ensures
        r is Some <==> a * b * c * d * e <= usize::MAX,
        r matches Some(product) ==> product == a * b * c * d * e,
{
    if a == 0 || b == 0 || c == 0 || d == 0 || e == 0 {
        assert(a * b * c * d * e == 0) by (nonlinear_arith)
            requires
                a == 0 || b == 0 || c == 0 || d == 0 || e == 0,
        ;
        return Some(0);
    }
    let ab = match a.checked_mul(b) {
        Some(v) => v,
        None => {
            assert(a * b * c * d * e >= a * b) by (nonlinear_arith)
                requires
                    a >= 1,
                    b >= 1,
                    c >= 1,
                    d >= 1,
                    e >= 1,
            ;
            return None;
        },
    };
    let abc = match ab.checked_mul(c) {
        Some(v) => v,
        None => {
            assert(a * b * c * d * e >= a * b * c) by (nonlinear_arith)
                requires
                    a >= 1,
                    b >= 1,
                    c >= 1,
                    d >= 1,
                    e >= 1,
            ;
            return None;
        },
    };
    let abcd = match abc.checked_mul(d) {
        Some(v) => v,
        None => {
            assert(a * b * c * d * e >= a * b * c * d) by (nonlinear_arith)
                requires
                    a >= 1,
                    b >= 1,
                    c >= 1,
                    d >= 1,
                    e >= 1,
            ;
            return None;
        },
    };
    abcd.checked_mul(e)
}

} // verus!
