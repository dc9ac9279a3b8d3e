//! A lattice of cells in four dimensions: the cells that are active and the
//! ranges that hold them.
use crate::text::{chars_of, string_of};
use std::collections::HashSet;
use vstd::prelude::*;
use vstd::std_specs::iter::IteratorSpec;

verus! {

broadcast use vstd::std_specs::hash::group_hash_axioms;

pub type Ordinate = i32;

/// The ordinates from `start` to `end`, both included; empty when `end` is
/// less than `start`.
#[derive(Debug, Clone, Copy, PartialEq, Eq, Structural)]
pub struct OrdinateRange {
    pub start: Ordinate,
    pub end: Ordinate,
}

/// A cell of the lattice.
#[derive(Debug, Copy, Clone, PartialEq, Eq, Structural)]
pub struct Pos4 {
    pub x: Ordinate,
    pub y: Ordinate,
    pub z: Ordinate,
    pub w: Ordinate,
}

/// The active cells, the ranges that were grown to hold them, and whether
/// the fourth dimension is in use.
pub struct Lattice {
    pub xrange: OrdinateRange,
    pub yrange: OrdinateRange,
    pub zrange: OrdinateRange,
    pub wrange: OrdinateRange,
    pub active: HashSet<u128>,
    pub use_w: bool,
}

impl OrdinateRange {
    /// Whether `n` lies in the range.
    pub open spec fn holds(self, n: int) -> bool {
        self.start <= n <= self.end
    }
}

/// The range grown, if need be, to hold `n`.
pub open spec fn grown(r: OrdinateRange, n: Ordinate) -> OrdinateRange {
    if r.holds(n as int) {
        r
    } else {
        OrdinateRange {
            start: if n < r.start {
                n
            } else {
                r.start
            },
            end: if n > r.end {
                n
            } else {
                r.end
            },
        }
    }
}

/// The range that holds `n` and all of `r`: `r` itself if it holds `n`.
pub fn update_range(n: &Ordinate, r: OrdinateRange) -> (out: OrdinateRange)
    ensures
        out == grown(r, *n),
{
    if r.start <= *n && *n <= r.end {
        r
    } else {
        OrdinateRange {
            start: if *n < r.start {
                *n
            } else {
                r.start
            },
            end: if *n > r.end {
                *n
            } else {
                r.end
            },
        }
    }
}

/// The number of ordinates in a range.
pub fn range_size(r: &OrdinateRange) -> (n: usize)
    requires
        r.end - r.start < i32::MAX,
    ensures
        n == (if r.end < r.start {
            0
        } else {
            r.end - r.start + 1
        }),
{
    if r.end < r.start {
        0
    } else {
        let result: i32 = r.end - r.start + 1;
        result as usize
    }
}

/// The number under which a cell is filed: its four ordinates, each moved
/// into the range from 0, side by side.
pub open spec fn cell_key(p: Pos4) -> u128 {
    ((((p.w + 0x8000_0000) * 0x1_0000_0000 + (p.z + 0x8000_0000)) * 0x1_0000_0000 + (p.y
        + 0x8000_0000)) * 0x1_0000_0000 + (p.x + 0x8000_0000)) as u128
}

/// Executable form of [`cell_key`].
pub fn key_of(p: &Pos4) -> (k: u128)
    ensures
        k == cell_key(*p),
{
    let w: u128 = (p.w as i64 + 0x8000_0000) as u128;
    let z: u128 = (p.z as i64 + 0x8000_0000) as u128;
    let y: u128 = (p.y as i64 + 0x8000_0000) as u128;
    let x: u128 = (p.x as i64 + 0x8000_0000) as u128;
    let wz: u128 = w * 0x1_0000_0000 + z;
    let wzy: u128 = wz * 0x1_0000_0000 + y;
    wzy * 0x1_0000_0000 + x
}

/// Different cells are filed under different numbers.
pub proof fn lemma_cell_key_injective(p: Pos4, q: Pos4)
    requires
        cell_key(p) == cell_key(q),
    ensures
        p == q,
{
    lemma_cell_at(p);
    lemma_cell_at(q);
}

/// The cell next to `pos` with the number `k`: the cells around `pos` are
/// numbered with `x` running fastest, then `y`, then `z`, then `w`, each
/// from one less to one more than that of `pos`; without the fourth
/// dimension `w` stays.
pub open spec fn around(pos: Pos4, use_w: bool, k: int) -> Pos4 {
    Pos4 {
        x: (pos.x + k % 3 - 1) as i32,
        y: (pos.y + (k / 3) % 3 - 1) as i32,
        z: (pos.z + (k / 9) % 3 - 1) as i32,
        w: if use_w {
            (pos.w + k / 27 - 1) as i32
        } else {
            pos.w
        },
    }
}

/// The number of cells around a cell, the cell itself counted.
pub open spec fn block_size(use_w: bool) -> int {
    if use_w {
        81
    } else {
        27
    }
}

/// The neighbours of `pos`: the cells around it in their order, without
/// `pos` itself, which stands in the middle.
pub open spec fn neighbours(pos: Pos4, use_w: bool) -> Seq<Pos4> {
    Seq::new(
        (block_size(use_w) - 1) as nat,
        |i: int|
            around(
                pos,
                use_w,
                if i < block_size(use_w) / 2 {
                    i
                } else {
                    i + 1
                },
            ),
    )
}

impl Lattice {
    /// The set of the active cells.
    pub open spec fn cells(&self) -> Set<Pos4> {
        Set::new(|p: Pos4| self.active@.contains(cell_key(p)))
    }

    /// The number of active cells.
    pub fn popcount(&self) -> (n: usize)
        ensures
            n == self.active@.len(),
    {
        self.active.len()
    }

    /// The cells next to `pos`, in all directions of the dimensions in use.
    pub fn neighbours_of(&self, pos: &Pos4) -> (r: Vec<Pos4>)
        requires
            i32::MIN < pos.x < i32::MAX,
            i32::MIN < pos.y < i32::MAX,
            i32::MIN < pos.z < i32::MAX,
            self.use_w ==> i32::MIN < pos.w < i32::MAX,
        ensures
            r@ == neighbours(*pos, self.use_w),
    {
        let size: i32 = if self.use_w {
            81
        } else {
            27
        };
        let mut result: Vec<Pos4> = Vec::new();
        let mut k: i32 = 0;
        while k < size
            invariant
                0 <= k <= size,
                size == block_size(self.use_w),
                i32::MIN < pos.x < i32::MAX,
                i32::MIN < pos.y < i32::MAX,
                i32::MIN < pos.z < i32::MAX,
                self.use_w ==> i32::MIN < pos.w < i32::MAX,
                result@.len() == (if k <= size / 2 {
                    k as int
                } else {
                    k - 1
                }),
                forall|i: int| 0 <= i < result@.len() ==> result@[i] == neighbours(*pos, self.use_w)[i],
            decreases size - k,
        {
            if k != size / 2 {
                let neighbour = Pos4 {
                    x: pos.x - 1 + k % 3,
                    y: pos.y - 1 + (k / 3) % 3,
                    z: pos.z - 1 + (k / 9) % 3,
                    w: if self.use_w {
                        pos.w - 1 + k / 27
                    } else {
                        pos.w
                    },
                };
                assert(neighbour == around(*pos, self.use_w, k as int));
                result.push(neighbour);
            }
            k += 1;
        }
        assert(result@ =~= neighbours(*pos, self.use_w));
        result
    }

    /// Makes the cell `pos` active and grows the ranges to hold it.
    pub fn insert(&mut self, pos: Pos4)
        requires
            old(self).use_w || pos.w == 0,
        ensures
            final(self).active@ == old(self).active@.insert(cell_key(pos)),
            final(self).cells() == old(self).cells().insert(pos),
            final(self).xrange == grown(old(self).xrange, pos.x),
            final(self).yrange == grown(old(self).yrange, pos.y),
            final(self).zrange == grown(old(self).zrange, pos.z),
            final(self).wrange == grown(old(self).wrange, pos.w),
            final(self).use_w == old(self).use_w,
    {
        let k = key_of(&pos);
        self.active.insert(k);
        self.xrange = update_range(&pos.x, self.xrange);
        self.yrange = update_range(&pos.y, self.yrange);
        self.zrange = update_range(&pos.z, self.zrange);
        self.wrange = update_range(&pos.w, self.wrange);
        proof {
            assert forall|p: Pos4| self.cells().contains(p) <==> old(self).cells().insert(
                pos,
            ).contains(p) by {
                if cell_key(p) == cell_key(pos) {
                    lemma_cell_key_injective(p, pos);
                }
            }
            assert(self.cells() =~= old(self).cells().insert(pos));
        }
    }
}

/// The cell that is filed under the number `k`.
pub open spec fn cell_at(k: u128) -> Pos4 {
    Pos4 {
        x: (k % 0x1_0000_0000 - 0x8000_0000) as i32,
        y: ((k / 0x1_0000_0000) % 0x1_0000_0000 - 0x8000_0000) as i32,
        z: (((k / 0x1_0000_0000) / 0x1_0000_0000) % 0x1_0000_0000 - 0x8000_0000) as i32,
        w: ((((k / 0x1_0000_0000) / 0x1_0000_0000) / 0x1_0000_0000) % 0x1_0000_0000 - 0x8000_0000) as i32,
    }
}

/// The cell that is filed under the number `k`.
pub fn cell_of_key(k: u128) -> (p: Pos4)
    ensures
        p == cell_at(k),
{
    let k1: u128 = k / 0x1_0000_0000;
    let k2: u128 = k1 / 0x1_0000_0000;
    let k3: u128 = k2 / 0x1_0000_0000;
    let x: i64 = (k % 0x1_0000_0000) as i64 - 0x8000_0000;
    let y: i64 = (k1 % 0x1_0000_0000) as i64 - 0x8000_0000;
    let z: i64 = (k2 % 0x1_0000_0000) as i64 - 0x8000_0000;
    let w: i64 = (k3 % 0x1_0000_0000) as i64 - 0x8000_0000;
    Pos4 { x: x as i32, y: y as i32, z: z as i32, w: w as i32 }
}

/// A cell is the cell that is filed under its number.
pub proof fn lemma_cell_at(p: Pos4)
    ensures
        cell_at(cell_key(p)) == p,
{
    let a = (p.w + 0x8000_0000) as int;
    let b = (p.z + 0x8000_0000) as int;
    let c = (p.y + 0x8000_0000) as int;
    let d = (p.x + 0x8000_0000) as int;
    let k2 = a * 0x1_0000_0000 + b;
    let k1 = k2 * 0x1_0000_0000 + c;
    let k = k1 * 0x1_0000_0000 + d;
    assert(0 <= k2 < 0x1_0000_0000_0000_0000);
    assert(0 <= k1 < 0x1_0000_0000_0000_0000_0000_0000);
    assert(0 <= k < 0x1_0000_0000_0000_0000_0000_0000_0000_0000);
    assert(k == cell_key(p));
    vstd::arithmetic::div_mod::lemma_fundamental_div_mod_converse(k, 0x1_0000_0000, k1, d);
    vstd::arithmetic::div_mod::lemma_fundamental_div_mod_converse(k1, 0x1_0000_0000, k2, c);
    vstd::arithmetic::div_mod::lemma_fundamental_div_mod_converse(k2, 0x1_0000_0000, a, b);
    assert((a / 0x1_0000_0000) == 0 && a % 0x1_0000_0000 == a);
}

/// Whether the cells around `p`, and the cells around those, can be named.
pub open spec fn inner(p: Pos4) -> bool {
    -0x7fff_fff0 < p.x < 0x7fff_fff0 && -0x7fff_fff0 < p.y < 0x7fff_fff0 && -0x7fff_fff0 < p.z
        < 0x7fff_fff0 && -0x7fff_fff0 < p.w < 0x7fff_fff0
}

/// Whether every active cell lies well inside what 32 bits can name.
pub open spec fn all_inner(active: Set<u128>) -> bool {
    forall|k: u128| #[trigger]
        active.contains(k) ==> -0x4000_0000 < cell_at(k).x < 0x4000_0000 && -0x4000_0000
            < cell_at(k).y < 0x4000_0000 && -0x4000_0000 < cell_at(k).z < 0x4000_0000
            && -0x4000_0000 < cell_at(k).w < 0x4000_0000
}

/// The number of active cells among the first `k` cells around `p`, `p`
/// itself not counted.
pub open spec fn active_around(active: Set<u128>, p: Pos4, use_w: bool, k: int) -> nat
    decreases k,
{
    if k <= 0 {
        0
    } else {
        active_around(active, p, use_w, k - 1) + if k - 1 != block_size(use_w) / 2
            && active.contains(cell_key(around(p, use_w, k - 1))) {
            1nat
        } else {
            0nat
        }
    }
}

/// Whether the cell `p` is active after the next cycle: an active cell
/// stays active with two or three active neighbours, and an inactive cell
/// becomes active with exactly three.
pub open spec fn active_next(active: Set<u128>, use_w: bool, p: Pos4) -> bool {
    let n = active_around(active, p, use_w, block_size(use_w));
    inner(p) && (n == 3 || (n == 2 && active.contains(cell_key(p))))
}

/// The numbers of the cells that are active after the next cycle.
pub open spec fn next_active(active: Set<u128>, use_w: bool) -> Set<u128> {
    Set::new(|k: u128| active_next(active, use_w, cell_at(k)) && cell_key(cell_at(k)) == k)
}

/// A cell with an active neighbour has one at some place around it.
pub proof fn lemma_some_active(active: Set<u128>, p: Pos4, use_w: bool, k: int)
    requires
        0 <= k <= block_size(use_w),
        active_around(active, p, use_w, k) > 0,
    ensures
        exists|i: int|
            0 <= i < k && i != block_size(use_w) / 2 && active.contains(
                cell_key(#[trigger] around(p, use_w, i)),
            ),
    decreases k,
{
    if k > 0 {
        if k - 1 != block_size(use_w) / 2 && active.contains(cell_key(around(p, use_w, k - 1))) {
        } else {
            lemma_some_active(active, p, use_w, k - 1);
            let i = choose|i: int|
                0 <= i < k - 1 && i != block_size(use_w) / 2 && active.contains(
                    cell_key(#[trigger] around(p, use_w, i)),
                );
            assert(0 <= i < k);
        }
    }
}

impl Lattice {
    /// The cell around `pos` with the number `k`.
    fn cell_around(&self, pos: &Pos4, k: i32) -> (r: Pos4)
        requires
            inner(*pos),
            0 <= k < block_size(self.use_w),
        ensures
            r == around(*pos, self.use_w, k as int),
    {
        Pos4 {
            x: pos.x - 1 + k % 3,
            y: pos.y - 1 + (k / 3) % 3,
            z: pos.z - 1 + (k / 9) % 3,
            w: if self.use_w {
                pos.w - 1 + k / 27
            } else {
                pos.w
            },
        }
    }

    /// Whether the cell `p` is active after the next cycle.
    pub fn stays_or_wakes(&self, p: &Pos4) -> (r: bool)
        requires
            inner(*p),
        ensures
            r == active_next(self.active@, self.use_w, *p),
    {
        let size: i32 = if self.use_w {
            81
        } else {
            27
        };
        let mut count: usize = 0;
        let mut k: i32 = 0;
        while k < size
            invariant
                0 <= k <= size,
                size == block_size(self.use_w),
                inner(*p),
                count == active_around(self.active@, *p, self.use_w, k as int),
                count <= k,
            decreases size - k,
        {
            if k != size / 2 {
                let n = self.cell_around(p, k);
                let key = key_of(&n);
                if self.active.contains(&key) {
                    count += 1;
                }
            }
            k += 1;
        }
        let key = key_of(p);
        count == 3 || (count == 2 && self.active.contains(&key))
    }

    /// Whether `found` holds only cells that are active after the next
    /// cycle of this lattice, and its ranges hold all of them and 0.
    pub open spec fn sound(&self, found: &Lattice) -> bool {
        &&& found.use_w == self.use_w
        &&& found.xrange.holds(0) && found.yrange.holds(0) && found.zrange.holds(0)
            && found.wrange.holds(0)
        &&& forall|key: u128| #[trigger]
            found.active@.contains(key) ==> next_active(self.active@, self.use_w).contains(key)
                && found.xrange.holds(cell_at(key).x as int) && found.yrange.holds(
                cell_at(key).y as int,
            ) && found.zrange.holds(cell_at(key).z as int) && found.wrange.holds(
                cell_at(key).w as int,
            )
    }

    /// Whether `found` holds every one of the first `n` cells around `t`
    /// that is active after the next cycle.
    pub open spec fn covered(&self, found: Set<u128>, t: Pos4, n: int) -> bool {
        forall|i: int|
            0 <= i < n ==> (active_next(self.active@, self.use_w, #[trigger] around(t, self.use_w, i))
                ==> found.contains(cell_key(around(t, self.use_w, i))))
    }

    /// Takes into `found` every cell around `t` that is active after the
    /// next cycle.
    fn wake_around(&self, t: &Pos4, found: &mut Lattice)
        requires
            -0x4000_0000 < t.x < 0x4000_0000,
            -0x4000_0000 < t.y < 0x4000_0000,
            -0x4000_0000 < t.z < 0x4000_0000,
            -0x4000_0000 < t.w < 0x4000_0000,
            !self.use_w ==> t.w == 0,
            self.sound(old(found)),
        ensures
            self.sound(final(found)),
            old(found).active@.subset_of(final(found).active@),
            self.covered(final(found).active@, *t, block_size(self.use_w)),
    {
        broadcast use vstd::std_specs::hash::group_hash_axioms;

        let size: i32 = if self.use_w {
            81
        } else {
            27
        };
        let mut i: i32 = 0;
        while i < size
            invariant
                0 <= i <= size,
                size == block_size(self.use_w),
                -0x4000_0000 < t.x < 0x4000_0000,
                -0x4000_0000 < t.y < 0x4000_0000,
                -0x4000_0000 < t.z < 0x4000_0000,
                -0x4000_0000 < t.w < 0x4000_0000,
                !self.use_w ==> t.w == 0,
                self.sound(found),
                old(found).active@.subset_of(found.active@),
                self.covered(found.active@, *t, i as int),
            decreases size - i,
        {
            let p = self.cell_around(t, i);
            if self.stays_or_wakes(&p) {
                let ghost before = *found;
                proof {
                    lemma_cell_at(p);
                }
                found.insert(p);
                proof {
                    assert forall|key: u128| #[trigger]
                        found.active@.contains(key) implies next_active(
                        self.active@,
                        self.use_w,
                    ).contains(key) && found.xrange.holds(cell_at(key).x as int)
                        && found.yrange.holds(cell_at(key).y as int) && found.zrange.holds(
                        cell_at(key).z as int,
                    ) && found.wrange.holds(cell_at(key).w as int) by {
                        if key != cell_key(p) {
                            assert(before.active@.contains(key));
                            assert(before.xrange.holds(cell_at(key).x as int));
                        }
                    }
                }
            }
            i += 1;
        }
    }

    /// The lattice after one cycle.  The ranges are grown from the single
    /// ordinate 0 to hold every active cell.
    pub fn iterate(&self) -> (r: Lattice)
        requires
            all_inner(self.active@),
            !self.use_w ==> forall|k: u128| #[trigger] self.active@.contains(k) ==> cell_at(k).w == 0,
        ensures
            r.use_w == self.use_w,
            r.active@ == next_active(self.active@, self.use_w),
            forall|k: u128| #[trigger]
                r.active@.contains(k) ==> r.xrange.holds(cell_at(k).x as int) && r.yrange.holds(
                    cell_at(k).y as int,
                ) && r.zrange.holds(cell_at(k).z as int) && r.wrange.holds(cell_at(k).w as int),
            r.xrange.holds(0) && r.yrange.holds(0) && r.zrange.holds(0) && r.wrange.holds(0),
    {
        broadcast use vstd::std_specs::hash::group_hash_axioms;

        let ghost active = self.active@;
        let ghost all = vstd::std_specs::hash::spec_hash_keys_iter(&self.active).remaining();
        let ghost mut done: int = 0;
        let zero = OrdinateRange { start: 0, end: 0 };
        let mut result = Lattice {
            xrange: zero,
            yrange: zero,
            zrange: zero,
            wrange: zero,
            use_w: self.use_w,
            active: HashSet::new(),
        };
        let cells = self.active.iter();
        for k in it: cells
            invariant
                it.seq() == all,
                done == it.index(),
                active == self.active@,
                all.unref().to_set() == active,
                all_inner(active),
                !self.use_w ==> forall|k: u128| #[trigger] active.contains(k) ==> cell_at(k).w == 0,
                self.sound(&result),
                forall|j: int|
                    0 <= j < done ==> self.covered(
                        result.active@,
                        cell_at(*#[trigger] all[j]),
                        block_size(self.use_w),
                    ),
        {
            assert(all[done] == k);
            let t = cell_of_key(*k);
            proof {
                assert(all.unref()[done] == *k);
                assert(all.unref().to_set().contains(*k));
                assert(active.contains(*k));
            }
            let ghost before = result.active@;
            self.wake_around(&t, &mut result);
            proof {
                assert forall|j: int| 0 <= j < done + 1 implies self.covered(
                    result.active@,
                    cell_at(*#[trigger] all[j]),
                    block_size(self.use_w),
                ) by {
                    if j < done {
                        assert(self.covered(before, cell_at(*all[j]), block_size(self.use_w)));
                    }
                }
                done = done + 1;
            }
        }
        proof {
            assert(done == all.len());
            let want = next_active(active, self.use_w);
            assert forall|key: u128| result.active@.contains(key) <==> want.contains(key) by {
                if want.contains(key) {
                    self.lemma_found(result.active@, all.unref(), key);
                }
            }
            assert(result.active@ =~= want);
        }
        result
    }

    /// A cell that is active after the next cycle lies around an active
    /// cell, so that it was found when the cells around that one were gone
    /// through.
    proof fn lemma_found(&self, found: Set<u128>, all: Seq<u128>, key: u128)
        requires
            all.to_set() == self.active@,
            next_active(self.active@, self.use_w).contains(key),
            forall|j: int|
                0 <= j < all.len() ==> self.covered(
                    found,
                    cell_at(#[trigger] all[j]),
                    block_size(self.use_w),
                ),
        ensures
            found.contains(key),
    {
        let active = self.active@;
        let size = block_size(self.use_w);
        let p = cell_at(key);
        assert(active_around(active, p, self.use_w, size) > 0);
        lemma_some_active(active, p, self.use_w, size);
        let i = choose|i: int|
            0 <= i < size && i != size / 2 && active.contains(
                cell_key(#[trigger] around(p, self.use_w, i)),
            );
        let t = around(p, self.use_w, i);
        let tk = cell_key(t);
        lemma_cell_at(t);
        assert(all.to_set().contains(tk));
        let j = choose|j: int| 0 <= j < all.len() && all[j] == tk;
        assert(self.covered(found, cell_at(all[j]), size));
        lemma_mirror(p, self.use_w, i);
        assert(active_next(active, self.use_w, around(t, self.use_w, size - 1 - i)));
    }
}

/// From a cell around `p` the way back to `p` is the opposite way: the
/// cells around a cell are numbered so that opposite cells have numbers that
/// add up to the last number.
pub proof fn lemma_mirror(p: Pos4, use_w: bool, i: int)
    requires
        inner(p),
        0 <= i < block_size(use_w),
    ensures
        around(around(p, use_w, i), use_w, block_size(use_w) - 1 - i) == p,
{
    let j = block_size(use_w) - 1 - i;
    assert(j % 3 == 2 - i % 3);
    assert((j / 3) % 3 == 2 - (i / 3) % 3);
    assert((j / 9) % 3 == 2 - (i / 9) % 3);
    if use_w {
        assert(j / 27 == 2 - i / 27);
    }
}

/// What is known of a lattice while its text is read: the ranges, the
/// active cells, and the place of the next character.
pub struct ReadState {
    pub xrange: OrdinateRange,
    pub yrange: OrdinateRange,
    pub active: Set<u128>,
    pub x: int,
    pub y: int,
}

/// What the first `n` characters of a text say: `#` is an active cell, `.`
/// an inactive one, and a line feed begins the next row.  Any other
/// character is handed back.
pub open spec fn read_upto(s: Seq<char>, n: int) -> Result<ReadState, char>
    decreases n,
{
    if n <= 0 {
        Ok(
            ReadState {
                xrange: OrdinateRange { start: 0, end: 0 },
                yrange: OrdinateRange { start: 0, end: 0 },
                active: Set::empty(),
                x: 0,
                y: 0,
            },
        )
    } else {
        match read_upto(s, n - 1) {
            Err(c) => Err(c),
            Ok(st) => {
                let ch = s[n - 1];
                if ch == '#' {
                    Ok(
                        ReadState {
                            xrange: grown(st.xrange, st.x as i32),
                            yrange: grown(st.yrange, st.y as i32),
                            active: st.active.insert(
                                cell_key(Pos4 { x: st.x as i32, y: st.y as i32, z: 0, w: 0 }),
                            ),
                            x: st.x + 1,
                            y: st.y,
                        },
                    )
                } else if ch == '.' {
                    Ok(ReadState { x: st.x + 1, ..st })
                } else if ch == '\n' {
                    Ok(ReadState { x: 0, y: st.y + 1, ..st })
                } else {
                    Err(ch)
                }
            },
        }
    }
}

/// Nothing that follows can mend a text that went wrong.
pub proof fn lemma_read_sticks(s: Seq<char>, n: int, m: int)
    requires
        0 <= n <= m,
        read_upto(s, n) is Err,
    ensures
        read_upto(s, m) == read_upto(s, n),
    decreases m - n,
{
    if n < m {
        lemma_read_sticks(s, n, m - 1);
    }
}

/// The place of the next character is never further than the characters
/// read.
pub proof fn lemma_read_bounds(s: Seq<char>, n: int)
    requires
        0 <= n,
    ensures
        read_upto(s, n) matches Ok(st) ==> 0 <= st.x <= n && 0 <= st.y <= n,
    decreases n,
{
    if n > 0 {
        lemma_read_bounds(s, n - 1);
    }
}

/// The character of a slice of a lattice with the number `i`: the slice is
/// written row after row, `#` for an active cell and `.` for any other, a
/// line feed after each row.
pub open spec fn slice_char(
    active: Set<u128>,
    xrange: OrdinateRange,
    yrange: OrdinateRange,
    w: int,
    z: int,
    i: int,
) -> char {
    let cols = xrange.end - xrange.start + 1;
    if i % (cols + 1) == cols {
        '\n'
    } else if active.contains(
        cell_key(
            Pos4 {
                x: (xrange.start + i % (cols + 1)) as i32,
                y: (yrange.start + i / (cols + 1)) as i32,
                z: z as i32,
                w: w as i32,
            },
        ),
    ) {
        '#'
    } else {
        '.'
    }
}

/// The number of ordinates of a range.
pub open spec fn extent(r: OrdinateRange) -> int {
    if r.end < r.start {
        0
    } else {
        r.end - r.start + 1
    }
}

impl Lattice {
    /// The slice of the lattice at `w` and `z` as text.  Without a column
    /// there is no row to write.
    pub fn slice_as_str(&self, w: Ordinate, z: Ordinate) -> (r: String)
        ensures
            r@.len() == (if extent(self.xrange) == 0 {
                0
            } else {
                extent(self.yrange) * (extent(self.xrange) + 1)
            }),
            forall|i: int|
                0 <= i < r@.len() ==> #[trigger] r@[i] == slice_char(
                    self.active@,
                    self.xrange,
                    self.yrange,
                    w as int,
                    z as int,
                    i,
                ),
    {
        let mut output: Vec<char> = Vec::new();
        if self.xrange.end < self.xrange.start {
            return string_of(&output);
        }
        let cols: i64 = self.xrange.end as i64 - self.xrange.start as i64 + 1;
        let mut y: i64 = self.yrange.start as i64;
        while y <= self.yrange.end as i64
            invariant
                cols == self.xrange.end - self.xrange.start + 1,
                cols >= 1,
                self.yrange.start <= y <= self.yrange.end + 1 || self.yrange.end < self.yrange.start,
                self.yrange.end < self.yrange.start ==> y == self.yrange.start,
                output@.len() == (y - self.yrange.start) * (cols + 1),
                forall|i: int|
                    0 <= i < output@.len() ==> #[trigger] output@[i] == slice_char(
                        self.active@,
                        self.xrange,
                        self.yrange,
                        w as int,
                        z as int,
                        i,
                    ),
            decreases self.yrange.end + 1 - y,
        {
            let ghost row = y - self.yrange.start;
            let mut x: i64 = self.xrange.start as i64;
            while x <= self.xrange.end as i64
                invariant
                    cols == self.xrange.end - self.xrange.start + 1,
                    cols >= 1,
                    self.yrange.start <= y <= self.yrange.end,
                    row == y - self.yrange.start,
                    self.xrange.start <= x <= self.xrange.end + 1,
                    output@.len() == row * (cols + 1) + (x - self.xrange.start),
                    forall|i: int|
                        0 <= i < output@.len() ==> #[trigger] output@[i] == slice_char(
                            self.active@,
                            self.xrange,
                            self.yrange,
                            w as int,
                            z as int,
                            i,
                        ),
                decreases self.xrange.end + 1 - x,
            {
                let pos = Pos4 { x: x as i32, y: y as i32, z, w };
                let key = key_of(&pos);
                proof {
                    crate::grid::lemma_cell_index(row, x - self.xrange.start, cols + 1);
                }
                output.push(
                    if self.active.contains(&key) {
                        '#'
                    } else {
                        '.'
                    },
                );
                x += 1;
            }
            proof {
                crate::grid::lemma_cell_index(row, cols as int, cols + 1);
                assert((row + 1) * (cols + 1) == row * (cols + 1) + cols + 1) by (nonlinear_arith);
            }
            output.push('\n');
            y += 1;
        }
        proof {
            if self.yrange.end < self.yrange.start {
                assert(output@.len() == 0);
            }
        }
        string_of(&output)
    }

    /// Reads a lattice from the text of its slice at 0 and 0.
    pub fn from_string(s: &str) -> (r: Result<Lattice, char>)
        requires
            s@.len() < i32::MAX,
        ensures
            r is Ok <==> read_upto(s@, s@.len() as int) is Ok,
            r matches Err(c) ==> read_upto(s@, s@.len() as int) == Err::<ReadState, char>(c),
            r matches Ok(l) ==> {
                let st = read_upto(s@, s@.len() as int)->Ok_0;
                &&& l.active@ == st.active
                &&& l.xrange == st.xrange
                &&& l.yrange == st.yrange
                &&& l.zrange == (OrdinateRange { start: 0, end: 0 })
                &&& l.wrange == (OrdinateRange { start: 0, end: 0 })
                &&& !l.use_w
            },
    {
        broadcast use vstd::std_specs::hash::group_hash_axioms;

        let chars = chars_of(s);
        let mut xrange = OrdinateRange { start: 0, end: 0 };
        let mut yrange = OrdinateRange { start: 0, end: 0 };
        let mut x: i32 = 0;
        let mut y: i32 = 0;
        let mut cells: HashSet<u128> = HashSet::new();
        let mut i: usize = 0;
        while i < chars.len()
            invariant
                0 <= i <= chars.len(),
                chars@ == s@,
                s@.len() < i32::MAX,
                read_upto(s@, i as int) == Ok::<ReadState, char>(
                    ReadState { xrange, yrange, active: cells@, x: x as int, y: y as int },
                ),
            decreases chars.len() - i,
        {
            let ch = chars[i];
            proof {
                lemma_read_bounds(s@, i as int);
            }
            if ch == '#' {
                let key = key_of(&Pos4 { x, y, z: 0, w: 0 });
                cells.insert(key);
                xrange = update_range(&x, xrange);
                yrange = update_range(&y, yrange);
                x += 1;
            } else if ch == '.' {
                x += 1;
            } else if ch == '\n' {
                x = 0;
                y += 1;
            } else {
                proof {
                    lemma_read_sticks(s@, i + 1, s@.len() as int);
                }
                return Err(ch);
            }
            i += 1;
        }
        Ok(
            Lattice {
                xrange,
                yrange,
                zrange: OrdinateRange { start: 0, end: 0 },
                wrange: OrdinateRange { start: 0, end: 0 },
                active: cells,
                use_w: false,
            },
        )
    }
}

/// The active cells after `n` cycles.
pub open spec fn cycled(active: Set<u128>, use_w: bool, n: nat) -> Set<u128>
    decreases n,
{
    if n == 0 {
        active
    } else {
        next_active(cycled(active, use_w, (n - 1) as nat), use_w)
    }
}

/// Whether a lattice with these active cells can go through a cycle: every
/// cell lies well inside what 32 bits can name, and in the fourth dimension
/// at 0 where that dimension is not in use.
pub open spec fn fit(active: Set<u128>, use_w: bool) -> bool {
    all_inner(active) && (!use_w ==> forall|k: u128| #[trigger]
        active.contains(k) ==> cell_at(k).w == 0)
}

/// Whether the cell with the key `k` lies well inside what 32 bits can name,
/// and in the fourth dimension at 0 where that dimension is not in use.
pub open spec fn cell_fits(k: u128, use_w: bool) -> bool {
    -0x4000_0000 < cell_at(k).x < 0x4000_0000 && -0x4000_0000 < cell_at(k).y < 0x4000_0000
        && -0x4000_0000 < cell_at(k).z < 0x4000_0000 && -0x4000_0000 < cell_at(k).w < 0x4000_0000
        && (use_w || cell_at(k).w == 0)
}

/// Whether the lattice can go through a cycle.
pub fn fits(l: &Lattice) -> (r: bool)
    ensures
        r == fit(l.active@, l.use_w),
{
    broadcast use vstd::std_specs::hash::group_hash_axioms;

    let ghost all = vstd::std_specs::hash::spec_hash_keys_iter(&l.active).remaining();
    let ghost mut done: int = 0;
    let cells = l.active.iter();
    for k in it: cells
        invariant
            it.seq() == all,
            done == it.index(),
            all.unref().to_set() == l.active@,
            forall|j: int| 0 <= j < done ==> cell_fits(*#[trigger] all[j], l.use_w),
    {
        assert(all[done] == k);
        let c = cell_of_key(*k);
        if !(-0x4000_0000 < c.x && c.x < 0x4000_0000 && -0x4000_0000 < c.y && c.y < 0x4000_0000
            && -0x4000_0000 < c.z && c.z < 0x4000_0000 && -0x4000_0000 < c.w && c.w < 0x4000_0000
            && (l.use_w || c.w == 0)) {
            proof {
                assert(all.unref()[done] == *k);
                assert(all.unref().to_set().contains(*k));
                assert(l.active@.contains(*k));
                assert(!cell_fits(*k, l.use_w));
            }
            return false;
        }
        proof {
            done = done + 1;
        }
    }
    proof {
        assert(done == all.len());
        assert forall|key: u128| #[trigger] l.active@.contains(key) implies cell_fits(
            key,
            l.use_w,
        ) by {
            assert(all.unref().to_set().contains(key));
            let j = choose|j: int| 0 <= j < all.unref().len() && all.unref()[j] == key;
            assert(*all[j] == key);
        }
    }
    true
}

/// Whether the lattice can go through the cycle after `j` cycles.
pub open spec fn fits_after(active: Set<u128>, use_w: bool, j: nat) -> bool {
    fit(cycled(active, use_w, j), use_w)
}

/// The number of cycles that `part_n` goes through: `num_cycles`, and one
/// where that is 0.
pub open spec fn cycles_run(num_cycles: usize) -> nat {
    if num_cycles == 0 {
        1
    } else {
        num_cycles as nat
    }
}

/// The number of active cells after `num_cycles` cycles, and after one cycle
/// where `num_cycles` is 0, with the fourth dimension in use or not.  `None`
/// where the lattice before one of the cycles cannot go through it.
pub fn part_n(initial: Lattice, num_cycles: usize, use_w: bool) -> (r: Option<usize>)
    ensures
        r is Some <==> forall|j: nat|
            j < cycles_run(num_cycles) ==> #[trigger] fits_after(initial.active@, use_w, j),
        r matches Some(n) ==> n == cycled(initial.active@, use_w, cycles_run(num_cycles)).len(),
{
    let ghost start = initial.active@;
    let begin = Lattice {
        xrange: initial.xrange,
        yrange: initial.yrange,
        zrange: initial.zrange,
        wrange: initial.wrange,
        active: initial.active,
        use_w,
    };
    proof {
        assert(cycled(start, use_w, 0) == start);
    }
    if !fits(&begin) {
        assert(!fits_after(start, use_w, 0));
        return None;
    }
    let mut current = begin.iterate();
    let mut done: usize = 1;
    proof {
        assert(cycled(start, use_w, 1) == next_active(cycled(start, use_w, 0), use_w));
    }
    while done < num_cycles
        invariant
            1 <= done,
            done <= num_cycles || (num_cycles == 0 && done == 1),
            start == initial.active@,
            current.use_w == use_w,
            current.active@ == cycled(start, use_w, done as nat),
            forall|j: nat| j < done ==> #[trigger] fits_after(start, use_w, j),
        decreases num_cycles - done,
    {
        if !fits(&current) {
            assert(!fits_after(start, use_w, done as nat));
            return None;
        }
        current = current.iterate();
        proof {
            assert(cycled(start, use_w, (done + 1) as nat) == next_active(
                cycled(start, use_w, done as nat),
                use_w,
            ));
        }
        done += 1;
    }
    Some(current.popcount())
}

} // verus!
