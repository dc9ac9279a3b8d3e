//! A circle of labelled cups, kept as a linked list in a vector.
use std::collections::HashSet;
use vstd::prelude::*;

verus! {

/// When the circle checks itself.
#[derive(Debug, PartialEq, Eq, Clone, Copy, Structural)]
pub enum Check {
    Always,
    Never,
}

/// A cup: its label and the place of the cup that follows it clockwise.
#[derive(Debug)]
pub struct Cup {
    pub label: u32,
    pub succ: usize,
}

/// The circle.  `label_to_pos` tells for each label, less one, where the
/// cup with that label stands.
pub struct CupCircle {
    pub verbose: bool,
    pub checks: Check,
    pub cups: Vec<Cup>,
    pub label_to_pos: Vec<usize>,
    pub current_pos: usize,
    pub max_label: u32,
}

/// The place that is reached from `pos` after `n` steps clockwise.
pub open spec fn walked(cups: Seq<Cup>, pos: int, n: nat) -> int
    decreases n,
{
    if n == 0 {
        pos
    } else {
        cups[walked(cups, pos, (n - 1) as nat)].succ as int
    }
}

impl CupCircle {
    /// Every place that the circle names is a place in it, and the cup that
    /// `label_to_pos` names for a label carries that label.
    pub open spec fn wf(&self) -> bool {
        &&& self.current_pos < self.cups@.len()
        &&& self.label_to_pos@.len() == self.cups@.len()
        &&& forall|i: int| 0 <= i < self.cups@.len() ==> (#[trigger] self.cups@[i]).succ < self.cups@.len()
        &&& forall|k: int|
            0 <= k < self.label_to_pos@.len() ==> (#[trigger] self.label_to_pos@[k])
                < self.cups@.len() && self.cups@[self.label_to_pos@[k] as int].label == k + 1
    }

    /// The label of the current cup.
    pub fn label_of_current(&self) -> (r: u32)
        requires
            self.current_pos < self.cups@.len(),
        ensures
            r == self.cups@[self.current_pos as int].label,
    {
        self.cups[self.current_pos].label
    }

    /// The place of the cup with the label `label`.
    pub fn get_pos(&self, label: u32) -> (r: usize)
        requires
            0 < label <= self.label_to_pos@.len(),
        ensures
            r == self.label_to_pos@[label - 1],
    {
        let lab = label as usize;
        self.label_to_pos[lab - 1]
    }
}

/// The label of the cup that stands `n` steps clockwise from the cup with
/// the label `label`.
pub fn cups_succ(label: u32, n: usize, cups: &CupCircle) -> (r: u32)
    requires
        cups.wf(),
        0 < label <= cups.cups@.len(),
    ensures
        r == cups.cups@[walked(cups.cups@, cups.label_to_pos@[label - 1] as int, n as nat)].label,
{
    let start = cups.get_pos(label);
    let mut pos = start;
    let mut i: usize = 0;
    while i < n
        invariant
            0 <= i <= n,
            cups.wf(),
            start < cups.cups@.len(),
            pos == walked(cups.cups@, start as int, i as nat),
            pos < cups.cups@.len(),
        decreases n - i,
    {
        pos = cups.cups[pos].succ;
        i += 1;
    }
    cups.cups[pos].label
}

/// Whether the pair `a` does not come after the pair `b`: pairs are
/// ordered by their first members, and by their second members where the
/// first are equal.
pub open spec fn pair_le(a: (u32, usize), b: (u32, usize)) -> bool {
    a.0 < b.0 || (a.0 == b.0 && a.1 <= b.1)
}

/// `itertools::sorted`, collected: the same pairs in ascending order.
#[verifier::external_body]
fn sorted_pairs(pairs: Vec<(u32, usize)>) -> (r: Vec<(u32, usize)>)
    ensures
        r@.to_multiset() == pairs@.to_multiset(),
        forall|i: int, j: int| 0 <= i <= j < r@.len() ==> pair_le(#[trigger] r@[i], #[trigger] r@[j]),
{
    itertools::sorted(pairs).collect()
}

/// The label that is tried after `d`: one less, and the greatest label
/// after the least.
pub open spec fn label_before(d: int, max_label: int) -> int {
    if d - 1 < 1 {
        max_label
    } else {
        d - 1
    }
}

/// The label of the cup under which the three cups that were picked up are
/// put: the first label before that of the current cup, in the order of
/// `label_before`, that is on none of the three.  No more than `fuel` labels
/// are tried.
pub open spec fn destination(d: int, max_label: int, l1: int, l2: int, l3: int, fuel: nat) -> int
    decreases fuel,
{
    if fuel == 0 || !(d == l1 || d == l2 || d == l3) {
        d
    } else {
        destination(label_before(d, max_label), max_label, l1, l2, l3, (fuel - 1) as nat)
    }
}

/// The successors of all cups after the three cups behind the cup at `cur`
/// were put behind the cup at `dest`: the current cup is followed by what
/// followed the third, the third by what then follows the cup at `dest`, and
/// the cup at `dest` by the first.
pub open spec fn spliced(cups: Seq<Cup>, cur: int, dest: int) -> Seq<usize> {
    let succs = Seq::new(cups.len(), |i: int| cups[i].succ);
    let pos1 = succs[cur] as int;
    let pos2 = succs[pos1] as int;
    let pos3 = succs[pos2] as int;
    let first = succs.update(cur, succs[pos3]);
    let second = first.update(pos3, first[dest]);
    second.update(dest, pos1 as usize)
}

/// The place of the cup under which the three cups behind the current cup
/// are put.
pub open spec fn destination_place(c: &CupCircle) -> int {
    let cups = c.cups@;
    let cur = c.current_pos as int;
    let pos1 = cups[cur].succ as int;
    let pos2 = cups[pos1].succ as int;
    let pos3 = cups[pos2].succ as int;
    c.label_to_pos@[destination(
        label_before(cups[cur].label as int, c.max_label as int),
        c.max_label as int,
        cups[pos1].label as int,
        cups[pos2].label as int,
        cups[pos3].label as int,
        3,
    ) - 1] as int
}

impl CupCircle {
    /// The circle keeps its own rules: the current place and every
    /// successor is a place of the circle, every successor is the successor
    /// of one cup only, the labels are the numbers from 1 to the number of
    /// cups, and `label_to_pos` tells for each label where its cup stands.
    pub open spec fn sound(&self) -> bool {
        &&& self.wf()
        &&& self.max_label == self.cups@.len()
        &&& self.cups@.len() <= u32::MAX
        &&& forall|i: int|
            0 <= i < self.cups@.len() ==> 1 <= (#[trigger] self.cups@[i]).label <= self.cups@.len()
                && self.label_to_pos@[self.cups@[i].label - 1] == i
        &&& forall|i: int, j: int|
            0 <= i < j < self.cups@.len() ==> (#[trigger] self.cups@[i]).succ != (
            #[trigger] self.cups@[j]).succ
    }

    /// A circle of the cups with the labels `v`, clockwise, the first one
    /// current.  `label_to_pos` holds the places of the cups in the order of
    /// their labels.
    pub fn new(verbose: bool, checks: Check, v: &Vec<u32>) -> (r: CupCircle)
        requires
            v@.len() > 0,
        ensures
            r.verbose == verbose,
            r.checks == checks,
            r.current_pos == 0,
            r.cups@.len() == v@.len(),
            forall|i: int|
                0 <= i < v@.len() ==> (#[trigger] r.cups@[i]).label == v@[i] && r.cups@[i].succ == (
                if i + 1 >= v@.len() {
                    0
                } else {
                    i + 1
                }),
            forall|i: int| 0 <= i < v@.len() ==> v@[i] <= r.max_label,
            exists|i: int| 0 <= i < v@.len() && v@[i] == r.max_label,
            r.label_to_pos@.len() == v@.len(),
            forall|k: int| 0 <= k < v@.len() ==> (#[trigger] r.label_to_pos@[k]) < v@.len(),
            forall|a: int, b: int|
                0 <= a <= b < v@.len() ==> pair_le(
                    (v@[(#[trigger] r.label_to_pos@[a]) as int], r.label_to_pos@[a]),
                    (v@[(#[trigger] r.label_to_pos@[b]) as int], r.label_to_pos@[b]),
                ),
    {
        let n = v.len();
        let mut cups: Vec<Cup> = Vec::new();
        let mut pairs: Vec<(u32, usize)> = Vec::new();
        let mut max_label: u32 = v[0];
        let ghost mut at_max: int = 0;
        let mut i: usize = 0;
        while i < n
            invariant
                0 <= i <= n,
                n == v@.len(),
                n > 0,
                cups@.len() == i,
                pairs@.len() == i,
                forall|k: int| 0 <= k < i ==> #[trigger] pairs@[k] == (v@[k], k as usize),
                forall|k: int|
                    0 <= k < i ==> (#[trigger] cups@[k]).label == v@[k] && cups@[k].succ == (if k
                        + 1 >= n {
                        0
                    } else {
                        k + 1
                    }),
                forall|k: int| 0 <= k < i ==> v@[k] <= max_label,
                0 <= at_max < n && v@[at_max] == max_label,
            decreases n - i,
        {
            cups.push(
                Cup {
                    label: v[i],
                    succ: if i + 1 >= n {
                        0
                    } else {
                        i + 1
                    },
                },
            );
            pairs.push((v[i], i));
            if v[i] > max_label {
                max_label = v[i];
                proof {
                    at_max = i as int;
                }
            }
            i += 1;
        }
        let ghost given = pairs@;
        let ordered = sorted_pairs(pairs);
        proof {
            assert(ordered@.len() == given.len()) by {
                ordered@.to_multiset_ensures();
                given.to_multiset_ensures();
            }
        }
        let mut label_to_pos: Vec<usize> = Vec::new();
        let mut k: usize = 0;
        while k < n
            invariant
                0 <= k <= n,
                n == v@.len(),
                ordered@.len() == n,
                given.len() == n,
                ordered@.to_multiset() == given.to_multiset(),
                forall|j: int| 0 <= j < n ==> #[trigger] given[j] == (v@[j], j as usize),
                label_to_pos@.len() == k,
                forall|j: int|
                    0 <= j < k ==> (#[trigger] label_to_pos@[j]) == ordered@[j].1 && ordered@[j].1 < n
                        && ordered@[j].0 == v@[ordered@[j].1 as int],
            decreases n - k,
        {
            let pair = ordered[k];
            proof {
                ordered@.to_multiset_ensures();
                given.to_multiset_ensures();
                assert(ordered@.contains(pair));
                assert(ordered@.to_multiset().count(pair) > 0);
                assert(given.to_multiset().count(pair) > 0);
                assert(given.contains(pair));
                let j = choose|j: int| 0 <= j < given.len() && given[j] == pair;
                assert(given[j] == (v@[j], j as usize));
            }
            label_to_pos.push(pair.1);
            k += 1;
        }
        CupCircle { verbose, checks, cups, label_to_pos, current_pos: 0, max_label }
    }

    /// Whether the circle keeps its own rules; a circle that never checks
    /// itself says yes.
    pub fn check(&self) -> (r: bool)
        ensures
            r == (self.checks == Check::Never || self.sound()),
    {
        broadcast use vstd::std_specs::hash::group_hash_axioms;

        if let Check::Never = self.checks {
            return true;
        }
        let n = self.cups.len();
        if self.current_pos >= n || self.label_to_pos.len() != n || n > 0xffff_ffff
            || self.max_label as usize != n {
            return false;
        }
        assert(self.checks != Check::Never);
        let mut succ_seen: HashSet<usize> = HashSet::new();
        let mut i: usize = 0;
        while i < n
            invariant
                0 <= i <= n,
                n == self.cups@.len(),
                n == self.label_to_pos@.len(),
                n <= u32::MAX,
                self.max_label == n,
                self.current_pos < n,
                self.checks != Check::Never,
                forall|k: int| 0 <= k < i ==> (#[trigger] self.cups@[k]).succ < n,
                forall|k: int|
                    0 <= k < i ==> 1 <= (#[trigger] self.cups@[k]).label <= n
                        && self.label_to_pos@[self.cups@[k].label - 1] == k,
                forall|a: int, b: int|
                    0 <= a < b < i ==> (#[trigger] self.cups@[a]).succ != (
                    #[trigger] self.cups@[b]).succ,
                forall|s: usize|
                    succ_seen@.contains(s) <==> exists|k: int|
                        0 <= k < i && (#[trigger] self.cups@[k]).succ == s,
            decreases n - i,
        {
            let c = &self.cups[i];
            if c.succ >= n || c.label < 1 || c.label as usize > n {
                assert(!(self.cups@[i as int].succ < n && 1 <= self.cups@[i as int].label <= n));
                return false;
            }
            if self.label_to_pos[c.label as usize - 1] != i {
                assert(self.label_to_pos@[self.cups@[i as int].label - 1] != i);
                return false;
            }
            if succ_seen.contains(&c.succ) {
                proof {
                    let k = choose|k: int| 0 <= k < i && (#[trigger] self.cups@[k]).succ == c.succ;
                    assert(self.cups@[k].succ == self.cups@[i as int].succ);
                    assert(!self.sound());
                }
                return false;
            }
            succ_seen.insert(c.succ);
            proof {
                assert forall|s: usize| succ_seen@.contains(s) <==> exists|k: int|
                    0 <= k < i + 1 && (#[trigger] self.cups@[k]).succ == s by {
                    if s == c.succ {
                        assert(self.cups@[i as int].succ == s);
                    }
                    if exists|k: int| 0 <= k < i + 1 && (#[trigger] self.cups@[k]).succ == s {
                        let k = choose|k: int| 0 <= k < i + 1 && (#[trigger] self.cups@[k]).succ == s;
                        if k < i {
                            assert(self.cups@[k].succ == s);
                        }
                    }
                }
            }
            i += 1;
        }
        let mut k: usize = 0;
        while k < n
            invariant
                0 <= k <= n,
                n == self.cups@.len(),
                n == self.label_to_pos@.len(),
                n <= u32::MAX,
                self.max_label == n,
                self.current_pos < n,
                self.checks != Check::Never,
                forall|j: int| 0 <= j < n ==> (#[trigger] self.cups@[j]).succ < n,
                forall|j: int|
                    0 <= j < n ==> 1 <= (#[trigger] self.cups@[j]).label <= n
                        && self.label_to_pos@[self.cups@[j].label - 1] == j,
                forall|a: int, b: int|
                    0 <= a < b < n ==> (#[trigger] self.cups@[a]).succ != (
                    #[trigger] self.cups@[b]).succ,
                forall|j: int|
                    0 <= j < k ==> (#[trigger] self.label_to_pos@[j]) < n
                        && self.cups@[self.label_to_pos@[j] as int].label == j + 1,
            decreases n - k,
        {
            let pos = self.label_to_pos[k];
            if pos >= n || self.cups[pos].label as usize != k + 1 {
                assert(!(self.label_to_pos@[k as int] < n
                    && self.cups@[self.label_to_pos@[k as int] as int].label == k + 1));
                return false;
            }
            k += 1;
        }
        true
    }

    /// One move: the three cups behind the current cup are taken out and
    /// put back behind the cup with the destination label, and the cup that
    /// then follows the current cup becomes current.
    pub fn play(&mut self, move_number: usize)
        requires
            old(self).sound(),
            old(self).cups@.len() >= 4,
        ensures
            final(self).sound(),
            final(self).cups@.len() == old(self).cups@.len(),
            final(self).label_to_pos == old(self).label_to_pos,
            forall|i: int|
                0 <= i < final(self).cups@.len() ==> (#[trigger] final(self).cups@[i]).label
                    == old(self).cups@[i].label,
            final(self).current_pos == final(self).cups@[old(self).current_pos as int].succ,
            forall|i: int|
                0 <= i < final(self).cups@.len() ==> (#[trigger] final(self).cups@[i]).succ
                    == spliced(old(self).cups@, old(self).current_pos as int, destination_place(old(self)))[i],
    {
        let ghost before = *self;
        let n = self.cups.len();
        let cur = self.current_pos;
        let pos1 = self.cups[cur].succ;
        let pos2 = self.cups[pos1].succ;
        let pos3 = self.cups[pos2].succ;
        let after3 = self.cups[pos3].succ;
        let l1 = self.cups[pos1].label;
        let l2 = self.cups[pos2].label;
        let l3 = self.cups[pos3].label;
        let mut dest_label: u32 = self.cups[cur].label - 1;
        if dest_label < 1 {
            dest_label = self.max_label;
        }
        let ghost d0 = dest_label as int;
        let ghost max = self.max_label as int;
        let mut tried: usize = 0;
        while dest_label == l1 || dest_label == l2 || dest_label == l3
            invariant
                0 <= tried <= 3,
                max == self.max_label,
                max >= 4,
                *self == before,
                1 <= d0 <= max,
                1 <= dest_label <= max,
                tried == 0 ==> dest_label == d0,
                tried == 1 ==> dest_label == label_before(d0, max) && (d0 == l1 || d0 == l2 || d0
                    == l3),
                tried == 2 ==> dest_label == label_before(label_before(d0, max), max) && (d0 == l1
                    || d0 == l2 || d0 == l3) && (label_before(d0, max) == l1 || label_before(d0, max)
                    == l2 || label_before(d0, max) == l3),
                tried == 3 ==> dest_label == label_before(
                    label_before(label_before(d0, max), max),
                    max,
                ) && (d0 == l1 || d0 == l2 || d0 == l3) && (label_before(d0, max) == l1
                    || label_before(d0, max) == l2 || label_before(d0, max) == l3) && (label_before(
                    label_before(d0, max),
                    max,
                ) == l1 || label_before(label_before(d0, max), max) == l2 || label_before(
                    label_before(d0, max),
                    max,
                ) == l3),
                destination(d0, max, l1 as int, l2 as int, l3 as int, 3) == destination(
                    dest_label as int,
                    max,
                    l1 as int,
                    l2 as int,
                    l3 as int,
                    (3 - tried) as nat,
                ),
            decreases 3 - tried,
        {
            dest_label -= 1;
            if dest_label < 1 {
                dest_label = self.max_label;
            }
            tried += 1;
        }
        let dest_pos = self.get_pos(dest_label);
        proof {
            assert(destination(d0, max, l1 as int, l2 as int, l3 as int, 3) == dest_label);
            assert(dest_pos == destination_place(&before));
            assert(self.cups@[dest_pos as int].label == dest_label);
            assert(dest_pos != pos1 && dest_pos != pos2 && dest_pos != pos3);
        }
        let label_cur = self.cups[cur].label;
        self.cups.set(cur, Cup { label: label_cur, succ: after3 });
        let tail_pos = self.cups[dest_pos].succ;
        self.cups.set(pos3, Cup { label: l3, succ: tail_pos });
        self.cups.set(dest_pos, Cup { label: dest_label, succ: pos1 });
        self.current_pos = self.cups[cur].succ;
        proof {
            let old_cups = before.cups@;
            let new_cups = self.cups@;
            assert forall|i: int| 0 <= i < n implies (#[trigger] new_cups[i]).label
                == old_cups[i].label by {}
            assert forall|i: int, j: int| 0 <= i < j < n implies (#[trigger] new_cups[i]).succ != (
            #[trigger] new_cups[j]).succ by {
                assert(old_cups[i].succ != old_cups[j].succ);
                assert(cur != pos3 ==> old_cups[cur as int].succ != old_cups[pos3 as int].succ);
                assert(cur != dest_pos ==> old_cups[cur as int].succ != old_cups[dest_pos as int].succ);
                assert(pos3 != dest_pos ==> old_cups[pos3 as int].succ
                    != old_cups[dest_pos as int].succ);
                if i != cur {
                    assert(i < cur ==> old_cups[i].succ != old_cups[cur as int].succ);
                    assert(cur < i ==> old_cups[cur as int].succ != old_cups[i].succ);
                }
                if j != cur {
                    assert(j < cur ==> old_cups[j].succ != old_cups[cur as int].succ);
                    assert(cur < j ==> old_cups[cur as int].succ != old_cups[j].succ);
                }
                if i != pos3 {
                    assert(i < pos3 ==> old_cups[i].succ != old_cups[pos3 as int].succ);
                    assert(pos3 < i ==> old_cups[pos3 as int].succ != old_cups[i].succ);
                }
                if j != pos3 {
                    assert(j < pos3 ==> old_cups[j].succ != old_cups[pos3 as int].succ);
                    assert(pos3 < j ==> old_cups[pos3 as int].succ != old_cups[j].succ);
                }
                if i != dest_pos {
                    assert(i < dest_pos ==> old_cups[i].succ != old_cups[dest_pos as int].succ);
                    assert(dest_pos < i ==> old_cups[dest_pos as int].succ != old_cups[i].succ);
                }
                if j != dest_pos {
                    assert(j < dest_pos ==> old_cups[j].succ != old_cups[dest_pos as int].succ);
                    assert(dest_pos < j ==> old_cups[dest_pos as int].succ != old_cups[j].succ);
                }
            }
        }
    }
}

impl CupCircle {
    /// Adds cups with the labels after the greatest, up to `want`, behind
    /// the last cup of a circle in which the last cup is followed by the
    /// first.
    pub fn extend(&mut self, want: u32)
        requires
            old(self).sound(),
            old(self).cups@[old(self).cups@.len() - 1].succ == 0,
        ensures
            final(self).sound(),
            final(self).current_pos == old(self).current_pos,
            final(self).cups@.len() == (if want > old(self).cups@.len() {
                want as int
            } else {
                old(self).cups@.len() as int
            }),
            forall|i: int|
                0 <= i < old(self).cups@.len() ==> (#[trigger] final(self).cups@[i]).label
                    == old(self).cups@[i].label,
            forall|i: int|
                0 <= i < old(self).cups@.len() - 1 ==> (#[trigger] final(self).cups@[i]).succ
                    == old(self).cups@[i].succ,
            forall|i: int|
                old(self).cups@.len() <= i < final(self).cups@.len() ==> (
                #[trigger] final(self).cups@[i]).label == i + 1,
            forall|i: int|
                old(self).cups@.len() - 1 <= i < final(self).cups@.len() ==> (
                #[trigger] final(self).cups@[i]).succ == (if i + 1 == final(self).cups@.len() {
                    0
                } else {
                    i + 1
                }),
    {
        let n = self.cups.len();
        let last_label = self.cups[n - 1].label;
        self.cups.set(n - 1, Cup { label: last_label, succ: n });
        while want > self.max_label
            invariant
                n == old(self).cups@.len(),
                n >= 1,
                self.cups@.len() >= n,
                self.cups@.len() == n || self.cups@.len() <= want,
                self.cups@.len() == self.max_label,
                self.cups@.len() == self.label_to_pos@.len(),
                self.cups@.len() <= u32::MAX,
                self.current_pos == old(self).current_pos,
                self.verbose == old(self).verbose,
                self.checks == old(self).checks,
                old(self).sound(),
                old(self).cups@[n - 1].succ == 0,
                forall|i: int|
                    0 <= i < n ==> (#[trigger] self.cups@[i]).label == old(self).cups@[i].label,
                forall|i: int|
                    0 <= i < n - 1 ==> (#[trigger] self.cups@[i]).succ == old(self).cups@[i].succ,
                forall|i: int| n <= i < self.cups@.len() ==> (#[trigger] self.cups@[i]).label == i + 1,
                forall|i: int|
                    n - 1 <= i < self.cups@.len() ==> (#[trigger] self.cups@[i]).succ == i + 1,
                forall|k: int|
                    0 <= k < n ==> #[trigger] self.label_to_pos@[k] == old(self).label_to_pos@[k],
                forall|k: int| n <= k < self.cups@.len() ==> #[trigger] self.label_to_pos@[k] == k,
            decreases want - self.max_label,
        {
            self.max_label += 1;
            let here = self.cups.len();
            self.cups.push(Cup { label: self.max_label, succ: here + 1 });
            self.label_to_pos.push(here);
        }
        let m = self.cups.len();
        let end_label = self.cups[m - 1].label;
        self.cups.set(m - 1, Cup { label: end_label, succ: 0 });
        proof {
            let before = old(self).cups@;
            assert forall|i: int| 0 <= i < n - 1 implies before[i].succ != 0 && before[i].succ < n by {
                assert(before[i].succ != before[n - 1].succ);
            }
            assert forall|k: int| 0 <= k < m implies (#[trigger] self.label_to_pos@[k]) < m
                && self.cups@[self.label_to_pos@[k] as int].label == k + 1 by {
                if k < n {
                    assert(old(self).label_to_pos@[k] < n);
                }
            }
            assert forall|i: int| 0 <= i < m implies 1 <= (#[trigger] self.cups@[i]).label <= m
                && self.label_to_pos@[self.cups@[i].label - 1] == i by {
                if i < n {
                    assert(1 <= before[i].label <= n);
                }
            }
            assert forall|i: int, j: int| 0 <= i < j < m implies (#[trigger] self.cups@[i]).succ != (
            #[trigger] self.cups@[j]).succ by {
                if j < n - 1 {
                    assert(before[i].succ != before[j].succ);
                }
            }
        }
    }
}

/// How the cups stand: each cup with the place of the cup that follows it,
/// and the place of the current cup.
pub struct Standing {
    pub cups: Seq<Cup>,
    pub current: int,
}

impl CupCircle {
    /// How the cups stand.
    pub open spec fn standing(&self) -> Standing {
        Standing { cups: self.cups@, current: self.current_pos as int }
    }
}

/// The place of the cup under which the three cups behind the current cup
/// are put, where `places` holds the place of the cup of each label.
pub open spec fn destination_of(s: Standing, places: Seq<usize>, max_label: int) -> int {
    let pos1 = s.cups[s.current].succ as int;
    let pos2 = s.cups[pos1].succ as int;
    let pos3 = s.cups[pos2].succ as int;
    places[destination(
        label_before(s.cups[s.current].label as int, max_label),
        max_label,
        s.cups[pos1].label as int,
        s.cups[pos2].label as int,
        s.cups[pos3].label as int,
        3,
    ) - 1] as int
}

/// How the cups stand after one move: the three cups behind the current cup
/// are put behind the cup with the destination label, and the cup that then
/// follows the current cup becomes current.  No cup leaves its place.
pub open spec fn after_move(s: Standing, places: Seq<usize>, max_label: int) -> Standing {
    let succs = spliced(s.cups, s.current, destination_of(s, places, max_label));
    let cups = Seq::new(s.cups.len(), |i: int| Cup { label: s.cups[i].label, succ: succs[i] });
    Standing { cups, current: cups[s.current].succ as int }
}

/// How the cups stand after `n` moves.
pub open spec fn after_moves(s: Standing, places: Seq<usize>, max_label: int, n: nat) -> Standing
    decreases n,
{
    if n == 0 {
        s
    } else {
        after_move(after_moves(s, places, max_label, (n - 1) as nat), places, max_label)
    }
}

/// Plays `count` moves.
pub fn play_moves(count: usize, cups: &mut CupCircle)
    requires
        old(cups).sound(),
        old(cups).cups@.len() >= 4,
    ensures
        final(cups).sound(),
        final(cups).cups@.len() == old(cups).cups@.len(),
        final(cups).label_to_pos == old(cups).label_to_pos,
        final(cups).standing() == after_moves(
            old(cups).standing(),
            old(cups).label_to_pos@,
            old(cups).max_label as int,
            count as nat,
        ),
{
    let ghost start = cups.standing();
    let ghost places = cups.label_to_pos@;
    let ghost max_label = cups.max_label as int;
    let mut move_number: usize = 0;
    while move_number < count
        invariant
            0 <= move_number <= count,
            cups.sound(),
            cups.cups@.len() == old(cups).cups@.len(),
            cups.cups@.len() >= 4,
            cups.label_to_pos == old(cups).label_to_pos,
            places == cups.label_to_pos@,
            max_label == cups.max_label,
            cups.standing() == after_moves(start, places, max_label, move_number as nat),
        decreases count - move_number,
    {
        let ghost before = *cups;
        move_number += 1;
        cups.play(move_number);
        proof {
            assert(destination_place(&before) == destination_of(
                before.standing(),
                places,
                max_label,
            ));
            let want = after_move(before.standing(), places, max_label);
            assert(cups.cups@ =~= want.cups);
            assert(cups.standing() == want);
        }
    }
}

/// The labels of the cups from the place `pos` on, clockwise, up to the
/// cup before the first one of the circle, and of `fuel` more cups than the
/// one at `pos` at most.
pub open spec fn trip(cups: Seq<Cup>, pos: int, fuel: nat) -> Seq<u32>
    decreases fuel,
{
    if fuel == 0 || cups[pos].succ == 0 {
        seq![cups[pos].label]
    } else {
        seq![cups[pos].label] + trip(cups, cups[pos].succ as int, (fuel - 1) as nat)
    }
}

impl CupCircle {
    /// The labels of the cups, clockwise from the first cup of the circle
    /// until the walk is back at it, and of no more cups than there are.
    pub fn labels(&self) -> (r: Vec<u32>)
        requires
            self.wf(),
        ensures
            r@ == trip(self.cups@, 0, (self.cups@.len() - 1) as nat),
    {
        let n = self.cups.len();
        let mut out: Vec<u32> = Vec::new();
        let mut pos: usize = 0;
        let mut left: usize = n - 1;
        loop
            invariant_except_break
                out@ + trip(self.cups@, pos as int, left as nat) == trip(
                    self.cups@,
                    0,
                    (n - 1) as nat,
                ),
            invariant
                self.wf(),
                n == self.cups@.len(),
                pos < n,
                left < n,
            ensures
                out@ == trip(self.cups@, 0, (n - 1) as nat),
            decreases left,
        {
            let ghost before = out@;
            out.push(self.cups[pos].label);
            let next = self.cups[pos].succ;
            if left == 0 || next == 0 {
                proof {
                    assert(out@ =~= before + trip(self.cups@, pos as int, left as nat));
                }
                break;
            }
            proof {
                assert(out@ + trip(self.cups@, next as int, (left - 1) as nat) =~= before + trip(
                    self.cups@,
                    pos as int,
                    left as nat,
                ));
            }
            pos = next;
            left -= 1;
        }
        out
    }
}

/// The labels of all cups but the one with the label `label`, clockwise from
/// the cup after it.
pub fn labels_after(label: u32, cups: &CupCircle) -> (r: Vec<u32>)
    requires
        cups.wf(),
        0 < label <= cups.cups@.len(),
    ensures
        r@.len() == cups.cups@.len() - 1,
        forall|k: int|
            0 <= k < r@.len() ==> #[trigger] r@[k] == cups.cups@[walked(
                cups.cups@,
                cups.label_to_pos@[label - 1] as int,
                (k + 1) as nat,
            )].label,
{
    let start = cups.get_pos(label);
    let n = cups.cups.len();
    let mut out: Vec<u32> = Vec::new();
    let mut pos = cups.cups[start].succ;
    let mut k: usize = 0;
    proof {
        assert(walked(cups.cups@, start as int, 0) == start);
        assert(walked(cups.cups@, start as int, 1) == cups.cups@[walked(
            cups.cups@,
            start as int,
            0,
        )].succ);
    }
    while k + 1 < n
        invariant
            0 <= k < n,
            cups.wf(),
            n == cups.cups@.len(),
            start < n,
            start == cups.label_to_pos@[label - 1],
            pos < n,
            pos == walked(cups.cups@, start as int, (k + 1) as nat),
            out@.len() == k,
            forall|j: int|
                0 <= j < k ==> #[trigger] out@[j] == cups.cups@[walked(
                    cups.cups@,
                    start as int,
                    (j + 1) as nat,
                )].label,
        decreases n - k,
    {
        out.push(cups.cups[pos].label);
        proof {
            assert(walked(cups.cups@, start as int, (k + 2) as nat) == cups.cups@[walked(
                cups.cups@,
                start as int,
                (k + 1) as nat,
            )].succ);
        }
        pos = cups.cups[pos].succ;
        k += 1;
    }
    out
}

} // verus!
