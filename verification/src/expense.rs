//! Entries of an expense report that add up to a given total.
use std::collections::HashSet;
use vstd::prelude::*;
use vstd::std_specs::iter::IteratorSpec;

verus! {

broadcast use vstd::std_specs::hash::group_hash_axioms;

/// Whether `x` and `y` are two different entries, neither of them `exclude`,
/// that add up to `total`.
pub open spec fn is_pair(h: Set<u64>, total: int, exclude: u64, x: u64, y: u64) -> bool {
    h.contains(x) && h.contains(y) && x != y && x != exclude && y != exclude && x + y == total
}

/// Whether `a`, `b` and `c` are three different entries that add up to
/// `total`.
pub open spec fn is_triple(h: Set<u64>, total: int, a: u64, b: u64, c: u64) -> bool {
    h.contains(a) && h.contains(b) && h.contains(c) && a != b && a != c && b != c && a + b + c
        == total
}

/// Whether the entry `x` is the first of no pair.
pub open spec fn starts_no_pair(h: Set<u64>, total: int, exclude: u64, x: u64) -> bool {
    forall|y: u64| !is_pair(h, total, exclude, x, y)
}

/// Whether the entry `c` is the last of no triple.
pub open spec fn ends_no_triple(h: Set<u64>, total: int, c: u64) -> bool {
    forall|a: u64, b: u64| !is_triple(h, total, a, b, c)
}

/// Finds two different entries, neither of them `exclude`, that add up to
/// `total`.  Which pair is found when there are several is left open: the
/// entries come in no order.
pub fn findpair(h: &HashSet<u64>, total: &u64, exclude: &u64) -> (r: Result<(u64, u64), &'static str>)
    ensures
        r matches Ok(pair) ==> is_pair(h@, *total as int, *exclude, pair.0, pair.1),
        r is Err <==> forall|x: u64, y: u64| !is_pair(h@, *total as int, *exclude, x, y),
{
    let ghost all = vstd::std_specs::hash::spec_hash_keys_iter(h).remaining();
    let ghost mut done: int = 0;
    let entries = h.iter();
    for x in it: entries
        invariant
            it.seq() == all,
            done == it.index(),
            all.unref().to_set() == h@,
            forall|j: int|
                0 <= j < done && *all[j] < *total ==> starts_no_pair(
                    h@,
                    *total as int,
                    *exclude,
                    *#[trigger] all[j],
                ),
    {
        assert(all[done] == x);
        if *x != *exclude && *x < *total {
            let y = *total - *x;
            if y != *exclude && y != *x && h.contains(&y) {
                proof {
                    assert(all.unref()[done] == *x);
                    assert(all.unref().to_set().contains(*x));
                    assert(is_pair(h@, *total as int, *exclude, *x, y));
                }
                return Ok((*x, y));
            }
        }
        proof {
            done = done + 1;
        }
    }
    proof {
        assert(done == all.len());
        assert forall|x: u64, y: u64| !is_pair(h@, *total as int, *exclude, x, y) by {
            if is_pair(h@, *total as int, *exclude, x, y) {
                let first = if x < *total {
                    x
                } else {
                    y
                };
                let second = if x < *total {
                    y
                } else {
                    x
                };
                assert(is_pair(h@, *total as int, *exclude, first, second));
                assert(all.unref().to_set().contains(first));
                let j = choose|j: int| 0 <= j < all.unref().len() && all.unref()[j] == first;
                assert(*all[j] == first);
                assert(starts_no_pair(h@, *total as int, *exclude, *all[j]));
            }
        }
    }
    Err("did not find pair")
}

/// Finds three different entries that add up to `total`.  Which triple is
/// found when there are several is left open.
pub fn findtriple(h: &HashSet<u64>, total: &u64) -> (r: Result<(u64, u64, u64), &'static str>)
    ensures
        r matches Ok(t) ==> is_triple(h@, *total as int, t.0, t.1, t.2),
        r is Err <==> forall|a: u64, b: u64, c: u64| !is_triple(h@, *total as int, a, b, c),
{
    let ghost all = vstd::std_specs::hash::spec_hash_keys_iter(h).remaining();
    let ghost mut done: int = 0;
    let entries = h.iter();
    for c in it: entries
        invariant
            it.seq() == all,
            done == it.index(),
            all.unref().to_set() == h@,
            forall|j: int| 0 <= j < done ==> ends_no_triple(h@, *total as int, *#[trigger] all[j]),
    {
        assert(all[done] == c);
        proof {
            assert(all.unref()[done] == *c);
            assert(all.unref().to_set().contains(*c));
        }
        if *c <= *total {
            let x = *total - *c;
            match findpair(h, &x, c) {
                Ok((a, b)) => {
                    assert(is_pair(h@, x as int, *c, a, b));
                    assert(is_triple(h@, *total as int, a, b, *c));
                    return Ok((a, b, *c));
                },
                Err(_) => {
                    assert forall|a: u64, b: u64| !is_triple(h@, *total as int, a, b, *c) by {
                        if is_triple(h@, *total as int, a, b, *c) {
                            assert(is_pair(h@, x as int, *c, a, b));
                        }
                    }
                },
            }
        }
        proof {
            done = done + 1;
        }
    }
    proof {
        assert(done == all.len());
        assert forall|a: u64, b: u64, c: u64| !is_triple(h@, *total as int, a, b, c) by {
            if is_triple(h@, *total as int, a, b, c) {
                assert(all.unref().to_set().contains(c));
                let j = choose|j: int| 0 <= j < all.unref().len() && all.unref()[j] == c;
                assert(*all[j] == c);
                assert(ends_no_triple(h@, *total as int, *all[j]));
            }
        }
    }
    Err("did not find triple")
}

} // verus!
