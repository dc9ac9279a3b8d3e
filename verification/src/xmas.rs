//! A stream of numbers in which each must be the sum of two different
//! numbers among those just before it.
use crate::text::{parse_i64, signed_value};
use std::collections::VecDeque;
use vstd::prelude::*;

verus! {

/// Whether `candidates[i]` has a partner: another value among the
/// candidates that adds up with it to `n`.
pub open spec fn has_partner(candidates: Seq<i64>, n: int, i: int) -> bool {
    n - candidates[i] != candidates[i] && exists|j: int|
        0 <= j < candidates.len() && #[trigger] candidates[j] == n - candidates[i]
}

/// Reads a line that holds one number.
pub fn read_i64(line: &str) -> (r: Option<i64>)
    ensures
        r is Some <==> signed_value(line@) is Some,
        r matches Some(v) ==> signed_value(line@) == Some(v as int),
{
    parse_i64(line)
}

/// Finds two different values among the candidates that add up to `n`: the
/// first candidate that has a partner, and the partner.
pub fn find_pair(candidates: &VecDeque<i64>, n: &i64) -> (r: Option<(i64, i64)>)
    ensures
        r is None <==> forall|i: int| 0 <= i < candidates@.len() ==> !has_partner(candidates@, *n as int, i),
        r matches Some(pair) ==> pair.0 + pair.1 == *n && pair.0 != pair.1 && exists|i: int|
            0 <= i < candidates@.len() && candidates@[i] == pair.0 && has_partner(
                candidates@,
                *n as int,
                i,
            ) && forall|k: int| 0 <= k < i ==> !has_partner(candidates@, *n as int, k),
{
    let mut i: usize = 0;
    while i < candidates.len()
        invariant
            0 <= i <= candidates@.len(),
            forall|k: int| 0 <= k < i ==> !has_partner(candidates@, *n as int, k),
        decreases candidates@.len() - i,
    {
        let v = candidates[i];
        match n.checked_sub(v) {
            Some(diff) => {
                if diff != v {
                    let mut j: usize = 0;
                    while j < candidates.len()
                        invariant
                            0 <= j <= candidates@.len(),
                            0 <= i < candidates@.len(),
                            v == candidates@[i as int],
                            diff == *n - v,
                            diff != v,
                            forall|k: int| 0 <= k < j ==> candidates@[k] != diff,
                            forall|k: int| 0 <= k < i ==> !has_partner(candidates@, *n as int, k),
                        decreases candidates@.len() - j,
                    {
                        if candidates[j] == diff {
                            assert(has_partner(candidates@, *n as int, i as int));
                            return Some((v, diff));
                        }
                        j += 1;
                    }
                }
            },
            None => {},
        }
        assert(!has_partner(candidates@, *n as int, i as int));
        i += 1;
    }
    None
}

/// The least of the first `n` values.
pub open spec fn least(values: Seq<i64>, n: int) -> int
    decreases n,
{
    if n <= 1 {
        values[0] as int
    } else if values[n - 1] < least(values, n - 1) {
        values[n - 1] as int
    } else {
        least(values, n - 1)
    }
}

/// The greatest of the first `n` values.
pub open spec fn greatest(values: Seq<i64>, n: int) -> int
    decreases n,
{
    if n <= 1 {
        values[0] as int
    } else if values[n - 1] > greatest(values, n - 1) {
        values[n - 1] as int
    } else {
        greatest(values, n - 1)
    }
}

/// The sum of the first `n` values.
pub open spec fn total(values: Seq<i64>, n: int) -> int
    decreases n,
{
    if n <= 0 {
        0
    } else {
        total(values, n - 1) + values[n - 1]
    }
}

/// The least value, the greatest value and the sum of all values; `None`
/// when there is no value.
pub fn min_max_sum(input: &Vec<i64>) -> (r: Option<(i64, i64, i64)>)
    requires
        forall|n: int| 0 <= n <= input@.len() ==> i64::MIN <= #[trigger] total(input@, n) <= i64::MAX,
    ensures
        r is Some <==> input@.len() > 0,
        r matches Some(found) ==> found.0 == least(input@, input@.len() as int) && found.1
            == greatest(input@, input@.len() as int) && found.2 == total(
            input@,
            input@.len() as int,
        ),
{
    if input.len() == 0 {
        return None;
    }
    let first = input[0];
    assert(total(input@, 1) == first) by {
        assert(total(input@, 0) == 0);
    }
    let mut acc: (i64, i64, i64) = (first, first, first);
    let mut i: usize = 1;
    while i < input.len()
        invariant
            1 <= i <= input@.len(),
            forall|n: int|
                0 <= n <= input@.len() ==> i64::MIN <= #[trigger] total(input@, n) <= i64::MAX,
            acc.0 == least(input@, i as int),
            acc.1 == greatest(input@, i as int),
            acc.2 == total(input@, i as int),
        decreases input@.len() - i,
    {
        let n = input[i];
        assert(i64::MIN <= total(input@, i + 1) <= i64::MAX);
        acc.2 = acc.2 + n;
        if n < acc.0 {
            acc.0 = n;
        }
        if n > acc.1 {
            acc.1 = n;
        }
        i += 1;
    }
    Some(acc)
}

/// The `p` numbers before place `i`, the nearest first.
pub open spec fn window_before(input: Seq<i64>, p: int, i: int) -> Seq<i64> {
    Seq::new(p as nat, |k: int| input[i - 1 - k])
}

/// Whether the number at place `i` is the sum of two different values among
/// the `p` numbers before it.
pub open spec fn is_sum_at(input: Seq<i64>, p: int, i: int) -> bool {
    exists|k: int| 0 <= k < p && has_partner(window_before(input, p, i), input[i] as int, k)
}

/// Finds the first number that is not the sum of two different values among
/// the `preamble_len` numbers before it.  The search begins one place behind
/// the preamble: the number that follows the preamble directly is not
/// looked at.
pub fn solve1(input: &Vec<i64>, preamble_len: usize) -> (r: Option<i64>)
    requires
        preamble_len < usize::MAX,
    ensures
        r is None <==> forall|i: int|
            preamble_len < i < input@.len() ==> is_sum_at(input@, preamble_len as int, i),
        r matches Some(n) ==> exists|i: int|
            preamble_len < i < input@.len() && input@[i] == n && !is_sum_at(
                input@,
                preamble_len as int,
                i,
            ) && forall|j: int| preamble_len < j < i ==> is_sum_at(input@, preamble_len as int, j),
{
    let mut candidates: VecDeque<i64> = VecDeque::new();
    let mut i: usize = 0;
    while i < input.len()
        invariant
            0 <= i <= input@.len(),
            preamble_len < usize::MAX,
            candidates@.len() == (if i <= preamble_len {
                i as int
            } else {
                preamble_len + 1
            }),
            forall|k: int| 0 <= k < candidates@.len() ==> candidates@[k] == input@[i - 1 - k],
            forall|j: int| preamble_len < j < i ==> is_sum_at(input@, preamble_len as int, j),
        decreases input@.len() - i,
    {
        let n = input[i];
        if candidates.len() > preamble_len {
            candidates.pop_back();
            assert(candidates@ =~= window_before(input@, preamble_len as int, i as int));
            match find_pair(&candidates, &n) {
                None => {
                    assert(!is_sum_at(input@, preamble_len as int, i as int)) by {
                        assert forall|k: int| 0 <= k < preamble_len implies !has_partner(
                            window_before(input@, preamble_len as int, i as int),
                            input@[i as int] as int,
                            k,
                        ) by {}
                    }
                    return Some(n);
                },
                Some(_) => {
                    assert(is_sum_at(input@, preamble_len as int, i as int));
                },
            }
        }
        candidates.push_front(n);
        i += 1;
    }
    None
}

/// The sum of the first `n` values of a window is the sum of the same
/// values of the input.
pub proof fn lemma_window_total(input: Seq<i64>, start: int, size: int, n: int)
    requires
        0 <= start,
        0 <= n <= size,
        start + size <= input.len(),
    ensures
        total(input.subrange(start, start + size), n) == total(input.skip(start), n),
        n >= 1 ==> least(input.subrange(start, start + size), n) == least(input.skip(start), n),
        n >= 1 ==> greatest(input.subrange(start, start + size), n) == greatest(
            input.skip(start),
            n,
        ),
    decreases n,
{
    if n > 0 {
        lemma_window_total(input, start, size, n - 1);
    }
}

/// Whether the `size` numbers from place `start` on add up to `target`.
pub open spec fn adds_up(input: Seq<i64>, start: int, size: int, target: int) -> bool {
    total(input.skip(start), size) == target
}

/// Whether the window `(size, start)` comes before the window `(size2,
/// start2)` in the order of the search: shorter windows first, and among
/// windows of one length those that begin further to the left.
pub open spec fn searched_before(size: int, start: int, size2: int, start2: int) -> bool {
    size < size2 || (size == size2 && start < start2)
}

/// Whether `(size, start)` is a window of the search: at least two numbers,
/// fewer than all, and inside the input.
pub open spec fn is_window(input: Seq<i64>, size: int, start: int) -> bool {
    2 <= size < input.len() && 0 <= start && start + size <= input.len()
}

/// Finds the first run of at least two numbers, and fewer than all, that
/// adds up to `target`, and gives its least and its greatest number.  Shorter
/// runs are tried first, and among runs of one length those further to the
/// left.
pub fn solve2(all_input: &Vec<i64>, target: i64) -> (r: Option<(i64, i64)>)
    requires
        forall|start: int, n: int|
            0 <= start && 0 <= n && start + n <= all_input@.len() ==> i64::MIN <= #[trigger] total(
                all_input@.skip(start),
                n,
            ) <= i64::MAX,
    ensures
        r is None <==> forall|size: int, start: int|
            is_window(all_input@, size, start) ==> !#[trigger] adds_up(
                all_input@,
                start,
                size,
                target as int,
            ),
        r matches Some(found) ==> exists|size: int, start: int|
            is_window(all_input@, size, start) && #[trigger] adds_up(
                all_input@,
                start,
                size,
                target as int,
            ) && found.0 == least(all_input@.skip(start), size) && found.1 == greatest(
                all_input@.skip(start),
                size,
            ) && forall|size2: int, start2: int|
                is_window(all_input@, size2, start2) && searched_before(size2, start2, size, start)
                    ==> !#[trigger] adds_up(all_input@, start2, size2, target as int),
{
    let n = all_input.len();
    let mut windowsize: usize = 2;
    while windowsize < n
        invariant
            2 <= windowsize,
            n == all_input@.len(),
            forall|start: int, k: int|
                0 <= start && 0 <= k && start + k <= all_input@.len() ==> i64::MIN
                    <= #[trigger] total(all_input@.skip(start), k) <= i64::MAX,
            forall|size2: int, start2: int|
                is_window(all_input@, size2, start2) && size2 < windowsize ==> !#[trigger] adds_up(
                    all_input@,
                    start2,
                    size2,
                    target as int,
                ),
        decreases n - windowsize,
    {
        let mut start: usize = 0;
        while start <= n - windowsize
            invariant
                2 <= windowsize < n,
                n == all_input@.len(),
                0 <= start <= n - windowsize + 1,
                forall|s: int, k: int|
                    0 <= s && 0 <= k && s + k <= all_input@.len() ==> i64::MIN <= #[trigger] total(
                        all_input@.skip(s),
                        k,
                    ) <= i64::MAX,
                forall|size2: int, start2: int|
                    is_window(all_input@, size2, start2) && searched_before(
                        size2,
                        start2,
                        windowsize as int,
                        start as int,
                    ) ==> !#[trigger] adds_up(all_input@, start2, size2, target as int),
            decreases n - start,
        {
            let mut w: Vec<i64> = Vec::new();
            let mut k: usize = 0;
            while k < windowsize
                invariant
                    0 <= k <= windowsize,
                    start + windowsize <= n,
                    n == all_input@.len(),
                    w@ == all_input@.subrange(start as int, start + k),
                decreases windowsize - k,
            {
                w.push(all_input[start + k]);
                assert(w@ =~= all_input@.subrange(start as int, start + k + 1));
                k += 1;
            }
            proof {
                assert forall|m: int| 0 <= m <= w@.len() implies i64::MIN <= #[trigger] total(
                    w@,
                    m,
                ) <= i64::MAX by {
                    lemma_window_total(all_input@, start as int, windowsize as int, m);
                    assert(i64::MIN <= total(all_input@.skip(start as int), m) <= i64::MAX);
                }
                lemma_window_total(all_input@, start as int, windowsize as int, windowsize as int);
            }
            match min_max_sum(&w) {
                Some((wmin, wmax, wsum)) => {
                    if wsum == target {
                        assert(is_window(all_input@, windowsize as int, start as int));
                        assert(adds_up(all_input@, start as int, windowsize as int, target as int));
                        return Some((wmin, wmax));
                    }
                },
                None => {},
            }
            assert(!adds_up(all_input@, start as int, windowsize as int, target as int));
            start += 1;
        }
        windowsize += 1;
    }
    None
}

} // verus!
