//! Chains of adapters: the steps between consecutive ratings, the runs of
//! ratings that follow each other closely, and the number of ways to thin
//! out such a run.
use vstd::prelude::*;

verus! {

/// The rating before place `i` of a chain that starts at the outlet, which
/// has the rating 0.
pub open spec fn previous_rating(ratings: Seq<i64>, i: int) -> int {
    if i == 0 {
        0
    } else {
        ratings[i - 1] as int
    }
}

/// Whether every step of the chain, and the last step of 3 to the device,
/// can be taken in 64 bits.
pub open spec fn steps_fit(ratings: Seq<i64>) -> bool {
    &&& forall|i: int|
        0 <= i < ratings.len() ==> i64::MIN <= #[trigger] ratings[i] - previous_rating(ratings, i)
            <= i64::MAX
    &&& previous_rating(ratings, ratings.len() as int) + 3 <= i64::MAX
}

/// For each adapter the step that leads to it and its rating, and at the
/// end the step of 3 to the device and the rating of the device.
pub fn differences(ratings: &Vec<i64>) -> (r: Vec<(i64, i64)>)
    requires
        steps_fit(ratings@),
    ensures
        r@.len() == ratings@.len() + 1,
        forall|i: int|
            0 <= i < ratings@.len() ==> #[trigger] r@[i] == ((ratings[i] - previous_rating(
                ratings@,
                i,
            )) as i64, ratings[i]),
        r@[ratings@.len() as int] == (3i64, (previous_rating(ratings@, ratings@.len() as int)
            + 3) as i64),
{
    let mut result: Vec<(i64, i64)> = Vec::new();
    let mut last: i64 = 0;
    let mut i: usize = 0;
    while i < ratings.len()
        invariant
            0 <= i <= ratings.len(),
            steps_fit(ratings@),
            last == previous_rating(ratings@, i as int),
            result@.len() == i,
            forall|k: int|
                0 <= k < i ==> #[trigger] result@[k] == ((ratings[k] - previous_rating(
                    ratings@,
                    k,
                )) as i64, ratings[k]),
        decreases ratings.len() - i,
    {
        let rating = ratings[i];
        assert(i64::MIN <= ratings@[i as int] - previous_rating(ratings@, i as int) <= i64::MAX);
        result.push((rating - last, rating));
        last = rating;
        i += 1;
    }
    result.push((3, last + 3));
    result
}

/// The state while the runs are counted: the rating seen last, the lengths
/// of the runs that have ended, and the number of steps of 1 in the run that
/// has not.
pub struct RunState {
    pub prev: Option<i64>,
    pub runs: Seq<i64>,
    pub run_length: int,
}

/// The state after one more rating: a rating that is one more than the last
/// makes the run longer; any other ends the run and starts the next.
pub open spec fn with_rating(state: RunState, r: i64) -> RunState {
    match state.prev {
        Some(p) => if p + 1 == r {
            RunState { prev: Some(r), runs: state.runs, run_length: state.run_length + 1 }
        } else {
            RunState {
                prev: Some(r),
                runs: state.runs.push(state.run_length as i64),
                run_length: 0,
            }
        },
        None => RunState { prev: Some(r), runs: state.runs, run_length: state.run_length },
    }
}

/// The state after the first `n` ratings.
pub open spec fn after_ratings(ratings: Seq<i64>, n: int) -> RunState
    decreases n,
{
    if n <= 0 {
        RunState { prev: None, runs: Seq::empty(), run_length: 0 }
    } else {
        with_rating(after_ratings(ratings, n - 1), ratings[n - 1])
    }
}

/// Takes one more rating into the count of the runs.
pub fn add_rating(r: i64, prev: &mut Option<i64>, runs: &mut Vec<i64>, run_length: &mut i64)
    requires
        *old(run_length) < i64::MAX,
        *old(prev) matches Some(p) ==> p < i64::MAX,
    ensures
        (RunState { prev: *final(prev), runs: final(runs)@, run_length: *final(run_length) as int })
            == with_rating(
            RunState { prev: *old(prev), runs: old(runs)@, run_length: *old(run_length) as int },
            r,
        ),
{
    if let Some(p) = *prev {
        if p + 1 == r {
            *run_length = *run_length + 1;
        } else {
            runs.push(*run_length);
            *run_length = 0;
        }
    }
    *prev = Some(r);
}

/// The run in progress is never longer than the number of ratings seen.
pub proof fn lemma_run_length_bounded(ratings: Seq<i64>, n: int)
    requires
        0 <= n,
    ensures
        0 <= after_ratings(ratings, n).run_length <= n,
    decreases n,
{
    if n > 0 {
        lemma_run_length_bounded(ratings, n - 1);
    }
}

/// The lengths of the runs of ratings in which each is one more than the
/// one before it, counted in steps; the last run is ended by a rating of -1
/// that is put behind the chain.
pub fn find_run_lengths(ratings: &Vec<i64>) -> (r: Vec<i64>)
    requires
        ratings@.len() < i64::MAX,
        forall|i: int| 0 <= i < ratings@.len() ==> ratings[i] < i64::MAX,
    ensures
        r@ == after_ratings(ratings@.push(-1i64), ratings@.len() as int + 1).runs,
{
    let mut runs: Vec<i64> = Vec::new();
    let mut prev: Option<i64> = None;
    let mut run_length: i64 = 0;
    let ghost all = ratings@.push(-1i64);
    let mut i: usize = 0;
    while i < ratings.len()
        invariant
            0 <= i <= ratings.len(),
            ratings@.len() < i64::MAX,
            all == ratings@.push(-1i64),
            forall|k: int| 0 <= k < ratings@.len() ==> ratings[k] < i64::MAX,
            prev matches Some(p) ==> p < i64::MAX,
            (RunState { prev, runs: runs@, run_length: run_length as int }) == after_ratings(
                all,
                i as int,
            ),
        decreases ratings.len() - i,
    {
        proof {
            lemma_run_length_bounded(all, i as int);
            assert(all[i as int] == ratings[i as int]);
        }
        add_rating(ratings[i], &mut prev, &mut runs, &mut run_length);
        i += 1;
    }
    proof {
        lemma_run_length_bounded(all, i as int);
        assert(all[i as int] == -1i64);
    }
    add_rating(-1, &mut prev, &mut runs, &mut run_length);
    runs
}

/// The tribonacci numbers that begin with 1, 1, 2: each further one is the
/// sum of the three before it.
pub open spec fn trib(n: nat) -> nat
    decreases n,
{
    if n <= 1 {
        1
    } else if n == 2 {
        2
    } else {
        trib((n - 1) as nat) + trib((n - 2) as nat) + trib((n - 3) as nat)
    }
}

/// The tribonacci numbers do not fall.
pub proof fn lemma_trib_monotonic(a: nat, b: nat)
    requires
        a <= b,
    ensures
        trib(a) <= trib(b),
    decreases b,
{
    if a < b {
        lemma_trib_monotonic(a, (b - 1) as nat);
        if b >= 3 {
        }
    }
}

/// The tribonacci number with the number `n`.
pub fn tribonacci(n: i64) -> (r: i64)
    requires
        0 <= n,
        trib(n as nat) <= i64::MAX,
    ensures
        r == trib(n as nat),
{
    if n <= 1 {
        return 1;
    }
    let mut a: i64 = 1;
    let mut b: i64 = 1;
    let mut c: i64 = 2;
    let mut x: i64 = 2;
    while x < n
        invariant
            2 <= x <= n,
            trib(n as nat) <= i64::MAX,
            a == trib((x - 2) as nat),
            b == trib((x - 1) as nat),
            c == trib(x as nat),
        decreases n - x,
    {
        proof {
            lemma_trib_monotonic((x + 1) as nat, n as nat);
        }
        let next = a + b + c;
        a = b;
        b = c;
        c = next;
        x += 1;
    }
    c
}

/// The chain with `first` put before it and `last` behind it.
pub fn bookend(ratings: &Vec<i64>, first: i64, last: i64) -> (r: Vec<i64>)
    ensures
        r@ == seq![first] + ratings@ + seq![last],
{
    let mut out: Vec<i64> = Vec::new();
    out.push(first);
    let mut i: usize = 0;
    while i < ratings.len()
        invariant
            0 <= i <= ratings@.len(),
            out@ == seq![first] + ratings@.take(i as int),
        decreases ratings@.len() - i,
    {
        out.push(ratings[i]);
        assert(out@ =~= seq![first] + ratings@.take(i + 1));
        i += 1;
    }
    assert(ratings@.take(ratings@.len() as int) =~= ratings@);
    out.push(last);
    out
}

/// The number of steps of the size `size` among the first `n` steps.
pub open spec fn steps_of(diffs: Seq<(i64, i64)>, size: i64, n: int) -> nat
    decreases n,
{
    if n <= 0 {
        0
    } else {
        steps_of(diffs, size, n - 1) + if diffs[n - 1].0 == size {
            1nat
        } else {
            0nat
        }
    }
}

/// Whether every step is of the size 1, 2 or 3.
pub open spec fn steps_small(diffs: Seq<(i64, i64)>) -> bool {
    forall|i: int| 0 <= i < diffs.len() ==> 1 <= (#[trigger] diffs[i]).0 <= 3
}

/// The number of steps of 1 times the number of steps of 3, or `None` when
/// a step is of another size than 1, 2 or 3, or the product does not fit.
pub fn count_steps(diffs: &Vec<(i64, i64)>) -> (r: Option<usize>)
    ensures
        r is Some <==> steps_small(diffs@) && steps_of(diffs@, 1, diffs@.len() as int) * steps_of(
            diffs@,
            3,
            diffs@.len() as int,
        ) <= usize::MAX,
        r matches Some(answer) ==> answer == steps_of(diffs@, 1, diffs@.len() as int) * steps_of(
            diffs@,
            3,
            diffs@.len() as int,
        ),
{
    let mut ones: usize = 0;
    let mut threes: usize = 0;
    let mut i: usize = 0;
    while i < diffs.len()
        invariant
            0 <= i <= diffs@.len(),
            ones == steps_of(diffs@, 1, i as int),
            threes == steps_of(diffs@, 3, i as int),
            ones <= i,
            threes <= i,
            forall|k: int| 0 <= k < i ==> 1 <= (#[trigger] diffs@[k]).0 <= 3,
        decreases diffs@.len() - i,
    {
        let d = diffs[i].0;
        if d == 1 {
            ones += 1;
        } else if d == 3 {
            threes += 1;
        } else if d != 2 {
            assert(!(1 <= diffs@[i as int].0 <= 3));
            return None;
        }
        i += 1;
    }
    ones.checked_mul(threes)
}

/// The product of the tribonacci numbers of the first `n` runs.
pub open spec fn arrangements(runs: Seq<i64>, n: int) -> nat
    decreases n,
{
    if n <= 0 {
        1
    } else {
        arrangements(runs, n - 1) * trib(runs[n - 1] as nat)
    }
}

/// The tribonacci numbers are at least 1.
pub proof fn lemma_trib_positive(n: nat)
    ensures
        trib(n) >= 1,
    decreases n,
{
    if n >= 3 {
        lemma_trib_positive((n - 1) as nat);
    }
}

/// The number of ways to thin out a chain whose runs have the lengths
/// `runs`.  `None` when a run is longer than 62 steps or shorter than none,
/// or when the product does not fit.
pub fn count_arrangements(runs: &Vec<i64>) -> (r: Option<i64>)
    ensures
        r matches Some(ways) ==> ways == arrangements(runs@, runs@.len() as int),
        (forall|i: int| 0 <= i < runs@.len() ==> 0 <= #[trigger] runs@[i] <= 62) && arrangements(
            runs@,
            runs@.len() as int,
        ) <= i64::MAX ==> r is Some,
{
    let mut result: i64 = 1;
    let mut i: usize = 0;
    while i < runs.len()
        invariant
            0 <= i <= runs@.len(),
            result == arrangements(runs@, i as int),
            result >= 1,
            forall|k: int| 0 <= k < i ==> 0 <= #[trigger] runs@[k] <= 62,
        decreases runs@.len() - i,
    {
        let run_len = runs[i];
        if run_len < 0 || run_len > 62 {
            return None;
        }
        proof {
            lemma_trib_small(run_len as nat);
            lemma_trib_positive(run_len as nat);
        }
        let t = tribonacci(run_len);
        assert(result * t >= 1) by (nonlinear_arith)
            requires
                result >= 1,
                t >= 1,
        ;
        result = match result.checked_mul(t) {
            Some(v) => v,
            None => {
                proof {
                    lemma_arrangements_grow(runs@, i + 1, runs@.len() as int);
                }
                return None;
            },
        };
        i += 1;
    }
    Some(result)
}

/// The first 63 tribonacci numbers fit in 64 bits with a sign.
pub proof fn lemma_trib_small(n: nat)
    requires
        n <= 62,
    ensures
        trib(n) <= 0x7fff_ffff_ffff_ffff,
{
    lemma_trib_bound(n);
    assert(pow2(n) <= pow2(62)) by {
        lemma_pow2_grows(n, 62);
    }
    assert(pow2(62) == 0x4000_0000_0000_0000) by {
        lemma_pow2_values();
    }
}

/// 2 to the power of `n`.
pub open spec fn pow2(n: nat) -> nat
    decreases n,
{
    if n == 0 {
        1
    } else {
        2 * pow2((n - 1) as nat)
    }
}

/// A tribonacci number is at most the power of 2 with its number.
pub proof fn lemma_trib_bound(n: nat)
    ensures
        trib(n) <= pow2(n),
    decreases n,
{
    if n >= 3 {
        lemma_trib_bound((n - 1) as nat);
        lemma_trib_bound((n - 2) as nat);
        lemma_trib_bound((n - 3) as nat);
        assert(pow2(n) == 8 * pow2((n - 3) as nat)) by {
            reveal_with_fuel(pow2, 4);
        }
        assert(pow2((n - 1) as nat) == 4 * pow2((n - 3) as nat)) by {
            reveal_with_fuel(pow2, 3);
        }
        assert(pow2((n - 2) as nat) == 2 * pow2((n - 3) as nat));
    } else {
        reveal_with_fuel(pow2, 3);
    }
}

/// The powers of 2 do not fall.
pub proof fn lemma_pow2_grows(a: nat, b: nat)
    requires
        a <= b,
    ensures
        pow2(a) <= pow2(b),
    decreases b,
{
    if a < b {
        lemma_pow2_grows(a, (b - 1) as nat);
    }
}

/// The 62nd power of 2.
pub proof fn lemma_pow2_values()
    ensures
        pow2(62) == 0x4000_0000_0000_0000,
{
    reveal_with_fuel(pow2, 63);
}

/// The product of the arrangements only grows with more runs.
pub proof fn lemma_arrangements_grow(runs: Seq<i64>, n: int, m: int)
    requires
        0 <= n <= m,
    ensures
        arrangements(runs, n) <= arrangements(runs, m),
        arrangements(runs, n) >= 1,
    decreases m - n,
{
    if n < m {
        lemma_arrangements_grow(runs, n, m - 1);
        lemma_trib_positive(runs[m - 1] as nat);
        assert(arrangements(runs, m - 1) * trib(runs[m - 1] as nat) >= arrangements(runs, m - 1))
            by (nonlinear_arith)
            requires
                trib(runs[m - 1] as nat) >= 1,
                arrangements(runs, m - 1) >= 0,
        ;
    } else {
        lemma_arrangements_positive(runs, n);
    }
}

/// The product of the arrangements is at least 1.
pub proof fn lemma_arrangements_positive(runs: Seq<i64>, n: int)
    ensures
        arrangements(runs, n) >= 1,
    decreases n,
{
    if n > 0 {
        lemma_arrangements_positive(runs, n - 1);
        lemma_trib_positive(runs[n - 1] as nat);
        assert(arrangements(runs, n - 1) * trib(runs[n - 1] as nat) >= 1) by (nonlinear_arith)
            requires
                trib(runs[n - 1] as nat) >= 1,
                arrangements(runs, n - 1) >= 1,
        ;
    }
}

} // verus!
