//! Buses that leave at every multiple of their number.
use crate::text::{chars_equal, chars_of, parse_signed, signed_value};
use vstd::prelude::*;

verus! {

/// Why a timetable cannot be used.
#[derive(Debug, Clone, Copy, PartialEq, Eq, Structural)]
pub enum BusError {
    /// The entry with this number, counted from 0, is neither `x` nor a
    /// number.
    BadId(usize),
    /// The timetable names no bus.
    NoBus,
    /// The bus at this place of the list has a number that is not positive,
    /// or so great that the times cannot be told in 64 bits.
    BadNumber(usize),
    /// Two buses have numbers with a common divisor, or the numbers are too
    /// great for the contest to be decided.
    NoContest,
}

/// The characters of each entry.
pub open spec fn entries(bus_ids: Seq<String>) -> Seq<Seq<char>> {
    Seq::new(bus_ids.len(), |i: int| bus_ids[i]@)
}

/// Whether an entry names a bus: it is not `x`.
pub open spec fn in_service(entry: Seq<char>) -> bool {
    entry != "x"@
}

/// The buses among the first `n` entries, each with its place in the
/// timetable, or the first entry that should be a number and is none.
pub open spec fn listed(bus_ids: Seq<Seq<char>>, n: int) -> Result<Seq<(i64, i64)>, BusError>
    decreases n,
{
    if n <= 0 {
        Ok(Seq::empty())
    } else {
        match listed(bus_ids, n - 1) {
            Err(e) => Err(e),
            Ok(found) => if !in_service(bus_ids[n - 1]) {
                Ok(found)
            } else {
                match signed_value(bus_ids[n - 1]) {
                    Some(v) => Ok(found.push(((n - 1) as i64, v as i64))),
                    None => Err(BusError::BadId((n - 1) as usize)),
                }
            },
        }
    }
}

/// Once an entry was found to be no number, the entries after it change
/// nothing.
pub proof fn lemma_listed_sticks(bus_ids: Seq<Seq<char>>, n: int, m: int)
    requires
        0 <= n <= m,
        listed(bus_ids, n) is Err,
    ensures
        listed(bus_ids, m) == listed(bus_ids, n),
    decreases m - n,
{
    if n < m {
        lemma_listed_sticks(bus_ids, n, m - 1);
    }
}

/// The buses of a timetable, each with its place in it; an entry `x` stands
/// for a bus that is out of service.
pub fn ids_with_positions(bus_ids: &Vec<String>) -> (r: Result<Vec<(i64, i64)>, BusError>)
    requires
        bus_ids@.len() <= i64::MAX,
    ensures
        r is Ok <==> listed(entries(bus_ids@), bus_ids@.len() as int) is Ok,
        r matches Ok(found) ==> listed(entries(bus_ids@), bus_ids@.len() as int) == Ok::<
            Seq<(i64, i64)>,
            BusError,
        >(found@),
        r matches Err(e) ==> listed(entries(bus_ids@), bus_ids@.len() as int) == Err::<
            Seq<(i64, i64)>,
            BusError,
        >(e),
{
    let mut result: Vec<(i64, i64)> = Vec::new();
    let ghost all = entries(bus_ids@);
    let mut i: usize = 0;
    while i < bus_ids.len()
        invariant
            0 <= i <= bus_ids@.len(),
            bus_ids@.len() <= i64::MAX,
            all == entries(bus_ids@),
            listed(all, i as int) == Ok::<Seq<(i64, i64)>, BusError>(result@),
        decreases bus_ids@.len() - i,
    {
        let chars = chars_of(bus_ids[i].as_str());
        assert(all[i as int] == chars@);
        if !chars_equal(&chars, "x") {
            match parse_signed(&chars) {
                Some(n) => {
                    result.push((i as i64, n));
                },
                None => {
                    proof {
                        lemma_listed_sticks(all, i + 1, bus_ids@.len() as int);
                    }
                    return Err(BusError::BadId(i));
                },
            }
        }
        i += 1;
    }
    Ok(result)
}

/// The first time at or after `earliest` at which the bus `id` leaves.
pub open spec fn next_departure(earliest: int, id: int) -> int {
    if earliest % id != 0 {
        (earliest / id + 1) * id
    } else {
        earliest
    }
}

/// The place of the bus that leaves first among the first `n`: of buses that
/// leave at the same time, the one that stands first.
pub open spec fn first_to_leave(earliest: int, buses: Seq<(i64, i64)>, n: int) -> int
    decreases n,
{
    if n <= 1 {
        0
    } else if next_departure(earliest, buses[n - 1].1 as int) < next_departure(
        earliest,
        buses[first_to_leave(earliest, buses, n - 1)].1 as int,
    ) {
        n - 1
    } else {
        first_to_leave(earliest, buses, n - 1)
    }
}

/// The first place is a place.
pub proof fn lemma_first_to_leave(earliest: int, buses: Seq<(i64, i64)>, n: int)
    requires
        1 <= n,
    ensures
        0 <= first_to_leave(earliest, buses, n) < n,
    decreases n,
{
    if n > 1 {
        lemma_first_to_leave(earliest, buses, n - 1);
    }
}

/// The bus that can be taken first at or after `earliest`, and when it
/// leaves.
pub fn first_bus(earliest_departure: i64, buses: &Vec<(i64, i64)>) -> (r: Option<(i64, i64)>)
    requires
        earliest_departure >= 0,
        forall|i: int|
            0 <= i < buses@.len() ==> (#[trigger] buses@[i]).1 > 0 && earliest_departure
                + buses@[i].1 <= i64::MAX,
    ensures
        r is Some <==> buses@.len() > 0,
        r matches Some(found) ==> found.0 == buses@[first_to_leave(
            earliest_departure as int,
            buses@,
            buses@.len() as int,
        )].1 && found.1 == next_departure(earliest_departure as int, found.0 as int),
{
    let mut first: Option<(i64, i64)> = None;
    let mut i: usize = 0;
    while i < buses.len()
        invariant
            0 <= i <= buses@.len(),
            earliest_departure >= 0,
            forall|k: int|
                0 <= k < buses@.len() ==> (#[trigger] buses@[k]).1 > 0 && earliest_departure
                    + buses@[k].1 <= i64::MAX,
            first is Some <==> i > 0,
            first matches Some(found) ==> found.0 == buses@[first_to_leave(
                earliest_departure as int,
                buses@,
                i as int,
            )].1 && found.1 == next_departure(earliest_departure as int, found.0 as int),
        decreases buses@.len() - i,
    {
        let bus_id = buses[i].1;
        assert(buses@[i as int].1 > 0);
        let cycle = earliest_departure / bus_id;
        let next = if earliest_departure % bus_id != 0 {
            assert((cycle + 1) * bus_id <= earliest_departure + bus_id) by (nonlinear_arith)
                requires
                    cycle == earliest_departure / bus_id,
                    bus_id > 0,
                    earliest_departure >= 0,
            ;
            assert((cycle + 1) * bus_id >= 0) by (nonlinear_arith)
                requires
                    cycle >= 0,
                    bus_id > 0,
            ;
            (cycle + 1) * bus_id
        } else {
            earliest_departure
        };
        proof {
            if i > 0 {
                lemma_first_to_leave(earliest_departure as int, buses@, i as int);
            }
        }
        match first {
            None => {
                first = Some((bus_id, next));
            },
            Some(found) => {
                if next < found.1 {
                    first = Some((bus_id, next));
                }
            },
        }
        i += 1;
    }
    first
}

/// The greatest common divisor, as Euclid finds it.
pub open spec fn gcd(a: nat, b: nat) -> nat
    decreases b,
{
    if b == 0 {
        a
    } else {
        gcd(b, a % b)
    }
}

/// The inverse of `u` modulo `v`: the number from 0 up to `v` whose product
/// with `u` leaves the rest 1 when it is divided by `v`.  There is one if
/// and only if `u` and `v` have no common divisor but 1.
pub fn modinv(u: i64, v: i64) -> (r: Option<i64>)
    requires
        0 <= u,
        0 < v,
    ensures
        r is Some <==> gcd(u as nat, v as nat) == 1,
        r matches Some(x) ==> 0 <= x <= v && (x * u) % v as int == 1int % v as int,
{
    let mut u1: i64 = 1;
    let mut u3: i64 = u;
    let mut v1: i64 = 0;
    let mut v3: i64 = v;
    let mut iter: i64 = 1;
    let ghost mut u2: int = 0;
    let ghost mut v2: int = 1;
    assert(1 * v + 0 * u == v) by (nonlinear_arith);
    while v3 != 0
        invariant
            iter == 1 || iter == -1,
            0 <= u3,
            0 <= v3,
            0 <= u1 <= v,
            0 <= v1 <= v,
            0 <= u,
            0 < v,
            u3 > 0 || v3 > 0,
            u1 * v3 + v1 * u3 == v,
            iter == 1 ==> u3 == u1 * u - u2 * v && v3 == v2 * v - v1 * u,
            iter == -1 ==> u3 == u2 * v - u1 * u && v3 == v1 * u - v2 * v,
            gcd(u3 as nat, v3 as nat) == gcd(u as nat, v as nat),
        decreases v3,
    {
        let q = u3 / v3;
        let t3 = u3 % v3;
        proof {
            vstd::arithmetic::div_mod::lemma_fundamental_div_mod(u3 as int, v3 as int);
            vstd::arithmetic::div_mod::lemma_div_pos_is_pos(u3 as int, v3 as int);
            vstd::arithmetic::div_mod::lemma_mod_pos_bound(u3 as int, v3 as int);
            assert(v1 * t3 + (u1 + v1 * q) * v3 == v) by (nonlinear_arith)
                requires
                    u1 * v3 + v1 * u3 == v,
                    u3 == v3 * q + t3,
            ;
            assert(0 <= v1 * q && u1 + v1 * q <= v) by (nonlinear_arith)
                requires
                    v1 * t3 + (u1 + v1 * q) * v3 == v,
                    v3 >= 1,
                    0 <= v1,
                    0 <= q,
                    0 <= t3,
                    0 <= u1,
            ;
            if iter == 1 {
                assert(t3 == (u1 + v1 * q) * u - (u2 + v2 * q) * v) by (nonlinear_arith)
                    requires
                        u3 == u1 * u - u2 * v,
                        v3 == v2 * v - v1 * u,
                        u3 == v3 * q + t3,
                ;
            } else {
                assert(t3 == (u2 + v2 * q) * v - (u1 + v1 * q) * u) by (nonlinear_arith)
                    requires
                        u3 == u2 * v - u1 * u,
                        v3 == v1 * u - v2 * v,
                        u3 == v3 * q + t3,
                ;
            }
        }
        let t1 = u1 + v1 * q;
        proof {
            let t2 = u2 + v2 * q;
            u2 = v2;
            v2 = t2;
        }
        u1 = v1;
        v1 = t1;
        u3 = v3;
        v3 = t3;
        iter = -iter;
    }
    if u3 == 1 {
        proof {
            assert(gcd(1, 0) == 1);
            let m = v as int;
            if iter < 0 {
                assert((v - u1) * u == m * (u - u2) + 1) by (nonlinear_arith)
                    requires
                        1 == u2 * v - u1 * u,
                        m == v,
                ;
                vstd::arithmetic::div_mod::lemma_mod_multiples_vanish(u - u2, 1, m);
            } else {
                assert(u1 * u == m * u2 + 1) by (nonlinear_arith)
                    requires
                        1 == u1 * u - u2 * v,
                        m == v,
                ;
                vstd::arithmetic::div_mod::lemma_mod_multiples_vanish(u2, 1, m);
            }
        }
        if iter < 0 {
            Some(v - u1)
        } else {
            Some(u1)
        }
    } else {
        assert(gcd(u3 as nat, 0) == u3);
        None
    }
}

/// The product of the first `n` moduli.
pub open spec fn product(rms: Seq<(i64, i64)>, n: int) -> int
    decreases n,
{
    if n <= 0 {
        1
    } else {
        product(rms, n - 1) * rms[n - 1].1
    }
}

/// The product of the first `n` moduli but for the two with the numbers
/// `i` and `j`.
pub open spec fn product_without(rms: Seq<(i64, i64)>, n: int, i: int, j: int) -> int
    decreases n,
{
    if n <= 0 {
        1
    } else if n - 1 == i || n - 1 == j {
        product_without(rms, n - 1, i, j)
    } else {
        product_without(rms, n - 1, i, j) * rms[n - 1].1
    }
}

/// Whether all moduli are positive and all residues are not negative.
pub open spec fn proper(rms: Seq<(i64, i64)>) -> bool {
    forall|k: int| 0 <= k < rms.len() ==> (#[trigger] rms[k]).1 > 0 && rms[k].0 >= 0
}

/// A product of positive numbers is positive.
pub proof fn lemma_product_without_positive(rms: Seq<(i64, i64)>, n: int, i: int, j: int)
    requires
        proper(rms),
        0 <= n <= rms.len(),
    ensures
        product_without(rms, n, i, j) > 0,
    decreases n,
{
    if n > 0 {
        lemma_product_without_positive(rms, n - 1, i, j);
        assert(rms[n - 1].1 > 0);
        assert(product_without(rms, n - 1, i, j) * rms[n - 1].1 > 0) by (nonlinear_arith)
            requires
                product_without(rms, n - 1, i, j) > 0,
                rms[n - 1].1 > 0,
        ;
    }
}

/// The product is a modulus times the product of the others.
pub proof fn lemma_product_splits(rms: Seq<(i64, i64)>, n: int, i: int)
    requires
        0 <= i < n <= rms.len(),
    ensures
        product(rms, n) == rms[i].1 * product_without(rms, n, i, i),
        product(rms, i) == product_without(rms, i, i, i),
    decreases n,
{
    lemma_product_untouched(rms, i, i, i);
    if n - 1 == i {
        assert(product(rms, n) == rms[i].1 * product_without(rms, n, i, i)) by (nonlinear_arith)
            requires
                product(rms, n) == product(rms, n - 1) * rms[i].1,
                product_without(rms, n, i, i) == product(rms, n - 1),
        ;
    } else {
        lemma_product_splits(rms, n - 1, i);
        assert(product(rms, n) == rms[i].1 * product_without(rms, n, i, i)) by (nonlinear_arith)
            requires
                product(rms, n) == product(rms, n - 1) * rms[n - 1].1,
                product(rms, n - 1) == rms[i].1 * product_without(rms, n - 1, i, i),
                product_without(rms, n, i, i) == product_without(rms, n - 1, i, i) * rms[n - 1].1,
        ;
    }
}

/// Leaving out moduli that are not among the first `n` changes nothing.
pub proof fn lemma_product_untouched(rms: Seq<(i64, i64)>, n: int, i: int, j: int)
    requires
        n <= i,
        n <= j,
    ensures
        product_without(rms, n, i, j) == product(rms, n),
    decreases n,
{
    if n > 0 {
        lemma_product_untouched(rms, n - 1, i, j);
    }
}

/// The product of all moduli but one is another modulus times the product
/// of the rest.
pub proof fn lemma_product_splits_again(rms: Seq<(i64, i64)>, n: int, i: int, j: int)
    requires
        0 <= i < n <= rms.len(),
        0 <= j < rms.len(),
        i != j,
    ensures
        product_without(rms, n, j, j) == rms[i].1 * product_without(rms, n, i, j),
    decreases n,
{
    if n - 1 == i {
        lemma_product_same(rms, n - 1, i, j);
        assert(product_without(rms, n, j, j) == rms[i].1 * product_without(rms, n, i, j))
            by (nonlinear_arith)
            requires
                product_without(rms, n, j, j) == product_without(rms, n - 1, j, j) * rms[i].1,
                product_without(rms, n, i, j) == product_without(rms, n - 1, i, j),
                product_without(rms, n - 1, i, j) == product_without(rms, n - 1, j, j),
        ;
    } else {
        lemma_product_splits_again(rms, n - 1, i, j);
        if n - 1 == j {
        } else {
            assert(product_without(rms, n, j, j) == rms[i].1 * product_without(rms, n, i, j))
                by (nonlinear_arith)
                requires
                    product_without(rms, n, j, j) == product_without(rms, n - 1, j, j) * rms[n
                        - 1].1,
                    product_without(rms, n, i, j) == product_without(rms, n - 1, i, j) * rms[n
                        - 1].1,
                    product_without(rms, n - 1, j, j) == rms[i].1 * product_without(
                        rms,
                        n - 1,
                        i,
                        j,
                    ),
            ;
        }
    }
}

/// Leaving out a modulus that is not among the first `n` changes nothing.
pub proof fn lemma_product_same(rms: Seq<(i64, i64)>, n: int, i: int, j: int)
    requires
        n <= i,
    ensures
        product_without(rms, n, i, j) == product_without(rms, n, j, j),
    decreases n,
{
    if n > 0 {
        lemma_product_same(rms, n - 1, i, j);
    }
}

/// Whether `t` is the inverse of `e` modulo `m`: it lies from 0 up to `m`
/// and its product with `e` leaves the rest 1 when it is divided by `m`
/// (the rest 0 where `m` is 1).
pub open spec fn is_inverse(t: int, e: int, m: int) -> bool {
    0 <= t < m && (t * e) % m == 1int % m
}

/// The inverse of `e` modulo `m`, and 0 where there is none.
pub open spec fn inverse(e: int, m: int) -> int {
    if exists|t: int| is_inverse(t, e, m) {
        choose|t: int| is_inverse(t, e, m)
    } else {
        0
    }
}

/// A number has at most one inverse.
pub proof fn lemma_inverse_unique(e: int, m: int, t: int)
    requires
        is_inverse(t, e, m),
    ensures
        inverse(e, m) == t,
{
    let other = inverse(e, m);
    assert(is_inverse(other, e, m));
    if m > 1 {
        let a = (t * e) * other;
        let b = (other * e) * t;
        assert(a == b) by (nonlinear_arith)
            requires
                a == (t * e) * other,
                b == (other * e) * t,
        ;
        vstd::arithmetic::div_mod::lemma_mul_mod_noop_left(t * e, other, m);
        vstd::arithmetic::div_mod::lemma_mul_mod_noop_left(other * e, t, m);
        vstd::arithmetic::div_mod::lemma_small_mod(1, m as nat);
        assert(1 * other == other && 1 * t == t);
        vstd::arithmetic::div_mod::lemma_small_mod(other as nat, m as nat);
        vstd::arithmetic::div_mod::lemma_small_mod(t as nat, m as nat);
    }
}

/// What the modulus with the number `k` adds to the sum: the product of
/// the other moduli, times the residue, times the inverse of that product
/// modulo this modulus.
pub open spec fn crt_term(rms: Seq<(i64, i64)>, k: int) -> int {
    let e = product_without(rms, rms.len() as int, k, k);
    e * (rms[k].0 * inverse(e, rms[k].1 as int))
}

/// The sum of what the first `k` moduli add.
pub open spec fn crt_sum(rms: Seq<(i64, i64)>, k: int) -> int
    decreases k,
{
    if k <= 0 {
        0
    } else {
        crt_sum(rms, k - 1) + crt_term(rms, k - 1)
    }
}

/// Whether each modulus has no common divisor but 1 with the product of the
/// others.
pub open spec fn coprime(rms: Seq<(i64, i64)>) -> bool {
    forall|k: int|
        0 <= k < rms.len() ==> gcd(
            product_without(rms, rms.len() as int, k, k) as nat,
            (#[trigger] rms[k]).1 as nat,
        ) == 1
}

/// The product of positive moduli is positive and grows with every modulus.
pub proof fn lemma_product_grows(rms: Seq<(i64, i64)>, a: int, b: int)
    requires
        proper(rms),
        0 <= a <= b <= rms.len(),
    ensures
        0 < product(rms, a) <= product(rms, b),
    decreases b,
{
    if b > 0 {
        if a < b {
            lemma_product_grows(rms, a, b - 1);
        } else {
            lemma_product_grows(rms, a - 1, b - 1);
        }
        let before = product(rms, b - 1);
        let m = rms[b - 1].1 as int;
        assert(before * m >= before) by (nonlinear_arith)
            requires
                before > 0,
                m >= 1,
        ;
    }
}

/// Nothing that a modulus adds to the sum is negative, so the sum grows.
pub proof fn lemma_sum_grows(rms: Seq<(i64, i64)>, a: int, b: int)
    requires
        proper(rms),
        0 <= a <= b <= rms.len(),
    ensures
        0 <= crt_sum(rms, a) <= crt_sum(rms, b),
    decreases b,
{
    if b > 0 {
        if a < b {
            lemma_sum_grows(rms, a, b - 1);
        } else {
            lemma_sum_grows(rms, a - 1, b - 1);
        }
        let e = product_without(rms, rms.len() as int, b - 1, b - 1);
        let u = rms[b - 1].0 as int;
        let t = inverse(e, rms[b - 1].1 as int);
        lemma_product_without_positive(rms, rms.len() as int, b - 1, b - 1);
        assert(t >= 0);
        assert(e * (u * t) >= 0) by (nonlinear_arith)
            requires
                e > 0,
                u >= 0,
                t >= 0,
        ;
    }
}

/// The least number that leaves each residue when it is divided by the
/// modulus that goes with it, and the product of the moduli.  There is an
/// answer where the product of the moduli fits in 64 bits with a sign, each
/// modulus has no common divisor but 1 with the product of the others, and
/// the sum from which the number is taken fits in 128 bits with a sign.
pub fn crt(residues_and_moduli: &Vec<(i64, i64)>) -> (r: Option<(i64, i64)>)
    requires
        proper(residues_and_moduli@),
    ensures
        r is Some <==> product(residues_and_moduli@, residues_and_moduli@.len() as int)
            <= i64::MAX && coprime(residues_and_moduli@) && crt_sum(
            residues_and_moduli@,
            residues_and_moduli@.len() as int,
        ) <= i128::MAX,
        r matches Some(found) ==> found.0 == crt_sum(
            residues_and_moduli@,
            residues_and_moduli@.len() as int,
        ) % product(residues_and_moduli@, residues_and_moduli@.len() as int),
        r matches Some(found) ==> found.1 == product(
            residues_and_moduli@,
            residues_and_moduli@.len() as int,
        ) && 0 <= found.0 < found.1 && forall|i: int|
            0 <= i < residues_and_moduli@.len() ==> found.0 % (
            #[trigger] residues_and_moduli@[i]).1 == residues_and_moduli@[i].0
                % residues_and_moduli@[i].1,
{
    let ghost rms = residues_and_moduli@;
    let n = residues_and_moduli.len();
    let mut p: i64 = 1;
    let mut k: usize = 0;
    while k < n
        invariant
            0 <= k <= n,
            n == rms.len(),
            rms == residues_and_moduli@,
            proper(rms),
            p == product(rms, k as int),
            p > 0,
        decreases n - k,
    {
        let m = residues_and_moduli[k].1;
        assert(rms[k as int].1 > 0);
        assert(p * m > 0) by (nonlinear_arith)
            requires
                p > 0,
                m > 0,
        ;
        p = match p.checked_mul(m) {
            Some(next) => next,
            None => {
                proof {
                    lemma_product_grows(rms, k + 1, n as int);
                }
                return None;
            },
        };
        k += 1;
    }
    let mut v: i128 = 0;
    let mut k: usize = 0;
    while k < n
        invariant
            0 <= k <= n,
            n == rms.len(),
            rms == residues_and_moduli@,
            proper(rms),
            p == product(rms, n as int),
            p > 0,
            v >= 0,
            v == crt_sum(rms, k as int),
            forall|i: int|
                0 <= i < k ==> gcd(
                    product_without(rms, n as int, i, i) as nat,
                    (#[trigger] rms[i]).1 as nat,
                ) == 1,
            forall|i: int|
                0 <= i < n ==> (v as int) % ((#[trigger] rms[i]).1 as int) == (if i < k {
                    rms[i].0 % rms[i].1
                } else {
                    0
                }),
        decreases n - k,
    {
        let u = residues_and_moduli[k].0;
        let m = residues_and_moduli[k].1;
        assert(rms[k as int].1 > 0 && rms[k as int].0 >= 0);
        let ghost c = product_without(rms, n as int, k as int, k as int);
        proof {
            lemma_product_splits(rms, n as int, k as int);
            lemma_product_without_positive(rms, n as int, k as int, k as int);
            vstd::arithmetic::div_mod::lemma_div_multiples_vanish(c, m as int);
        }
        let e = p / m;
        assert(e == c);
        let s = match modinv(e, m) {
            Some(s) => s,
            None => {
                assert(!coprime(rms));
                return None;
            },
        };
        let t = s % m;
        proof {
            vstd::arithmetic::div_mod::lemma_mul_mod_noop_left(s as int, e as int, m as int);
            assert(is_inverse(t as int, e as int, m as int));
            lemma_inverse_unique(e as int, m as int, t as int);
            assert(crt_term(rms, k as int) == e * (u * t));
        }
        assert(0 <= u * t <= 0x7fff_ffff_ffff_ffff * 0x7fff_ffff_ffff_ffff) by (nonlinear_arith)
            requires
                0 <= u <= 0x7fff_ffff_ffff_ffff,
                0 <= t <= 0x7fff_ffff_ffff_ffff,
        ;
        let ut: i128 = (u as i128) * (t as i128);
        if ut > i128::MAX / (e as i128) {
            proof {
                vstd::arithmetic::div_mod::lemma_fundamental_div_mod(i128::MAX as int, e as int);
                let q = i128::MAX as int / e as int;
                assert(e * ut >= e * (q + 1)) by (nonlinear_arith)
                    requires
                        e >= 1,
                        ut >= q + 1,
                ;
                assert(e * (q + 1) == e * q + e) by (nonlinear_arith);
                vstd::arithmetic::div_mod::lemma_mod_pos_bound(i128::MAX as int, e as int);
                assert(crt_term(rms, k as int) > i128::MAX);
                lemma_sum_grows(rms, k as int, k as int);
                lemma_sum_grows(rms, k + 1, n as int);
            }
            return None;
        }
        assert(0 <= e * ut <= i128::MAX) by (nonlinear_arith)
            requires
                e >= 1,
                0 <= ut <= i128::MAX / (e as i128),
        ;
        let term: i128 = (e as i128) * ut;
        if v > i128::MAX - term {
            proof {
                lemma_sum_grows(rms, k + 1, n as int);
            }
            return None;
        }
        proof {
            let mk = m as int;
            // The term leaves the residue for its own modulus.
            vstd::arithmetic::div_mod::lemma_mul_mod_noop_right(e as int, s as int, mk);
            assert((e * t) % mk == (e * s) % mk);
            assert((e * s) % mk == (s * e) % mk) by (nonlinear_arith);
            assert(((e * t) * u) % mk == (u as int) % mk) by {
                vstd::arithmetic::div_mod::lemma_mul_mod_noop_left(e * t, u as int, mk);
                vstd::arithmetic::div_mod::lemma_mul_mod_noop_left(1, u as int, mk);
                assert((e * t) % mk == 1int % mk);
            }
            assert(term == (e * t) * u) by (nonlinear_arith)
                requires
                    term == e * ut,
                    ut == u * t,
            ;
            assert forall|i: int| 0 <= i < n implies (v + term) % ((#[trigger] rms[i]).1 as int) == (
            if i < k + 1 {
                rms[i].0 % rms[i].1
            } else {
                0
            }) by {
                let mi = rms[i].1 as int;
                assert(mi > 0);
                vstd::arithmetic::div_mod::lemma_add_mod_noop(v as int, term as int, mi);
                if i == k {
                    assert((v as int) % mi == 0);
                    vstd::arithmetic::div_mod::lemma_mod_twice(term as int, mi);
                    assert((0 + (term as int) % mi) % mi == (term as int) % mi);
                } else {
                    lemma_product_splits_again(rms, n as int, i, k as int);
                    let d = product_without(rms, n as int, i, k as int);
                    assert(term == (d * ut) * mi) by (nonlinear_arith)
                        requires
                            term == e * ut,
                            e == mi * d,
                    ;
                    vstd::arithmetic::div_mod::lemma_mod_multiples_basic(d * ut, mi);
                    assert((term as int) % mi == 0);
                    vstd::arithmetic::div_mod::lemma_mod_twice(v as int, mi);
                    assert(((v as int) % mi + 0) % mi == (v as int) % mi);
                }
            }
        }
        v = v + term;
        k += 1;
    }
    let result = (v % (p as i128)) as i64;
    proof {
        vstd::arithmetic::div_mod::lemma_mod_pos_bound(v as int, p as int);
        assert forall|i: int| 0 <= i < n implies result % (#[trigger] rms[i]).1 == rms[i].0
            % rms[i].1 by {
            let mi = rms[i].1 as int;
            lemma_product_splits(rms, n as int, i);
            lemma_product_without_positive(rms, n as int, i, i);
            vstd::arithmetic::div_mod::lemma_mod_mod(
                v as int,
                mi,
                product_without(rms, n as int, i, i),
            );
        }
    }
    Some((result, p))
}

/// The place of the first of the first `n` buses whose number is not
/// positive or too great for times after `earliest`.
pub open spec fn first_bad_number(earliest: int, buses: Seq<(i64, i64)>, n: int) -> Option<int>
    decreases n,
{
    if n <= 0 {
        None
    } else if first_bad_number(earliest, buses, n - 1) is Some {
        first_bad_number(earliest, buses, n - 1)
    } else if buses[n - 1].1 <= 0 || earliest + buses[n - 1].1 > i64::MAX {
        Some(n - 1)
    } else {
        None
    }
}

/// Looks for a bus whose number is not positive or too great.
fn check_numbers(earliest: i64, buses: &Vec<(i64, i64)>) -> (r: Option<usize>)
    requires
        earliest >= 0,
    ensures
        r is Some <==> first_bad_number(earliest as int, buses@, buses@.len() as int) is Some,
        r matches Some(at) ==> first_bad_number(earliest as int, buses@, buses@.len() as int)
            == Some(at as int),
        r is None ==> forall|i: int|
            0 <= i < buses@.len() ==> (#[trigger] buses@[i]).1 > 0 && earliest + buses@[i].1
                <= i64::MAX,
{
    let mut i: usize = 0;
    while i < buses.len()
        invariant
            0 <= i <= buses@.len(),
            earliest >= 0,
            first_bad_number(earliest as int, buses@, i as int) is None,
            forall|k: int|
                0 <= k < i ==> (#[trigger] buses@[k]).1 > 0 && earliest + buses@[k].1 <= i64::MAX,
        decreases buses@.len() - i,
    {
        let id = buses[i].1;
        if id <= 0 || id > i64::MAX - earliest {
            proof {
                lemma_bad_number_sticks(earliest as int, buses@, i + 1, buses@.len() as int);
            }
            return Some(i);
        }
        i += 1;
    }
    None
}

/// Once a bad number was found, the buses after it change nothing.
pub proof fn lemma_bad_number_sticks(earliest: int, buses: Seq<(i64, i64)>, n: int, m: int)
    requires
        0 <= n <= m,
        first_bad_number(earliest, buses, n) is Some,
    ensures
        first_bad_number(earliest, buses, m) == first_bad_number(earliest, buses, n),
    decreases m - n,
{
    if n < m {
        lemma_bad_number_sticks(earliest, buses, n, m - 1);
    }
}

/// The bus of the timetable that can be taken first at or after
/// `earliest_departure`, and when it leaves.
pub fn solve1(earliest_departure: i64, bus_ids: &Vec<String>) -> (r: Result<(i64, i64), BusError>)
    requires
        earliest_departure >= 0,
        bus_ids@.len() <= i64::MAX,
    ensures
        match listed(entries(bus_ids@), bus_ids@.len() as int) {
            Err(e) => r == Err::<(i64, i64), BusError>(e),
            Ok(buses) => match first_bad_number(earliest_departure as int, buses, buses.len() as int) {
                Some(at) => r == Err::<(i64, i64), BusError>(BusError::BadNumber(at as usize)),
                None => if buses.len() == 0 {
                    r == Err::<(i64, i64), BusError>(BusError::NoBus)
                } else {
                    r matches Ok(found) && found.0 == buses[first_to_leave(
                        earliest_departure as int,
                        buses,
                        buses.len() as int,
                    )].1 && found.1 == next_departure(earliest_departure as int, found.0 as int)
                },
            },
        },
{
    let buses = match ids_with_positions(bus_ids) {
        Ok(buses) => buses,
        Err(e) => {
            return Err(e);
        },
    };
    match check_numbers(earliest_departure, &buses) {
        Some(at) => {
            return Err(BusError::BadNumber(at));
        },
        None => {},
    }
    match first_bus(earliest_departure, &buses) {
        Some(found) => Ok(found),
        None => Err(BusError::NoBus),
    }
}

/// The places in a timetable are not negative.
pub proof fn lemma_listed_places(bus_ids: Seq<Seq<char>>, n: int, i: int)
    requires
        0 <= n <= i64::MAX,
        listed(bus_ids, n) is Ok,
        0 <= i < listed(bus_ids, n)->Ok_0.len(),
    ensures
        listed(bus_ids, n)->Ok_0[i].0 >= 0,
    decreases n,
{
    if n > 0 {
        let before = listed(bus_ids, n - 1)->Ok_0;
        if i < before.len() {
            lemma_listed_places(bus_ids, n - 1, i);
        }
    }
}

/// Whether the contest can be decided for the buses: the product of their
/// numbers fits in 64 bits with a sign, each number has no common divisor
/// but 1 with the product of the others, and the sum from which the time is
/// taken fits in 128 bits with a sign.
pub open spec fn decidable(buses: Seq<(i64, i64)>) -> bool {
    product(buses, buses.len() as int) <= i64::MAX && coprime(buses) && crt_sum(
        buses,
        buses.len() as int,
    ) <= i128::MAX
}

/// The time of the contest: the product of the numbers of the buses less
/// what the sum leaves when it is divided by that product.
pub open spec fn contest_time(buses: Seq<(i64, i64)>) -> int {
    product(buses, buses.len() as int) - crt_sum(buses, buses.len() as int) % product(
        buses,
        buses.len() as int,
    )
}

/// The first time such that each bus of the timetable leaves as many
/// minutes after it as its place in the timetable says.  The time is
/// positive and at most the product of the numbers of the buses.  A
/// timetable that cannot be read fails as it fails to be read; a number
/// that is not positive fails with its place; and the contest is not decided
/// where `decidable` says so.
pub fn solve2(bus_ids: &Vec<String>) -> (r: Result<i64, BusError>)
    requires
        bus_ids@.len() <= i64::MAX,
    ensures
        match listed(entries(bus_ids@), bus_ids@.len() as int) {
            Err(e) => r == Err::<i64, BusError>(e),
            Ok(buses) => match first_bad_number(0, buses, buses.len() as int) {
                Some(at) => r == Err::<i64, BusError>(BusError::BadNumber(at as usize)),
                None => if decidable(buses) {
                    r matches Ok(t) && t == contest_time(buses)
                } else {
                    r == Err::<i64, BusError>(BusError::NoContest)
                },
            },
        },
        r matches Ok(t) ==> listed(entries(bus_ids@), bus_ids@.len() as int) matches Ok(buses)
            && 0 < t <= product(buses, buses.len() as int) && forall|i: int|
            0 <= i < buses.len() ==> (#[trigger] buses[i]).1 > 0 && (t + buses[i].0) % (
            buses[i].1 as int) == 0,
{
    let buses = match ids_with_positions(bus_ids) {
        Ok(buses) => buses,
        Err(e) => {
            return Err(e);
        },
    };
    match check_numbers(0, &buses) {
        Some(at) => {
            return Err(BusError::BadNumber(at));
        },
        None => {},
    }
    proof {
        assert forall|k: int| 0 <= k < buses@.len() implies (#[trigger] buses@[k]).1 > 0
            && buses@[k].0 >= 0 by {
            lemma_listed_places(entries(bus_ids@), bus_ids@.len() as int, k);
        }
    }
    let (n, mm) = match crt(&buses) {
        Some(found) => found,
        None => {
            return Err(BusError::NoContest);
        },
    };
    proof {
        assert forall|i: int| 0 <= i < buses@.len() implies ((mm - n) + (#[trigger] buses@[i]).0)
            % (buses@[i].1 as int) == 0 by {
            let m = buses@[i].1 as int;
            let u = buses@[i].0 as int;
            lemma_product_splits(buses@, buses@.len() as int, i);
            let c = product_without(buses@, buses@.len() as int, i, i);
            assert(mm == m * c);
            vstd::arithmetic::div_mod::lemma_mod_equivalence(n as int, u, m);
            assert((n - u) % m == 0);
            vstd::arithmetic::div_mod::lemma_mod_multiples_vanish(c, u - n, m);
            assert((m * c + (u - n)) % m == (u - n) % m);
            vstd::arithmetic::div_mod::lemma_mod_equivalence(u, n as int, m);
        }
    }
    Ok(mm - n)
}

} // verus!
