//! A key exchange: a public key is 7 raised to a secret loop number, and the
//! shared key is one public key raised to the other loop number, all modulo
//! 20201227.
use crate::seat::ExIoError;
use vstd::prelude::*;

verus! {

/// Why the keys cannot be told.
#[derive(Debug)]
pub enum MyError {
    /// A key is no number; the text says why.
    InvalidInput(String),
    /// The keys could not be read.
    ReadError { source: std::io::Error },
    /// A key is negative.
    NegativeKey(i64, std::num::TryFromIntError),
    /// The numbers of this machine are too short for the computation.
    Overflow,
}

/// The modulus of all arithmetic.
pub open spec fn modulus() -> nat {
    20201227
}

/// `base` raised to `exponent`, modulo `m`.
pub open spec fn power_mod(base: nat, exponent: nat, m: nat) -> nat
    decreases exponent,
{
    if exponent == 0 {
        1
    } else {
        (power_mod(base, (exponent - 1) as nat, m) * base) % m
    }
}

/// `mod_exp::mod_exp` for `usize`: `base` raised to `exponent`, modulo
/// `modulus`.  The call panics unless the square of `modulus - 1` fits, which
/// the precondition asks for.
#[verifier::external_body]
fn mod_exp_usize(base: usize, exponent: usize, modulus: usize) -> (r: usize)
    requires
        modulus >= 2,
        modulus - 1 < usize::MAX / ((modulus - 1) as usize),
    ensures
        r == power_mod(base as nat, exponent as nat, modulus as nat),
{
    mod_exp::mod_exp::<usize>(base, exponent, modulus)
}

/// `usize::try_from` for `i64`: the same number, or the error of the
/// standard library when it is negative or too large.
#[verifier::external_body]
fn to_usize(k: i64) -> (r: Result<usize, std::num::TryFromIntError>)
    ensures
        r is Ok <==> 0 <= k <= usize::MAX,
        r matches Ok(v) ==> v == k,
{
    usize::try_from(k)
}

/// Finds the loop number of the public key `p`: the least `r` such that 7
/// raised to `r` is `p`.  There must be one.
pub fn find_loop_num(p: i64) -> (r: usize)
    requires
        exists|w: nat| w < modulus() && power_mod(7, w, modulus()) == p,
    ensures
        power_mod(7, r as nat, modulus()) == p,
        forall|k: nat| k < r ==> power_mod(7, k, modulus()) != p,
{
    let ghost w = choose|w: nat| w < modulus() && power_mod(7, w, modulus()) == p;
    let mut v: i64 = 1;
    let mut loop_number: usize = 0;
    while v != p
        invariant
            0 <= v < 20201227,
            v == power_mod(7, loop_number as nat, modulus()),
            loop_number <= w,
            w < modulus(),
            power_mod(7, w, modulus()) == p,
            forall|k: nat| k < loop_number ==> power_mod(7, k, modulus()) != p,
        decreases w - loop_number,
    {
        v = (v * 7) % 20201227;
        loop_number += 1;
    }
    loop_number
}

/// The key that the two sides share: the public key `k` of one side raised
/// to the loop number `r` of the other.
pub fn make_private_key(k: i64, r: usize) -> (key: Result<i64, MyError>)
    ensures
        k < 0 ==> (key matches Err(MyError::NegativeKey(n, _)) && n == k),
        key is Ok <==> 0 <= k <= usize::MAX && 20201226 < usize::MAX / 20201226,
        key matches Ok(v) ==> v == power_mod(k as nat, r as nat, modulus()),
        key matches Err(e) ==> (if k < 0 {
            e is NegativeKey
        } else {
            e is Overflow
        }),
{
    match to_usize(k) {
        Ok(ku) => {
            if 20201226 >= usize::MAX / 20201226 {
                return Err(MyError::Overflow);
            }
            let v = mod_exp_usize(ku, r, 20201227);
            proof {
                lemma_power_mod_bound(ku as nat, r as nat, modulus());
            }
            Ok(v as i64)
        },
        Err(e) => {
            if k < 0 {
                Err(MyError::NegativeKey(k, e))
            } else {
                Err(MyError::Overflow)
            }
        },
    }
}

/// A power modulo `m` is less than `m`, where `m` is at least 2.
pub proof fn lemma_power_mod_bound(base: nat, exponent: nat, m: nat)
    requires
        m >= 2,
    ensures
        power_mod(base, exponent, m) < m,
    decreases exponent,
{
    if exponent > 0 {
        lemma_power_mod_bound(base, (exponent - 1) as nat, m);
    }
}

/// The loop number of `p`, if `p` is a public key: the least `r` below the
/// modulus such that 7 raised to `r` is `p`.
pub fn search_loop_num(p: i64) -> (r: Option<usize>)
    ensures
        r matches Some(n) ==> n < modulus() && power_mod(7, n as nat, modulus()) == p && forall|
            k: nat,
        |
            k < n ==> power_mod(7, k, modulus()) != p,
        r is None ==> forall|w: nat| w < modulus() ==> power_mod(7, w, modulus()) != p,
{
    let mut v: i64 = 1;
    let mut loop_number: usize = 0;
    while loop_number < 20201227
        invariant
            0 <= v < 20201227,
            loop_number <= 20201227,
            v == power_mod(7, loop_number as nat, modulus()),
            forall|k: nat| k < loop_number ==> power_mod(7, k, modulus()) != p,
        decreases 20201227 - loop_number,
    {
        if v == p {
            return Some(loop_number);
        }
        v = (v * 7) % 20201227;
        loop_number += 1;
    }
    None
}

} // verus!
