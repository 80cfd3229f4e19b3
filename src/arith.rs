//! Arithmetic on big-endian byte sequences, carried out by GMP through the
//! `gmp` crate.
use gmp::mpz::Mpz;
use vstd::arithmetic::power::pow;
use vstd::prelude::*;

use crate::bignat::{be_nat, nat_to_be};

verus! {

/// What converting `n` from an `Mpz` to a `Vec<u8>` gives: the single byte zero for
/// zero, and the shortest big-endian encoding otherwise.
pub open spec fn digits_of(n: nat) -> Seq<u8> {
    if n == 0 {
        seq![0u8]
    } else {
        nat_to_be(n)
    }
}

/// `n` with its lowest bit flipped, that is `n XOR 1`.
pub open spec fn flip_low_bit(n: nat) -> nat {
    if n % 2 == 0 {
        n + 1
    } else {
        (n - 1) as nat
    }
}

/// `b` raised to `e`, reduced modulo `m`.
pub open spec fn pow_mod_spec(b: nat, e: nat, m: nat) -> nat
    recommends
        m > 0,
{
    (pow(b as int, e) % (m as int)) as nat
}

/// Relies on `Mpz::powm`: `(base ^ exp) % m`, which GMP leaves undefined only
/// when `m` is zero.
#[verifier::external_body]
pub(crate) fn pow_mod(base: &[u8], exp: &[u8], m: &[u8]) -> (r: Vec<u8>)
    requires
        be_nat(m@) > 0,
    ensures
        r@ == digits_of(pow_mod_spec(be_nat(base@), be_nat(exp@), be_nat(m@))),
{
    let b = Mpz::from(base);
    Vec::<u8>::from(&b.powm(&Mpz::from(exp), &Mpz::from(m)))
}

/// Relies on `Mpz`'s `^` (bitwise exclusive or) with the number one.
#[verifier::external_body]
pub(crate) fn xor_one(a: &[u8]) -> (r: Vec<u8>)
    ensures
        r@ == digits_of(flip_low_bit(be_nat(a@))),
{
    Vec::<u8>::from(&(Mpz::from(a) ^ Mpz::from(1u64)))
}

/// Relies on `Mpz`'s `+`.
#[verifier::external_body]
pub(crate) fn add_big(a: &[u8], b: &[u8]) -> (r: Vec<u8>)
    ensures
        r@ == digits_of(be_nat(a@) + be_nat(b@)),
{
    Vec::<u8>::from(&(Mpz::from(a) + Mpz::from(b)))
}

/// Relies on `Mpz::pow`: `base ^ exp`.
#[verifier::external_body]
pub(crate) fn pow_of(base: u32, exp: u32) -> (r: Vec<u8>)
    ensures
        r@ == digits_of(pow(base as int, exp as nat) as nat),
{
    Vec::<u8>::from(&Mpz::from(base).pow(exp))
}

/// Relies on `Mpz`'s `-` with a `u64`; the conversion to bytes drops the
/// sign, so the difference must not be negative.
#[verifier::external_body]
pub(crate) fn sub_small(a: &[u8], b: u32) -> (r: Vec<u8>)
    requires
        be_nat(a@) >= b,
    ensures
        r@ == digits_of((be_nat(a@) - b) as nat),
{
    Vec::<u8>::from(&(Mpz::from(a) - b as u64))
}

/// Relies on `Mpz`'s `/` with a `u64`: the quotient rounded toward zero, which
/// is undefined when the divisor is zero.
#[verifier::external_body]
pub(crate) fn div_small(a: &[u8], b: u32) -> (r: Vec<u8>)
    requires
        b > 0,
    ensures
        r@ == digits_of(be_nat(a@) / (b as nat)),
{
    Vec::<u8>::from(&(Mpz::from(a) / b as u64))
}

} // verus!
