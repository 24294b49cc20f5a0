//! The outside calls that the search draws on: random numbers, fresh
//! identifiers, and appending a character to a string.

use vstd::prelude::*;

verus! {

/// Relies on rand's `Rng::gen_range` over `thread_rng()`: for a non-empty
/// range `0..n` it returns a value inside the range (it panics only on an
/// empty range, which `requires` leaves out).
#[verifier::external_body]
pub(crate) fn random_below(n: usize) -> (r: usize)
    requires
        n > 0,
    ensures
        r < n,
{
    rand::Rng::gen_range(&mut rand::thread_rng(), 0..n)
}

/// Relies on `nanoid::format` with the crate's default random source and its
/// `SAFE` alphabet of ASCII characters: it returns a string of exactly the
/// requested number of characters.
#[verifier::external_body]
pub(crate) fn fresh_id() -> (r: String)
    ensures
        r@.len() == 5,
{
    nanoid::format(nanoid::rngs::default, &nanoid::alphabet::SAFE, 5)
}

/// Relies on std's `String::push`: the character is appended at the end.
#[verifier::external_body]
pub(crate) fn push_char(s: &mut String, c: char)
    ensures
        final(s)@ == old(s)@.push(c),
{
    s.push(c)
}

} // verus!
