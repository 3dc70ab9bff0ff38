//! Randomness for the forwarding logic: a uniformly drawn interface index for
//! the random-fallback hop, and fresh packet identifiers for echoes.

use vstd::prelude::*;
use rand::Rng;

verus! {

/// Relies on rand::Rng::gen_range over `0..len` on rand::thread_rng: returns
/// a uniformly drawn index below `len`; it panics only on an empty range,
/// which the precondition rules out.  Nothing more is promised of a random
/// draw.
#[verifier::external_body]
pub(crate) fn random_index(len: usize) -> (r: usize)
    requires
        len > 0,
    ensures
        r < len,
{
    rand::thread_rng().gen_range(0..len)
}

/// Relies on uuid::Uuid::new_v4 and uuid::Uuid::as_u128: a randomly drawn
/// 128-bit identifier.  Nothing is promised of a random draw.
#[verifier::external_body]
pub(crate) fn random_uuid() -> u128 {
    uuid::Uuid::new_v4().as_u128()
}

/// A freshly drawn identifier different from `avoid`.  Echo packets must
/// carry an identifier different from the packet that triggered them; a
/// random 128-bit draw collides with a given value only with vanishing
/// probability, and on that one draw in `2^128` the neighbouring value is
/// taken instead.
pub fn fresh_uuid(avoid: u128) -> (r: u128)
    ensures
        r != avoid,
{
    let u = random_uuid();
    if u != avoid {
        u
    } else if avoid == 0 {
        1
    } else {
        avoid - 1
    }
}

} // verus!
