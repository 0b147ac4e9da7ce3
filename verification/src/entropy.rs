//! Fresh randomness for poll secrets, session secrets and invite codes.

use rand::Rng;
use vstd::prelude::*;

verus! {

/// Relies on `rand::rng` and `Rng::fill_bytes`: fills a buffer of the
/// requested length with fresh randomness. Nothing is assumed of the
/// drawn values themselves, only of the length.
#[verifier::external_body]
pub(crate) fn random_bytes(n: usize) -> (r: Vec<u8>)
    ensures
        r@.len() == n,
{
    let mut buf = vec![0u8; n];
    rand::rng().fill_bytes(buf.as_mut_slice());
    buf
}

} // verus!
