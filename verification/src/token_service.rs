//! The invite-code issuer: unforgeable, single-use onboarding codes.
//! A code is the hexadecimal SHA3-256 digest of 32 fresh random bytes;
//! the outstanding codes are kept in memory and each is consumable
//! exactly once.

use sha3::Digest;
use vstd::prelude::*;

use crate::entropy::random_bytes;
use crate::hexstr::{hex_encode, hex_of, lemma_hex_of_len};

verus! {

/// The SHA3-256 digest of a byte string.
pub uninterp spec fn sha3_256_of(data: Seq<u8>) -> Seq<u8>;

/// Relies on `sha3::Sha3_256` through `digest::Digest::digest`: the
/// digest is a function of the input bytes alone, 32 bytes long.
#[verifier::external_body]
fn sha3_256(data: &Vec<u8>) -> (r: Vec<u8>)
    ensures
        r@ == sha3_256_of(data@),
        r@.len() == 32,
{
    sha3::Sha3_256::digest(data.as_slice()).to_vec()
}

/// The issuer of invite codes for one role: the codes generated and not
/// yet consumed.
pub struct TokenService {
    tokens: Vec<String>,
}

impl TokenService {
    /// The outstanding codes, as the set of their character strings.
    pub closed spec fn outstanding(self) -> Set<Seq<char>> {
        Set::new(
            |c: Seq<char>|
                exists|i: int| 0 <= i < self.tokens@.len() && (#[trigger] self.tokens@[i])@ == c,
        )
    }

    /// No code is registered twice.
    pub closed spec fn wf(self) -> bool {
        forall|i: int, j: int|
            0 <= i < j < self.tokens@.len() ==> (#[trigger] self.tokens@[i])@
                != (#[trigger] self.tokens@[j])@
    }

    /// An issuer with no outstanding codes.
    pub fn new() -> (r: TokenService)
        ensures
            r.wf(),
            r.outstanding() =~= Set::<Seq<char>>::empty(),
    {
        TokenService { tokens: Vec::new() }
    }

    fn contains(&self, t: &String) -> (r: bool)
        ensures
            r == self.outstanding().contains(t@),
    {
        let n = self.tokens.len();
        let mut i: usize = 0;
        while i < n
            invariant
                n == self.tokens@.len(),
                i <= n,
                forall|k: int| 0 <= k < i ==> (#[trigger] self.tokens@[k])@ != t@,
            decreases n - i,
        {
            if self.tokens[i] == *t {
                return true;
            }
            i = i + 1;
        }
        false
    }

    /// One attempt to issue a fresh code: draws randomness, digests it,
    /// and registers the code — unless, by cosmic accident, the code is
    /// already outstanding, in which case nothing changes.
    pub fn _gen(&mut self) -> (r: Result<String, ()>)
        requires
            old(self).wf(),
        ensures
            final(self).wf(),
            match r {
                Ok(t) => {
                    &&& !old(self).outstanding().contains(t@)
                    &&& final(self).outstanding() =~= old(self).outstanding().insert(t@)
                    &&& t@.len() == 64
                    &&& exists|o: Seq<u8>|
                        o.len() == 32 && t@ == hex_of(#[trigger] sha3_256_of(o))
                },
                Err(_) => *final(self) == *old(self) && exists|c: Seq<char>|
                    old(self).outstanding().contains(c),
            },
    {
        let origin = random_bytes(32);
        let digest = sha3_256(&origin);
        let t = hex_encode(digest.as_slice());
        proof {
            lemma_hex_of_len(digest@);
        }
        if self.contains(&t) {
            Err(())
        } else {
            self.tokens.push(t.clone());
            proof {
                assert forall|c: Seq<char>|
                    final(self).outstanding().contains(c) <==> old(self).outstanding().insert(
                        t@,
                    ).contains(c) by {
                    if old(self).outstanding().contains(c) {
                        let i = choose|i: int|
                            0 <= i < old(self).tokens@.len() && (#[trigger] old(
                                self,
                            ).tokens@[i])@ == c;
                        assert((self.tokens@[i])@ == c);
                    }
                    if c == t@ {
                        assert((self.tokens@[self.tokens@.len() - 1])@ == c);
                    }
                    if final(self).outstanding().contains(c) {
                        let i = choose|i: int|
                            0 <= i < self.tokens@.len() && (#[trigger] self.tokens@[i])@ == c;
                        if i < self.tokens@.len() - 1 {
                            assert((old(self).tokens@[i])@ == c);
                        }
                    }
                }
                assert(final(self).outstanding() =~= old(self).outstanding().insert(t@));
            }
            Ok(t)
        }
    }

    /// Issues a fresh invite code: the code is new, now outstanding,
    /// and is the hexadecimal digest of 32 fresh random bytes. `None`
    /// only if every attempt collided with an outstanding code — with a
    /// cryptographic digest of fresh randomness, a practical
    /// impossibility; nothing changes in that case.
    pub fn gen(&mut self) -> (r: Option<String>)
        requires
            old(self).wf(),
        ensures
            final(self).wf(),
            match r {
                Some(t) => {
                    &&& !old(self).outstanding().contains(t@)
                    &&& final(self).outstanding() =~= old(self).outstanding().insert(t@)
                    &&& t@.len() == 64
                    &&& exists|o: Seq<u8>|
                        o.len() == 32 && t@ == hex_of(#[trigger] sha3_256_of(o))
                },
                None => *final(self) == *old(self) && exists|c: Seq<char>|
                    old(self).outstanding().contains(c),
            },
    {
        let mut attempts: usize = 0;
        while attempts < 16
            invariant
                old(self).wf(),
                *self == *old(self),
                attempts > 0 ==> exists|c: Seq<char>| old(self).outstanding().contains(c),
            decreases 16 - attempts,
        {
            match self._gen() {
                Ok(t) => {
                    return Some(t);
                },
                Err(_) => {},
            }
            attempts = attempts + 1;
        }
        None
    }

    /// Consumes a code: removes it and reports success if it was
    /// outstanding; reports failure, with no side effect, otherwise.
    /// Together with `gen`, the single-use guarantee: after the first
    /// successful `remove` of a code, the code is no longer
    /// outstanding, so every further `remove` of it returns false.
    pub fn remove(&mut self, token: String) -> (r: bool)
        requires
            old(self).wf(),
        ensures
            final(self).wf(),
            r == old(self).outstanding().contains(token@),
            final(self).outstanding() =~= old(self).outstanding().remove(token@),
            !r ==> *final(self) == *old(self),
    {
        let n = self.tokens.len();
        let mut i: usize = 0;
        while i < n
            invariant
                old(self).wf(),
                *self == *old(self),
                n == self.tokens@.len(),
                i <= n,
                forall|k: int| 0 <= k < i ==> (#[trigger] self.tokens@[k])@ != token@,
            decreases n - i,
        {
            if self.tokens[i] == token {
                self.tokens.remove(i);
                proof {
                    assert forall|c: Seq<char>|
                        final(self).outstanding().contains(c) <==> old(
                            self,
                        ).outstanding().remove(token@).contains(c) by {
                        if final(self).outstanding().contains(c) {
                            let k = choose|k: int|
                                0 <= k < self.tokens@.len() && (#[trigger] self.tokens@[k])@
                                    == c;
                            if k < i {
                                assert((old(self).tokens@[k])@ == c);
                                assert(c != token@);
                            } else {
                                assert((old(self).tokens@[k + 1])@ == c);
                                assert(c != token@);
                            }
                        }
                        if old(self).outstanding().remove(token@).contains(c) {
                            let k = choose|k: int|
                                0 <= k < old(self).tokens@.len() && (#[trigger] old(
                                    self,
                                ).tokens@[k])@ == c;
                            if k < i {
                                assert((self.tokens@[k])@ == c);
                            } else {
                                assert(k != i);
                                assert((self.tokens@[k - 1])@ == c);
                            }
                        }
                    }
                    assert(final(self).outstanding() =~= old(self).outstanding().remove(token@));
                }
                return true;
            }
            i = i + 1;
        }
        proof {
            assert forall|c: Seq<char>|
                self.outstanding().remove(token@).contains(c) <==> self.outstanding().contains(
                    c,
                ) by {
                if self.outstanding().contains(c) {
                    let k = choose|k: int|
                        0 <= k < self.tokens@.len() && (#[trigger] self.tokens@[k])@ == c;
                    assert(c != token@);
                }
            }
            assert(self.outstanding().remove(token@) =~= self.outstanding());
        }
        false
    }
}

/// Invite codes are single-use: a freshly generated code is
/// outstanding, consuming it removes it, and every later consume of the
/// same code finds nothing and changes nothing.
pub proof fn lemma_invite_single_use(outstanding: Set<Seq<char>>, code: Seq<char>)
    requires
        !outstanding.contains(code),
    ensures
        outstanding.insert(code).contains(code),
        outstanding.insert(code).remove(code) =~= outstanding,
        !outstanding.insert(code).remove(code).contains(code),
{
}

} // verus!
