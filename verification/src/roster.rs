//! The identity registries: who may vote and who administers, each an
//! explicit owned collection, and the onboarding step that redeems a
//! single-use invite code into a membership.

use vstd::prelude::*;

use crate::token_service::TokenService;

verus! {

/// A registry of member identities, each held once.
pub struct Roster {
    ids: Vec<i64>,
}

impl Roster {
    /// The members, as a set of identities.
    pub closed spec fn members(self) -> Set<i64> {
        Set::new(
            |id: i64| exists|i: int| 0 <= i < self.ids@.len() && #[trigger] self.ids@[i] == id,
        )
    }

    /// No identity is registered twice.
    pub closed spec fn wf(self) -> bool {
        forall|i: int, j: int|
            0 <= i < j < self.ids@.len() ==> #[trigger] self.ids@[i] != #[trigger] self.ids@[j]
    }

    /// An empty registry.
    pub fn new() -> (r: Roster)
        ensures
            r.wf(),
            r.members() =~= Set::<i64>::empty(),
    {
        Roster { ids: Vec::new() }
    }

    /// Whether the identity is a member.
    pub fn contains(&self, id: i64) -> (r: bool)
        ensures
            r == self.members().contains(id),
    {
        let n = self.ids.len();
        let mut i: usize = 0;
        while i < n
            invariant
                n == self.ids@.len(),
                i <= n,
                forall|k: int| 0 <= k < i ==> #[trigger] self.ids@[k] != id,
            decreases n - i,
        {
            if self.ids[i] == id {
                return true;
            }
            i = i + 1;
        }
        false
    }

    /// Registers the identity; reports whether it was new.
    pub fn add(&mut self, id: i64) -> (added: bool)
        requires
            old(self).wf(),
        ensures
            final(self).wf(),
            final(self).members() =~= old(self).members().insert(id),
            added == !old(self).members().contains(id),
    {
        if self.contains(id) {
            proof {
                assert(self.members().insert(id) =~= self.members());
            }
            return false;
        }
        self.ids.push(id);
        proof {
            assert forall|x: i64|
                final(self).members().contains(x) <==> old(self).members().insert(id).contains(
                    x,
                ) by {
                if old(self).members().contains(x) {
                    let i = choose|i: int|
                        0 <= i < old(self).ids@.len() && #[trigger] old(self).ids@[i] == x;
                    assert(self.ids@[i] == x);
                }
                if final(self).members().contains(x) {
                    let i = choose|i: int|
                        0 <= i < self.ids@.len() && #[trigger] self.ids@[i] == x;
                    if i < self.ids@.len() - 1 {
                        assert(old(self).ids@[i] == x);
                    }
                }
                if x == id {
                    assert(self.ids@[self.ids@.len() - 1] == x);
                }
            }
            assert(final(self).members() =~= old(self).members().insert(id));
        }
        true
    }
}

/// How redeeming an invite code went: the identity already was a
/// member (the code is left untouched), or the code was consumed and
/// the identity registered, or the code was not outstanding and
/// nothing changed.
#[derive(Debug, PartialEq, Eq, Structural, Clone, Copy)]
pub enum RedeemOutcome {
    AlreadyMember,
    Accepted,
    InvalidCode,
}

/// Redeems a single-use invite code into a membership: an atomic
/// check-and-remove on the issuer, then registration.
pub fn redeem_invite(issuer: &mut TokenService, roster: &mut Roster, id: i64, code: String) -> (r:
    RedeemOutcome)
    requires
        old(issuer).wf(),
        old(roster).wf(),
    ensures
        final(issuer).wf(),
        final(roster).wf(),
        match r {
            RedeemOutcome::AlreadyMember => {
                &&& old(roster).members().contains(id)
                &&& *final(issuer) == *old(issuer)
                &&& *final(roster) == *old(roster)
            },
            RedeemOutcome::Accepted => {
                &&& !old(roster).members().contains(id)
                &&& old(issuer).outstanding().contains(code@)
                &&& final(issuer).outstanding() =~= old(issuer).outstanding().remove(code@)
                &&& final(roster).members() =~= old(roster).members().insert(id)
            },
            RedeemOutcome::InvalidCode => {
                &&& !old(roster).members().contains(id)
                &&& !old(issuer).outstanding().contains(code@)
                &&& *final(issuer) == *old(issuer)
                &&& *final(roster) == *old(roster)
            },
        },
{
    if roster.contains(id) {
        return RedeemOutcome::AlreadyMember;
    }
    if issuer.remove(code) {
        roster.add(id);
        RedeemOutcome::Accepted
    } else {
        RedeemOutcome::InvalidCode
    }
}

} // verus!
