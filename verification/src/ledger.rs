//! The vote ledger: the per-voter collection of live vote tokens and
//! the tally vector, kept consistent with each other. A voter may hold
//! at most `VOTE_CAPACITY` live tokens; casting at capacity silently
//! revokes the oldest one. Every operation first proves the click
//! belongs to a menu the voter really holds: each live token of the
//! voter must decode under the session secret of that menu, else the
//! operation is refused as stale.
//!
//! Tokens come in two kinds. A token minted in this process carries an
//! accurate ghost record of what it seals, and the conservation
//! invariant counts its vote directly. A token restored from storage
//! after a restart seals an unknown vote; its share of the tally is
//! held in the carried baseline, and when a click decodes and revokes
//! it, the tally and the baseline are decremented together — guarded
//! so that neither can fall below what the minted tokens still back.

use vstd::prelude::*;

use crate::hexstr::hex_decode;
use crate::poll::PollService;
use crate::digits::parse_vote;
use crate::hexstr::unhex;
use crate::poll_token::{
    aead_seal, decodes_to, key_bytes_of, nonce_of, spec_encode, valid_key_hex, valid_seed,
    PollToken, KEY_HALF_LEN, MAX_PLAIN_LEN,
};

verus! {

/// How many vote tokens one voter may hold at once. The voting menu
/// offers a fixed number of live choices; this capacity mirrors it.
pub const VOTE_CAPACITY: usize = 3;

/// The number of entries of a token sequence satisfying a predicate.
pub open spec fn count_where(s: Seq<PollToken>, f: spec_fn(PollToken) -> bool) -> int
    decreases s.len(),
{
    if s.len() == 0 {
        0
    } else {
        count_where(s.drop_last(), f) + if f(s.last()) {
            1int
        } else {
            0int
        }
    }
}

/// Minted tokens sealing a vote for candidate number `c`.
pub open spec fn is_counted_choice(c: int) -> spec_fn(PollToken) -> bool {
    |t: PollToken| !t.restored && t.choice@ == c
}

/// Tokens owned by voter `v`, of either kind.
pub open spec fn is_voter(v: i64) -> spec_fn(PollToken) -> bool {
    |t: PollToken| t.user_id == v
}

/// Minted tokens owned by voter `v` and sealed under session key half
/// `sb`.
pub open spec fn is_mine(v: i64, sb: Seq<u8>) -> spec_fn(PollToken) -> bool {
    |t: PollToken| !t.restored && t.user_id == v && t.session@ == sb
}

/// Minted tokens owned by `v`, sealed under `sb`, voting for `c`.
pub open spec fn is_mine_choice(v: i64, sb: Seq<u8>, c: int) -> spec_fn(PollToken) -> bool {
    |t: PollToken| !t.restored && t.user_id == v && t.session@ == sb && t.choice@ == c
}

pub proof fn lemma_count_bounds(s: Seq<PollToken>, f: spec_fn(PollToken) -> bool)
    ensures
        0 <= count_where(s, f) <= s.len(),
    decreases s.len(),
{
    if s.len() > 0 {
        lemma_count_bounds(s.drop_last(), f);
    }
}

pub proof fn lemma_count_push(s: Seq<PollToken>, f: spec_fn(PollToken) -> bool, t: PollToken)
    ensures
        count_where(s.push(t), f) == count_where(s, f) + if f(t) {
            1int
        } else {
            0int
        },
{
    assert(s.push(t).drop_last() =~= s);
    assert(s.push(t).last() == t);
}

pub proof fn lemma_count_remove(s: Seq<PollToken>, f: spec_fn(PollToken) -> bool, i: int)
    requires
        0 <= i < s.len(),
    ensures
        count_where(s.remove(i), f) == count_where(s, f) - if f(s[i]) {
            1int
        } else {
            0int
        },
    decreases s.len(),
{
    if i == s.len() - 1 {
        assert(s.remove(i) =~= s.drop_last());
    } else {
        assert(s.remove(i).drop_last() =~= s.drop_last().remove(i));
        assert(s.remove(i).last() == s.last());
        lemma_count_remove(s.drop_last(), f, i);
    }
}

/// A token satisfying the predicate makes the count positive.
pub proof fn lemma_count_found(s: Seq<PollToken>, f: spec_fn(PollToken) -> bool, i: int)
    requires
        0 <= i < s.len(),
        f(s[i]),
    ensures
        count_where(s, f) >= 1,
    decreases s.len(),
{
    lemma_count_bounds(s.drop_last(), f);
    if i < s.len() - 1 {
        lemma_count_found(s.drop_last(), f, i);
    }
}

/// Counting distributes over concatenation.
pub proof fn lemma_count_concat(a: Seq<PollToken>, b: Seq<PollToken>, f: spec_fn(PollToken) -> bool)
    ensures
        count_where(a + b, f) == count_where(a, f) + count_where(b, f),
    decreases b.len(),
{
    if b.len() == 0 {
        assert(a + b =~= a);
    } else {
        assert((a + b).drop_last() =~= a + b.drop_last());
        assert((a + b).last() == b.last());
        lemma_count_concat(a, b.drop_last(), f);
    }
}

/// Extending a prefix by one entry raises its count accordingly.
pub proof fn lemma_count_push_take(s: Seq<PollToken>, f: spec_fn(PollToken) -> bool, i: int)
    requires
        0 <= i < s.len(),
    ensures
        count_where(s.take(i + 1), f) == count_where(s.take(i), f) + if f(s[i]) {
            1int
        } else {
            0int
        },
{
    assert(s.take(i + 1).drop_last() =~= s.take(i));
    assert(s.take(i + 1).last() == s[i]);
}

/// A positive count means some entry satisfies the predicate.
pub proof fn lemma_count_exists(s: Seq<PollToken>, f: spec_fn(PollToken) -> bool)
    requires
        count_where(s, f) != 0,
    ensures
        exists|k: int| 0 <= k < s.len() && f(#[trigger] s[k]),
    decreases s.len(),
{
    if s.len() > 0 {
        if f(s.last()) {
            assert(0 <= s.len() - 1 < s.len() && f(s[s.len() - 1]));
        } else {
            lemma_count_exists(s.drop_last(), f);
            let k = choose|k: int| 0 <= k < s.drop_last().len() && f(#[trigger] s.drop_last()[k]);
            assert(f(s[k]));
        }
    }
}

/// If no entry satisfies the predicate, the count is zero.
pub proof fn lemma_count_none(s: Seq<PollToken>, f: spec_fn(PollToken) -> bool)
    requires
        forall|k: int| 0 <= k < s.len() ==> !f(#[trigger] s[k]),
    ensures
        count_where(s, f) == 0,
    decreases s.len(),
{
    if s.len() > 0 {
        lemma_count_none(s.drop_last(), f);
    }
}

/// A prefix never counts more than the whole sequence.
pub proof fn lemma_count_take_mono(s: Seq<PollToken>, f: spec_fn(PollToken) -> bool, j: int)
    requires
        0 <= j <= s.len(),
    ensures
        count_where(s.take(j), f) <= count_where(s, f),
    decreases s.len() - j,
{
    if j < s.len() {
        lemma_count_push_take(s, f, j);
        lemma_count_take_mono(s, f, j + 1);
    } else {
        assert(s.take(j) =~= s);
    }
}

/// A stronger predicate never counts more than a weaker one.
pub proof fn lemma_count_implies(
    s: Seq<PollToken>,
    f: spec_fn(PollToken) -> bool,
    g: spec_fn(PollToken) -> bool,
)
    requires
        forall|i: int| 0 <= i < s.len() && f(#[trigger] s[i]) ==> g(s[i]),
    ensures
        count_where(s, f) <= count_where(s, g),
    decreases s.len(),
{
    if s.len() > 0 {
        assert(forall|i: int|
            0 <= i < s.drop_last().len() && f(#[trigger] s.drop_last()[i]) ==> g(
                s.drop_last()[i],
            ));
        lemma_count_implies(s.drop_last(), f, g);
    }
}

/// The outcome of a cast: the voter's vote for the target was revoked,
/// or a new vote was cast.
#[derive(Debug, PartialEq, Eq, Structural, Clone, Copy)]
pub enum CastOutcome {
    ToggledOff,
    CastNew,
}

/// Why a cast was refused: the candidate number is out of range, or
/// the click came from a stale menu (some live token of the voter does
/// not decode under the offered session secret).
#[derive(Debug, PartialEq, Eq, Structural, Clone, Copy)]
pub enum CastError {
    InvalidCandidate,
    StaleSession,
}

/// The tallies after revoking one token whose vote reads `c`: a minted
/// token always gives back its vote; a restored token gives back a
/// carried vote, but only while the carried baseline for `c` still
/// holds one — a store that carried fewer votes than it held tokens
/// cannot drive a tally below what the minted tokens back.
pub open spec fn tallies_after_revoke(
    votes: Seq<u64>,
    carried: Seq<u64>,
    restored: bool,
    c: i64,
) -> (Seq<u64>, Seq<u64>) {
    if !restored {
        (votes.update(c - 1, (votes[c - 1] - 1) as u64), carried)
    } else if 1 <= c <= carried.len() && carried[c - 1] > 0 {
        (
            votes.update(c - 1, (votes[c - 1] - 1) as u64),
            carried.update(c - 1, (carried[c - 1] - 1) as u64),
        )
    } else {
        (votes, carried)
    }
}

/// The ledger: the active poll (with its tally vector), all live vote
/// tokens in storage order, the configured nonce seed, and the carried
/// baseline — the share of each tally inherited from a resumed poll's
/// restored tokens. For a poll created in this process the baseline is
/// zero everywhere and each tally equals the number of live tokens
/// sealing a vote for that candidate.
pub struct VoteLedger {
    pub poll: PollService,
    pub tokens: Vec<PollToken>,
    pub nonce_seed: String,
    pub carried: Vec<u64>,
}

impl VoteLedger {
    /// Every minted token is well-formed: it votes for a listed
    /// candidate, and its ciphertext is exactly the sealing of that
    /// vote under the poll key and the token's session key half.
    pub open spec fn token_ok(self, t: PollToken) -> bool {
        &&& 1 <= t.choice@ <= self.poll.candidates@.len()
        &&& t.session@.len() == KEY_HALF_LEN
        &&& t.token@ == spec_encode(
            t.choice@ as int,
            key_bytes_of(self.poll.key@),
            t.session@,
            self.nonce_seed@,
        )
    }

    /// The ledger invariant: a well-formed poll, well-formed minted
    /// tokens, conservation — each tally equals its carried baseline
    /// plus the number of minted tokens voting for that candidate —
    /// and the capacity bound on every voter, over tokens of both
    /// kinds.
    pub open spec fn wf(self) -> bool {
        &&& self.poll.wf()
        &&& valid_seed(self.nonce_seed@)
        &&& self.carried@.len() == self.poll.candidates@.len()
        &&& forall|i: int|
            0 <= i < self.tokens@.len() && !(#[trigger] self.tokens@[i]).restored
                ==> self.token_ok(self.tokens@[i])
        &&& forall|c: int|
            1 <= c <= self.poll.candidates@.len() ==> self.poll.votes@[c - 1] == self.carried@[c
                - 1] + #[trigger] count_where(self.tokens@, is_counted_choice(c))
        &&& forall|v: i64| #[trigger] count_where(self.tokens@, is_voter(v)) <= VOTE_CAPACITY
    }

    /// A poll created in this process: zero baseline, so each tally is
    /// exactly the number of live tokens sealing a vote for that
    /// candidate.
    pub open spec fn carried_zero(self) -> bool {
        forall|c: int| 0 <= c < self.carried@.len() ==> self.carried@[c] == 0
    }

    /// Every minted token of this voter was sealed under session key
    /// half `sb` — the click belongs to the voter's current menu.
    pub open spec fn session_matches(self, voter: i64, sb: Seq<u8>) -> bool {
        forall|i: int|
            0 <= i < self.tokens@.len() && (#[trigger] self.tokens@[i]).user_id == voter
                && !self.tokens@[i].restored ==> self.tokens@[i].session@ == sb
    }

    /// The voter still holds tokens restored from before a restart;
    /// what they seal, and whether a given secret decodes them, is not
    /// determined by the ledger's state.
    pub open spec fn has_restored_for(self, voter: i64) -> bool {
        exists|k: int|
            0 <= k < self.tokens@.len() && (#[trigger] self.tokens@[k]).user_id == voter
                && self.tokens@[k].restored
    }

    /// The token holds a vote for `target`, read under session key
    /// half `sb`: recorded directly for a minted token, a decodable
    /// sealing for a restored one.
    pub open spec fn stands_for(self, t: PollToken, sb: Seq<u8>, target: i64) -> bool {
        if t.restored {
            decodes_to(t.token@, key_bytes_of(self.poll.key@), sb, self.nonce_seed@, target)
        } else {
            t.choice@ == target
        }
    }

    /// No live token of the voter holds a vote for `target` under `sb`.
    pub open spec fn no_vote_for(self, voter: i64, sb: Seq<u8>, target: i64) -> bool {
        forall|k: int|
            0 <= k < self.tokens@.len() && (#[trigger] self.tokens@[k]).user_id == voter
                ==> !self.stands_for(self.tokens@[k], sb, target)
    }

    /// A fresh ledger for a newly created poll: no tokens, baseline
    /// zero.
    pub fn open_poll(poll: PollService, nonce_seed: String) -> (r: VoteLedger)
        requires
            poll.wf(),
            valid_seed(nonce_seed@),
            forall|i: int| 0 <= i < poll.votes@.len() ==> poll.votes@[i] == 0,
        ensures
            r.wf(),
            r.carried_zero(),
            r.poll == poll,
            r.tokens@.len() == 0,
            r.nonce_seed == nonce_seed,
    {
        let n = poll.candidates.len();
        let carried = vec![0u64; n];
        let r = VoteLedger { poll, tokens: Vec::new(), nonce_seed, carried };
        r
    }

    /// The token of `old(self)` at position `i` is the voter's first
    /// (oldest) live vote for `target` under `sb`; it is revoked:
    /// removed from the ledger, with the target's tally (and, for a
    /// restored token, the carried baseline) given back.
    pub open spec fn toggled_off(
        self,
        post: VoteLedger,
        voter: i64,
        target: i64,
        sb: Seq<u8>,
        i: int,
    ) -> bool {
        let t = self.tokens@[i];
        let after = tallies_after_revoke(self.poll.votes@, self.carried@, t.restored, target);
        &&& 0 <= i < self.tokens@.len()
        &&& t.user_id == voter
        &&& self.stands_for(t, sb, target)
        &&& forall|k: int|
            0 <= k < i && (#[trigger] self.tokens@[k]).user_id == voter ==> !self.stands_for(
                self.tokens@[k],
                sb,
                target,
            )
        &&& post.tokens@ == self.tokens@.remove(i)
        &&& post.poll.votes@ == after.0
        &&& post.carried@ == after.1
    }

    /// The new token a cast appends: minted now, owned by the voter,
    /// sealed under the current session key half, voting for the
    /// target.
    pub open spec fn new_token_ok(
        self,
        t: PollToken,
        voter: i64,
        target: i64,
        sb: Seq<u8>,
        interaction: i64,
    ) -> bool {
        &&& t.user_id == voter
        &&& t.msg_id == interaction
        &&& !t.restored
        &&& t.choice@ == target
        &&& t.session@ == sb
        &&& t.token@ == spec_encode(
            target as int,
            key_bytes_of(self.poll.key@),
            sb,
            self.nonce_seed@,
        )
    }

    /// A cast below capacity: one new token appended, the target's
    /// tally incremented, nothing else touched.
    pub open spec fn cast_plain(
        self,
        post: VoteLedger,
        voter: i64,
        target: i64,
        sb: Seq<u8>,
        interaction: i64,
    ) -> bool {
        &&& count_where(self.tokens@, is_voter(voter)) < VOTE_CAPACITY
        &&& post.tokens@.len() == self.tokens@.len() + 1
        &&& post.tokens@ == self.tokens@.push(post.tokens@.last())
        &&& self.new_token_ok(post.tokens@.last(), voter, target, sb, interaction)
        &&& post.poll.votes@ == self.poll.votes@.update(
            target - 1,
            (self.poll.votes@[target - 1] + 1) as u64,
        )
        &&& post.carried@ == self.carried@
    }

    /// A cast at capacity: the voter's oldest live token (at position
    /// `i`, their first in storage order), which holds a vote for `ev`,
    /// is evicted with its tally given back; then the new token is
    /// appended and the target's tally incremented.
    pub open spec fn cast_evicting(
        self,
        post: VoteLedger,
        voter: i64,
        target: i64,
        sb: Seq<u8>,
        interaction: i64,
        i: int,
        ev: i64,
    ) -> bool {
        let t = self.tokens@[i];
        let mid = tallies_after_revoke(self.poll.votes@, self.carried@, t.restored, ev);
        &&& count_where(self.tokens@, is_voter(voter)) == VOTE_CAPACITY
        &&& 0 <= i < self.tokens@.len()
        &&& t.user_id == voter
        &&& forall|k: int| 0 <= k < i ==> (#[trigger] self.tokens@[k]).user_id != voter
        &&& self.stands_for(t, sb, ev)
        &&& 0 <= ev
        &&& ev != target
        &&& !t.restored ==> ev == t.choice@
        &&& post.tokens@.len() == self.tokens@.len()
        &&& post.tokens@ == self.tokens@.remove(i).push(post.tokens@.last())
        &&& self.new_token_ok(post.tokens@.last(), voter, target, sb, interaction)
        &&& post.poll.votes@ == mid.0.update(target - 1, (mid.0[target - 1] + 1) as u64)
        &&& post.carried@ == mid.1
    }

    /// Casts the voter's click for candidate number `target`, or
    /// toggles an identical existing vote off.
    ///
    /// Checked in order: `target` must name a listed candidate
    /// (`InvalidCandidate`); the session secret must be well-formed and
    /// every live token of the voter must decode under it
    /// (`StaleSession` — the click came from a stale menu; for a
    /// restored token, whether it decodes depends on the ciphertext it
    /// carries). Then, if the voter already holds a vote for `target`,
    /// the oldest such vote is revoked (`ToggledOff`); otherwise a new
    /// vote is cast (`CastNew`), evicting the voter's oldest vote
    /// first when the voter is at capacity.
    pub fn cast_or_toggle(
        &mut self,
        target: i64,
        voter: i64,
        session_secret: String,
        interaction: i64,
    ) -> (r: Result<CastOutcome, CastError>)
        requires
            old(self).wf(),
            1 <= target <= old(self).poll.candidates@.len() ==> old(self).poll.votes@[target - 1]
                < u64::MAX,
        ensures
            final(self).wf(),
            final(self).poll.candidates@ == old(self).poll.candidates@,
            final(self).poll.key@ == old(self).poll.key@,
            final(self).poll.start == old(self).poll.start,
            final(self).poll.end == old(self).poll.end,
            final(self).nonce_seed@ == old(self).nonce_seed@,
            match r {
                Err(CastError::InvalidCandidate) => !(1 <= target <= old(
                    self,
                ).poll.candidates@.len()) && *final(self) == *old(self),
                Err(CastError::StaleSession) => {
                    &&& 1 <= target <= old(self).poll.candidates@.len()
                    &&& !(valid_key_hex(session_secret@) && old(self).session_matches(
                        voter,
                        key_bytes_of(session_secret@),
                    ) && !old(self).has_restored_for(voter))
                    &&& *final(self) == *old(self)
                },
                Ok(o) => {
                    &&& 1 <= target <= old(self).poll.candidates@.len()
                    &&& valid_key_hex(session_secret@)
                    &&& old(self).session_matches(voter, key_bytes_of(session_secret@))
                    &&& match o {
                        CastOutcome::ToggledOff => exists|i: int|
                            old(self).toggled_off(
                                *final(self),
                                voter,
                                target,
                                key_bytes_of(session_secret@),
                                i,
                            ),
                        CastOutcome::CastNew => {
                            &&& old(self).no_vote_for(
                                voter,
                                key_bytes_of(session_secret@),
                                target,
                            )
                            &&& (old(self).cast_plain(
                                *final(self),
                                voter,
                                target,
                                key_bytes_of(session_secret@),
                                interaction,
                            ) || exists|i: int, ev: i64|
                                old(self).cast_evicting(
                                    *final(self),
                                    voter,
                                    target,
                                    key_bytes_of(session_secret@),
                                    interaction,
                                    i,
                                    ev,
                                ))
                        },
                    }
                },
            },
    {
        let ncand = self.poll.candidates.len();
        if target < 1 || (target as u64) > (ncand as u64) {
            return Err(CastError::InvalidCandidate);
        }
        let sb_vec = match hex_decode(session_secret.as_str()) {
            Some(b) => b,
            None => {
                return Err(CastError::StaleSession);
            },
        };
        if sb_vec.len() != KEY_HALF_LEN {
            return Err(CastError::StaleSession);
        }
        let ghost sbv = sb_vec@;
        assert(valid_key_hex(session_secret@) && key_bytes_of(session_secret@) == sbv);
        let ghost pbv = key_bytes_of(self.poll.key@);

        let n = self.tokens.len();
        let mut i: usize = 0;
        let mut toggle_idx: usize = n;
        let mut oldest_idx: usize = n;
        let mut oldest_val: i64 = 0;
        let mut voter_count: usize = 0;
        while i < n
            invariant
                self.wf(),
                *self == *old(self),
                n == self.tokens@.len(),
                i <= n,
                1 <= target <= self.poll.candidates@.len(),
                valid_key_hex(session_secret@),
                key_bytes_of(session_secret@) == sbv,
                sbv.len() == KEY_HALF_LEN,
                pbv == key_bytes_of(self.poll.key@),
                forall|k: int|
                    0 <= k < i && (#[trigger] self.tokens@[k]).user_id == voter
                        && !self.tokens@[k].restored ==> self.tokens@[k].session@ == sbv,
                voter_count == count_where(self.tokens@.take(i as int), is_voter(voter)),
                toggle_idx == n || (toggle_idx < i && self.tokens@[toggle_idx as int].user_id
                    == voter && self.stands_for(self.tokens@[toggle_idx as int], sbv, target)),
                forall|k: int|
                    0 <= k < (if toggle_idx == n {
                        i as int
                    } else {
                        toggle_idx as int
                    }) && (#[trigger] self.tokens@[k]).user_id == voter ==> !self.stands_for(
                        self.tokens@[k],
                        sbv,
                        target,
                    ),
                oldest_idx == n || (oldest_idx < i && self.tokens@[oldest_idx as int].user_id
                    == voter && self.stands_for(self.tokens@[oldest_idx as int], sbv, oldest_val)
                    && 0 <= oldest_val && (!self.tokens@[oldest_idx as int].restored ==> 1
                    <= oldest_val <= self.poll.candidates@.len() && oldest_val
                    == self.tokens@[oldest_idx as int].choice@)),
                oldest_idx == n ==> forall|k: int|
                    0 <= k < i ==> (#[trigger] self.tokens@[k]).user_id != voter,
                oldest_idx < n ==> forall|k: int|
                    0 <= k < oldest_idx ==> (#[trigger] self.tokens@[k]).user_id != voter,
            decreases n - i,
        {
            proof {
                lemma_count_push_take(self.tokens@, is_voter(voter), i as int);
                lemma_count_bounds(self.tokens@.take(i as int), is_voter(voter));
            }
            if self.tokens[i].user_id == voter {
                let d = self.tokens[i].decrypt(
                    self.nonce_seed.clone(),
                    self.poll.key.clone(),
                    session_secret.clone(),
                );
                match d {
                    Err(_) => {
                        proof {
                            let t = self.tokens@[i as int];
                            if !t.restored {
                                assert(self.token_ok(t));
                                if t.session@ == sbv {
                                    assert(t.token@ == spec_encode(
                                        t.choice@ as int,
                                        pbv,
                                        sbv,
                                        self.nonce_seed@,
                                    ));
                                    assert(false);
                                }
                                assert(!self.session_matches(voter, sbv));
                            } else {
                                assert(self.has_restored_for(voter));
                            }
                        }
                        return Err(CastError::StaleSession);
                    },
                    Ok(v) => {
                        proof {
                            let t = self.tokens@[i as int];
                            if !t.restored {
                                assert(self.token_ok(t));
                                assert(t.choice@ == v && t.session@ == sbv);
                                assert(self.stands_for(t, sbv, v));
                            } else {
                                assert(decodes_to(t.token@, pbv, sbv, self.nonce_seed@, v));
                                assert(self.stands_for(t, sbv, v));
                                if v != target && self.stands_for(t, sbv, target) {
                                    let p = choose|p: Seq<u8>|
                                        p.len() <= MAX_PLAIN_LEN && unhex(t.token@) == Some(
                                            #[trigger] aead_seal(
                                                pbv + sbv,
                                                nonce_of(self.nonce_seed@),
                                                p,
                                            ),
                                        ) && parse_vote(p) == Some(target);
                                    assert(parse_vote(p) == Some(v));
                                    assert(false);
                                }
                            }
                            if v != target {
                                assert(!self.stands_for(t, sbv, target));
                            }
                        }
                        voter_count = voter_count + 1;
                        if oldest_idx == n {
                            oldest_idx = i;
                            oldest_val = v;
                        }
                        if v == target && toggle_idx == n {
                            toggle_idx = i;
                        }
                    },
                }
            }
            i = i + 1;
        }
        proof {
            assert(self.tokens@.take(n as int) =~= self.tokens@);
            assert(self.session_matches(voter, sbv));
            lemma_count_bounds(self.tokens@, is_voter(voter));
        }

        if toggle_idx < n {
            let idx: usize = (target - 1) as usize;
            if self.tokens[toggle_idx].restored {
                if self.carried[idx] > 0 {
                    proof {
                        assert(self.poll.votes@[target - 1] == self.carried@[target - 1]
                            + count_where(self.tokens@, is_counted_choice(target as int)));
                        lemma_count_bounds(self.tokens@, is_counted_choice(target as int));
                    }
                    let cur = self.poll.votes[idx];
                    self.poll.votes[idx] = cur - 1;
                    let curc = self.carried[idx];
                    self.carried[idx] = curc - 1;
                }
            } else {
                proof {
                    lemma_count_found(
                        self.tokens@,
                        is_counted_choice(target as int),
                        toggle_idx as int,
                    );
                }
                let cur = self.poll.votes[idx];
                self.poll.votes[idx] = cur - 1;
            }
            let _removed = self.tokens.remove(toggle_idx);
            proof {
                let pre = *old(self);
                assert(self.tokens@ == pre.tokens@.remove(toggle_idx as int));
                assert(pre.toggled_off(*self, voter, target, sbv, toggle_idx as int));
                lemma_wf_after_revoke(pre, *self, toggle_idx as int, target);
            }
            return Ok(CastOutcome::ToggledOff);
        }

        assert(self.no_vote_for(voter, sbv, target));

        let mut evicted = false;
        let ghost evict_i: int = oldest_idx as int;
        let ghost pre = *old(self);
        let ghost mid_expected = *self;
        if voter_count >= VOTE_CAPACITY {
            proof {
                assert(oldest_idx < n) by {
                    if oldest_idx == n {
                        lemma_count_none(self.tokens@, is_voter(voter));
                    }
                }
            }
            if self.tokens[oldest_idx].restored {
                if oldest_val >= 1 && (oldest_val as u64) <= (ncand as u64) {
                    let evi: usize = (oldest_val - 1) as usize;
                    if self.carried[evi] > 0 {
                        proof {
                            assert(self.poll.votes@[oldest_val - 1] == self.carried@[oldest_val
                                - 1] + count_where(
                                self.tokens@,
                                is_counted_choice(oldest_val as int),
                            ));
                            lemma_count_bounds(
                                self.tokens@,
                                is_counted_choice(oldest_val as int),
                            );
                        }
                        let cur = self.poll.votes[evi];
                        self.poll.votes[evi] = cur - 1;
                        let curc = self.carried[evi];
                        self.carried[evi] = curc - 1;
                    }
                }
            } else {
                proof {
                    lemma_count_found(
                        self.tokens@,
                        is_counted_choice(oldest_val as int),
                        oldest_idx as int,
                    );
                }
                let evi: usize = (oldest_val - 1) as usize;
                let cur = self.poll.votes[evi];
                self.poll.votes[evi] = cur - 1;
            }
            self.tokens.remove(oldest_idx);
            evicted = true;
            proof {
                let t = pre.tokens@[evict_i];
                let mid = tallies_after_revoke(pre.poll.votes@, pre.carried@, t.restored, oldest_val);
                assert(self.poll.votes@ == mid.0 && self.carried@ == mid.1);
            }
        }

        let pt = crate::poll_token::PollToken::new(
            self.nonce_seed.clone(),
            self.poll.key.clone(),
            session_secret,
            target,
            voter,
            interaction,
        );
        self.tokens.push(pt);
        let idx: usize = (target - 1) as usize;
        proof {
            lemma_count_bounds(self.tokens@, is_counted_choice(target as int));
        }
        let cur = self.poll.votes[idx];
        self.poll.votes[idx] = cur + 1;
        proof {
            if evicted {
                assert(pre.cast_evicting(*self, voter, target, sbv, interaction, evict_i, oldest_val));
                lemma_cast_wf_after_evict(
                    pre,
                    *self,
                    voter,
                    target,
                    sbv,
                    interaction,
                    evict_i,
                    oldest_val,
                );
            } else {
                assert(pre.cast_plain(*self, voter, target, sbv, interaction));
                lemma_cast_wf_plain(pre, *self, voter, target, sbv, interaction);
            }
        }
        Ok(CastOutcome::CastNew)
    }
}

/// After revoking the token at `i`, whose vote reads `c`, the ledger
/// is well-formed again.
proof fn lemma_wf_after_revoke(pre: VoteLedger, post: VoteLedger, i: int, c: i64)
    requires
        pre.wf(),
        0 <= i < pre.tokens@.len(),
        1 <= c <= pre.poll.candidates@.len() || pre.tokens@[i].restored,
        !pre.tokens@[i].restored ==> pre.tokens@[i].choice@ == c,
        post.tokens@ == pre.tokens@.remove(i),
        post.poll.votes@ == tallies_after_revoke(
            pre.poll.votes@,
            pre.carried@,
            pre.tokens@[i].restored,
            c,
        ).0,
        post.carried@ == tallies_after_revoke(
            pre.poll.votes@,
            pre.carried@,
            pre.tokens@[i].restored,
            c,
        ).1,
        post.poll.candidates == pre.poll.candidates,
        post.poll.key == pre.poll.key,
        post.nonce_seed == pre.nonce_seed,
    ensures
        post.wf(),
{
    let s = pre.tokens@;
    let t = s[i];
    if !t.restored {
        lemma_count_found(s, is_counted_choice(c as int), i);
        assert(pre.poll.votes@[c - 1] == pre.carried@[c - 1] + count_where(
            s,
            is_counted_choice(c as int),
        ));
        assert(pre.poll.votes@[c - 1] >= 1);
    } else if 1 <= c <= pre.poll.candidates@.len() && pre.carried@[c - 1] > 0 {
        lemma_count_bounds(s, is_counted_choice(c as int));
        assert(pre.poll.votes@[c - 1] == pre.carried@[c - 1] + count_where(
            s,
            is_counted_choice(c as int),
        ));
        assert(pre.poll.votes@[c - 1] >= 1);
    }
    assert forall|cc: int|
        1 <= cc <= post.poll.candidates@.len() implies post.poll.votes@[cc - 1]
        == post.carried@[cc - 1] + #[trigger] count_where(
        post.tokens@,
        is_counted_choice(cc),
    ) by {
        lemma_count_remove(s, is_counted_choice(cc), i);
        assert(pre.poll.votes@[cc - 1] == pre.carried@[cc - 1] + count_where(
            s,
            is_counted_choice(cc),
        ));
        if !t.restored {
            assert(is_counted_choice(cc)(t) <==> cc == t.choice@);
        } else {
            assert(!(is_counted_choice(cc)(t)));
        }
    }
    assert forall|v: i64| #[trigger] count_where(post.tokens@, is_voter(v))
        <= VOTE_CAPACITY by {
        lemma_count_remove(s, is_voter(v), i);
        lemma_count_bounds(s, is_voter(v));
    }
    assert forall|k: int|
        0 <= k < post.tokens@.len() && !(#[trigger] post.tokens@[k]).restored implies post.token_ok(
        post.tokens@[k],
    ) by {
        if k < i {
            assert(post.tokens@[k] == s[k]);
        } else {
            assert(post.tokens@[k] == s[k + 1]);
        }
        assert(pre.token_ok(post.tokens@[k]));
    }
}

proof fn lemma_cast_wf_plain(
    pre: VoteLedger,
    post: VoteLedger,
    voter: i64,
    target: i64,
    sb: Seq<u8>,
    interaction: i64,
)
    requires
        pre.wf(),
        1 <= target <= pre.poll.candidates@.len(),
        sb.len() == KEY_HALF_LEN,
        pre.poll.votes@[target - 1] < u64::MAX,
        pre.cast_plain(post, voter, target, sb, interaction),
        post.poll.candidates == pre.poll.candidates,
        post.poll.key == pre.poll.key,
        post.nonce_seed == pre.nonce_seed,
    ensures
        post.wf(),
{
    let s = pre.tokens@;
    let t = post.tokens@.last();
    assert forall|c: int|
        1 <= c <= post.poll.candidates@.len() implies post.poll.votes@[c - 1] == post.carried@[c
        - 1] + #[trigger] count_where(post.tokens@, is_counted_choice(c)) by {
        lemma_count_push(s, is_counted_choice(c), t);
    }
    assert forall|v: i64| #[trigger] count_where(post.tokens@, is_voter(v))
        <= VOTE_CAPACITY by {
        lemma_count_push(s, is_voter(v), t);
    }
    assert forall|k: int|
        0 <= k < post.tokens@.len() && !(#[trigger] post.tokens@[k]).restored implies post.token_ok(
        post.tokens@[k],
    ) by {
        if k < post.tokens@.len() - 1 {
            assert(post.tokens@[k] == s[k]);
            assert(pre.token_ok(s[k]));
        }
    }
}

proof fn lemma_cast_wf_after_evict(
    pre: VoteLedger,
    post: VoteLedger,
    voter: i64,
    target: i64,
    sb: Seq<u8>,
    interaction: i64,
    i: int,
    ev: i64,
)
    requires
        pre.wf(),
        1 <= target <= pre.poll.candidates@.len(),
        sb.len() == KEY_HALF_LEN,
        pre.poll.votes@[target - 1] < u64::MAX,
        pre.cast_evicting(post, voter, target, sb, interaction, i, ev),
        post.poll.candidates == pre.poll.candidates,
        post.poll.key == pre.poll.key,
        post.nonce_seed == pre.nonce_seed,
    ensures
        post.wf(),
{
    let s = pre.tokens@;
    let evicted = s[i];
    let after = s.remove(i);
    let t = post.tokens@.last();
    let mid = tallies_after_revoke(pre.poll.votes@, pre.carried@, evicted.restored, ev);
    if !evicted.restored {
        lemma_count_found(s, is_counted_choice(ev as int), i);
        assert(pre.poll.votes@[ev - 1] == pre.carried@[ev - 1] + count_where(
            s,
            is_counted_choice(ev as int),
        ));
        assert(pre.poll.votes@[ev - 1] >= 1);
    } else if 1 <= ev <= pre.poll.candidates@.len() && pre.carried@[ev - 1] > 0 {
        lemma_count_bounds(s, is_counted_choice(ev as int));
        assert(pre.poll.votes@[ev - 1] == pre.carried@[ev - 1] + count_where(
            s,
            is_counted_choice(ev as int),
        ));
        assert(pre.poll.votes@[ev - 1] >= 1);
    }
    assert forall|c: int|
        1 <= c <= post.poll.candidates@.len() implies post.poll.votes@[c - 1] == post.carried@[c
        - 1] + #[trigger] count_where(post.tokens@, is_counted_choice(c)) by {
        lemma_count_remove(s, is_counted_choice(c), i);
        lemma_count_push(after, is_counted_choice(c), t);
        assert(pre.poll.votes@[c - 1] == pre.carried@[c - 1] + count_where(
            s,
            is_counted_choice(c),
        ));
        if !evicted.restored {
            assert(is_counted_choice(c)(evicted) <==> c == evicted.choice@);
        } else {
            assert(!(is_counted_choice(c)(evicted)));
        }
        assert(is_counted_choice(c)(t) <==> c == target);
    }
    assert forall|v: i64| #[trigger] count_where(post.tokens@, is_voter(v))
        <= VOTE_CAPACITY by {
        lemma_count_remove(s, is_voter(v), i);
        lemma_count_push(after, is_voter(v), t);
        lemma_count_bounds(s, is_voter(v));
    }
    assert forall|k: int|
        0 <= k < post.tokens@.len() && !(#[trigger] post.tokens@[k]).restored implies post.token_ok(
        post.tokens@[k],
    ) by {
        if k < post.tokens@.len() - 1 {
            if k < i {
                assert(post.tokens@[k] == s[k]);
            } else {
                assert(post.tokens@[k] == s[k + 1]);
            }
            assert(pre.token_ok(post.tokens@[k]));
        }
    }
}

/// The candidate numbers of the voter's minted tokens sealed under
/// `sb`, in storage order.
pub open spec fn mine_seq(tokens: Seq<PollToken>, voter: i64, sb: Seq<u8>) -> Seq<i64>
    decreases tokens.len(),
{
    if tokens.len() == 0 {
        Seq::empty()
    } else {
        mine_seq(tokens.drop_last(), voter, sb) + if is_mine(voter, sb)(tokens.last()) {
            seq![tokens.last().choice@]
        } else {
            Seq::<i64>::empty()
        }
    }
}

/// What a decode pass over the voter's tokens may report: a minted
/// token sealed under `sb` contributes its recorded vote, a minted
/// token of another session contributes nothing, and each restored
/// token either contributes a number its ciphertext decodes to under
/// `sb`, or, failing to decode, contributes nothing.
pub open spec fn mine_reading(
    tokens: Seq<PollToken>,
    voter: i64,
    pb: Seq<u8>,
    sb: Seq<u8>,
    seed: Seq<char>,
    out: Seq<i64>,
) -> bool
    decreases tokens.len(),
{
    if tokens.len() == 0 {
        out.len() == 0
    } else {
        let t = tokens.last();
        if t.user_id != voter {
            mine_reading(tokens.drop_last(), voter, pb, sb, seed, out)
        } else if !t.restored {
            if t.session@ == sb {
                out.len() > 0 && out.last() == t.choice@ && mine_reading(
                    tokens.drop_last(),
                    voter,
                    pb,
                    sb,
                    seed,
                    out.drop_last(),
                )
            } else {
                mine_reading(tokens.drop_last(), voter, pb, sb, seed, out)
            }
        } else {
            (out.len() > 0 && decodes_to(t.token@, pb, sb, seed, out.last()) && mine_reading(
                tokens.drop_last(),
                voter,
                pb,
                sb,
                seed,
                out.drop_last(),
            )) || mine_reading(tokens.drop_last(), voter, pb, sb, seed, out)
        }
    }
}

/// The tokens that are not the voter's current-session minted tokens,
/// in storage order: what a clear leaves of a ledger without restored
/// tokens of this voter.
pub open spec fn drop_mine(tokens: Seq<PollToken>, voter: i64, sb: Seq<u8>) -> Seq<PollToken>
    decreases tokens.len(),
{
    if tokens.len() == 0 {
        Seq::empty()
    } else {
        drop_mine(tokens.drop_last(), voter, sb) + if is_mine(voter, sb)(tokens.last()) {
            Seq::<PollToken>::empty()
        } else {
            seq![tokens.last()]
        }
    }
}

proof fn lemma_mine_seq_step(s: Seq<PollToken>, voter: i64, sb: Seq<u8>, k: int)
    requires
        0 <= k < s.len(),
    ensures
        mine_seq(s.take(k + 1), voter, sb) == mine_seq(s.take(k), voter, sb) + if is_mine(
            voter,
            sb,
        )(s[k]) {
            seq![s[k].choice@]
        } else {
            Seq::<i64>::empty()
        },
{
    assert(s.take(k + 1).drop_last() =~= s.take(k));
    assert(s.take(k + 1).last() == s[k]);
}

proof fn lemma_drop_mine_step(s: Seq<PollToken>, voter: i64, sb: Seq<u8>, k: int)
    requires
        0 <= k < s.len(),
    ensures
        drop_mine(s.take(k + 1), voter, sb) == drop_mine(s.take(k), voter, sb) + if is_mine(
            voter,
            sb,
        )(s[k]) {
            Seq::<PollToken>::empty()
        } else {
            seq![s[k]]
        },
{
    assert(s.take(k + 1).drop_last() =~= s.take(k));
    assert(s.take(k + 1).last() == s[k]);
}

impl VoteLedger {
    /// Decodes every live token of the voter under the offered session
    /// secret and reports, in storage order, the candidate numbers of
    /// those that decode; tokens that do not decode are silently
    /// skipped. An empty result is a valid "no current vote" answer; a
    /// secret that is not well-formed key material decodes nothing.
    /// For a voter with no restored tokens the result is exactly the
    /// votes of their current-session tokens; restored tokens report
    /// whatever their ciphertexts decode to under the offered secret.
    #[verifier::loop_isolation(false)]
    pub fn check_mine(&self, voter: i64, session_secret: String) -> (r: Vec<i64>)
        requires
            self.wf(),
        ensures
            !valid_key_hex(session_secret@) ==> r@.len() == 0,
            valid_key_hex(session_secret@) ==> mine_reading(
                self.tokens@,
                voter,
                key_bytes_of(self.poll.key@),
                key_bytes_of(session_secret@),
                self.nonce_seed@,
                r@,
            ),
            valid_key_hex(session_secret@) && !self.has_restored_for(voter) ==> r@ == mine_seq(
                self.tokens@,
                voter,
                key_bytes_of(session_secret@),
            ),
    {
        let ghost pbv = key_bytes_of(self.poll.key@);
        let ghost sbv = if valid_key_hex(session_secret@) {
            key_bytes_of(session_secret@)
        } else {
            Seq::<u8>::empty()
        };
        let n = self.tokens.len();
        let mut r: Vec<i64> = Vec::new();
        let mut i: usize = 0;
        while i < n
            invariant
                i <= n,
                !valid_key_hex(session_secret@) ==> r@.len() == 0,
                valid_key_hex(session_secret@) ==> mine_reading(
                    self.tokens@.take(i as int),
                    voter,
                    pbv,
                    sbv,
                    self.nonce_seed@,
                    r@,
                ),
                (valid_key_hex(session_secret@) && forall|k: int|
                    0 <= k < i && (#[trigger] self.tokens@[k]).user_id == voter
                        ==> !self.tokens@[k].restored) ==> r@ == mine_seq(
                    self.tokens@.take(i as int),
                    voter,
                    sbv,
                ),
            decreases n - i,
        {
            let ghost pre_r = r@;
            proof {
                assert(self.tokens@.take(i + 1).drop_last() =~= self.tokens@.take(i as int));
                assert(self.tokens@.take(i + 1).last() == self.tokens@[i as int]);
                if valid_key_hex(session_secret@) {
                    lemma_mine_seq_step(self.tokens@, voter, sbv, i as int);
                }
            }
            if self.tokens[i].user_id == voter {
                let d = self.tokens[i].decrypt(
                    self.nonce_seed.clone(),
                    self.poll.key.clone(),
                    session_secret.clone(),
                );
                match d {
                    Ok(v) => {
                        proof {
                            let t = self.tokens@[i as int];
                            assert(valid_key_hex(session_secret@));
                            if !t.restored {
                                assert(self.token_ok(t));
                                assert(t.choice@ == v && t.session@ == sbv);
                            } else {
                                assert(decodes_to(t.token@, pbv, sbv, self.nonce_seed@, v));
                            }
                        }
                        r.push(v);
                        proof {
                            assert(r@.drop_last() =~= pre_r);
                            assert(mine_reading(
                                self.tokens@.take(i + 1),
                                voter,
                                pbv,
                                sbv,
                                self.nonce_seed@,
                                r@,
                            ));
                        }
                    },
                    Err(_) => {
                        proof {
                            let t = self.tokens@[i as int];
                            if !t.restored {
                                assert(self.token_ok(t));
                                if valid_key_hex(session_secret@) && t.session@ == sbv {
                                    assert(t.token@ == spec_encode(
                                        t.choice@ as int,
                                        pbv,
                                        sbv,
                                        self.nonce_seed@,
                                    ));
                                    assert(false);
                                }
                            }
                        }
                    },
                }
            }
            i = i + 1;
        }
        proof {
            assert(self.tokens@.take(n as int) =~= self.tokens@);
            if !self.has_restored_for(voter) {
                assert(forall|k: int|
                    0 <= k < n && (#[trigger] self.tokens@[k]).user_id == voter
                        ==> !self.tokens@[k].restored);
            }
        }
        r
    }

    /// Revokes every live token of the voter that decodes under the
    /// offered session secret: each such token is removed and the
    /// decoded candidate's tally given back — directly for a minted
    /// token, through the carried baseline (guarded against underflow)
    /// for a restored one. Returns how many were revoked. Tokens that
    /// do not decode stay in place, as do other voters' tokens; a
    /// secret that is not well-formed key material revokes nothing.
    #[verifier::loop_isolation(false)]
    pub fn clear_all(&mut self, voter: i64, session_secret: String) -> (n: usize)
        requires
            old(self).wf(),
        ensures
            final(self).wf(),
            final(self).poll.candidates@ == old(self).poll.candidates@,
            final(self).poll.key@ == old(self).poll.key@,
            final(self).poll.start == old(self).poll.start,
            final(self).poll.end == old(self).poll.end,
            final(self).nonce_seed@ == old(self).nonce_seed@,
            !valid_key_hex(session_secret@) ==> *final(self) == *old(self) && n == 0,
            valid_key_hex(session_secret@) ==> count_where(
                final(self).tokens@,
                is_mine(voter, key_bytes_of(session_secret@)),
            ) == 0,
            valid_key_hex(session_secret@) ==> forall|j: int|
                0 <= j < old(self).poll.votes@.len() ==> #[trigger] final(self).poll.votes@[j]
                    <= old(self).poll.votes@[j],
            valid_key_hex(session_secret@) && !old(self).has_restored_for(voter) ==> {
                let sb = key_bytes_of(session_secret@);
                &&& final(self).tokens@ == drop_mine(old(self).tokens@, voter, sb)
                &&& n == count_where(old(self).tokens@, is_mine(voter, sb))
                &&& (forall|c: int|
                    1 <= c <= old(self).poll.candidates@.len()
                        ==> final(self).poll.votes@[c - 1] == old(self).poll.votes@[c - 1]
                        - #[trigger] count_where(
                        old(self).tokens@,
                        is_mine_choice(voter, sb, c),
                    ))
                &&& final(self).carried@ == old(self).carried@
            },
    {
        let ncand = self.poll.candidates.len();
        let sb_vec = match hex_decode(session_secret.as_str()) {
            Some(b) => b,
            None => {
                return 0;
            },
        };
        if sb_vec.len() != KEY_HALF_LEN {
            return 0;
        }
        let ghost sbv = sb_vec@;
        assert(valid_key_hex(session_secret@) && key_bytes_of(session_secret@) == sbv);
        let ghost pbv = key_bytes_of(self.poll.key@);

        let ghost orig = self.tokens@;
        let total = self.tokens.len();
        let mut kept: Vec<PollToken> = Vec::new();
        let mut cnt: usize = 0;
        let ghost k: int = 0;
        while self.tokens.len() > 0
            invariant
                0 <= k <= orig.len(),
                self.tokens@ == orig.skip(k),
                self.poll.candidates == old(self).poll.candidates,
                self.poll.key == old(self).poll.key,
                self.poll.start == old(self).poll.start,
                self.poll.end == old(self).poll.end,
                self.poll.votes@.len() == old(self).poll.votes@.len(),
                self.carried@.len() == old(self).carried@.len(),
                self.nonce_seed == old(self).nonce_seed,
                forall|c: int|
                    1 <= c <= ncand ==> self.poll.votes@[c - 1] == self.carried@[c - 1]
                        + #[trigger] count_where(kept@ + self.tokens@, is_counted_choice(c)),
                forall|w: i64| #[trigger] count_where(kept@ + self.tokens@, is_voter(w))
                    <= VOTE_CAPACITY,
                forall|j: int|
                    0 <= j < kept@.len() && !(#[trigger] kept@[j]).restored ==> old(
                        self,
                    ).token_ok(kept@[j]),
                forall|j: int| 0 <= j < kept@.len() ==> !(is_mine(voter, sbv)(#[trigger] kept@[j])),
                forall|j: int|
                    0 <= j < old(self).poll.votes@.len() ==> #[trigger] self.poll.votes@[j]
                        <= old(self).poll.votes@[j],
                cnt <= k,
                (forall|j: int|
                    0 <= j < k && (#[trigger] orig[j]).user_id == voter ==> !orig[j].restored)
                    ==> (kept@ == drop_mine(orig.take(k), voter, sbv) && cnt == count_where(
                    orig.take(k),
                    is_mine(voter, sbv),
                ) && (forall|c: int|
                    1 <= c <= ncand ==> self.poll.votes@[c - 1] == old(self).poll.votes@[c - 1]
                        - #[trigger] count_where(
                        orig.take(k),
                        is_mine_choice(voter, sbv, c),
                    )) && self.carried@ == old(self).carried@),
            decreases self.tokens@.len(),
        {
            let ghost pre_kept = kept@;
            let ghost pre_votes = self.poll.votes@;
            let ghost pre_carried = self.carried@;
            proof {
                assert(orig.skip(k)[0] == orig[k]);
                assert(orig.skip(k) =~= seq![orig[k]] + orig.skip(k + 1));
                assert(seq![orig[k]].drop_last() =~= Seq::<PollToken>::empty());
                lemma_drop_mine_step(orig, voter, sbv, k);
                lemma_count_push_take(orig, is_mine(voter, sbv), k);
            }
            let t = self.tokens.remove(0);
            proof {
                assert(self.tokens@ =~= orig.skip(k + 1));
                assert(t == orig[k]);
            }
            let mut removed = false;
            if t.user_id == voter {
                let d = t.decrypt(
                    self.nonce_seed.clone(),
                    self.poll.key.clone(),
                    session_secret.clone(),
                );
                match d {
                    Ok(v) => {
                        if t.restored {
                            proof {
                                assert(decodes_to(t.token@, pbv, sbv, self.nonce_seed@, v));
                            }
                            if v >= 1 && (v as u64) <= (ncand as u64) {
                                let idx: usize = (v - 1) as usize;
                                if self.carried[idx] > 0 {
                                    proof {
                                        lemma_count_concat(
                                            pre_kept,
                                            orig.skip(k),
                                            is_counted_choice(v as int),
                                        );
                                        lemma_count_bounds(
                                            pre_kept + orig.skip(k),
                                            is_counted_choice(v as int),
                                        );
                                        assert(self.poll.votes@[v - 1] >= 1);
                                    }
                                    let cur = self.poll.votes[idx];
                                    self.poll.votes[idx] = cur - 1;
                                    let curc = self.carried[idx];
                                    self.carried[idx] = curc - 1;
                                }
                            }
                        } else {
                            proof {
                                assert(old(self).token_ok(t));
                                assert(t.choice@ == v && t.session@ == sbv);
                                assert(is_mine(voter, sbv)(t));
                                assert(1 <= v <= ncand);
                                assert(is_counted_choice(v as int)(t));
                                lemma_count_concat(
                                    pre_kept,
                                    orig.skip(k),
                                    is_counted_choice(v as int),
                                );
                                lemma_count_found(orig.skip(k), is_counted_choice(v as int), 0);
                                lemma_count_bounds(pre_kept, is_counted_choice(v as int));
                                assert(self.poll.votes@[v - 1] >= 1);
                            }
                            let idx: usize = (v - 1) as usize;
                            let cur = self.poll.votes[idx];
                            self.poll.votes[idx] = cur - 1;
                        }
                        cnt = cnt + 1;
                        removed = true;
                    },
                    Err(_) => {
                        proof {
                            if !t.restored {
                                assert(old(self).token_ok(t));
                                if t.session@ == sbv {
                                    assert(t.token@ == spec_encode(
                                        t.choice@ as int,
                                        pbv,
                                        sbv,
                                        self.nonce_seed@,
                                    ));
                                    assert(false);
                                }
                            }
                            assert(!(is_mine(voter, sbv)(t)));
                        }
                    },
                }
            }
            if !removed {
                proof {
                    assert(!(is_mine(voter, sbv)(t)));
                }
                kept.push(t);
            }
            proof {
                assert(orig.skip(k) =~= seq![t] + orig.skip(k + 1));
                if removed {
                    assert(kept@ == pre_kept);
                } else {
                    assert(kept@ =~= pre_kept.push(t));
                }
                assert forall|c: int|
                    1 <= c <= ncand implies self.poll.votes@[c - 1] == self.carried@[c - 1]
                    + #[trigger] count_where(kept@ + self.tokens@, is_counted_choice(c)) by {
                    let f = is_counted_choice(c);
                    lemma_count_concat(pre_kept, orig.skip(k), f);
                    lemma_count_concat(seq![t], orig.skip(k + 1), f);
                    lemma_count_concat(kept@, self.tokens@, f);
                    assert(seq![t].drop_last() =~= Seq::<PollToken>::empty());
                    assert(count_where(Seq::<PollToken>::empty(), f) == 0);
                    assert(seq![t].last() == t);
                    assert(count_where(seq![t], f) == if f(t) {
                        1int
                    } else {
                        0int
                    });
                    if !removed {
                        lemma_count_push(pre_kept, f, t);
                    }
                    assert(pre_votes[c - 1] == pre_carried[c - 1] + count_where(
                        pre_kept + orig.skip(k),
                        f,
                    ));
                }
                assert forall|w: i64| #[trigger] count_where(kept@ + self.tokens@, is_voter(w))
                    <= VOTE_CAPACITY by {
                    let f = is_voter(w);
                    lemma_count_concat(pre_kept, orig.skip(k), f);
                    lemma_count_concat(seq![t], orig.skip(k + 1), f);
                    lemma_count_concat(kept@, self.tokens@, f);
                    assert(seq![t].drop_last() =~= Seq::<PollToken>::empty());
                    assert(count_where(Seq::<PollToken>::empty(), f) == 0);
                    assert(seq![t].last() == t);
                    assert(count_where(seq![t], f) == if f(t) {
                        1int
                    } else {
                        0int
                    });
                    if !removed {
                        lemma_count_push(pre_kept, f, t);
                    }
                    assert(count_where(pre_kept + orig.skip(k), f) <= VOTE_CAPACITY);
                    lemma_count_bounds(self.tokens@, f);
                }
                if forall|j: int|
                    0 <= j < k + 1 && (#[trigger] orig[j]).user_id == voter
                        ==> !orig[j].restored {
                    assert(forall|j: int|
                        0 <= j < k && (#[trigger] orig[j]).user_id == voter
                            ==> !orig[j].restored);
                    assert(t.user_id == voter ==> !t.restored);
                    assert forall|c: int|
                        1 <= c <= ncand implies self.poll.votes@[c - 1] == old(
                        self,
                    ).poll.votes@[c - 1] - #[trigger] count_where(
                        orig.take(k + 1),
                        is_mine_choice(voter, sbv, c),
                    ) by {
                        lemma_count_push_take(orig, is_mine_choice(voter, sbv, c), k);
                    }
                    assert(cnt == count_where(orig.take(k + 1), is_mine(voter, sbv)));
                    assert(kept@ == drop_mine(orig.take(k + 1), voter, sbv));
                    assert(self.carried@ == old(self).carried@);
                }
                k = k + 1;
            }
        }
        proof {
            assert(orig.skip(k) =~= Seq::<PollToken>::empty());
            assert(k == orig.len());
            assert(orig.take(k) =~= orig);
        }
        self.tokens = kept;
        proof {
            assert(final(self).tokens@ + Seq::<PollToken>::empty() =~= final(self).tokens@);
            assert forall|c: int|
                1 <= c <= ncand implies self.poll.votes@[c - 1] == self.carried@[c - 1]
                + #[trigger] count_where(self.tokens@, is_counted_choice(c)) by {
                assert(self.tokens@ =~= self.tokens@ + Seq::<PollToken>::empty());
                lemma_count_concat(self.tokens@, Seq::<PollToken>::empty(), is_counted_choice(c));
            }
            assert forall|w: i64| #[trigger] count_where(self.tokens@, is_voter(w))
                <= VOTE_CAPACITY by {
                lemma_count_concat(self.tokens@, Seq::<PollToken>::empty(), is_voter(w));
                assert(self.tokens@ + Seq::<PollToken>::empty() =~= self.tokens@);
            }
            lemma_count_none(self.tokens@, is_mine(voter, sbv));
            if !old(self).has_restored_for(voter) {
                assert(forall|j: int|
                    0 <= j < orig.len() && (#[trigger] orig[j]).user_id == voter
                        ==> !orig[j].restored);
            }
        }
        cnt
    }
}

/// Tally conservation: in a poll created in this process (zero
/// baseline), each candidate's tally equals the number of currently
/// live tokens sealing a vote for that candidate — and it stays so
/// after any sequence of cast, toggle and clear operations, since each
/// maintains the invariant and a created poll never acquires restored
/// tokens or a carried baseline.
pub proof fn lemma_tally_conservation(l: VoteLedger, c: int)
    requires
        l.wf(),
        l.carried_zero(),
        1 <= c <= l.poll.candidates@.len(),
    ensures
        l.poll.votes@[c - 1] == count_where(l.tokens@, is_counted_choice(c)),
{
}

/// Capacity: no voter ever holds more than `VOTE_CAPACITY` live vote
/// tokens in a well-formed ledger.
pub proof fn lemma_capacity(l: VoteLedger, v: i64)
    requires
        l.wf(),
    ensures
        count_where(l.tokens@, is_voter(v)) <= VOTE_CAPACITY,
{
}

/// A ledger with only restored tokens, within capacity, and its
/// tallies as the carried baseline is well-formed: what a resumed poll
/// starts from.
pub proof fn lemma_resume_wf(l: VoteLedger)
    requires
        l.poll.wf(),
        valid_seed(l.nonce_seed@),
        forall|i: int| 0 <= i < l.tokens@.len() ==> (#[trigger] l.tokens@[i]).restored,
        forall|v: i64| #[trigger] count_where(l.tokens@, is_voter(v)) <= VOTE_CAPACITY,
        l.carried@.len() == l.poll.candidates@.len(),
        forall|c: int| 0 <= c < l.carried@.len() ==> l.carried@[c] == l.poll.votes@[c],
    ensures
        l.wf(),
{
    assert forall|c: int|
        1 <= c <= l.poll.candidates@.len() implies l.poll.votes@[c - 1] == l.carried@[c - 1]
        + #[trigger] count_where(l.tokens@, is_counted_choice(c)) by {
        lemma_count_none(l.tokens@, is_counted_choice(c));
    }
}

} // verus!
