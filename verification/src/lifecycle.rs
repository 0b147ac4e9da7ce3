//! The poll lifecycle state machine: Closed, until a poll is created;
//! Open while the voting window runs; Closed again once the poll is
//! closed with a final ranking and its records are purged. The ranking
//! lists every candidate, highest tally first; among equal tallies the
//! candidate with the larger number is reported first.

use vstd::prelude::*;

use crate::hexstr::hex_decode;
use crate::ledger::{count_where, is_voter, lemma_resume_wf, VoteLedger, VOTE_CAPACITY};
use crate::poll_token::PollToken;
use crate::poll::PollService;
use crate::poll_token::{valid_key_hex, valid_seed, KEY_HALF_LEN};

verus! {

/// One place of the final ranking: the candidate's number, name, and
/// final tally.
pub struct RankedCandidate {
    pub index: u64,
    pub name: String,
    pub votes: u64,
}

/// `a` may stand before `b` in the ranking: more votes, or equal votes
/// and the larger candidate number.
pub open spec fn ranked_le(a: RankedCandidate, b: RankedCandidate) -> bool {
    a.votes > b.votes || (a.votes == b.votes && a.index >= b.index)
}

/// Highest tally first; ties broken by the larger candidate number.
pub open spec fn sorted_ranking(s: Seq<RankedCandidate>) -> bool {
    forall|i: int, j: int| 0 <= i < j < s.len() ==> ranked_le(#[trigger] s[i], #[trigger] s[j])
}

/// The unsorted ranking entries of a poll: candidate `i+1` with its
/// name and current tally.
pub open spec fn tally_entries(candidates: Seq<String>, votes: Seq<u64>) -> Seq<RankedCandidate> {
    Seq::new(
        candidates.len(),
        |i: int|
            RankedCandidate { index: (i + 1) as u64, name: candidates[i], votes: votes[i] },
    )
}

fn comes_before(a: &RankedCandidate, b: &RankedCandidate) -> (r: bool)
    ensures
        r == ranked_le(*a, *b),
{
    a.votes > b.votes || (a.votes == b.votes && a.index >= b.index)
}

/// The final ranking of a poll: every candidate, sorted.
fn rank_candidates(poll: &PollService) -> (r: Vec<RankedCandidate>)
    requires
        poll.wf(),
    ensures
        sorted_ranking(r@),
        r@.to_multiset() == tally_entries(poll.candidates@, poll.votes@).to_multiset(),
        r@.len() == poll.candidates@.len(),
{
    broadcast use vstd::seq_lib::group_to_multiset_ensures;

    let ghost all = tally_entries(poll.candidates@, poll.votes@);
    let n = poll.candidates.len();
    let mut entries: Vec<RankedCandidate> = Vec::new();
    let mut i: usize = 0;
    while i < n
        invariant
            poll.wf(),
            n == poll.candidates@.len(),
            all == tally_entries(poll.candidates@, poll.votes@),
            i <= n,
            entries@ =~= all.take(i as int),
        decreases n - i,
    {
        let e = RankedCandidate {
            index: (i as u64) + 1,
            name: poll.candidates[i].clone(),
            votes: poll.votes[i],
        };
        entries.push(e);
        proof {
            assert(entries@ =~= all.take(i + 1));
        }
        i = i + 1;
    }
    proof {
        assert(all.take(n as int) =~= all);
    }

    let mut result: Vec<RankedCandidate> = Vec::new();
    while entries.len() > 0
        invariant
            sorted_ranking(result@),
            forall|a: int, b: int|
                0 <= a < result@.len() && 0 <= b < entries@.len() ==> ranked_le(
                    #[trigger] result@[a],
                    #[trigger] entries@[b],
                ),
            result@.to_multiset().add(entries@.to_multiset()) =~= all.to_multiset(),
            result@.len() + entries@.len() == n,
        decreases entries@.len(),
    {
        let m = entries.len();
        let mut best: usize = 0;
        let mut j: usize = 1;
        while j < m
            invariant
                m == entries@.len(),
                0 < m,
                best < m,
                j <= m,
                forall|k: int|
                    0 <= k < j ==> ranked_le(entries@[best as int], #[trigger] entries@[k]),
            decreases m - j,
        {
            if !comes_before(&entries[best], &entries[j]) {
                best = j;
            }
            j = j + 1;
        }
        let ghost pre_entries = entries@;
        let ghost pre_result = result@;
        let x = entries.remove(best);
        result.push(x);
        proof {
            pre_result.to_multiset_ensures();
            pre_entries.to_multiset_ensures();
            assert(pre_result.push(x).to_multiset() =~= pre_result.to_multiset().insert(x));
            assert(pre_entries.remove(best as int).to_multiset() =~= pre_entries.to_multiset()
                .remove(x));
            assert(pre_entries.to_multiset().count(x) > 0) by {
                pre_entries.to_multiset_ensures();
                assert(pre_entries[best as int] == x);
                assert(pre_entries.contains(x));
            }
            assert(result@.to_multiset().add(entries@.to_multiset()) =~= all.to_multiset());
            assert forall|a: int, b: int|
                0 <= a < result@.len() && 0 <= b < entries@.len() implies ranked_le(
                #[trigger] result@[a],
                #[trigger] entries@[b],
            ) by {
                if b < best {
                    assert(entries@[b] == pre_entries[b]);
                } else {
                    assert(entries@[b] == pre_entries[b + 1]);
                }
                if a < result@.len() - 1 {
                    assert(result@[a] == pre_result[a]);
                } else {
                    assert(result@[a] == x);
                }
            }
        }
    }
    result
}

/// Why creating a poll was refused, in the order checked: a poll is
/// already open; the candidate list is empty; the duration is not a
/// positive number of minutes.
#[derive(Debug, PartialEq, Eq, Structural, Clone, Copy)]
pub enum CreateError {
    AlreadyOpen,
    NoCandidates,
    InvalidDuration,
}

/// Closing was refused: no poll is open.
#[derive(Debug, PartialEq, Eq, Structural, Clone, Copy)]
pub enum CloseError {
    NotOpen,
}

/// Why resuming a persisted poll was refused: a poll is already open,
/// or the persisted record is malformed (tally count differing from
/// candidate count, or a bad poll key).
#[derive(Debug, PartialEq, Eq, Structural, Clone, Copy)]
pub enum ResumeError {
    AlreadyOpen,
    Malformed,
}

/// A vote-token row as it stands in the persistence service: the
/// ciphertext, the owning voter, and the producing interaction.
pub struct StoredVote {
    pub token: String,
    pub user_id: i64,
    pub msg_id: i64,
}

/// The number of stored rows owned by voter `v`.
pub open spec fn count_stored_for(s: Seq<StoredVote>, v: i64) -> int
    decreases s.len(),
{
    if s.len() == 0 {
        0
    } else {
        count_stored_for(s.drop_last(), v) + if s.last().user_id == v {
            1int
        } else {
            0int
        }
    }
}

/// No voter owns more stored rows than the ledger's capacity allows.
pub open spec fn stored_within_capacity(s: Seq<StoredVote>) -> bool {
    forall|v: i64| #[trigger] count_stored_for(s, v) <= VOTE_CAPACITY
}

proof fn lemma_count_stored_exists(s: Seq<StoredVote>, v: i64)
    requires
        count_stored_for(s, v) != 0,
    ensures
        exists|k: int| 0 <= k < s.len() && (#[trigger] s[k]).user_id == v,
    decreases s.len(),
{
    if s.len() > 0 {
        if s.last().user_id == v {
            assert((s[s.len() - 1]).user_id == v);
        } else {
            lemma_count_stored_exists(s.drop_last(), v);
            let k = choose|k: int|
                0 <= k < s.drop_last().len() && (#[trigger] s.drop_last()[k]).user_id == v;
            assert((s[k]).user_id == v);
        }
    }
}

/// Token rows and the tokens built from them count voters alike.
proof fn lemma_counts_align(toks: Seq<PollToken>, rows: Seq<StoredVote>, v: i64)
    requires
        toks.len() == rows.len(),
        forall|j: int| 0 <= j < toks.len() ==> (#[trigger] toks[j]).user_id == rows[j].user_id,
    ensures
        count_where(toks, is_voter(v)) == count_stored_for(rows, v),
    decreases toks.len(),
{
    if toks.len() > 0 {
        assert(forall|j: int|
            0 <= j < toks.drop_last().len() ==> (#[trigger] toks.drop_last()[j]).user_id
                == rows.drop_last()[j].user_id);
        lemma_counts_align(toks.drop_last(), rows.drop_last(), v);
        assert((toks[toks.len() - 1]).user_id == rows[rows.len() - 1].user_id);
    }
}

fn count_stored(rows: &Vec<StoredVote>, v: i64) -> (c: usize)
    ensures
        c == count_stored_for(rows@, v),
{
    let n = rows.len();
    let mut c: usize = 0;
    let mut i: usize = 0;
    while i < n
        invariant
            n == rows@.len(),
            i <= n,
            c == count_stored_for(rows@.take(i as int), v),
            c <= i,
        decreases n - i,
    {
        proof {
            assert(rows@.take(i + 1).drop_last() =~= rows@.take(i as int));
            assert(rows@.take(i + 1).last() == rows@[i as int]);
        }
        if rows[i].user_id == v {
            c = c + 1;
        }
        i = i + 1;
    }
    proof {
        assert(rows@.take(n as int) =~= rows@);
    }
    c
}

/// The lifecycle: whether a poll is open, and the ledger of the open
/// poll. While no poll is open the ledger is inert and carries no
/// guarantees; every transition re-establishes them on opening.
pub struct PollLifecycle {
    pub is_present: bool,
    pub ledger: VoteLedger,
}

impl PollLifecycle {
    /// While a poll is open, its ledger invariant holds.
    pub open spec fn wf(self) -> bool {
        self.is_present ==> self.ledger.wf()
    }

    /// The initial, closed state.
    pub fn new() -> (r: PollLifecycle)
        ensures
            r.wf(),
            !r.is_present,
    {
        let poll = PollService::new(Vec::new(), 0, 0);
        let ledger = VoteLedger::open_poll(poll, String::new());
        PollLifecycle { is_present: false, ledger }
    }

    /// Creates and opens a new poll. Checked in order: no poll may be
    /// open; the candidate list must be non-empty; the duration must
    /// be positive. On success the poll runs from `now` for that many
    /// minutes, with a fresh poll secret, all tallies zero and no live
    /// tokens.
    pub fn create(
        &mut self,
        candidates: Vec<String>,
        duration_minutes: i64,
        now: i64,
        nonce_seed: String,
    ) -> (r: Result<(), CreateError>)
        requires
            old(self).wf(),
            valid_seed(nonce_seed@),
            now >= 0,
            duration_minutes <= 0 || now + duration_minutes * 60 <= i64::MAX,
        ensures
            final(self).wf(),
            match r {
                Ok(_) => {
                    &&& !old(self).is_present
                    &&& candidates@.len() > 0
                    &&& duration_minutes > 0
                    &&& final(self).is_present
                    &&& final(self).ledger.wf()
                    &&& final(self).ledger.carried_zero()
                    &&& final(self).ledger.poll.candidates@ == candidates@
                    &&& final(self).ledger.poll.start == now
                    &&& final(self).ledger.poll.end == now + duration_minutes * 60
                    &&& final(self).ledger.tokens@.len() == 0
                    &&& forall|c: int|
                        0 <= c < candidates@.len() ==> final(self).ledger.poll.votes@[c] == 0
                    &&& final(self).ledger.nonce_seed@ == nonce_seed@
                },
                Err(CreateError::AlreadyOpen) => old(self).is_present && *final(self) == *old(
                    self,
                ),
                Err(CreateError::NoCandidates) => !old(self).is_present && candidates@.len() == 0
                    && *final(self) == *old(self),
                Err(CreateError::InvalidDuration) => !old(self).is_present && candidates@.len()
                    > 0 && duration_minutes <= 0 && *final(self) == *old(self),
            },
    {
        if self.is_present {
            return Err(CreateError::AlreadyOpen);
        }
        if candidates.len() == 0 {
            return Err(CreateError::NoCandidates);
        }
        if duration_minutes <= 0 {
            return Err(CreateError::InvalidDuration);
        }
        let end = now + duration_minutes * 60;
        let poll = PollService::new(candidates, now, end);
        let ledger = VoteLedger::open_poll(poll, nonce_seed);
        self.ledger = ledger;
        self.is_present = true;
        Ok(())
    }

    /// Closes the open poll: computes the final ranking — every
    /// candidate, highest tally first, ties broken by the larger
    /// candidate number — then purges the poll record, tallies and all
    /// live vote tokens, and returns to the closed state.
    pub fn close(&mut self) -> (r: Result<Vec<RankedCandidate>, CloseError>)
        requires
            old(self).wf(),
        ensures
            final(self).wf(),
            match r {
                Ok(ranking) => {
                    &&& old(self).is_present
                    &&& sorted_ranking(ranking@)
                    &&& ranking@.to_multiset() == tally_entries(
                        old(self).ledger.poll.candidates@,
                        old(self).ledger.poll.votes@,
                    ).to_multiset()
                    &&& ranking@.len() == old(self).ledger.poll.candidates@.len()
                    &&& !final(self).is_present
                    &&& final(self).ledger.tokens@.len() == 0
                    &&& final(self).ledger.poll.votes@.len() == 0
                    &&& final(self).ledger.poll.candidates@.len() == 0
                },
                Err(_) => !old(self).is_present && *final(self) == *old(self),
            },
    {
        if !self.is_present {
            return Err(CloseError::NotOpen);
        }
        let ranking = rank_candidates(&self.ledger.poll);
        self.is_present = false;
        self.ledger.tokens = Vec::new();
        self.ledger.poll.candidates = Vec::new();
        self.ledger.poll.votes = Vec::new();
        self.ledger.carried = Vec::new();
        Ok(ranking)
    }

    /// Resumes an open poll from its persisted record: the candidates,
    /// window, poll key, tallies and live vote tokens as stored. The
    /// restored tokens stay revocable: a voter who still holds a menu
    /// rendered before the restart can verify, toggle and clear the
    /// votes sealed in them, since the poll key is reloaded unchanged.
    /// What each restored token seals is unknown until such a click
    /// decodes it, so the stored tallies become the carried baseline
    /// that accounts for their votes. A record whose tally count,
    /// poll key, or per-voter token count is out of shape is refused.
    #[verifier::loop_isolation(false)]
    pub fn resume(
        &mut self,
        candidates: Vec<String>,
        start: i64,
        end: i64,
        key: String,
        votes: Vec<u64>,
        stored: Vec<StoredVote>,
        nonce_seed: String,
    ) -> (r: Result<(), ResumeError>)
        requires
            old(self).wf(),
            valid_seed(nonce_seed@),
        ensures
            final(self).wf(),
            match r {
                Ok(_) => {
                    &&& !old(self).is_present
                    &&& votes@.len() == candidates@.len()
                    &&& valid_key_hex(key@)
                    &&& stored_within_capacity(stored@)
                    &&& final(self).is_present
                    &&& final(self).ledger.wf()
                    &&& final(self).ledger.poll.candidates@ == candidates@
                    &&& final(self).ledger.poll.start == start
                    &&& final(self).ledger.poll.end == end
                    &&& final(self).ledger.poll.key@ == key@
                    &&& final(self).ledger.poll.votes@ == votes@
                    &&& final(self).ledger.tokens@.len() == stored@.len()
                    &&& forall|j: int|
                        0 <= j < stored@.len() ==> {
                            let t = #[trigger] final(self).ledger.tokens@[j];
                            t.restored && t.token@ == stored@[j].token@ && t.user_id
                                == stored@[j].user_id && t.msg_id == stored@[j].msg_id
                        }
                    &&& final(self).ledger.nonce_seed@ == nonce_seed@
                },
                Err(ResumeError::AlreadyOpen) => old(self).is_present && *final(self) == *old(
                    self,
                ),
                Err(ResumeError::Malformed) => !old(self).is_present && !(votes@.len()
                    == candidates@.len() && valid_key_hex(key@) && stored_within_capacity(
                    stored@,
                )) && *final(self) == *old(self),
            },
    {
        if self.is_present {
            return Err(ResumeError::AlreadyOpen);
        }
        if votes.len() != candidates.len() {
            return Err(ResumeError::Malformed);
        }
        let key_ok = match hex_decode(key.as_str()) {
            Some(b) => b.len() == KEY_HALF_LEN,
            None => false,
        };
        if !key_ok {
            return Err(ResumeError::Malformed);
        }
        let nrows = stored.len();
        let mut j: usize = 0;
        while j < nrows
            invariant
                nrows == stored@.len(),
                j <= nrows,
                forall|v: i64|
                    (exists|k: int|
                        0 <= k < j && (#[trigger] stored@[k]).user_id == v)
                        ==> count_stored_for(stored@, v) <= VOTE_CAPACITY,
            decreases nrows - j,
        {
            let c = count_stored(&stored, stored[j].user_id);
            if c > VOTE_CAPACITY {
                proof {
                    assert(!stored_within_capacity(stored@)) by {
                        assert(count_stored_for(stored@, stored@[j as int].user_id)
                            > VOTE_CAPACITY);
                    }
                }
                return Err(ResumeError::Malformed);
            }
            proof {
                assert forall|v: i64|
                    (exists|k: int|
                        0 <= k < j + 1 && (#[trigger] stored@[k]).user_id == v) implies
                    count_stored_for(stored@, v) <= VOTE_CAPACITY by {
                    let k = choose|k: int| 0 <= k < j + 1 && (#[trigger] stored@[k]).user_id == v;
                    if k == j {
                        assert(count_stored_for(stored@, stored@[j as int].user_id)
                            <= VOTE_CAPACITY);
                    }
                }
            }
            j = j + 1;
        }
        proof {
            assert forall|v: i64| #[trigger] count_stored_for(stored@, v)
                <= VOTE_CAPACITY by {
                if count_stored_for(stored@, v) > VOTE_CAPACITY {
                    lemma_count_stored_exists(stored@, v);
                }
            }
            assert(stored_within_capacity(stored@));
        }

        let mut toks: Vec<PollToken> = Vec::new();
        let mut i: usize = 0;
        while i < nrows
            invariant
                nrows == stored@.len(),
                i <= nrows,
                toks@.len() == i,
                forall|k: int|
                    0 <= k < i ==> {
                        let t = #[trigger] toks@[k];
                        t.restored && t.token@ == stored@[k].token@ && t.user_id
                            == stored@[k].user_id && t.msg_id == stored@[k].msg_id
                    },
            decreases nrows - i,
        {
            let row = &stored[i];
            toks.push(PollToken::from_stored(row.token.clone(), row.user_id, row.msg_id));
            i = i + 1;
        }

        let mut carried: Vec<u64> = Vec::new();
        let mut ci: usize = 0;
        while ci < votes.len()
            invariant
                ci <= votes@.len(),
                carried@.len() == ci,
                forall|k: int| 0 <= k < ci ==> carried@[k] == votes@[k],
            decreases votes@.len() - ci,
        {
            carried.push(votes[ci]);
            ci = ci + 1;
        }

        let ledger = VoteLedger {
            poll: PollService { candidates, start, end, key, votes },
            tokens: toks,
            nonce_seed,
            carried,
        };
        proof {
            assert forall|v: i64| #[trigger] count_where(ledger.tokens@, is_voter(v))
                <= VOTE_CAPACITY by {
                lemma_counts_align(ledger.tokens@, stored@, v);
            }
            lemma_resume_wf(ledger);
        }
        self.ledger = ledger;
        self.is_present = true;
        Ok(())
    }

    /// The externally driven end-of-window check: the caller closes
    /// the poll when this reports true.
    pub fn should_close(&self, now: i64) -> (r: bool)
        ensures
            r == (self.is_present && self.ledger.poll.end <= now),
    {
        self.is_present && self.ledger.poll.end <= now
    }
}


} // verus!
