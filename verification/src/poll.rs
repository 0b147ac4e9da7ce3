//! The in-memory record of the active poll.

use vstd::prelude::*;

use crate::poll_token::{fresh_secret_hex, valid_key_hex};

verus! {

/// The active poll: the candidate names in their fixed order (candidate
/// number `i` names `candidates[i-1]`), the voting window as epoch
/// seconds, the poll-wide secret key half in hexadecimal, and the tally
/// vector, index-aligned with the candidates.
pub struct PollService {
    pub candidates: Vec<String>,
    pub start: i64,
    pub end: i64,
    pub key: String,
    pub votes: Vec<u64>,
}

impl PollService {
    /// Shape invariant: one tally per candidate, and a well-formed
    /// poll-wide key half.
    pub open spec fn wf(self) -> bool {
        &&& self.votes@.len() == self.candidates@.len()
        &&& valid_key_hex(self.key@)
    }

    /// A fresh poll over the given candidates and window: all tallies
    /// zero, and a fresh random poll-wide secret.
    pub fn new(candidates: Vec<String>, start: i64, end: i64) -> (r: PollService)
        ensures
            r.wf(),
            r.candidates@ == candidates@,
            r.start == start,
            r.end == end,
            r.votes@.len() == candidates@.len(),
            forall|i: int| 0 <= i < r.votes@.len() ==> r.votes@[i] == 0,
    {
        let n = candidates.len();
        let key = fresh_secret_hex();
        let votes = vec![0u64; n];
        PollService { candidates, start, end, key, votes }
    }
}

} // verus!
