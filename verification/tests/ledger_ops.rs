//! The vote ledger: casting, toggling, capacity, session staleness.

use pollcore::ledger::{CastError, CastOutcome};
use pollcore::lifecycle::PollLifecycle;

const SEED: &str = "electionv1";
const S1: &str = "000102030405060708090a0b0c0d0e0f";
const S2: &str = "f0e0d0c0b0a090807060504030201000";

fn open_poll(names: &[&str]) -> PollLifecycle {
    let mut lc = PollLifecycle::new();
    let candidates: Vec<String> = names.iter().map(|s| s.to_string()).collect();
    lc.create(candidates, 1, 0, SEED.to_string()).expect("poll opens");
    lc
}

#[test]
fn cast_toggle_cast_scenario() {
    let mut lc = open_poll(&["A", "B"]);
    let r = lc.ledger.cast_or_toggle(1, 7, S1.to_string(), 0);
    assert_eq!(r, Ok(CastOutcome::CastNew));
    assert_eq!(lc.ledger.poll.votes, vec![1, 0]);

    let r = lc.ledger.cast_or_toggle(1, 7, S1.to_string(), 0);
    assert_eq!(r, Ok(CastOutcome::ToggledOff));
    assert_eq!(lc.ledger.poll.votes, vec![0, 0]);

    let r = lc.ledger.cast_or_toggle(2, 7, S1.to_string(), 0);
    assert_eq!(r, Ok(CastOutcome::CastNew));
    assert_eq!(lc.ledger.poll.votes, vec![0, 1]);
}

#[test]
fn out_of_range_candidate_is_refused() {
    let mut lc = open_poll(&["A", "B"]);
    assert_eq!(
        lc.ledger.cast_or_toggle(0, 7, S1.to_string(), 0),
        Err(CastError::InvalidCandidate)
    );
    assert_eq!(
        lc.ledger.cast_or_toggle(3, 7, S1.to_string(), 0),
        Err(CastError::InvalidCandidate)
    );
    assert_eq!(
        lc.ledger.cast_or_toggle(-5, 7, S1.to_string(), 0),
        Err(CastError::InvalidCandidate)
    );
    assert_eq!(lc.ledger.poll.votes, vec![0, 0]);
}

#[test]
fn capacity_evicts_oldest() {
    let mut lc = open_poll(&["A", "B", "C", "D"]);
    for target in 1..=3 {
        let r = lc.ledger.cast_or_toggle(target, 9, S1.to_string(), 0);
        assert_eq!(r, Ok(CastOutcome::CastNew));
    }
    assert_eq!(lc.ledger.poll.votes, vec![1, 1, 1, 0]);

    // a fourth distinct vote: the oldest (candidate 1) is evicted
    let r = lc.ledger.cast_or_toggle(4, 9, S1.to_string(), 0);
    assert_eq!(r, Ok(CastOutcome::CastNew));
    assert_eq!(lc.ledger.poll.votes, vec![0, 1, 1, 1]);

    let mine = lc.ledger.check_mine(9, S1.to_string());
    assert_eq!(mine, vec![2, 3, 4]);
}

#[test]
fn stale_session_is_refused_whole() {
    let mut lc = open_poll(&["A", "B"]);
    lc.ledger.cast_or_toggle(1, 7, S1.to_string(), 0).expect("first cast");

    // a click from an older menu: refused, nothing changes
    let r = lc.ledger.cast_or_toggle(2, 7, S2.to_string(), 0);
    assert_eq!(r, Err(CastError::StaleSession));
    assert_eq!(lc.ledger.poll.votes, vec![1, 0]);

    // a malformed session secret is as stale as a wrong one
    let r = lc.ledger.cast_or_toggle(2, 7, "nothex".to_string(), 0);
    assert_eq!(r, Err(CastError::StaleSession));

    // another voter is not affected by the first voter's tokens
    let r = lc.ledger.cast_or_toggle(2, 8, S2.to_string(), 0);
    assert_eq!(r, Ok(CastOutcome::CastNew));
    assert_eq!(lc.ledger.poll.votes, vec![1, 1]);
}

#[test]
fn check_mine_sees_only_this_session() {
    let mut lc = open_poll(&["A", "B", "C"]);
    lc.ledger.cast_or_toggle(2, 7, S1.to_string(), 0).expect("cast");
    assert_eq!(lc.ledger.check_mine(7, S1.to_string()), vec![2]);
    assert_eq!(lc.ledger.check_mine(7, S2.to_string()), Vec::<i64>::new());
    assert_eq!(lc.ledger.check_mine(8, S1.to_string()), Vec::<i64>::new());
    assert_eq!(lc.ledger.check_mine(7, "bad".to_string()), Vec::<i64>::new());
}

#[test]
fn clear_all_revokes_every_current_vote() {
    let mut lc = open_poll(&["A", "B", "C", "D"]);
    for target in [1, 2, 3] {
        lc.ledger.cast_or_toggle(target, 9, S1.to_string(), 0).expect("cast");
    }
    lc.ledger.cast_or_toggle(4, 10, S1.to_string(), 0).expect("other voter");
    assert_eq!(lc.ledger.poll.votes, vec![1, 1, 1, 1]);

    // a stale or malformed secret clears nothing
    assert_eq!(lc.ledger.clear_all(9, S2.to_string()), 0);
    assert_eq!(lc.ledger.clear_all(9, "xyz".to_string()), 0);
    assert_eq!(lc.ledger.poll.votes, vec![1, 1, 1, 1]);

    let cleared = lc.ledger.clear_all(9, S1.to_string());
    assert_eq!(cleared, 3);
    assert_eq!(lc.ledger.poll.votes, vec![0, 0, 0, 1]);
    assert_eq!(lc.ledger.check_mine(9, S1.to_string()), Vec::<i64>::new());

    // the other voter's vote survived
    assert_eq!(lc.ledger.check_mine(10, S1.to_string()), vec![4]);
}

#[test]
fn toggle_then_recast_keeps_tally_conserved() {
    let mut lc = open_poll(&["A", "B"]);
    for _ in 0..3 {
        assert_eq!(
            lc.ledger.cast_or_toggle(1, 7, S1.to_string(), 0),
            Ok(CastOutcome::CastNew)
        );
        assert_eq!(lc.ledger.poll.votes, vec![1, 0]);
        assert_eq!(
            lc.ledger.cast_or_toggle(1, 7, S1.to_string(), 0),
            Ok(CastOutcome::ToggledOff)
        );
        assert_eq!(lc.ledger.poll.votes, vec![0, 0]);
    }
}

#[test]
fn tallies_equal_live_tokens_after_mixed_operations() {
    let mut lc = open_poll(&["A", "B", "C"]);
    lc.ledger.cast_or_toggle(1, 1, S1.to_string(), 0).expect("cast");
    lc.ledger.cast_or_toggle(2, 1, S1.to_string(), 0).expect("cast");
    lc.ledger.cast_or_toggle(2, 2, S1.to_string(), 0).expect("cast");
    lc.ledger.cast_or_toggle(2, 1, S1.to_string(), 0).expect("toggle off");
    lc.ledger.cast_or_toggle(3, 3, S1.to_string(), 0).expect("cast");
    lc.ledger.clear_all(2, S1.to_string());
    lc.ledger.cast_or_toggle(1, 2, S1.to_string(), 0).expect("cast");

    // conservation: every tally entry counts exactly the live tokens
    // sealing a vote for that candidate
    let total: u64 = lc.ledger.poll.votes.iter().sum();
    assert_eq!(total as usize, lc.ledger.tokens.len());
    let mut per_candidate = vec![0u64; 3];
    for voter in [1, 2, 3] {
        for c in lc.ledger.check_mine(voter, S1.to_string()) {
            per_candidate[(c - 1) as usize] += 1;
        }
    }
    assert_eq!(per_candidate, lc.ledger.poll.votes);
    assert_eq!(lc.ledger.poll.votes, vec![2, 0, 1]);
}
