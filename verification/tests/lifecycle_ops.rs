//! The poll lifecycle: creation, the close-time ranking, resumption.

use pollcore::config::Security;
use pollcore::ledger::{CastError, CastOutcome};
use pollcore::lifecycle::{CloseError, CreateError, PollLifecycle, ResumeError, StoredVote};

const SEED: &str = "electionv1";
const S1: &str = "000102030405060708090a0b0c0d0e0f";
const S2: &str = "f0e0d0c0b0a090807060504030201000";

fn names(list: &[&str]) -> Vec<String> {
    list.iter().map(|s| s.to_string()).collect()
}

#[test]
fn create_checks_in_order() {
    let mut lc = PollLifecycle::new();
    assert_eq!(
        lc.create(names(&[]), 1, 0, SEED.to_string()),
        Err(CreateError::NoCandidates)
    );
    assert_eq!(
        lc.create(names(&["A"]), 0, 0, SEED.to_string()),
        Err(CreateError::InvalidDuration)
    );
    assert_eq!(
        lc.create(names(&["A"]), -3, 0, SEED.to_string()),
        Err(CreateError::InvalidDuration)
    );
    assert_eq!(lc.create(names(&["A"]), 1, 0, SEED.to_string()), Ok(()));
    assert_eq!(
        lc.create(names(&["B"]), 1, 0, SEED.to_string()),
        Err(CreateError::AlreadyOpen)
    );
}

#[test]
fn create_sets_window_and_zero_tallies() {
    let mut lc = PollLifecycle::new();
    lc.create(names(&["A", "B"]), 5, 1000, SEED.to_string()).expect("opens");
    assert!(lc.is_present);
    assert_eq!(lc.ledger.poll.start, 1000);
    assert_eq!(lc.ledger.poll.end, 1000 + 5 * 60);
    assert_eq!(lc.ledger.poll.votes, vec![0, 0]);
    assert_eq!(lc.ledger.poll.key.len(), 32);
    assert!(!lc.should_close(1200));
    assert!(lc.should_close(1300));
}

#[test]
fn close_without_poll_is_refused() {
    let mut lc = PollLifecycle::new();
    assert!(matches!(lc.close(), Err(CloseError::NotOpen)));
}

#[test]
fn close_ranks_ties_by_larger_number_first() {
    let mut lc = PollLifecycle::new();
    lc.create(names(&["X", "Y", "Z"]), 1, 0, SEED.to_string()).expect("opens");

    // tallies [5, 9, 9]: one voter casts one vote each
    let mut voter = 0i64;
    for (target, count) in [(1i64, 5), (2i64, 9), (3i64, 9)] {
        for _ in 0..count {
            voter += 1;
            lc.ledger
                .cast_or_toggle(target, voter, S1.to_string(), 0)
                .expect("cast");
        }
    }
    assert_eq!(lc.ledger.poll.votes, vec![5, 9, 9]);

    let ranking = lc.close().expect("closes");
    let places: Vec<(u64, String, u64)> = ranking
        .iter()
        .map(|r| (r.index, r.name.clone(), r.votes))
        .collect();
    // equal tallies: the candidate with the larger number stands first
    assert_eq!(
        places,
        vec![
            (3, "Z".to_string(), 9),
            (2, "Y".to_string(), 9),
            (1, "X".to_string(), 5),
        ]
    );
    assert!(!lc.is_present);

    // everything is purged; a new poll can open
    assert_eq!(lc.create(names(&["A"]), 1, 0, SEED.to_string()), Ok(()));
}

#[test]
fn close_ranks_by_tally_descending() {
    let mut lc = PollLifecycle::new();
    lc.create(names(&["P", "Q", "R"]), 1, 0, SEED.to_string()).expect("opens");
    let mut voter = 0i64;
    for (target, count) in [(1i64, 2), (2i64, 4), (3i64, 1)] {
        for _ in 0..count {
            voter += 1;
            lc.ledger
                .cast_or_toggle(target, voter, S1.to_string(), 0)
                .expect("cast");
        }
    }
    let ranking = lc.close().expect("closes");
    let order: Vec<u64> = ranking.iter().map(|r| r.index).collect();
    assert_eq!(order, vec![2, 1, 3]);
}

#[test]
fn resume_restores_window_and_tallies() {
    let mut lc = PollLifecycle::new();
    let key = "00112233445566778899aabbccddeeff".to_string();
    lc.resume(names(&["A", "B"]), 10, 70, key.clone(), vec![4, 2], Vec::new(), SEED.to_string())
        .expect("resumes");
    assert!(lc.is_present);
    assert_eq!(lc.ledger.poll.votes, vec![4, 2]);
    assert_eq!(lc.ledger.poll.key, key);

    // votes cast after the restart count on top of the carried tallies
    lc.ledger.cast_or_toggle(2, 7, S1.to_string(), 0).expect("cast");
    assert_eq!(lc.ledger.poll.votes, vec![4, 3]);

    let ranking = lc.close().expect("closes");
    let order: Vec<u64> = ranking.iter().map(|r| r.index).collect();
    assert_eq!(order, vec![1, 2]);
}

#[test]
fn resume_rejects_malformed_records() {
    let mut lc = PollLifecycle::new();
    let key = "00112233445566778899aabbccddeeff".to_string();
    assert_eq!(
        lc.resume(names(&["A", "B"]), 0, 60, key.clone(), vec![1], Vec::new(), SEED.to_string()),
        Err(ResumeError::Malformed)
    );
    assert_eq!(
        lc.resume(
            names(&["A"]),
            0,
            60,
            "shortkey".to_string(),
            vec![0],
            Vec::new(),
            SEED.to_string()
        ),
        Err(ResumeError::Malformed)
    );
    // more stored tokens for one voter than the capacity allows
    let overfull: Vec<StoredVote> = (0..4)
        .map(|i| StoredVote { token: format!("{:02x}", i), user_id: 9, msg_id: 0 })
        .collect();
    assert_eq!(
        lc.resume(names(&["A"]), 0, 60, key.clone(), vec![0], overfull, SEED.to_string()),
        Err(ResumeError::Malformed)
    );
    lc.resume(names(&["A"]), 0, 60, key.clone(), vec![0], Vec::new(), SEED.to_string())
        .expect("resumes");
    assert_eq!(
        lc.resume(names(&["A"]), 0, 60, key, vec![0], Vec::new(), SEED.to_string()),
        Err(ResumeError::AlreadyOpen)
    );
}

#[test]
fn security_accepts_short_ascii_seeds_only() {
    assert!(Security::new("electionv1".to_string()).is_some());
    assert!(Security::new("".to_string()).is_some());
    assert!(Security::new("exactly12chr".to_string()).is_some());
    assert!(Security::new("thirteenchars".to_string()).is_none());
    assert!(Security::new("caf\u{e9}".to_string()).is_none());
}

#[test]
fn restart_keeps_votes_verifiable_and_revocable() {
    // first process: open a poll and cast votes
    let mut lc = PollLifecycle::new();
    lc.create(names(&["A", "B"]), 1, 0, SEED.to_string()).expect("opens");
    lc.ledger.cast_or_toggle(1, 7, S1.to_string(), 0).expect("cast");
    lc.ledger.cast_or_toggle(2, 8, S1.to_string(), 0).expect("cast");
    assert_eq!(lc.ledger.poll.votes, vec![1, 1]);

    // what the store would hold at the moment of the restart
    let key = lc.ledger.poll.key.clone();
    let votes = lc.ledger.poll.votes.clone();
    let rows: Vec<StoredVote> = lc
        .ledger
        .tokens
        .iter()
        .map(|t| StoredVote { token: t.token.clone(), user_id: t.user_id, msg_id: t.msg_id })
        .collect();

    // second process: resume from the store
    let mut lc2 = PollLifecycle::new();
    lc2.resume(names(&["A", "B"]), 0, 60, key, votes, rows, SEED.to_string())
        .expect("resumes");
    assert_eq!(lc2.ledger.poll.votes, vec![1, 1]);

    // a menu rendered before the restart still works: the voter can
    // verify the old vote...
    assert_eq!(lc2.ledger.check_mine(7, S1.to_string()), vec![1]);
    // ...a wrong or stale secret still cannot
    assert_eq!(lc2.ledger.check_mine(7, S2.to_string()), Vec::<i64>::new());
    assert_eq!(
        lc2.ledger.cast_or_toggle(2, 7, S2.to_string(), 0),
        Err(CastError::StaleSession)
    );

    // ...and toggle it off, giving the tally back
    assert_eq!(
        lc2.ledger.cast_or_toggle(1, 7, S1.to_string(), 0),
        Ok(CastOutcome::ToggledOff)
    );
    assert_eq!(lc2.ledger.poll.votes, vec![0, 1]);
    assert_eq!(lc2.ledger.check_mine(7, S1.to_string()), Vec::<i64>::new());

    // the other voter clears their restored vote
    assert_eq!(lc2.ledger.clear_all(8, S1.to_string()), 1);
    assert_eq!(lc2.ledger.poll.votes, vec![0, 0]);

    // and a fresh vote after the restart counts on its own
    lc2.ledger.cast_or_toggle(2, 7, S1.to_string(), 0).expect("cast");
    assert_eq!(lc2.ledger.poll.votes, vec![0, 1]);
}

#[test]
fn restart_capacity_spans_restored_tokens() {
    let mut lc = PollLifecycle::new();
    lc.create(names(&["A", "B", "C", "D"]), 1, 0, SEED.to_string()).expect("opens");
    for target in 1..=3 {
        lc.ledger.cast_or_toggle(target, 9, S1.to_string(), 0).expect("cast");
    }
    let key = lc.ledger.poll.key.clone();
    let votes = lc.ledger.poll.votes.clone();
    let rows: Vec<StoredVote> = lc
        .ledger
        .tokens
        .iter()
        .map(|t| StoredVote { token: t.token.clone(), user_id: t.user_id, msg_id: t.msg_id })
        .collect();

    let mut lc2 = PollLifecycle::new();
    lc2.resume(names(&["A", "B", "C", "D"]), 0, 60, key, votes, rows, SEED.to_string())
        .expect("resumes");

    // a fourth distinct vote with the pre-restart menu evicts the
    // voter's oldest restored vote
    assert_eq!(
        lc2.ledger.cast_or_toggle(4, 9, S1.to_string(), 0),
        Ok(CastOutcome::CastNew)
    );
    assert_eq!(lc2.ledger.poll.votes, vec![0, 1, 1, 1]);
    assert_eq!(lc2.ledger.tokens.len(), 3);
    assert_eq!(lc2.ledger.check_mine(9, S1.to_string()), vec![2, 3, 4]);
}
