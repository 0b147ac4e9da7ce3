//! The vote-token codec, exercised with the real cipher.

use pollcore::poll_token::{fresh_secret_hex, PollToken};

const SEED: &str = "electionv1";
const POLL_KEY: &str = "00112233445566778899aabbccddeeff";
const SESSION_1: &str = "000102030405060708090a0b0c0d0e0f";
const SESSION_2: &str = "f0e0d0c0b0a090807060504030201000";

fn mint(num: i64, voter: i64) -> PollToken {
    PollToken::new(
        SEED.to_string(),
        POLL_KEY.to_string(),
        SESSION_1.to_string(),
        num,
        voter,
        0,
    )
}

#[test]
fn round_trip_recovers_candidate() {
    for num in [1i64, 2, 3, 9, 42, 1000] {
        let t = mint(num, 7);
        let got = t.decrypt(SEED.to_string(), POLL_KEY.to_string(), SESSION_1.to_string());
        assert_eq!(got, Ok(num));
    }
}

#[test]
fn token_is_not_plaintext() {
    let t = mint(3, 7);
    // hex of an authenticated ciphertext: at least plaintext + 16-byte tag
    assert!(t.token.len() >= 2 * (1 + 16));
    assert!(t.token.chars().all(|c| c.is_ascii_hexdigit()));
    assert_ne!(t.token, "3");
}

#[test]
fn cross_session_rejected() {
    let t = mint(2, 7);
    let got = t.decrypt(SEED.to_string(), POLL_KEY.to_string(), SESSION_2.to_string());
    assert_eq!(got, Err(()));
}

#[test]
fn cross_poll_rejected() {
    let other_poll = "ffeeddccbbaa99887766554433221100";
    let t = mint(2, 7);
    let got = t.decrypt(SEED.to_string(), other_poll.to_string(), SESSION_1.to_string());
    assert_eq!(got, Err(()));
}

#[test]
fn tampered_token_rejected() {
    let t = mint(2, 7);
    let mut chars: Vec<char> = t.token.chars().collect();
    chars[0] = if chars[0] == '0' { '1' } else { '0' };
    let tampered: String = chars.into_iter().collect();
    let forged = PollToken::from_stored(tampered, 7, 0);
    let got = forged.decrypt(SEED.to_string(), POLL_KEY.to_string(), SESSION_1.to_string());
    assert_eq!(got, Err(()));
}

#[test]
fn malformed_session_secret_rejected() {
    let t = mint(1, 7);
    for bad in ["", "zz", "0011", "not hex at all", "00112233445566778899aabbccddeef"] {
        let got = t.decrypt(SEED.to_string(), POLL_KEY.to_string(), bad.to_string());
        assert_eq!(got, Err(()));
    }
}

#[test]
fn non_hex_token_rejected() {
    let forged = PollToken::from_stored("zzzz".to_string(), 7, 0);
    let got = forged.decrypt(SEED.to_string(), POLL_KEY.to_string(), SESSION_1.to_string());
    assert_eq!(got, Err(()));
}

#[test]
fn fresh_secret_is_sixteen_bytes_hex() {
    let s = fresh_secret_hex();
    assert_eq!(s.len(), 32);
    assert!(s.chars().all(|c| c.is_ascii_hexdigit()));
    let s2 = fresh_secret_hex();
    assert_ne!(s, s2);
}
