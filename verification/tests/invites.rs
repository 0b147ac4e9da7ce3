//! The invite-code issuer and the onboarding registries.

use pollcore::roster::{redeem_invite, RedeemOutcome, Roster};
use pollcore::token_service::TokenService;

#[test]
fn consume_succeeds_exactly_once() {
    let mut svc = TokenService::new();
    let code = svc.gen().expect("fresh code");
    assert!(svc.remove(code.clone()));
    assert!(!svc.remove(code.clone()));
    assert!(!svc.remove(code));
}

#[test]
fn unknown_code_is_refused() {
    let mut svc = TokenService::new();
    assert!(!svc.remove("deadbeef".to_string()));
    let code = svc.gen().expect("fresh code");
    let mut other = code.clone();
    other.make_ascii_uppercase();
    assert!(!svc.remove(other));
    assert!(svc.remove(code));
}

#[test]
fn codes_are_digest_shaped_and_distinct() {
    let mut svc = TokenService::new();
    let a = svc.gen().expect("fresh code");
    let b = svc.gen().expect("fresh code");
    assert_eq!(a.len(), 64);
    assert_eq!(b.len(), 64);
    assert!(a.chars().all(|c| c.is_ascii_hexdigit()));
    assert_ne!(a, b);
    assert!(svc.remove(a));
    assert!(svc.remove(b));
}

#[test]
fn single_attempt_registers_code() {
    let mut svc = TokenService::new();
    let code = svc._gen().expect("no collision on an empty issuer");
    assert!(svc.remove(code));
}

#[test]
fn roster_membership() {
    let mut r = Roster::new();
    assert!(!r.contains(7));
    assert!(r.add(7));
    assert!(r.contains(7));
    assert!(!r.add(7));
    assert!(r.contains(7));
    assert!(!r.contains(8));
}

#[test]
fn redeem_accepts_once_and_registers() {
    let mut svc = TokenService::new();
    let mut admins = Roster::new();
    let code = svc.gen().expect("fresh code");

    let first = redeem_invite(&mut svc, &mut admins, 42, code.clone());
    assert_eq!(first, RedeemOutcome::Accepted);
    assert!(admins.contains(42));

    // the same identity again: refused before the code is even looked at
    let again = redeem_invite(&mut svc, &mut admins, 42, code.clone());
    assert_eq!(again, RedeemOutcome::AlreadyMember);

    // a second identity with the consumed code: refused, not registered
    let stale = redeem_invite(&mut svc, &mut admins, 43, code);
    assert_eq!(stale, RedeemOutcome::InvalidCode);
    assert!(!admins.contains(43));
}
