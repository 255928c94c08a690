use transcript_backend::Error;
use transcript_backend::auth::{Claims, check_admin, check_contributor, check_reader};

#[test]
fn role_zero_fails_every_check() {
    let c = Claims { role: 0 };
    assert!(check_reader(&c).is_err());
    assert!(check_contributor(&c).is_err());
    assert!(check_admin(&c).is_err());
}

#[test]
fn reader_passes_only_reader() {
    let c = Claims { role: 1 };
    assert!(check_reader(&c).is_ok());
    assert!(check_contributor(&c).is_err());
    assert!(check_admin(&c).is_err());
}

#[test]
fn contributor_passes_reader_and_contributor_but_not_admin() {
    let c = Claims { role: 2 };
    assert!(check_reader(&c).is_ok());
    assert!(check_contributor(&c).is_ok());
    assert!(check_admin(&c).is_err());
}

#[test]
fn admin_passes_every_check() {
    let c = Claims { role: 3 };
    assert!(check_reader(&c).is_ok());
    assert!(check_contributor(&c).is_ok());
    assert!(check_admin(&c).is_ok());
}

#[test]
fn failed_check_is_unauthorized() {
    let c = Claims { role: 1 };
    match check_admin(&c) {
        Err(Error::Unauthorized(_)) => {}
        other => panic!("expected an authorization failure, got {:?}", other),
    }
}
