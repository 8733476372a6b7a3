use sim_estate::records::{EstateError, ProjectFingerprint, Symbol};

#[test]
fn symbols_reject_injection_alphabet() {
    for bad in ["", "a b", "a;b", "a\0b", "påth", "../x", "x=y", "*", "x:y"] {
        assert!(Symbol::new(bad).is_err(), "accepted {bad:?}");
    }
}

#[test]
fn symbols_accept_their_alphabet() {
    for good in ["node/a", "service/restart", "A-1_b.c", "x"] {
        let s = Symbol::new(good).unwrap();
        assert_eq!(s.as_str(), good);
    }
    let long = "a".repeat(96);
    assert!(Symbol::new(&long).is_ok());
    assert!(Symbol::new(&"a".repeat(97)).is_err());
    for bad in ["/x", ".x", "-x", "x.", "x-", "a..b"] {
        assert_eq!(Symbol::new(bad), Err(EstateError::InvalidSymbol));
    }
}

#[test]
fn error_messages_read_as_written() {
    assert_eq!(EstateError::InvalidSymbol.message(), "invalid symbol");
    assert_eq!(EstateError::StalePlan.message(), "stale plan");
    assert_eq!(EstateError::MalformedEvent.message(), "malformed provider event");
    assert_eq!(EstateError::UnknownAfterDispatch.message(), "outcome unknown after dispatch");
    assert_eq!(
        EstateError::Unsupported(Symbol::new("preview").unwrap()).message(),
        "unsupported: Symbol(\"preview\")"
    );
    assert_eq!(
        EstateError::BoundExceeded(Symbol::new("inventory").unwrap()).message(),
        "bound exceeded: Symbol(\"inventory\")"
    );
}

#[test]
fn fingerprints_follow_content() {
    let a = ProjectFingerprint::of(b"fixture-project-v1");
    let b = ProjectFingerprint::of(b"fixture-project-v1");
    let c = ProjectFingerprint::of(b"revision-2");
    assert_eq!(a, b);
    assert!(a.same(&b));
    assert_ne!(a, c);
    assert_eq!(a.version, 1);
    // SHA-256 of the empty input.
    let empty = ProjectFingerprint::of(b"");
    assert_eq!(empty.digest[0], 0xe3);
    assert_eq!(empty.digest[31], 0x55);
}
