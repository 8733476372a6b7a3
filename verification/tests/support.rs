use sim_estate::organ::{Clock, EffectGate, EffectRequest};
use sim_estate::records::ProjectFingerprint;
use sim_estate::support::{bounded_output, hash_text, opaque_target, sym, Gate, Time};
use sim_estate::table::Key;

#[test]
fn symbols_from_text() {
    assert_eq!(sym("fleet/web").unwrap().as_str(), "fleet/web");
    assert_eq!(sym("a b").unwrap_err(), "invalid symbol");
}

#[test]
fn text_digests_are_lowercase_sha256() {
    assert_eq!(
        hash_text(""),
        "e3b0c44298fc1c149afbf4c8996fb92427ae41e4649b934ca495991b7852b855"
    );
    assert_eq!(
        hash_text("abc"),
        "ba7816bf8f01cfea414140de5dae2223b00361a396177a9cb410ff61f20015ad"
    );
}

#[test]
fn opaque_targets_hide_their_names() {
    let t = opaque_target("abc").unwrap();
    assert_eq!(t.as_str(), "host/ba7816bf8f01cfea414140de5dae2223");
    assert_ne!(opaque_target("abd").unwrap(), t);
}

#[test]
fn the_plain_gate_and_clock() {
    let request = EffectRequest {
        plan: Key("sha256:p".into()),
        provider: sym("provider/model").unwrap(),
        operation: sym("service/restart").unwrap(),
        project: ProjectFingerprint::of(b"p"),
        inventory: Key("sha256:i".into()),
        targets: vec![],
        approval: Key("sha256:a".into()),
    };
    assert_eq!(Gate.allow(&request), Ok(()));
    assert_eq!(Time(42).now(), 42);
}

#[test]
fn captured_output_is_cut_to_the_cap() {
    assert_eq!(
        bounded_output(b"hello", b"world", 7),
        ("hello".to_string(), "wo".to_string(), true)
    );
    assert_eq!(
        bounded_output(b"hello", b"world", 3),
        ("hel".to_string(), String::new(), true)
    );
    assert_eq!(
        bounded_output(b"hi", b"", 10),
        ("hi".to_string(), String::new(), false)
    );
    assert_eq!(
        bounded_output(&[b'a', 0xff], b"", 10),
        ("a\u{FFFD}".to_string(), String::new(), false)
    );
}
