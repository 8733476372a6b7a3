use sim_estate::book::{
    content_key_of, decode_envelope, decode_head, decode_kind, encode_envelope, encode_head,
    encode_kind, EventKind,
};
use sim_estate::canon::{encode_flag, encode_labels, encode_num, encode_parameters, encode_symbol, encode_text, frame_of};
use sim_estate::order::{key_places, sort_by_id};
use sim_estate::records::{Symbol, Target, Value};
use sim_estate::table::Key;

#[test]
fn fields_are_length_prefixed() {
    assert_eq!(encode_num(1), vec![0, 0, 0, 0, 0, 0, 0, 1]);
    assert_eq!(encode_num(258), vec![0, 0, 0, 0, 0, 0, 1, 2]);
    assert_eq!(encode_flag(true), vec![1]);
    assert_eq!(encode_flag(false), vec![0]);
    assert_eq!(encode_text("aé"), "aé".as_bytes().to_vec());
    assert_eq!(encode_symbol(&Symbol::new("a/b").unwrap()), b"a/b".to_vec());
    assert_eq!(
        frame_of(&vec![vec![7], vec![]]),
        vec![0, 0, 0, 0, 0, 0, 0, 1, 7, 0, 0, 0, 0, 0, 0, 0, 0]
    );
    assert_eq!(frame_of(&vec![]), Vec::<u8>::new());
}

#[test]
fn content_keys_are_sha256_digests() {
    assert_eq!(
        content_key_of(b"abc").0,
        "sha256:ba7816bf8f01cfea414140de5dae2223b00361a396177a9cb410ff61f20015ad"
    );
}

#[test]
fn event_records_read_back_what_was_written() {
    let kinds = vec![
        EventKind::Opened { plan: Key("sha256:p".into()) },
        EventKind::Preview { evidence: Key("sha256:e".into()) },
        EventKind::DispatchIntent,
        EventKind::ProcessAttempt { dispatched: true, detail: "returned".into() },
        EventKind::Callback { sequence: 9, kind: "Changed".into() },
        EventKind::Verification { passed: false },
        EventKind::Cleanup { target: "fleet/web".into(), generation: 3 },
        EventKind::Quarantined { target: "fleet/web".into(), reason: "why".into() },
        EventKind::Final { state: "verified".into() },
    ];
    for kind in kinds {
        assert_eq!(decode_kind(&encode_kind(&kind)), Some(kind.clone()));
        let prior = Some(Key("sha256:prior".into()));
        let b = encode_envelope("run", 4, &prior, &kind);
        assert_eq!(
            decode_envelope(&b),
            Some(("run".to_string(), 4, prior, kind))
        );
    }
    let h = encode_head(&Key("sha256:x".into()), 7);
    assert_eq!(decode_head(&h), Some((Key("sha256:x".into()), 7)));
    assert_eq!(decode_kind(&vec![1, 2, 3]), None);
    assert_eq!(decode_head(&vec![0, 0, 0]), None);
}

#[test]
fn targets_sort_by_id() {
    let t = |id: &str, version: u16| Target {
        version,
        id: Symbol::new(id).unwrap(),
        labels: Vec::new(),
    };
    let sorted = sort_by_id(vec![t("b", 1), t("a", 1), t("c", 1), t("A", 1), t("ab", 1)]);
    let ids: Vec<&str> = sorted.iter().map(|x| x.id.as_str()).collect();
    assert_eq!(ids, vec!["A", "a", "ab", "b", "c"]);
    let same = sort_by_id(vec![t("b", 1), t("a", 2), t("b", 3), t("a", 4)]);
    let order: Vec<(&str, u16)> = same.iter().map(|x| (x.id.as_str(), x.version)).collect();
    assert_eq!(order, vec![("a", 2), ("a", 4), ("b", 1), ("b", 3)]);
}

fn sym(text: &str) -> Symbol {
    Symbol::new(text).unwrap()
}

#[test]
fn labels_read_as_a_map() {
    let sorted = vec![(sym("a/x"), sym("v/1")), (sym("b/y"), sym("v/2"))];
    let shuffled = vec![(sym("b/y"), sym("v/2")), (sym("a/x"), sym("v/1"))];
    let repeated = vec![(sym("a/x"), sym("v/0")), (sym("b/y"), sym("v/2")), (sym("a/x"), sym("v/1"))];
    assert_eq!(encode_labels(&sorted), encode_labels(&shuffled));
    assert_eq!(encode_labels(&sorted), encode_labels(&repeated));
    let other = vec![(sym("a/x"), sym("v/0")), (sym("b/y"), sym("v/2"))];
    assert_ne!(encode_labels(&sorted), encode_labels(&other));
    assert_eq!(key_places(&repeated), vec![2, 1]);
    assert_eq!(key_places(&shuffled), vec![1, 0]);
}

#[test]
fn parameters_read_as_a_map() {
    let a = vec![(sym("p/a"), Value::Integer(1)), (sym("p/b"), Value::Bool(true))];
    let b = vec![(sym("p/b"), Value::Bool(true)), (sym("p/a"), Value::Integer(2)), (sym("p/a"), Value::Integer(1))];
    assert_eq!(encode_parameters(&a), encode_parameters(&b));
}
