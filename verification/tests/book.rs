use sim_estate::book::{ApprovalUse, Book, EventKind, LeaseRecord};
use sim_estate::table::{BookError, Key, MemoryTable, Table};

fn exercise<T: Table>(book: &mut Book<T>) {
    let plan = book.intern(&serde_json::to_vec(&vec!["canonical", "plan"]).unwrap()).unwrap();
    book.append("r", EventKind::Opened { plan: plan.clone() }).unwrap();
    book.append("r", EventKind::DispatchIntent).unwrap();
    book.append(
        "r",
        EventKind::Final {
            state: "process-complete/unverified".into(),
        },
    )
    .unwrap();
    let a = book.projection("r").unwrap();
    let b = book.projection("r").unwrap();
    assert_eq!(a, b);
    assert_eq!(a.plan, plan);
}

#[test]
fn projections_rebuild_identically_in_memory() {
    exercise(&mut Book::new(MemoryTable::default()));
}

#[test]
fn approval_is_single_use() {
    let mut b = Book::new(MemoryTable::default());
    let u = ApprovalUse {
        plan: Key("p".into()),
        reviewer: "alice".into(),
        consumed_by: "run".into(),
    };
    b.issue_approval("a", &u).unwrap();
    b.consume_approval("a", "run").unwrap();
    assert!(matches!(
        b.consume_approval("a", "run"),
        Err(BookError::Conflict { .. })
    ));
}

#[test]
fn event_head_conflict_preserves_published_event() {
    let t = MemoryTable::default();
    let mut b = Book::new(t);
    let p = b.intern(&serde_json::to_vec(&"p").unwrap()).unwrap();
    b.append("r", EventKind::Opened { plan: p }).unwrap();
    let stale = serde_json::to_vec(&"sha256:stale").unwrap();
    assert!(matches!(
        b.table
            .compare_and_swap(&Key("run/r/head".into()), Some(&stale), b"x"),
        Err(BookError::Conflict { .. })
    ));
}

#[test]
fn interned_content_is_keyed_by_its_digest() {
    let mut b = Book::new(MemoryTable::new());
    let k = b.intern(b"").unwrap();
    assert_eq!(
        k.0,
        "sha256:e3b0c44298fc1c149afbf4c8996fb92427ae41e4649b934ca495991b7852b855"
    );
    assert_eq!(b.intern(b"").unwrap(), k);
    assert_eq!(b.table.get(&k).unwrap(), Some(Vec::new()));
}

#[test]
fn appended_events_read_back_in_order() {
    let mut b = Book::new(MemoryTable::new());
    let plan = Key("sha256:plan".into());
    b.append("r", EventKind::Opened { plan: plan.clone() }).unwrap();
    b.append(
        "r",
        EventKind::Callback {
            sequence: 3,
            kind: "Changed".into(),
        },
    )
    .unwrap();
    b.append("r", EventKind::Verification { passed: true }).unwrap();
    let p = b.projection("r").unwrap();
    assert_eq!(p.run, "r");
    assert_eq!(p.plan, plan);
    assert_eq!(p.state, "open");
    assert_eq!(
        p.events,
        vec![
            EventKind::Opened { plan },
            EventKind::Callback {
                sequence: 3,
                kind: "Changed".into()
            },
            EventKind::Verification { passed: true },
        ]
    );
    b.append("r", EventKind::Final { state: "verified".into() }).unwrap();
    assert_eq!(b.projection("r").unwrap().state, "verified");
}

#[test]
fn a_run_without_events_has_no_projection() {
    let b = Book::new(MemoryTable::new());
    assert!(matches!(
        b.projection("nobody"),
        Err(BookError::Missing { .. })
    ));
}

#[test]
fn a_corrupted_envelope_is_detected() {
    let mut b = Book::new(MemoryTable::new());
    let first = b.append("r", EventKind::DispatchIntent).unwrap();
    // Overwrite the envelope with bytes that are not its content.
    let held = b.table.get(&first).unwrap().unwrap();
    b.table
        .compare_and_swap(&first, Some(&held), b"tampered")
        .unwrap();
    assert!(matches!(b.projection("r"), Err(BookError::Corrupt { .. })));
}

#[test]
fn approvals_are_issued_once_and_consumed_by_their_run() {
    let mut b = Book::new(MemoryTable::new());
    let u = ApprovalUse {
        plan: Key("p".into()),
        reviewer: "alice".into(),
        consumed_by: "run".into(),
    };
    b.issue_approval("a", &u).unwrap();
    b.issue_approval("a", &u).unwrap();
    let other = ApprovalUse {
        plan: Key("q".into()),
        reviewer: "bob".into(),
        consumed_by: "run".into(),
    };
    assert!(matches!(
        b.issue_approval("a", &other),
        Err(BookError::Conflict { .. })
    ));
    assert!(matches!(
        b.consume_approval("a", "other-run"),
        Err(BookError::Conflict { .. })
    ));
    assert!(matches!(
        b.consume_approval("missing", "run"),
        Err(BookError::Conflict { observed: None, .. })
    ));
    b.consume_approval("a", "run").unwrap();
}

#[test]
fn a_held_lease_excludes_a_second_holder() {
    let mut b = Book::new(MemoryTable::new());
    assert_eq!(b.lease_state("fleet/web").unwrap(), None);
    let held = LeaseRecord {
        holder: "run".into(),
        generation: 1,
        expires_at: 10,
        quarantined: false,
    };
    b.lease("fleet/web", None, &held).unwrap();
    assert_eq!(b.lease_state("fleet/web").unwrap(), Some(held.clone()));
    let other = LeaseRecord {
        holder: "other".into(),
        generation: 1,
        expires_at: 10,
        quarantined: false,
    };
    assert!(matches!(
        b.lease("fleet/web", None, &other),
        Err(BookError::Conflict { .. })
    ));
    let free = LeaseRecord {
        holder: String::new(),
        generation: 2,
        expires_at: 0,
        quarantined: false,
    };
    b.lease("fleet/web", Some(&held), &free).unwrap();
    assert_eq!(b.lease_state("fleet/web").unwrap(), None);
    b.lease("fleet/web", None, &other).unwrap();
}
