use sim_estate::book::{EventKind as BookEvent, LeaseRecord};
use sim_estate::model::{Fault, ModelEstate};
use sim_estate::organ::{
    ApplyState, ArtifactReader, Clock, EffectGate, EffectRequest, Error, Organ, Planned, Policy,
};
use sim_estate::records::{EstateError, Operation, OperationMode, ProjectFingerprint, RunState, Symbol};
use sim_estate::table::{BookError, Key, MemoryTable};

struct FixedClock;

impl Clock for FixedClock {
    fn now(&self) -> u64 {
        0
    }
}

struct Gate;

impl EffectGate for Gate {
    fn allow(&mut self, _: &EffectRequest) -> Result<(), Error> {
        Ok(())
    }
}

struct At(u64);

impl Clock for At {
    fn now(&self) -> u64 {
        self.0
    }
}

struct Deny;

impl EffectGate for Deny {
    fn allow(&mut self, _: &EffectRequest) -> Result<(), Error> {
        Err(Error::Gate("denied".into()))
    }
}

struct Says(Option<RunState>);

impl ArtifactReader for Says {
    fn reconcile(&self, _: &str) -> Result<Option<RunState>, Error> {
        Ok(self.0)
    }
}

fn operation() -> Operation {
    Operation {
        version: 1,
        exposure: Symbol::new("service/restart").unwrap(),
        target: Symbol::new("fleet/web").unwrap(),
        parameters: Vec::new(),
        mode: OperationMode::Change,
    }
}

fn planned(
    organ: &mut Organ<MemoryTable>,
    provider: &mut ModelEstate,
    verify: bool,
) -> Result<Planned, Error> {
    organ.plan(
        provider,
        operation(),
        ProjectFingerprint::of(b"fixture-project-v1"),
        Key("program".into()),
        Policy {
            preview: true,
            verify,
            ttl: 10,
        },
        "acceptance".into(),
        0,
    )
}

fn apply_with_fault(fault: Fault) -> Result<ApplyState, Error> {
    let mut organ = Organ::new(MemoryTable::default());
    let mut provider = ModelEstate::fixture();
    let planned = planned(&mut organ, &mut provider, false)?;
    let approval = organ.review("approval", &planned, "alice", "run")?;
    provider.inject(fault);
    organ
        .apply(
            &mut provider,
            &mut Gate,
            &FixedClock,
            &planned,
            "approval",
            approval,
            "run",
        )
        .map(|outcome| outcome.state)
}

#[test]
fn refusal_is_retryable_only_before_dispatch() {
    assert!(matches!(
        apply_with_fault(Fault::NotDispatched),
        Err(Error::Estate(EstateError::NotDispatched))
    ));
    assert_eq!(
        apply_with_fault(Fault::UnknownAfterDispatch).unwrap(),
        ApplyState::Quarantined
    );
}

#[test]
fn a_plan_binds_its_target_and_expiry() {
    let mut organ = Organ::new(MemoryTable::new());
    let mut provider = ModelEstate::fixture();
    let p = planned(&mut organ, &mut provider, false).unwrap();
    assert!(p.key.0.starts_with("sha256:"));
    assert_eq!(p.key.0.len(), 71);
    assert_eq!(p.plan.expires_at, 10);
    assert_eq!(p.plan.risk.as_str(), "risk/high");
    assert_eq!(p.plan.targets.len(), 1);
    assert_eq!(p.plan.targets[0].as_str(), "fleet/web");
    assert_eq!(p.plan.nonce, "acceptance");
    assert!(p.preview.is_some());
    // The same plan interns under the same key.
    let again = planned(&mut organ, &mut provider, false).unwrap();
    assert_eq!(again.key, p.key);
}

#[test]
fn a_plan_for_an_absent_target_is_refused() {
    let mut organ = Organ::new(MemoryTable::new());
    let mut provider = ModelEstate::fixture();
    provider.replace_inventory(vec![]);
    assert!(matches!(
        planned(&mut organ, &mut provider, false),
        Err(Error::Estate(EstateError::TargetDisappeared))
    ));
}

#[test]
fn an_apply_runs_once_and_records_its_end() {
    let mut organ = Organ::new(MemoryTable::new());
    let mut provider = ModelEstate::fixture();
    let p = planned(&mut organ, &mut provider, true).unwrap();
    let approval = organ.review("approval", &p, "alice", "run").unwrap();
    let outcome = organ
        .apply(&mut provider, &mut Gate, &FixedClock, &p, "approval", approval.clone(), "run")
        .unwrap();
    assert_eq!(outcome.run, "run");
    assert_eq!(outcome.state, ApplyState::Verified);
    assert!(outcome.verification.unwrap().passed);
    let projection = organ.book.projection("run").unwrap();
    assert_eq!(projection.plan, p.key);
    assert_eq!(projection.state, "verified");
    assert!(matches!(projection.events[0], BookEvent::Opened { .. }));
    assert!(projection.events.contains(&BookEvent::DispatchIntent));
    assert!(projection.events.contains(&BookEvent::Callback {
        sequence: 0,
        kind: "Accepted".into()
    }));
    assert!(projection.events.contains(&BookEvent::Cleanup {
        target: "fleet/web".into(),
        generation: 1
    }));
    assert_eq!(organ.book.lease_state("fleet/web").unwrap(), None);
    // The approval is spent: a second apply is refused before anything happens.
    assert!(matches!(
        organ.apply(&mut provider, &mut Gate, &FixedClock, &p, "approval", approval, "run"),
        Err(Error::Book(BookError::Conflict { .. }))
    ));
    assert_eq!(organ.reconcile("run", &Says(None)).unwrap(), RunState::Changed);
}

#[test]
fn an_unverified_apply_ends_process_complete() {
    let mut organ = Organ::new(MemoryTable::new());
    let mut provider = ModelEstate::fixture();
    let p = planned(&mut organ, &mut provider, false).unwrap();
    let approval = organ.review("approval", &p, "alice", "run").unwrap();
    let outcome = organ
        .apply(&mut provider, &mut Gate, &FixedClock, &p, "approval", approval, "run")
        .unwrap();
    assert_eq!(outcome.state, ApplyState::ProcessCompleteUnverified);
    assert!(outcome.verification.is_none());
    assert_eq!(
        organ.book.projection("run").unwrap().state,
        "process-complete/unverified"
    );
    assert_eq!(organ.reconcile("run", &Says(None)).unwrap(), RunState::Running);
}

#[test]
fn an_expired_plan_is_refused_with_the_time() {
    let mut organ = Organ::new(MemoryTable::new());
    let mut provider = ModelEstate::fixture();
    let p = planned(&mut organ, &mut provider, false).unwrap();
    let approval = organ.review("approval", &p, "alice", "run").unwrap();
    assert_eq!(
        organ.apply(&mut provider, &mut Gate, &At(11), &p, "approval", approval.clone(), "run"),
        Err(Error::Refused {
            reason: "expired plan".into(),
            observed: "11".into()
        })
    );
    // Nothing was consumed: the approval still works.
    assert!(organ
        .apply(&mut provider, &mut Gate, &At(10), &p, "approval", approval, "run")
        .is_ok());
}

#[test]
fn a_stale_discovery_is_refused_with_the_revision() {
    let mut organ = Organ::new(MemoryTable::new());
    let mut provider = ModelEstate::fixture();
    let p = planned(&mut organ, &mut provider, false).unwrap();
    let approval = organ.review("approval", &p, "alice", "run").unwrap();
    provider.replace_inventory(vec![]);
    assert_eq!(
        organ.apply(&mut provider, &mut Gate, &FixedClock, &p, "approval", approval, "run"),
        Err(Error::Refused {
            reason: "stale discovery".into(),
            observed: "revision=2".into()
        })
    );
}

#[test]
fn a_quarantined_target_is_unavailable_and_its_lease_is_lost() {
    let mut organ = Organ::new(MemoryTable::new());
    let mut provider = ModelEstate::fixture();
    let p = planned(&mut organ, &mut provider, false).unwrap();
    let first = organ.review("first", &p, "alice", "run").unwrap();
    let second = organ.review("second", &p, "alice", "again").unwrap();
    provider.inject(Fault::UnknownAfterDispatch);
    let outcome = organ
        .apply(&mut provider, &mut Gate, &FixedClock, &p, "first", first, "run")
        .unwrap();
    assert_eq!(outcome.state, ApplyState::Quarantined);
    assert_eq!(organ.book.projection("run").unwrap().state, "quarantined");
    let lease = organ.book.lease_state("fleet/web").unwrap().unwrap();
    assert_eq!(
        lease,
        LeaseRecord {
            holder: "run".into(),
            generation: 2,
            expires_at: 10,
            quarantined: true
        }
    );
    provider.inject(Fault::NoFault);
    assert_eq!(
        organ.apply(&mut provider, &mut Gate, &FixedClock, &p, "second", second.clone(), "again"),
        Err(Error::Refused {
            reason: "target unavailable".into(),
            observed: "Some(LeaseRecord { holder: \"run\", generation: 2, expires_at: 10, quarantined: true })"
                .into()
        })
    );
    // The refusal came after the approval was consumed: it is spent.
    assert!(matches!(
        organ.apply(&mut provider, &mut Gate, &FixedClock, &p, "second", second, "again"),
        Err(Error::Book(BookError::Conflict { .. }))
    ));
    assert_eq!(
        organ.renew("run", &[Symbol::new("fleet/web").unwrap()], &FixedClock, 5),
        Err(Error::Refused {
            reason: "lease lost".into(),
            observed: "LeaseRecord { holder: \"run\", generation: 2, expires_at: 10, quarantined: true }"
                .into()
        })
    );
}

#[test]
fn a_gate_refusal_gives_the_leases_back() {
    let mut organ = Organ::new(MemoryTable::new());
    let mut provider = ModelEstate::fixture();
    let p = planned(&mut organ, &mut provider, false).unwrap();
    let approval = organ.review("approval", &p, "alice", "run").unwrap();
    assert_eq!(
        organ.apply(&mut provider, &mut Deny, &FixedClock, &p, "approval", approval, "run"),
        Err(Error::Gate("denied".into()))
    );
    assert_eq!(organ.book.lease_state("fleet/web").unwrap(), None);
}

#[test]
fn a_failed_verification_quarantines() {
    let mut organ = Organ::new(MemoryTable::new());
    let mut provider = ModelEstate::fixture();
    let p = planned(&mut organ, &mut provider, true).unwrap();
    let approval = organ.review("approval", &p, "alice", "run").unwrap();
    provider.inject(Fault::VerificationFails);
    assert_eq!(
        organ.apply(&mut provider, &mut Gate, &FixedClock, &p, "approval", approval, "run"),
        Err(Error::Estate(EstateError::VerificationFailed))
    );
    assert_eq!(organ.book.projection("run").unwrap().state, "quarantined");
    assert!(organ.book.lease_state("fleet/web").unwrap().unwrap().quarantined);
}

#[test]
fn renewing_extends_a_held_lease() {
    let mut organ = Organ::new(MemoryTable::new());
    let held = LeaseRecord {
        holder: "run".into(),
        generation: 1,
        expires_at: 5,
        quarantined: false,
    };
    organ.book.lease("fleet/web", None, &held).unwrap();
    let targets = [Symbol::new("fleet/web").unwrap()];
    organ.renew("run", &targets, &At(7), 3).unwrap();
    assert_eq!(
        organ.book.lease_state("fleet/web").unwrap(),
        Some(LeaseRecord {
            holder: "run".into(),
            generation: 2,
            expires_at: 10,
            quarantined: false
        })
    );
    assert_eq!(
        organ.renew("other", &targets, &At(7), 3),
        Err(Error::Refused {
            reason: "lease lost".into(),
            observed: "LeaseRecord { holder: \"run\", generation: 2, expires_at: 10, quarantined: false }"
                .into()
        })
    );
    assert_eq!(
        organ.renew("run", &[Symbol::new("fleet/db").unwrap()], &At(7), 3),
        Err(Error::Refused {
            reason: "lease lost".into(),
            observed: "absent".into()
        })
    );
}

#[test]
fn reconciling_an_open_run_records_what_the_artifacts_say() {
    let mut organ = Organ::new(MemoryTable::new());
    organ
        .book
        .append("r", BookEvent::Opened { plan: Key("sha256:p".into()) })
        .unwrap();
    assert_eq!(
        organ.reconcile("r", &Says(Some(RunState::Changed))).unwrap(),
        RunState::Changed
    );
    assert_eq!(organ.book.projection("r").unwrap().state, "Changed");
    organ
        .book
        .append("s", BookEvent::Opened { plan: Key("sha256:p".into()) })
        .unwrap();
    assert_eq!(
        organ.reconcile("s", &Says(None)).unwrap(),
        RunState::UnknownAfterDispatch
    );
    assert_eq!(
        organ.book.projection("s").unwrap().state,
        "UnknownAfterDispatch"
    );
    assert!(matches!(
        organ.reconcile("nobody", &Says(None)),
        Err(Error::Book(BookError::Missing { .. }))
    ));
}

#[test]
fn a_refused_renewal_shows_the_holder_as_rust_debug_does() {
    let mut organ = Organ::new(MemoryTable::new());
    let held = LeaseRecord {
        holder: "r\u{1}\"n".into(),
        generation: 1,
        expires_at: 5,
        quarantined: false,
    };
    organ.book.lease("fleet/web", None, &held).unwrap();
    let targets = [Symbol::new("fleet/web").unwrap()];
    assert_eq!(
        organ.renew("run", &targets, &At(7), 3),
        Err(Error::Refused {
            reason: "lease lost".into(),
            observed: format!("{:?}", held)
        })
    );
    assert_eq!(
        organ.renew("run", &targets, &At(7), 3),
        Err(Error::Refused {
            reason: "lease lost".into(),
            observed: "LeaseRecord { holder: \"r\\u{1}\\\"n\", generation: 1, expires_at: 5, quarantined: false }".into()
        })
    );
    organ.renew("run", &[], &At(7), 3).unwrap();
    assert_eq!(organ.book.lease_state("fleet/web").unwrap(), Some(held));
}

#[test]
fn a_renewal_that_stops_keeps_what_it_renewed() {
    let mut organ = Organ::new(MemoryTable::new());
    let held = LeaseRecord {
        holder: "run".into(),
        generation: 1,
        expires_at: 5,
        quarantined: false,
    };
    organ.book.lease("fleet/web", None, &held).unwrap();
    let targets = [Symbol::new("fleet/web").unwrap(), Symbol::new("fleet/db").unwrap()];
    assert_eq!(
        organ.renew("run", &targets, &At(7), 3),
        Err(Error::Refused {
            reason: "lease lost".into(),
            observed: "absent".into()
        })
    );
    assert_eq!(
        organ.book.lease_state("fleet/web").unwrap(),
        Some(LeaseRecord {
            holder: "run".into(),
            generation: 2,
            expires_at: 10,
            quarantined: false
        })
    );
    assert_eq!(organ.book.lease_state("fleet/db").unwrap(), None);
}

#[test]
fn equal_discoveries_give_equal_plan_keys() {
    let mut first = Organ::new(MemoryTable::default());
    let mut second = Organ::new(MemoryTable::default());
    let a = planned(&mut first, &mut ModelEstate::fixture(), false).unwrap();
    let b = planned(&mut second, &mut ModelEstate::fixture(), false).unwrap();
    assert_eq!(a.key, b.key);
    assert_eq!(a, b);
}
