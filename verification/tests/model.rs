use sim_estate::model::{DispatchOutcome, Fault, ModelEstate};
use sim_estate::provider::{conformance_smoke, EstateProvider};
use sim_estate::records::{
    Approval, EstateError, EventKind, Operation, OperationMode, ProjectFingerprint, RunState, Symbol,
    Target,
};

fn sym(value: &str) -> Symbol {
    Symbol::new(value).unwrap()
}

fn operation() -> Operation {
    Operation {
        version: 1,
        exposure: sym("service/restart"),
        target: sym("fleet/web"),
        parameters: Vec::new(),
        mode: OperationMode::Change,
    }
}

fn project() -> ProjectFingerprint {
    ProjectFingerprint::of(b"fixture-project-v1")
}

#[test]
fn shared_conformance_passes_changed_and_unchanged() {
    for outcome in [DispatchOutcome::Changed, DispatchOutcome::Unchanged] {
        let mut model = ModelEstate::fixture();
        model.set_outcome(outcome);
        assert!(conformance_smoke(&mut model, operation(), project()).is_ok());
    }
}

#[test]
fn preview_unsupported_is_conformant() {
    let mut model = ModelEstate::fixture();
    model.inject(Fault::PreviewUnsupported);
    assert!(conformance_smoke(&mut model, operation(), project()).is_ok());
}

#[test]
fn every_injected_fault_is_typed() {
    let expected = [
        (Fault::TargetDisappears, EstateError::TargetDisappeared),
        (Fault::StalePlan, EstateError::StalePlan),
        (Fault::NotDispatched, EstateError::NotDispatched),
        (
            Fault::UnknownAfterDispatch,
            EstateError::UnknownAfterDispatch,
        ),
        (Fault::MalformedEvent, EstateError::MalformedEvent),
        (Fault::VerificationFails, EstateError::VerificationFailed),
    ];
    for (fault, wanted) in expected {
        let mut model = ModelEstate::fixture();
        model.inject(fault);
        assert_eq!(
            conformance_smoke(&mut model, operation(), project()).unwrap_err(),
            wanted
        );
    }
}

#[test]
fn target_disappearance_after_plan_and_stale_revision_fail() {
    let mut model = ModelEstate::fixture();
    let plan = model.plan(operation(), project()).unwrap();
    model.replace_inventory(vec![]);
    let approval = Approval {
        version: 1,
        plan: plan.id.clone(),
        project: project(),
        granted: true,
    };
    assert_eq!(model.perform(&plan, &approval), Err(EstateError::StalePlan));
}

#[test]
fn cancellation_and_reconciliation_are_deterministic() {
    let mut model = ModelEstate::fixture();
    let plan = model.plan(operation(), project()).unwrap();
    let approval = Approval {
        version: 1,
        plan: plan.id.clone(),
        project: project(),
        granted: true,
    };
    let run = model.perform(&plan, &approval).unwrap();
    model.advance(10);
    let cancelled = model.cancel(&run).unwrap();
    assert_eq!(cancelled.state, RunState::Cancelled);
    assert_eq!(model.reconcile(&run).unwrap().observed_at, 10);
}

#[test]
fn scripted_revision_and_events_are_repeatable() {
    let mut model = ModelEstate::fixture();
    model.revise_project(b"revision-2");
    model.script_events(vec![EventKind::Accepted, EventKind::Unchanged]);
    assert_ne!(*model.project(), project());
    assert_eq!(model.scripted_events().len(), 2);
}

#[test]
fn conformance_reports_the_reconciled_state() {
    let mut model = ModelEstate::fixture();
    model.set_outcome(DispatchOutcome::Unchanged);
    let outcome = conformance_smoke(&mut model, operation(), project()).unwrap();
    assert_eq!(outcome.version, 1);
    assert_eq!(outcome.state, RunState::Unchanged);
    assert!(outcome.run.is_some());
    assert!(outcome.verification.unwrap().passed);
}

#[test]
fn the_fixture_discovers_one_target() {
    let mut model = ModelEstate::fixture();
    let (card, inventory) = model.discover().unwrap();
    assert_eq!(card.provider.as_str(), "provider/model");
    assert_eq!(card.max_targets, 1024);
    assert_eq!(inventory.revision, 1);
    assert_eq!(inventory.targets.len(), 1);
    assert_eq!(inventory.targets[0].id.as_str(), "fleet/web");
    model.replace_inventory(vec![]);
    let (_, inventory) = model.discover().unwrap();
    assert_eq!(inventory.revision, 2);
    assert!(inventory.targets.is_empty());
}

#[test]
fn advancing_the_clock_saturates() {
    let mut model = ModelEstate::fixture();
    model.advance(u64::MAX);
    model.advance(5);
    let plan = model.plan(operation(), project()).unwrap();
    let approval = Approval {
        version: 1,
        plan: plan.id.clone(),
        project: project(),
        granted: true,
    };
    let run = model.perform(&plan, &approval).unwrap();
    assert_eq!(run.dispatched_at, u64::MAX);
}

#[test]
fn an_inventory_over_the_bound_ends_the_scenario() {
    let mut model = ModelEstate::fixture();
    let targets: Vec<Target> = (0..1025)
        .map(|i| Target {
            version: 1,
            id: sym(&format!("fleet/n{i}")),
            labels: Vec::new(),
        })
        .collect();
    model.replace_inventory(targets);
    assert_eq!(
        conformance_smoke(&mut model, operation(), project()).unwrap_err(),
        EstateError::BoundExceeded(sym("inventory"))
    );
}
