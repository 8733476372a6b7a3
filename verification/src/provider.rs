//! The provider contract and the shared conformance scenario.
use vstd::prelude::*;
use crate::records::{
    Approval, EstateError, Event, EventKind, Operation, Outcome, Plan, Preview,
    ProjectFingerprint, ProviderCard, Reconciliation, Run, SanitizedInventory, Symbol,
    Verification, SCHEMA_VERSION,
};

verus! {

/// A provider returns only portable, bounded values or typed refusal.
/// What a provider returns is its own: this contract promises nothing of it.
pub trait EstateProvider {
    fn discover(&mut self) -> Result<(ProviderCard, SanitizedInventory), EstateError>;

    fn plan(&mut self, operation: Operation, project: ProjectFingerprint) -> Result<
        Plan,
        EstateError,
    >;

    fn preview(&mut self, plan: &Plan) -> Result<Preview, EstateError>;

    fn perform(&mut self, plan: &Plan, approval: &Approval) -> Result<Run, EstateError>;

    fn events(&mut self, run: &Run, limit: u32) -> Result<Vec<Event>, EstateError>;

    fn verify(&mut self, run: &Run) -> Result<Verification, EstateError>;

    fn reconcile(&mut self, run: &Run) -> Result<Reconciliation, EstateError>;

    fn cancel(&mut self, run: &Run) -> Result<Outcome, EstateError>;
}

/// The most targets an inventory may report in the conformance scenario.
pub const MAX_INVENTORY_TARGETS: usize = 1024;

/// The most events the conformance scenario asks for.
pub const SMOKE_EVENT_LIMIT: u32 = 256;

/// The text `inventory`.
pub open spec fn inventory_text() -> Seq<char> {
    seq!['i', 'n', 'v', 'e', 'n', 't', 'o', 'r', 'y']
}

/// Refuses an inventory with more than `MAX_INVENTORY_TARGETS` targets.
pub fn check_inventory_bound(inventory: &SanitizedInventory) -> (r: Result<(), EstateError>)
    ensures
        r is Ok <==> inventory.targets@.len() <= MAX_INVENTORY_TARGETS,
        r matches Err(e) ==> e matches EstateError::BoundExceeded(s) && s@ == inventory_text(),
{
    if inventory.targets.len() > MAX_INVENTORY_TARGETS {
        let cs = vec!['i', 'n', 'v', 'e', 'n', 't', 'o', 'r', 'y'];
        assert(cs@ =~= inventory_text());
        match Symbol::from_chars(&cs) {
            Ok(s) => Err(EstateError::BoundExceeded(s)),
            Err(e) => Err(e),
        }
    } else {
        Ok(())
    }
}

/// The preview as the conformance scenario takes it: an unsupported
/// preview counts as an empty one, every other refusal stands.
pub fn tolerate_unsupported_preview(r: Result<Preview, EstateError>) -> (out: Result<
    Preview,
    EstateError,
>)
    ensures
        match r {
            Ok(p) => out == Ok::<Preview, EstateError>(p),
            Err(EstateError::Unsupported(_)) => out matches Ok(p) && p.changed_targets == 0
                && p.notices@.len() == 0,
            Err(e) => out == Err::<Preview, EstateError>(e),
        },
{
    match r {
        Ok(p) => Ok(p),
        Err(EstateError::Unsupported(_)) => Ok(Preview { changed_targets: 0, notices: Vec::new() }),
        Err(e) => Err(e),
    }
}

/// Some event in `events` is malformed.
pub open spec fn has_malformed(events: Seq<Event>) -> bool {
    exists|i: int| 0 <= i < events.len() && (#[trigger] events[i]).kind == EventKind::Malformed
}

/// Refuses a callback stream that holds a malformed event.
pub fn reject_malformed(events: &Vec<Event>) -> (r: Result<(), EstateError>)
    ensures
        r is Ok <==> !has_malformed(events@),
        r matches Err(e) ==> e == EstateError::MalformedEvent,
{
    let mut i: usize = 0;
    while i < events.len()
        invariant
            i <= events@.len(),
            forall|j: int| 0 <= j < i ==> (#[trigger] events@[j]).kind != EventKind::Malformed,
        decreases events.len() - i,
    {
        if events[i].kind == EventKind::Malformed {
            assert(events@[i as int].kind == EventKind::Malformed);
            return Err(EstateError::MalformedEvent);
        }
        i = i + 1;
    }
    Ok(())
}

/// The approval the conformance scenario grants for `plan`.
pub fn smoke_approval(plan: &Plan, project: ProjectFingerprint) -> (a: Approval)
    ensures
        a.version == SCHEMA_VERSION,
        a.plan == plan.id,
        a.project == project,
        a.granted,
{
    Approval { version: SCHEMA_VERSION, plan: plan.id.clone(), project, granted: true }
}

/// The outcome the conformance scenario reports: the reconciled state,
/// with the run, its verification and its reconciliation.
pub fn smoke_outcome(run: Run, verification: Verification, reconciliation: Reconciliation) -> (o:
    Outcome)
    ensures
        o.version == SCHEMA_VERSION,
        o.run == Some(run.id),
        o.state == reconciliation.state,
        o.verification == Some(verification),
        o.reconciliation == Some(reconciliation),
{
    let state = reconciliation.state;
    Outcome {
        version: SCHEMA_VERSION,
        run: Some(run.id),
        state,
        verification: Some(verification),
        reconciliation: Some(reconciliation),
    }
}

/// The conformance scenario came through: the reconciled state, with the
/// run, its verification and its reconciliation.
pub open spec fn completed(o: Outcome) -> bool {
    &&& o.version == SCHEMA_VERSION
    &&& o.run is Some
    &&& o.verification is Some
    &&& o.reconciliation matches Some(rc) && o.state == rc.state
}

/// Shared provider conformance scenario, reusable by physical and modeled
/// sites: discover, plan, preview, perform under a granted approval, read
/// events, verify and reconcile. Each step's refusal ends the scenario with
/// that refusal; an inventory over the bound and a malformed event are
/// refused here, and an unsupported preview is tolerated. Each step's
/// answer is taken on by a function of its own (`smoke_from_discovery`
/// and those after it), which says what follows from it.
pub fn conformance_smoke<P: EstateProvider>(
    provider: &mut P,
    operation: Operation,
    project: ProjectFingerprint,
) -> (r: Result<Outcome, EstateError>)
    ensures
        r matches Ok(o) ==> completed(o),
{
    let discovered = provider.discover();
    smoke_from_discovery(provider, operation, project, discovered)
}

/// The scenario after the discovery answered `discovered`: its refusal
/// stands, an inventory over `MAX_INVENTORY_TARGETS` is refused as a bound
/// exceeded, and otherwise the operation is planned.
pub fn smoke_from_discovery<P: EstateProvider>(
    provider: &mut P,
    operation: Operation,
    project: ProjectFingerprint,
    discovered: Result<(ProviderCard, SanitizedInventory), EstateError>,
) -> (r: Result<Outcome, EstateError>)
    ensures
        r matches Ok(o) ==> completed(o),
        discovered matches Err(e) ==> r == Err::<Outcome, EstateError>(e),
        discovered matches Ok((_, inventory)) ==> (inventory.targets@.len() > MAX_INVENTORY_TARGETS ==> (r matches Err(
            EstateError::BoundExceeded(s),
        ) && s@ == inventory_text())),
{
    let (_, inventory) = match discovered {
        Ok(x) => x,
        Err(e) => return Err(e),
    };
    check_inventory_bound(&inventory)?;
    let planned = provider.plan(operation, project);
    smoke_from_plan(provider, project, planned)
}

/// The scenario after planning answered `planned`: its refusal stands;
/// otherwise the plan is previewed.
pub fn smoke_from_plan<P: EstateProvider>(
    provider: &mut P,
    project: ProjectFingerprint,
    planned: Result<Plan, EstateError>,
) -> (r: Result<Outcome, EstateError>)
    ensures
        r matches Ok(o) ==> completed(o),
        planned matches Err(e) ==> r == Err::<Outcome, EstateError>(e),
{
    let plan = match planned {
        Ok(p) => p,
        Err(e) => return Err(e),
    };
    let previewed = provider.preview(&plan);
    smoke_from_preview(provider, plan, project, previewed)
}

/// The scenario after the preview of `plan` answered `previewed`: a refusal
/// other than an unsupported preview stands; otherwise the plan is
/// performed under the scenario's approval.
pub fn smoke_from_preview<P: EstateProvider>(
    provider: &mut P,
    plan: Plan,
    project: ProjectFingerprint,
    previewed: Result<Preview, EstateError>,
) -> (r: Result<Outcome, EstateError>)
    ensures
        r matches Ok(o) ==> completed(o),
        previewed matches Err(e) ==> (!(e is Unsupported) ==> r == Err::<Outcome, EstateError>(e)),
{
    let _ = tolerate_unsupported_preview(previewed)?;
    let approval = smoke_approval(&plan, project);
    let performed = provider.perform(&plan, &approval);
    smoke_from_perform(provider, performed)
}

/// The scenario after the perform answered `performed`: its refusal
/// stands; otherwise the run's events are read.
pub fn smoke_from_perform<P: EstateProvider>(provider: &mut P, performed: Result<Run, EstateError>) -> (r: Result<
    Outcome,
    EstateError,
>)
    ensures
        r matches Ok(o) ==> completed(o),
        performed matches Err(e) ==> r == Err::<Outcome, EstateError>(e),
{
    let run = match performed {
        Ok(x) => x,
        Err(e) => return Err(e),
    };
    let events = provider.events(&run, SMOKE_EVENT_LIMIT);
    smoke_from_events(provider, run, events)
}

/// The scenario after reading the events of `run` answered `events`: its
/// refusal stands and a malformed event is refused; otherwise the run is
/// verified.
pub fn smoke_from_events<P: EstateProvider>(provider: &mut P, run: Run, events: Result<Vec<Event>, EstateError>) -> (r:
    Result<Outcome, EstateError>)
    ensures
        r matches Ok(o) ==> completed(o),
        events matches Err(e) ==> r == Err::<Outcome, EstateError>(e),
        events matches Ok(v) ==> (has_malformed(v@) ==> r == Err::<Outcome, EstateError>(EstateError::MalformedEvent)),
{
    let events = match events {
        Ok(v) => v,
        Err(e) => return Err(e),
    };
    reject_malformed(&events)?;
    let verified = provider.verify(&run);
    smoke_from_verify(provider, run, verified)
}

/// The scenario after verifying `run` answered `verified`: its refusal
/// stands; otherwise the run is reconciled.
pub fn smoke_from_verify<P: EstateProvider>(provider: &mut P, run: Run, verified: Result<Verification, EstateError>) -> (r:
    Result<Outcome, EstateError>)
    ensures
        r matches Ok(o) ==> completed(o),
        verified matches Err(e) ==> r == Err::<Outcome, EstateError>(e),
{
    let verification = match verified {
        Ok(v) => v,
        Err(e) => return Err(e),
    };
    let reconciled = provider.reconcile(&run);
    smoke_finish(run, verification, reconciled)
}

/// The scenario's end, the reconciliation having answered `reconciled`: its
/// refusal stands; otherwise the outcome is `smoke_outcome`.
pub fn smoke_finish(run: Run, verification: Verification, reconciled: Result<Reconciliation, EstateError>) -> (r: Result<
    Outcome,
    EstateError,
>)
    ensures
        match reconciled {
            Ok(rc) => r matches Ok(o) && o.version == SCHEMA_VERSION && o.run == Some(run.id) && o.state == rc.state
                && o.verification == Some(verification) && o.reconciliation == Some(rc),
            Err(e) => r == Err::<Outcome, EstateError>(e),
        },
{
    match reconciled {
        Ok(rc) => Ok(smoke_outcome(run, verification, rc)),
        Err(e) => Err(e),
    }
}

} // verus!
