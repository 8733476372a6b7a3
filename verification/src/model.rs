//! A deterministic, host-free model provider whose faults are scripted.
use vstd::prelude::*;
use crate::canon::targets_code;
use crate::digest::sha256;
use crate::records::{
    copy_targets, Approval, EstateError, Event, EventKind, Operation, Outcome, Plan, Preview,
    ProjectFingerprint, ProviderCard, Reconciliation, Run, RunState, SanitizedInventory, Symbol,
    Target, Verification, SCHEMA_VERSION, is_symbol_text, same_project,
};
use crate::provider::EstateProvider;

verus! {

/// The fault the model injects into its next answers.
#[derive(Clone, Copy, Debug, Default, Eq, PartialEq, Structural)]
pub enum Fault {
    #[default]
    NoFault,
    StalePlan,
    TargetDisappears,
    PreviewUnsupported,
    VerificationFails,
    NotDispatched,
    UnknownAfterDispatch,
    MalformedEvent,
    Cancelled,
}

/// What a dispatched run does to its target.
#[derive(Clone, Copy, Debug, Default, Eq, PartialEq, Structural)]
pub enum DispatchOutcome {
    #[default]
    Changed,
    Unchanged,
}

/// A scripted estate: one provider whose state and faults tests set.
pub struct ModelEstate {
    tick: u64,
    revision: u64,
    project: ProjectFingerprint,
    targets: Vec<Target>,
    events: Vec<EventKind>,
    fault: Fault,
    outcome: DispatchOutcome,
    dispatched: bool,
}

/// What the model holds.
pub struct ModelFacts {
    pub tick: u64,
    pub revision: u64,
    pub project: ProjectFingerprint,
    pub targets: Seq<Target>,
    pub events: Seq<EventKind>,
    pub fault: Fault,
    pub outcome: DispatchOutcome,
    pub dispatched: bool,
}

impl View for ModelEstate {
    type V = ModelFacts;

    closed spec fn view(&self) -> ModelFacts {
        ModelFacts {
            tick: self.tick,
            revision: self.revision,
            project: self.project,
            targets: self.targets@,
            events: self.events@,
            fault: self.fault,
            outcome: self.outcome,
            dispatched: self.dispatched,
        }
    }
}

/// The text `fixture-project-v1`, whose digest fingerprints the fixture project.
pub open spec fn fixture_project_text() -> Seq<char> {
    seq!['f', 'i', 'x', 't', 'u', 'r', 'e', '-', 'p', 'r', 'o', 'j', 'e', 'c', 't', '-', 'v', '1']
}

pub open spec fn fixture_target_text() -> Seq<char> {
    seq!['f', 'l', 'e', 'e', 't', '/', 'w', 'e', 'b']
}

pub open spec fn model_provider_text() -> Seq<char> {
    seq!['p', 'r', 'o', 'v', 'i', 'd', 'e', 'r', '/', 'm', 'o', 'd', 'e', 'l']
}

pub open spec fn model_plan_text() -> Seq<char> {
    seq!['p', 'l', 'a', 'n', '/', 'm', 'o', 'd', 'e', 'l', '-', '1']
}

pub open spec fn model_run_text() -> Seq<char> {
    seq!['r', 'u', 'n', '/', 'm', 'o', 'd', 'e', 'l', '-', '1']
}

pub open spec fn model_risk_text() -> Seq<char> {
    seq!['r', 'i', 's', 'k', '/', 'm', 'e', 'd', 'i', 'u', 'm']
}

pub open spec fn preview_text() -> Seq<char> {
    seq!['p', 'r', 'e', 'v', 'i', 'e', 'w']
}

pub open spec fn model_check_text() -> Seq<char> {
    seq!['c', 'h', 'e', 'c', 'k', '/', 'm', 'o', 'd', 'e', 'l', '-', 's', 't', 'a', 't', 'e']
}

pub open spec fn inspect_capability_text() -> Seq<char> {
    seq!['e', 's', 't', 'a', 't', 'e', '/', 'i', 'n', 's', 'p', 'e', 'c', 't']
}

pub open spec fn change_capability_text() -> Seq<char> {
    seq!['e', 's', 't', 'a', 't', 'e', '/', 'c', 'h', 'a', 'n', 'g', 'e']
}

/// The model has a target with id `id`.
pub open spec fn has_target(targets: Seq<Target>, id: Seq<char>) -> bool {
    exists|i: int| 0 <= i < targets.len() && (#[trigger] targets[i]).id@ == id
}

/// The state a reconciliation of the model reports.
pub open spec fn reconciled_state(m: ModelFacts) -> RunState {
    if !m.dispatched {
        RunState::NotDispatched
    } else if m.fault == Fault::UnknownAfterDispatch {
        RunState::UnknownAfterDispatch
    } else if m.fault == Fault::Cancelled {
        RunState::Cancelled
    } else if m.outcome == DispatchOutcome::Changed {
        RunState::Changed
    } else {
        RunState::Unchanged
    }
}

/// A cancelled run reconciles as cancelled: a dispatched run whose fault is
/// a cancellation reconciles as cancelled whatever its dispatch outcome, a
/// cancellation of a dispatched run leaves it reconciling as cancelled
/// whatever fault it had before, and a run never dispatched reconciles as
/// not dispatched.
pub proof fn law_cancelled_run_reconciles_cancelled(m: ModelFacts)
    ensures
        m.dispatched && m.fault == Fault::Cancelled ==> reconciled_state(m) == RunState::Cancelled,
        m.dispatched ==> reconciled_state(ModelFacts { fault: Fault::Cancelled, ..m }) == RunState::Cancelled,
        !m.dispatched ==> reconciled_state(m) == RunState::NotDispatched,
        m.dispatched && m.fault != Fault::Cancelled && m.fault != Fault::UnknownAfterDispatch ==> (reconciled_state(m)
            == RunState::Changed <==> m.outcome == DispatchOutcome::Changed),
{
}

/// The refusal `perform` answers with, if any.
pub open spec fn perform_refusal(m: ModelFacts, plan: Plan, approval: Approval) -> Option<EstateError> {
    if m.fault == Fault::StalePlan || plan.inventory_revision != m.revision
        || !same_project(plan.project, m.project) || !same_project(approval.project, plan.project) {
        Some(EstateError::StalePlan)
    } else if m.fault == Fault::TargetDisappears || !has_target(m.targets, plan.operation.target@) {
        Some(EstateError::TargetDisappeared)
    } else if m.fault == Fault::NotDispatched {
        Some(EstateError::NotDispatched)
    } else if m.fault == Fault::UnknownAfterDispatch {
        Some(EstateError::UnknownAfterDispatch)
    } else {
        None
    }
}

impl ModelEstate {
    /// The fixture: tick 0, inventory revision 1, the fixture project, one
    /// target `fleet/web`, events accepted/progress/changed, no fault, a
    /// changing outcome, nothing dispatched.
    pub fn fixture() -> (r: Self)
        ensures
            r@.tick == 0,
            r@.revision == 1,
            r@.project.version == SCHEMA_VERSION,
            r@.project.digest@ == sha256(crate::codec::text_bytes(fixture_project_text())),
            r@.targets.len() == 1,
            r@.targets[0].version == 1,
            r@.targets[0].id@ == fixture_target_text(),
            r@.targets[0].labels@.len() == 0,
            r@.events == seq![EventKind::Accepted, EventKind::Progress, EventKind::Changed],
            r@.fault == Fault::NoFault,
            r@.outcome == DispatchOutcome::Changed,
            !r@.dispatched,
    {
        let text = crate::text::string_of(&vec![
            'f', 'i', 'x', 't', 'u', 'r', 'e', '-', 'p', 'r', 'o', 'j', 'e', 'c', 't', '-', 'v', '1',
        ]);
        let project = ProjectFingerprint::of(text.as_str().as_bytes());
        let mut targets: Vec<Target> = Vec::new();
        targets.push(
            Target {
                version: 1,
                id: Symbol::known(vec!['f', 'l', 'e', 'e', 't', '/', 'w', 'e', 'b']),
                labels: Vec::new(),
            },
        );
        let mut events: Vec<EventKind> = Vec::new();
        events.push(EventKind::Accepted);
        events.push(EventKind::Progress);
        events.push(EventKind::Changed);
        let r = ModelEstate {
            tick: 0,
            revision: 1,
            project,
            targets,
            events,
            fault: Fault::NoFault,
            outcome: DispatchOutcome::Changed,
            dispatched: false,
        };
        assert(r@.events =~= seq![EventKind::Accepted, EventKind::Progress, EventKind::Changed]);
        r
    }

    /// Injects `fault` into the model's next answers.
    pub fn inject(&mut self, fault: Fault)
        ensures
            final(self)@ == (ModelFacts { fault, ..old(self)@ }),
    {
        self.fault = fault;
    }

    /// Sets what a dispatched run does.
    pub fn set_outcome(&mut self, outcome: DispatchOutcome)
        ensures
            final(self)@ == (ModelFacts { outcome, ..old(self)@ }),
    {
        self.outcome = outcome;
    }

    /// Scripts the callback events of the next runs.
    pub fn script_events(&mut self, events: Vec<EventKind>)
        ensures
            final(self)@ == (ModelFacts { events: events@, ..old(self)@ }),
    {
        self.events = events;
    }

    /// Moves the model's clock forward by `ticks`, stopping at the largest tick.
    pub fn advance(&mut self, ticks: u64)
        ensures
            final(self)@ == (ModelFacts {
                tick: if old(self)@.tick + ticks > u64::MAX { u64::MAX } else { (old(self)@.tick + ticks) as u64 },
                ..old(self)@
            }),
    {
        self.tick = self.tick.saturating_add(ticks);
    }

    /// Replaces the project the model holds with one of content `content`.
    pub fn revise_project(&mut self, content: &[u8])
        ensures
            final(self)@ == (ModelFacts { project: ProjectFingerprint { version: SCHEMA_VERSION, digest: final(self)@.project.digest }, ..old(self)@ }),
            final(self)@.project.digest@ == sha256(content@),
    {
        self.project = ProjectFingerprint::of(content);
    }

    /// Replaces the inventory's targets; this is a new inventory revision.
    pub fn replace_inventory(&mut self, targets: Vec<Target>)
        requires
            old(self)@.revision < u64::MAX,
        ensures
            final(self)@ == (ModelFacts {
                targets: targets@,
                revision: (old(self)@.revision + 1) as u64,
                ..old(self)@
            }),
    {
        self.targets = targets;
        self.revision = self.revision + 1;
    }

    /// The project the model holds.
    pub fn project(&self) -> (r: &ProjectFingerprint)
        ensures
            *r == self@.project,
    {
        &self.project
    }

    /// The callback events scripted for the next runs.
    pub fn scripted_events(&self) -> (r: &Vec<EventKind>)
        ensures
            r@ == self@.events,
    {
        &self.events
    }

    fn has_target_exec(&self, id: &Symbol) -> (r: bool)
        ensures
            r == has_target(self@.targets, id@),
    {
        let mut i: usize = 0;
        while i < self.targets.len()
            invariant
                i <= self.targets@.len(),
                forall|j: int| 0 <= j < i ==> (#[trigger] self.targets@[j]).id@ != id@,
            decreases self.targets.len() - i,
        {
            if self.targets[i].id.same(id) {
                assert(self.targets@[i as int].id@ == id@);
                return true;
            }
            i = i + 1;
        }
        false
    }

    fn reconcile_state(&self) -> (r: RunState)
        ensures
            r == reconciled_state(self@),
    {
        if !self.dispatched {
            RunState::NotDispatched
        } else if self.fault == Fault::UnknownAfterDispatch {
            RunState::UnknownAfterDispatch
        } else if self.fault == Fault::Cancelled {
            RunState::Cancelled
        } else {
            match self.outcome {
                DispatchOutcome::Changed => RunState::Changed,
                DispatchOutcome::Unchanged => RunState::Unchanged,
            }
        }
    }
}

impl Default for ModelEstate {
    fn default() -> (r: Self)
        ensures
            r@.tick == 0,
            r@.revision == 1,
            r@.fault == Fault::NoFault,
            !r@.dispatched,
    {
        Self::fixture()
    }
}

impl EstateProvider for ModelEstate {
    fn discover(&mut self) -> (r: Result<(ProviderCard, SanitizedInventory), EstateError>)
        ensures
            final(self)@ == old(self)@,
            r matches Ok((card, inventory)) && {
                &&& card.version == 1
                &&& card.provider@ == model_provider_text()
                &&& card.capabilities@.len() == 2
                &&& card.capabilities@[0]@ == inspect_capability_text()
                &&& card.capabilities@[1]@ == change_capability_text()
                &&& card.max_targets == 1024
                &&& inventory.version == 1
                &&& inventory.revision == old(self)@.revision
                &&& targets_code(inventory.targets@) == targets_code(old(self)@.targets)
                &&& inventory.targets@.len() == old(self)@.targets.len()
                &&& forall|i: int| 0 <= i < inventory.targets@.len() ==> (#[trigger] inventory.targets@[i]).id == old(self)@.targets[i].id
                &&& forall|i: int| 0 <= i < inventory.targets@.len() ==> (#[trigger] inventory.targets@[i]).version == old(
                    self,
                )@.targets[i].version && inventory.targets@[i].labels@ == old(self)@.targets[i].labels@
            },
    {
        let mut capabilities: Vec<Symbol> = Vec::new();
        capabilities.push(Symbol::known(vec!['e', 's', 't', 'a', 't', 'e', '/', 'i', 'n', 's', 'p', 'e', 'c', 't']));
        capabilities.push(Symbol::known(vec!['e', 's', 't', 'a', 't', 'e', '/', 'c', 'h', 'a', 'n', 'g', 'e']));
        Ok((
            ProviderCard {
                version: 1,
                provider: Symbol::known(vec!['p', 'r', 'o', 'v', 'i', 'd', 'e', 'r', '/', 'm', 'o', 'd', 'e', 'l']),
                capabilities,
                max_targets: 1024,
            },
            SanitizedInventory { version: 1, revision: self.revision, targets: copy_targets(&self.targets) },
        ))
    }

    fn plan(&mut self, operation: Operation, project: ProjectFingerprint) -> (r: Result<Plan, EstateError>)
        ensures
            final(self)@ == old(self)@,
            old(self)@.fault == Fault::TargetDisappears || !has_target(old(self)@.targets, operation.target@)
                ==> r == Err::<Plan, EstateError>(EstateError::TargetDisappeared),
            !(old(self)@.fault == Fault::TargetDisappears || !has_target(old(self)@.targets, operation.target@))
                ==> (r matches Ok(p) && {
                &&& p.version == 1
                &&& p.id@ == model_plan_text()
                &&& p.operation == operation
                &&& p.inventory_revision == old(self)@.revision
                &&& p.project == project
                &&& p.risk@ == model_risk_text()
                &&& p.preview is None
            }),
    {
        if self.fault == Fault::TargetDisappears || !self.has_target_exec(&operation.target) {
            return Err(EstateError::TargetDisappeared);
        }
        let revision = self.revision;
        Ok(Plan {
            version: 1,
            id: Symbol::known(vec!['p', 'l', 'a', 'n', '/', 'm', 'o', 'd', 'e', 'l', '-', '1']),
            operation,
            inventory_revision: revision,
            project,
            risk: Symbol::known(vec!['r', 'i', 's', 'k', '/', 'm', 'e', 'd', 'i', 'u', 'm']),
            preview: None,
        })
    }

    fn preview(&mut self, plan: &Plan) -> (r: Result<Preview, EstateError>)
        ensures
            final(self)@ == old(self)@,
            old(self)@.fault == Fault::PreviewUnsupported ==> (r matches Err(EstateError::Unsupported(s)) && s@ == preview_text()),
            old(self)@.fault != Fault::PreviewUnsupported ==> (r matches Ok(p) && p.notices@.len() == 0
                && p.changed_targets == (if old(self)@.outcome == DispatchOutcome::Changed { 1u32 } else { 0u32 })),
    {
        if self.fault == Fault::PreviewUnsupported {
            return Err(EstateError::Unsupported(Symbol::known(vec!['p', 'r', 'e', 'v', 'i', 'e', 'w'])));
        }
        Ok(Preview {
            changed_targets: if self.outcome == DispatchOutcome::Changed { 1 } else { 0 },
            notices: Vec::new(),
        })
    }

    fn perform(&mut self, plan: &Plan, approval: &Approval) -> (r: Result<Run, EstateError>)
        ensures
            match perform_refusal(old(self)@, *plan, *approval) {
                Some(e) => r == Err::<Run, EstateError>(e),
                None => r matches Ok(run) && run.version == 1 && run.id@ == model_run_text()
                    && run.plan == plan.id && run.dispatched_at == old(self)@.tick,
            },
            final(self)@ == (ModelFacts {
                dispatched: old(self)@.dispatched || perform_refusal(old(self)@, *plan, *approval) is None
                    || perform_refusal(old(self)@, *plan, *approval) == Some(EstateError::UnknownAfterDispatch),
                ..old(self)@
            }),
    {
        if self.fault == Fault::StalePlan || plan.inventory_revision != self.revision
            || !plan.project.same(&self.project) || !approval.project.same(&plan.project) {
            return Err(EstateError::StalePlan);
        }
        if self.fault == Fault::TargetDisappears || !self.has_target_exec(&plan.operation.target) {
            return Err(EstateError::TargetDisappeared);
        }
        if self.fault == Fault::NotDispatched {
            return Err(EstateError::NotDispatched);
        }
        self.dispatched = true;
        if self.fault == Fault::UnknownAfterDispatch {
            return Err(EstateError::UnknownAfterDispatch);
        }
        Ok(Run {
            version: 1,
            id: Symbol::known(vec!['r', 'u', 'n', '/', 'm', 'o', 'd', 'e', 'l', '-', '1']),
            plan: plan.id.clone(),
            dispatched_at: self.tick,
        })
    }

    fn events(&mut self, run: &Run, limit: u32) -> (r: Result<Vec<Event>, EstateError>)
        ensures
            final(self)@ == old(self)@,
            old(self)@.fault == Fault::MalformedEvent ==> (r matches Ok(v) && v@.len() == 1
                && v@[0].version == 1 && v@[0].kind == EventKind::Malformed && v@[0].sequence == 0 && v@[0].at == old(self)@.tick),
            old(self)@.fault != Fault::MalformedEvent ==> (r matches Ok(v) && {
                &&& v@.len() == (if old(self)@.events.len() < limit { old(self)@.events.len() } else { limit as nat })
                &&& forall|i: int| 0 <= i < v@.len() ==> {
                    &&& (#[trigger] v@[i]).version == 1
                    &&& v@[i].sequence == i
                    &&& v@[i].kind == old(self)@.events[i]
                    &&& v@[i].at == (if old(self)@.tick + i > u64::MAX { u64::MAX } else { (old(self)@.tick + i) as u64 })
                }
            }),
    {
        if self.fault == Fault::MalformedEvent {
            let mut v: Vec<Event> = Vec::new();
            v.push(Event { version: 1, sequence: 0, at: self.tick, kind: EventKind::Malformed });
            return Ok(v);
        }
        let n: usize = if self.events.len() < limit as usize { self.events.len() } else { limit as usize };
        let mut out: Vec<Event> = Vec::new();
        let mut i: usize = 0;
        while i < n
            invariant
                n <= self.events@.len(),
                n <= limit,
                i <= n,
                out@.len() == i,
                forall|j: int| 0 <= j < i ==> {
                    &&& (#[trigger] out@[j]).version == 1
                    &&& out@[j].sequence == j
                    &&& out@[j].kind == self.events@[j]
                    &&& out@[j].at == (if self.tick + j > u64::MAX { u64::MAX } else { (self.tick + j) as u64 })
                },
            decreases n - i,
        {
            out.push(Event {
                version: 1,
                sequence: i as u32,
                at: self.tick.saturating_add(i as u64),
                kind: self.events[i],
            });
            i = i + 1;
        }
        Ok(out)
    }

    fn verify(&mut self, run: &Run) -> (r: Result<Verification, EstateError>)
        ensures
            final(self)@ == old(self)@,
            old(self)@.fault == Fault::VerificationFails ==> r == Err::<Verification, EstateError>(EstateError::VerificationFailed),
            old(self)@.fault != Fault::VerificationFails ==> (r matches Ok(v) && v.version == 1
                && v.run == run.id && v.passed && v.checks@.len() == 1 && v.checks@[0]@ == model_check_text()),
    {
        if self.fault == Fault::VerificationFails {
            return Err(EstateError::VerificationFailed);
        }
        let mut checks: Vec<Symbol> = Vec::new();
        checks.push(Symbol::known(vec!['c', 'h', 'e', 'c', 'k', '/', 'm', 'o', 'd', 'e', 'l', '-', 's', 't', 'a', 't', 'e']));
        Ok(Verification { version: 1, run: run.id.clone(), passed: true, checks })
    }

    fn reconcile(&mut self, run: &Run) -> (r: Result<Reconciliation, EstateError>)
        ensures
            final(self)@ == old(self)@,
            r matches Ok(rc) && rc.version == 1 && rc.run == run.id
                && rc.state == reconciled_state(old(self)@) && rc.observed_at == old(self)@.tick,
    {
        let state = self.reconcile_state();
        Ok(Reconciliation { version: 1, run: run.id.clone(), state, observed_at: self.tick })
    }

    fn cancel(&mut self, run: &Run) -> (r: Result<Outcome, EstateError>)
        ensures
            final(self)@ == (ModelFacts { fault: Fault::Cancelled, ..old(self)@ }),
            r matches Ok(o) && {
                &&& o.version == SCHEMA_VERSION
                &&& o.run == Some(run.id)
                &&& o.state == RunState::Cancelled
                &&& o.verification is None
                &&& o.reconciliation matches Some(rc) && rc.run == run.id && rc.observed_at == old(self)@.tick
                    && rc.state == reconciled_state(ModelFacts { fault: Fault::Cancelled, ..old(self)@ })
            },
    {
        self.fault = Fault::Cancelled;
        let reconciliation = self.reconcile(run)?;
        Ok(Outcome {
            version: SCHEMA_VERSION,
            run: Some(run.id.clone()),
            state: RunState::Cancelled,
            verification: None,
            reconciliation: Some(reconciliation),
        })
    }
}

} // verus!
