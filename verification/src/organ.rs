//! Guarded, durable estate plan/apply/reconcile composition.
use vstd::prelude::*;
use crate::book::{
    open_text, consumed_after, lemma_approval_single_use, lemma_consumed_after_cell, plan_and_state, content_key, LeaseRecord, LeaseView, appended, approvals_kept, is_free, lease_code, lease_key, lease_state_of, leased,
    lemma_append_outside_history, lemma_history_intern, lemma_history_other_write, lemma_intern_outside_history,
    lemma_key_kinds, lemma_lease_key_injective, lemma_lease_state_cell, lemma_lease_outside_history, lemma_lease_roundtrip, head_key,
    approval_code, approval_key, approval_record, ApprovalRecord, history, ApprovalUse, Book,
    EventKind as BookEvent, EventRecord,
};
use crate::canon::{
    card_code, targets_code, encode_card, encode_fingerprint, encode_inventory, encode_operation,
    encode_parameters, encode_symbol, encode_symbols, encode_text, encode_num, encode_flag,
    encode_preview, fingerprint_code, frame_of, inventory_code, operation_code, parameters_code, preview_code, symbol_code,
    symbols_code,
};
use crate::codec::{fits, flag_bytes, frame, num_bytes, text_bytes};
use crate::order::{by_id, lemma_by_id, sort_by_id, sorted_by_id, with_id};
use crate::provider::EstateProvider;
use crate::records::{
    copy_parameters, is_symbol_text, EstateError, Operation, OperationMode, Plan, Preview,
    ProjectFingerprint, ProviderCard, RunState, SanitizedInventory, Symbol, Target, Value,
    Verification,
};
use crate::table::{absent_or_same, cell, BookError, Key, Table};
use crate::text::{chars_of, decimal_text, push_chars, push_decimal, push_str, same_text, string_of};

verus! {

/// What an apply must do besides performing: preview first, verify after,
/// and how long plans and leases last.
#[derive(Clone, Copy, Debug, Eq, PartialEq, Structural)]
pub struct Policy {
    pub preview: bool,
    pub verify: bool,
    pub ttl: u64,
}

/// Everything a plan binds, interned under its content key.
#[derive(Debug, Eq, PartialEq)]
pub struct ImmutablePlan {
    pub provider: ProviderCard,
    pub inventory: SanitizedInventory,
    pub project: ProjectFingerprint,
    pub operation: Operation,
    pub targets: Vec<Symbol>,
    pub values: Vec<(Symbol, Value)>,
    pub program_card: Key,
    pub provider_card: Key,
    pub policy: Policy,
    pub nonce: String,
    pub risk: Symbol,
    pub expires_at: u64,
}

/// A plan, its content key, and the provider's preview of it.
#[derive(Debug, Eq, PartialEq)]
pub struct Planned {
    pub key: Key,
    pub plan: ImmutablePlan,
    pub preview: Option<Preview>,
}

/// What an effect gate is asked to let through.
#[derive(Debug, Eq, PartialEq)]
pub struct EffectRequest {
    pub plan: Key,
    pub provider: Symbol,
    pub operation: Symbol,
    pub project: ProjectFingerprint,
    pub inventory: Key,
    pub targets: Vec<Symbol>,
    pub approval: Key,
}

#[derive(Clone, Copy, Debug, Eq, PartialEq, Structural)]
pub enum ApplyState {
    Verified,
    ProcessCompleteUnverified,
    Quarantined,
}

#[derive(Debug, Eq, PartialEq)]
pub struct ApplyOutcome {
    pub run: String,
    pub state: ApplyState,
    pub verification: Option<Verification>,
}

/// Why the organ refused or failed.
#[derive(Debug, Eq, PartialEq)]
pub enum Error {
    Book(BookError),
    Estate(EstateError),
    Refused { reason: String, observed: String },
    Gate(String),
}

/// The time, in the caller's ticks. Nothing is promised of what it returns.
pub trait Clock {
    fn now(&self) -> u64;
}

/// Decides whether the effect that `request` describes may be performed now.
/// The organ performs the effect only after `allow` returns `Ok`.
pub trait EffectGate {
    fn allow(&mut self, request: &EffectRequest) -> Result<(), Error>;
}

/// Reads what private artifacts say of a run's state.
pub trait ArtifactReader {
    fn reconcile(&self, run: &str) -> Result<Option<RunState>, Error>;
}

pub open spec fn policy_code(p: Policy) -> Seq<u8> {
    frame(seq![flag_bytes(p.preview), flag_bytes(p.verify), num_bytes(p.ttl)])
}

pub open spec fn plan_fields(p: ImmutablePlan) -> Seq<Seq<u8>> {
    seq![
        card_code(p.provider),
        inventory_code(p.inventory),
        fingerprint_code(p.project),
        operation_code(p.operation),
        symbols_code(p.targets@),
        parameters_code(p.values@),
        text_bytes(p.program_card@),
        text_bytes(p.provider_card@),
        policy_code(p.policy),
        text_bytes(p.nonce@),
        symbol_code(p.risk),
        num_bytes(p.expires_at),
    ]
}

/// The canonical encoding of a plan: its content.
pub open spec fn plan_code(p: ImmutablePlan) -> Seq<u8> {
    frame(plan_fields(p))
}

/// The canonical encoding of an approval grant: approval id, plan key,
/// the person who approved, run.
pub open spec fn review_code(id: Seq<char>, plan: Seq<char>, reviewer: Seq<char>, run: Seq<char>) -> Seq<u8> {
    frame(seq![text_bytes(id), text_bytes(plan), text_bytes(reviewer), text_bytes(run)])
}

pub fn encode_policy(p: &Policy) -> (r: Vec<u8>)
    ensures
        r@ == policy_code(*p),
{
    let fs = vec![encode_flag(p.preview), encode_flag(p.verify), encode_num(p.ttl)];
    assert(fs@.map_values(|f: Vec<u8>| f@) =~= seq![flag_bytes(p.preview), flag_bytes(p.verify), num_bytes(p.ttl)]);
    frame_of(&fs)
}

pub fn encode_plan(p: &ImmutablePlan) -> (r: Vec<u8>)
    ensures
        r@ == plan_code(*p),
{
    let fs = vec![
        encode_card(&p.provider),
        encode_inventory(&p.inventory),
        encode_fingerprint(&p.project),
        encode_operation(&p.operation),
        encode_symbols(&p.targets),
        encode_parameters(&p.values),
        encode_text(p.program_card.0.as_str()),
        encode_text(p.provider_card.0.as_str()),
        encode_policy(&p.policy),
        encode_text(p.nonce.as_str()),
        encode_symbol(&p.risk),
        encode_num(p.expires_at),
    ];
    assert(fs@.map_values(|f: Vec<u8>| f@) =~= plan_fields(*p));
    frame_of(&fs)
}

fn encode_review(id: &str, plan: &Key, reviewer: &str, run: &str) -> (r: Vec<u8>)
    ensures
        r@ == review_code(id@, plan@, reviewer@, run@),
{
    let fs = vec![encode_text(id), encode_text(plan.0.as_str()), encode_text(reviewer), encode_text(run)];
    assert(fs@.map_values(|f: Vec<u8>| f@) =~= seq![text_bytes(id@), text_bytes(plan@), text_bytes(reviewer@), text_bytes(run@)]);
    frame_of(&fs)
}

/// How many targets have id `id`.
pub open spec fn id_count(ts: Seq<Target>, id: Seq<char>) -> nat
    decreases ts.len(),
{
    if ts.len() == 0 {
        0
    } else {
        id_count(ts.drop_last(), id) + if ts.last().id@ == id { 1nat } else { 0nat }
    }
}

/// The ids of the targets that are `target`: one per matching target.
pub fn select_targets(targets: &Vec<Target>, target: &Symbol) -> (r: Vec<Symbol>)
    ensures
        r@.len() == id_count(targets@, target@),
        forall|i: int| 0 <= i < r@.len() ==> (#[trigger] r@[i])@ == target@,
{
    let mut out: Vec<Symbol> = Vec::new();
    let mut i: usize = 0;
    while i < targets.len()
        invariant
            i <= targets@.len(),
            out@.len() == id_count(targets@.take(i as int), target@),
            forall|j: int| 0 <= j < out@.len() ==> (#[trigger] out@[j])@ == target@,
        decreases targets.len() - i,
    {
        proof {
            assert(targets@.take(i + 1).drop_last() =~= targets@.take(i as int));
        }
        if targets[i].id.same(target) {
            out.push(targets[i].id.clone());
        }
        i = i + 1;
    }
    assert(targets@.take(targets@.len() as int) =~= targets@);
    out
}

/// `risk/high` for a change, `risk/read` for an inspection.
pub open spec fn risk_text(mode: OperationMode) -> Seq<char> {
    if mode == OperationMode::Change {
        seq!['r', 'i', 's', 'k', '/', 'h', 'i', 'g', 'h']
    } else {
        seq!['r', 'i', 's', 'k', '/', 'r', 'e', 'a', 'd']
    }
}

/// A plan's risk separates the two modes: a change is planned as
/// `risk/high`, an inspection as `risk/read`, and the two never share a
/// risk.
pub proof fn law_risk_separates_modes(a: OperationMode, b: OperationMode)
    ensures
        risk_text(OperationMode::Change) == "risk/high"@,
        risk_text(OperationMode::Inspect) == "risk/read"@,
        a != b ==> risk_text(a) != risk_text(b),
{
    reveal_strlit("risk/high");
    reveal_strlit("risk/read");
    assert(risk_text(OperationMode::Change) =~= "risk/high"@);
    assert(risk_text(OperationMode::Inspect) =~= "risk/read"@);
    assert(risk_text(OperationMode::Change)[5] != risk_text(OperationMode::Inspect)[5]);
}

fn risk_for(mode: OperationMode) -> (r: Symbol)
    ensures
        r@ == risk_text(mode),
{
    match mode {
        OperationMode::Change => Symbol::known(vec!['r', 'i', 's', 'k', '/', 'h', 'i', 'g', 'h']),
        OperationMode::Inspect => Symbol::known(vec!['r', 'i', 's', 'k', '/', 'r', 'e', 'a', 'd']),
    }
}

/// The provider-facing id of a plan: `plan/` and characters 7 to 23 of its key.
pub open spec fn provider_plan_id(key: Seq<char>) -> Seq<char> {
    seq!['p', 'l', 'a', 'n', '/'] + key.subrange(7, 23)
}

/// The provider-facing plan for `p`, stored under `key`.
pub fn to_provider_plan(key: &Key, p: &ImmutablePlan) -> (r: Result<Plan, Error>)
    requires
        key@.len() >= 23,
    ensures
        match r {
            Ok(plan) => {
                &&& is_symbol_text(provider_plan_id(key@))
                &&& plan.version == 1
                &&& plan.id@ == provider_plan_id(key@)
                &&& plan.operation.exposure == p.operation.exposure
                &&& plan.operation.target == p.operation.target
                &&& plan.operation.mode == p.operation.mode
                &&& plan.operation.version == p.operation.version
                &&& parameters_code(plan.operation.parameters@) == parameters_code(p.operation.parameters@)
                &&& plan.inventory_revision == p.inventory.revision
                &&& plan.project == p.project
                &&& plan.risk == p.risk
                &&& plan.preview is None
            },
            Err(e) => !is_symbol_text(provider_plan_id(key@)) && e == Error::Estate(EstateError::InvalidSymbol),
        },
{
    let k = chars_of(key.0.as_str());
    let mut cs = vec!['p', 'l', 'a', 'n', '/'];
    let mut i: usize = 7;
    while i < 23
        invariant
            7 <= i <= 23,
            k@ == key@,
            k@.len() >= 23,
            cs@ == seq!['p', 'l', 'a', 'n', '/'] + k@.subrange(7, i as int),
        decreases 23 - i,
    {
        cs.push(k[i]);
        proof {
            assert(k@.subrange(7, i + 1) =~= k@.subrange(7, i as int).push(k@[i as int]));
            assert(seq!['p', 'l', 'a', 'n', '/'] + k@.subrange(7, i + 1) =~= (seq!['p', 'l', 'a', 'n', '/'] + k@.subrange(7, i as int)).push(k@[i as int]));
        }
        i = i + 1;
    }
    let id = match Symbol::from_chars(&cs) {
        Ok(s) => s,
        Err(e) => return Err(Error::Estate(e)),
    };
    Ok(Plan {
        version: 1,
        id,
        operation: p.operation.clone(),
        inventory_revision: p.inventory.revision,
        project: p.project,
        risk: p.risk.clone(),
        preview: None,
    })
}

/// `verified` and `Changed` read as changed, `process-complete/unverified`
/// as running, `Unchanged` as unchanged, anything else as unknown.
pub open spec fn state_from_text(s: Seq<char>) -> RunState {
    if s == verified_text() || s == run_state_name(RunState::Changed) {
        RunState::Changed
    } else if s == unverified_text() {
        RunState::Running
    } else if s == run_state_name(RunState::Unchanged) {
        RunState::Unchanged
    } else {
        RunState::UnknownAfterDispatch
    }
}

/// What a reconcile reports of a run that an apply finished in state `s`:
/// a verified run as changed, an unverified one as running, a quarantined
/// one as unknown after dispatch.
pub open spec fn reported_state(s: ApplyState) -> RunState {
    match s {
        ApplyState::Verified => RunState::Changed,
        ApplyState::ProcessCompleteUnverified => RunState::Running,
        ApplyState::Quarantined => RunState::UnknownAfterDispatch,
    }
}

/// A reconcile reads back the state an apply recorded: the final state an
/// apply writes is never `open`, so a reconcile of that run reads it
/// without consulting the artifacts, as `reported_state` says.
pub proof fn law_reconcile_reads_applied_state(h: Seq<EventRecord>, s: ApplyState)
    requires
        plan_and_state(h).1 == apply_state_text(s),
    ensures
        plan_and_state(h).1 != open_text(),
        state_from_text(plan_and_state(h).1) == reported_state(s),
{
    assert(verified_text()[0] != open_text()[0]);
    assert(unverified_text()[0] != open_text()[0]);
    assert(quarantined_text()[0] != open_text()[0]);
    assert(unverified_text() != verified_text());
    assert(quarantined_text() != verified_text());
    assert(verified_text()[0] != run_state_name(RunState::Changed)[0]);
    assert(unverified_text()[0] != run_state_name(RunState::Changed)[0]);
    assert(quarantined_text()[0] != run_state_name(RunState::Changed)[0]);
    assert(quarantined_text() != unverified_text());
    assert(quarantined_text()[0] != run_state_name(RunState::Unchanged)[0]);
}

/// A history that grows by `events` and then the final `quarantined` state
/// shows that state.
proof fn lemma_quarantined_last(
    c1: Map<Seq<char>, Seq<u8>>,
    c2: Map<Seq<char>, Seq<u8>>,
    run: Seq<char>,
    names: Seq<Seq<char>>,
    events: Seq<EventRecord>,
)
    requires
        advanced(c1, c2, run, names, events + seq![EventRecord::Final { state: quarantined_text() }]),
    ensures
        history(c1, run) is Some ==> (history(c2, run) matches Some(h) && plan_and_state(h).1 == quarantined_text()),
{
    if history(c1, run) is Some {
        let tail = events + seq![EventRecord::Final { state: quarantined_text() }];
        let h = history(c1, run)->0 + tail;
        assert(h.last() == tail.last());
        assert(tail.last() == EventRecord::Final { state: quarantined_text() });
    }
}

/// The state a settled reconciliation reads back: the state it recorded
/// where that state's name reads as itself (changed, unchanged, unknown
/// after dispatch), unknown after dispatch otherwise.
pub open spec fn read_back(s: RunState) -> RunState {
    match s {
        RunState::Changed => RunState::Changed,
        RunState::Unchanged => RunState::Unchanged,
        _ => RunState::UnknownAfterDispatch,
    }
}

/// A settled reconciliation is stable: once a reconciliation has recorded
/// the final state `s` of a run, the run's state is no longer `open`, so a
/// second reconciliation reads it without consulting the artifacts and
/// finds `read_back(s)`, which reads back as itself again.
pub proof fn law_settled_reconciliation_is_stable(h: Seq<EventRecord>, s: RunState)
    ensures
        plan_and_state(h.push(EventRecord::Final { state: run_state_name(s) })).1 == run_state_name(s),
        run_state_name(s) != open_text(),
        state_from_text(run_state_name(s)) == read_back(s),
        read_back(read_back(s)) == read_back(s),
{
    let h2 = h.push(EventRecord::Final { state: run_state_name(s) });
    assert(h2.drop_last() =~= h);
    assert(run_state_name(s)[0] != open_text()[0]);
    assert(run_state_name(s)[0] != verified_text()[0]);
    assert(run_state_name(s) != unverified_text()) by {
        assert(run_state_name(s)[0] != unverified_text()[0]);
    }
    assert(run_state_name(s) == run_state_name(RunState::Changed) ==> s == RunState::Changed) by {
        if run_state_name(s) == run_state_name(RunState::Changed) {
            assert(run_state_name(s).len() == 7);
            assert(run_state_name(s)[0] == 'C' && run_state_name(s)[1] == 'h');
        }
    }
    assert(run_state_name(s) == run_state_name(RunState::Unchanged) ==> s == RunState::Unchanged) by {
        if run_state_name(s) == run_state_name(RunState::Unchanged) {
            assert(run_state_name(s).len() == 9);
            assert(run_state_name(s)[0] == 'U' && run_state_name(s)[2] == 'c');
        }
    }
}

/// A quarantine reads back as unknown after dispatch: once a run's history
/// shows the final `quarantined` state, also where the apply that
/// quarantined it ended in an error, a reconciliation reads it without
/// consulting the artifacts as unknown after dispatch.
pub proof fn law_quarantine_reads_back_unknown(h: Seq<EventRecord>)
    requires
        plan_and_state(h).1 == quarantined_text(),
    ensures
        plan_and_state(h).1 != open_text(),
        state_from_text(plan_and_state(h).1) == RunState::UnknownAfterDispatch,
{
    law_reconcile_reads_applied_state(h, ApplyState::Quarantined);
}

/// `verified`
pub open spec fn verified_text() -> Seq<char> {
    seq!['v', 'e', 'r', 'i', 'f', 'i', 'e', 'd']
}

/// `process-complete/unverified`
pub open spec fn unverified_text() -> Seq<char> {
    seq![
        'p', 'r', 'o', 'c', 'e', 's', 's', '-', 'c', 'o', 'm', 'p', 'l', 'e', 't', 'e', '/', 'u',
        'n', 'v', 'e', 'r', 'i', 'f', 'i', 'e', 'd',
    ]
}

/// `quarantined`
pub open spec fn quarantined_text() -> Seq<char> {
    seq!['q', 'u', 'a', 'r', 'a', 'n', 't', 'i', 'n', 'e', 'd']
}

/// The name of a run state, as its variant is written.
pub open spec fn run_state_name(s: RunState) -> Seq<char> {
    match s {
        RunState::NotDispatched => seq!['N', 'o', 't', 'D', 'i', 's', 'p', 'a', 't', 'c', 'h', 'e', 'd'],
        RunState::Running => seq!['R', 'u', 'n', 'n', 'i', 'n', 'g'],
        RunState::Changed => seq!['C', 'h', 'a', 'n', 'g', 'e', 'd'],
        RunState::Unchanged => seq!['U', 'n', 'c', 'h', 'a', 'n', 'g', 'e', 'd'],
        RunState::Cancelled => seq!['C', 'a', 'n', 'c', 'e', 'l', 'l', 'e', 'd'],
        RunState::Failed => seq!['F', 'a', 'i', 'l', 'e', 'd'],
        RunState::UnknownAfterDispatch => seq![
            'U', 'n', 'k', 'n', 'o', 'w', 'n', 'A', 'f', 't', 'e', 'r', 'D', 'i', 's', 'p', 'a',
            't', 'c', 'h',
        ],
    }
}

/// The name of `s`, as its variant is written.
pub fn run_state_text(s: RunState) -> (r: String)
    ensures
        r@ == run_state_name(s),
{
    let cs = match s {
        RunState::NotDispatched => vec!['N', 'o', 't', 'D', 'i', 's', 'p', 'a', 't', 'c', 'h', 'e', 'd'],
        RunState::Running => vec!['R', 'u', 'n', 'n', 'i', 'n', 'g'],
        RunState::Changed => vec!['C', 'h', 'a', 'n', 'g', 'e', 'd'],
        RunState::Unchanged => vec!['U', 'n', 'c', 'h', 'a', 'n', 'g', 'e', 'd'],
        RunState::Cancelled => vec!['C', 'a', 'n', 'c', 'e', 'l', 'l', 'e', 'd'],
        RunState::Failed => vec!['F', 'a', 'i', 'l', 'e', 'd'],
        RunState::UnknownAfterDispatch => vec![
            'U', 'n', 'k', 'n', 'o', 'w', 'n', 'A', 'f', 't', 'e', 'r', 'D', 'i', 's', 'p', 'a',
            't', 'c', 'h',
        ],
    };
    string_of(&cs)
}

fn same_seq(a: &Vec<char>, b: &Vec<char>) -> (r: bool)
    ensures
        r == (a@ == b@),
{
    if a.len() != b.len() {
        return false;
    }
    let mut i: usize = 0;
    while i < a.len()
        invariant
            a@.len() == b@.len(),
            i <= a@.len(),
            forall|j: int| 0 <= j < i ==> a@[j] == b@[j],
        decreases a.len() - i,
    {
        if a[i] != b[i] {
            return false;
        }
        i = i + 1;
    }
    assert(a@ =~= b@);
    true
}

/// The run state that a recorded final state names.
pub fn parse_state(s: &str) -> (r: RunState)
    ensures
        r == state_from_text(s@),
{
    let cs = chars_of(s);
    if same_seq(&cs, &vec!['v', 'e', 'r', 'i', 'f', 'i', 'e', 'd'])
        || same_seq(&cs, &vec!['C', 'h', 'a', 'n', 'g', 'e', 'd']) {
        RunState::Changed
    } else if same_seq(
        &cs,
        &vec![
            'p', 'r', 'o', 'c', 'e', 's', 's', '-', 'c', 'o', 'm', 'p', 'l', 'e', 't', 'e', '/', 'u',
            'n', 'v', 'e', 'r', 'i', 'f', 'i', 'e', 'd',
        ],
    ) {
        RunState::Running
    } else if same_seq(&cs, &vec!['U', 'n', 'c', 'h', 'a', 'n', 'g', 'e', 'd']) {
        RunState::Unchanged
    } else {
        RunState::UnknownAfterDispatch
    }
}

/// The planned plan `plan`, under key `key`, with what its preview answered,
/// `previewed` (`None` where none was asked for): an unsupported preview
/// counts as none, every other refusal stands.
pub fn with_preview(key: Key, plan: ImmutablePlan, previewed: Option<Result<Preview, EstateError>>) -> (r: Result<
    Planned,
    Error,
>)
    ensures
        match previewed {
            None => r == Ok::<Planned, Error>(Planned { key, plan, preview: None }),
            Some(Ok(v)) => r == Ok::<Planned, Error>(Planned { key, plan, preview: Some(v) }),
            Some(Err(EstateError::Unsupported(_))) => r == Ok::<Planned, Error>(Planned { key, plan, preview: None }),
            Some(Err(e)) => r == Err::<Planned, Error>(Error::Estate(e)),
        },
{
    let preview = match previewed {
        None => None,
        Some(answer) => match keep_preview(answer) {
            Ok(v) => v,
            Err(e) => return Err(Error::Estate(e)),
        },
    };
    Ok(Planned { key, plan, preview })
}

/// The preview an organ keeps: the provider's, none where the provider
/// does not support previews; any other refusal stands.
pub fn keep_preview(r: Result<Preview, EstateError>) -> (out: Result<Option<Preview>, EstateError>)
    ensures
        match r {
            Ok(p) => out == Ok::<Option<Preview>, EstateError>(Some(p)),
            Err(EstateError::Unsupported(_)) => out == Ok::<Option<Preview>, EstateError>(None),
            Err(e) => out == Err::<Option<Preview>, EstateError>(e),
        },
{
    match r {
        Ok(p) => Ok(Some(p)),
        Err(EstateError::Unsupported(_)) => Ok(None),
        Err(e) => Err(e),
    }
}

/// The largest tick at or below `a + b`.
pub open spec fn tick_sum(a: u64, b: u64) -> u64 {
    if a + b > u64::MAX {
        u64::MAX
    } else {
        (a + b) as u64
    }
}

/// `id_count` counts what `with_id` keeps.
proof fn lemma_id_count_with_id(ts: Seq<Target>, id: Seq<char>)
    ensures
        id_count(ts, id) == with_id(ts, id).len(),
    decreases ts.len(),
{
    if ts.len() > 0 {
        lemma_id_count_with_id(ts.drop_last(), id);
    }
}

/// The canonical encoding of the plan bound for `operation` on a discovery
/// of `card` and `inventory`: the inventory's targets in id order, one id
/// per target that is the operation's, the card's content key, the
/// operation's risk, and an expiry `policy.ttl` ticks after `now`.
pub open spec fn bound_plan_code(
    card: ProviderCard,
    inventory: SanitizedInventory,
    operation: Operation,
    project: ProjectFingerprint,
    program_card: Seq<char>,
    policy: Policy,
    nonce: Seq<char>,
    now: u64,
) -> Seq<u8> {
    frame(
        seq![
            card_code(card),
            frame(seq![num_bytes(inventory.version as u64), num_bytes(inventory.revision), targets_code(by_id(inventory.targets@))]),
            fingerprint_code(project),
            operation_code(operation),
            symbols_code(Seq::new(id_count(inventory.targets@, operation.target@), |i: int| operation.target)),
            parameters_code(operation.parameters@),
            text_bytes(program_card),
            text_bytes(content_key(card_code(card))),
            policy_code(policy),
            text_bytes(nonce),
            text_bytes(risk_text(operation.mode)),
            num_bytes(tick_sum(now, policy.ttl)),
        ],
    )
}

/// Binding the plan for `operation` on a discovery of `card` and
/// `inventory` goes through on `cells`: the operation's target is among the
/// inventory's, the card and the plan can be interned, and the plan's
/// provider id is a symbol.
pub open spec fn binds(
    cells: Map<Seq<char>, Seq<u8>>,
    card: ProviderCard,
    inventory: SanitizedInventory,
    operation: Operation,
    project: ProjectFingerprint,
    program_card: Seq<char>,
    policy: Policy,
    nonce: Seq<char>,
    now: u64,
) -> bool {
    let ck = content_key(card_code(card));
    let code = bound_plan_code(card, inventory, operation, project, program_card, policy, nonce, now);
    &&& id_count(inventory.targets@, operation.target@) > 0
    &&& absent_or_same(cells, ck, card_code(card))
    &&& absent_or_same(cells.insert(ck, card_code(card)), content_key(code), code)
    &&& is_symbol_text(provider_plan_id(content_key(code)))
}

/// The plan `p` is the one bound for `operation` on a discovery of `card`
/// and `inventory`.
pub open spec fn bound_from(
    p: ImmutablePlan,
    card: ProviderCard,
    inventory: SanitizedInventory,
    operation: Operation,
    project: ProjectFingerprint,
    program_card: Seq<char>,
    policy: Policy,
    nonce: Seq<char>,
    now: u64,
) -> bool {
    &&& p.provider == card
    &&& p.inventory.version == inventory.version
    &&& p.inventory.revision == inventory.revision
    &&& p.inventory.targets@ == by_id(inventory.targets@)
    &&& p.targets@.len() == id_count(inventory.targets@, operation.target@)
    &&& plan_code(p) == bound_plan_code(card, inventory, operation, project, program_card, policy, nonce, now)
}

/// Equal discoveries give equal plan keys: the plan that `plan_discovered`
/// binds, and so its content key, depends on the discovery and the
/// arguments alone, whatever the table holds and whatever the preview says.
pub proof fn law_equal_discoveries_equal_keys(
    p1: ImmutablePlan,
    p2: ImmutablePlan,
    card: ProviderCard,
    inventory: SanitizedInventory,
    operation: Operation,
    project: ProjectFingerprint,
    program_card: Seq<char>,
    policy: Policy,
    nonce: Seq<char>,
    now: u64,
)
    requires
        bound_from(p1, card, inventory, operation, project, program_card, policy, nonce, now),
        bound_from(p2, card, inventory, operation, project, program_card, policy, nonce, now),
    ensures
        plan_code(p1) == plan_code(p2),
        content_key(plan_code(p1)) == content_key(plan_code(p2)),
        p1.inventory.targets@ == p2.inventory.targets@,
{
}

/// A guarded estate organ over a book.
pub struct Organ<T> {
    pub book: Book<T>,
}

impl<T: Table> Organ<T> {
    /// An organ whose book is over `table`.
    pub fn new(table: T) -> (o: Self)
        ensures
            o.book.table == table,
    {
        Organ { book: Book::new(table) }
    }

    /// Discovers the estate and binds an immutable plan for `operation` on
    /// its target: the inventory's targets in id order, the target's ids, the
    /// provider card and the plan are interned, the plan expires `policy.ttl`
    /// ticks after `now`, and the provider previews it where the policy asks.
    #[verifier::spinoff_prover]
    pub fn plan<P: EstateProvider>(
        &mut self,
        provider: &mut P,
        operation: Operation,
        project: ProjectFingerprint,
        program_card: Key,
        policy: Policy,
        nonce: String,
        now: u64,
    ) -> (r: Result<Planned, Error>)
        ensures
            final(self).book.table.reliable() == old(self).book.table.reliable(),
            r matches Ok(p) ==> {
                &&& p.plan.operation == operation
                &&& p.plan.project == project
                &&& p.plan.program_card == program_card
                &&& p.plan.policy == policy
                &&& p.plan.nonce == nonce
                &&& p.plan.expires_at == tick_sum(now, policy.ttl)
                &&& parameters_code(p.plan.values@) == parameters_code(operation.parameters@)
                &&& p.plan.risk@ == risk_text(operation.mode)
                &&& sorted_by_id(p.plan.inventory.targets@)
                &&& p.plan.targets@.len() == id_count(p.plan.inventory.targets@, operation.target@)
                &&& p.plan.targets@.len() > 0
                &&& forall|i: int| 0 <= i < p.plan.targets@.len() ==> (#[trigger] p.plan.targets@[i])@ == operation.target@
                &&& p.plan.provider_card@ == content_key(card_code(p.plan.provider))
                &&& p.key@ == content_key(plan_code(p.plan))
                &&& p.key@.len() == 71
                &&& final(self).book.table.cells() == old(self).book.table.cells().insert(
                    p.plan.provider_card@,
                    card_code(p.plan.provider),
                ).insert(p.key@, plan_code(p.plan))
                &&& !policy.preview ==> p.preview is None
            },
            r matches Ok(p) ==> exists|card: ProviderCard, inventory: SanitizedInventory|
                #[trigger] bound_from(p.plan, card, inventory, operation, project, program_card@, policy, nonce@, now),
    {
        let discovered = provider.discover();
        self.plan_discovered(provider, operation, project, program_card, policy, nonce, now, discovered)
    }

    /// Binds the plan for `operation` on what the discovery answered,
    /// `discovered`: its refusal stands with nothing written; otherwise the
    /// plan is the one `bind_plan` binds on that discovery (its content key
    /// a function of the discovery and the arguments alone), and the
    /// provider previews it where the policy asks (see `with_preview`).
    #[verifier::spinoff_prover]
    pub fn plan_discovered<P: EstateProvider>(
        &mut self,
        provider: &mut P,
        operation: Operation,
        project: ProjectFingerprint,
        program_card: Key,
        policy: Policy,
        nonce: String,
        now: u64,
        discovered: Result<(ProviderCard, SanitizedInventory), EstateError>,
    ) -> (r: Result<Planned, Error>)
        ensures
            final(self).book.table.reliable() == old(self).book.table.reliable(),
            r matches Ok(p) ==> {
                &&& p.plan.operation == operation
                &&& p.plan.project == project
                &&& p.plan.program_card == program_card
                &&& p.plan.policy == policy
                &&& p.plan.nonce == nonce
                &&& p.plan.expires_at == tick_sum(now, policy.ttl)
                &&& parameters_code(p.plan.values@) == parameters_code(operation.parameters@)
                &&& p.plan.risk@ == risk_text(operation.mode)
                &&& sorted_by_id(p.plan.inventory.targets@)
                &&& p.plan.targets@.len() == id_count(p.plan.inventory.targets@, operation.target@)
                &&& p.plan.targets@.len() > 0
                &&& forall|i: int| 0 <= i < p.plan.targets@.len() ==> (#[trigger] p.plan.targets@[i])@ == operation.target@
                &&& p.plan.provider_card@ == content_key(card_code(p.plan.provider))
                &&& p.key@ == content_key(plan_code(p.plan))
                &&& p.key@.len() == 71
                &&& final(self).book.table.cells() == old(self).book.table.cells().insert(
                    p.plan.provider_card@,
                    card_code(p.plan.provider),
                ).insert(p.key@, plan_code(p.plan))
                &&& !policy.preview ==> p.preview is None
            },
            discovered matches Err(e) ==> r == Err::<Planned, Error>(Error::Estate(e)) && final(self).book.table.cells()
                == old(self).book.table.cells(),
            discovered matches Ok((card, inventory)) ==> {
                &&& r matches Ok(p) ==> bound_from(p.plan, card, inventory, operation, project, program_card@, policy, nonce@, now)
                    && p.key@ == content_key(bound_plan_code(card, inventory, operation, project, program_card@, policy, nonce@, now))
                &&& id_count(inventory.targets@, operation.target@) == 0 ==> r == Err::<Planned, Error>(
                    Error::Estate(EstateError::TargetDisappeared),
                ) && final(self).book.table.cells() == old(self).book.table.cells()
                &&& old(self).book.table.reliable() && r is Ok ==> binds(
                    old(self).book.table.cells(),
                    card,
                    inventory,
                    operation,
                    project,
                    program_card@,
                    policy,
                    nonce@,
                    now,
                )
                &&& old(self).book.table.reliable() && !policy.preview ==> (r is Ok <==> binds(
                    old(self).book.table.cells(),
                    card,
                    inventory,
                    operation,
                    project,
                    program_card@,
                    policy,
                    nonce@,
                    now,
                ))
            },
    {
        let (card, inventory) = match discovered {
            Ok(x) => x,
            Err(e) => return Err(Error::Estate(e)),
        };
        let ghost c = card;
        let ghost inv = inventory;
        let (key, plan, provider_plan) = self.bind_plan(card, inventory, operation, project, program_card, policy, nonce, now)?;
        let previewed = if policy.preview {
            Some(provider.preview(&provider_plan))
        } else {
            None
        };
        let r = with_preview(key, plan, previewed);
        proof {
            if r is Ok {
                assert(bound_from(r->Ok_0.plan, c, inv, operation, project, program_card@, policy, nonce@, now));
            }
        }
        r
    }

    /// Binds the plan for `operation` on a discovery of `card` and
    /// `inventory`: the inventory's targets in id order, the ids of those
    /// that are the operation's target, the card and the plan interned, and
    /// the plan as the provider sees it. Refuses a discovery with no such
    /// target as disappeared.
    #[verifier::spinoff_prover]
    #[verifier::rlimit(60)]
    fn bind_plan(
        &mut self,
        card: ProviderCard,
        inventory: SanitizedInventory,
        operation: Operation,
        project: ProjectFingerprint,
        program_card: Key,
        policy: Policy,
        nonce: String,
        now: u64,
    ) -> (r: Result<(Key, ImmutablePlan, Plan), Error>)
        ensures
            final(self).book.table.reliable() == old(self).book.table.reliable(),
            r matches Ok((k, p, pp)) ==> {
                &&& p.provider == card
                &&& p.inventory.version == inventory.version
                &&& p.inventory.revision == inventory.revision
                &&& p.inventory.targets@ == by_id(inventory.targets@)
                &&& p.operation == operation
                &&& p.project == project
                &&& p.program_card == program_card
                &&& p.policy == policy
                &&& p.nonce == nonce
                &&& p.expires_at == tick_sum(now, policy.ttl)
                &&& parameters_code(p.values@) == parameters_code(operation.parameters@)
                &&& p.risk@ == risk_text(operation.mode)
                &&& sorted_by_id(p.inventory.targets@)
                &&& p.targets@.len() == id_count(p.inventory.targets@, operation.target@)
                &&& p.targets@.len() == id_count(inventory.targets@, operation.target@)
                &&& forall|i: int| 0 <= i < p.targets@.len() ==> (#[trigger] p.targets@[i])@ == operation.target@
                &&& p.provider_card@ == content_key(card_code(card))
                &&& plan_code(p) == bound_plan_code(card, inventory, operation, project, program_card@, policy, nonce@, now)
                &&& k@ == content_key(plan_code(p))
                &&& k@.len() == 71
                &&& final(self).book.table.cells() == old(self).book.table.cells().insert(
                    p.provider_card@,
                    card_code(p.provider),
                ).insert(k@, plan_code(p))
                &&& pp.id@ == provider_plan_id(k@)
                &&& pp.operation.target == operation.target
                &&& pp.inventory_revision == inventory.revision
                &&& pp.preview is None
            },
            id_count(inventory.targets@, operation.target@) == 0 ==> r == Err::<(Key, ImmutablePlan, Plan), Error>(
                Error::Estate(EstateError::TargetDisappeared),
            ) && final(self).book.table.cells() == old(self).book.table.cells(),
            old(self).book.table.reliable() ==> (r is Ok <==> binds(
                old(self).book.table.cells(),
                card,
                inventory,
                operation,
                project,
                program_card@,
                policy,
                nonce@,
                now,
            )),
    {
        let ghost found = inventory.targets@;
        let sorted = sort_by_id(inventory.targets);
        proof {
            lemma_by_id(sorted@, found);
            lemma_id_count_with_id(sorted@, operation.target@);
            lemma_id_count_with_id(found, operation.target@);
            assert(with_id(sorted@, operation.target@) == with_id(found, operation.target@));
        }
        let inventory = SanitizedInventory {
            version: inventory.version,
            revision: inventory.revision,
            targets: sorted,
        };
        let targets = select_targets(&inventory.targets, &operation.target);
        if targets.len() == 0 {
            return Err(Error::Estate(EstateError::TargetDisappeared));
        }
        let card_bytes = encode_card(&card);
        let provider_card = match self.book.intern(card_bytes.as_slice()) {
            Ok(k) => k,
            Err(e) => return Err(Error::Book(e)),
        };
        let risk = risk_for(operation.mode);
        let values = copy_parameters(&operation.parameters);
        let plan = ImmutablePlan {
            provider: card,
            inventory,
            project,
            operation,
            targets,
            values,
            program_card,
            provider_card,
            policy,
            nonce,
            risk,
            expires_at: now.saturating_add(policy.ttl),
        };
        proof {
            let n = id_count(found, plan.operation.target@);
            let ids = Seq::new(n, |i: int| plan.operation.target);
            assert(plan.targets@.map_values(|s: Symbol| symbol_code(s)) =~= ids.map_values(|s: Symbol| symbol_code(s)));
            assert(plan_fields(plan) =~= seq![
                card_code(plan.provider),
                frame(seq![num_bytes(plan.inventory.version as u64), num_bytes(plan.inventory.revision), targets_code(by_id(found))]),
                fingerprint_code(project),
                operation_code(plan.operation),
                symbols_code(ids),
                parameters_code(plan.operation.parameters@),
                text_bytes(program_card@),
                text_bytes(content_key(card_code(plan.provider))),
                policy_code(policy),
                text_bytes(nonce@),
                text_bytes(risk_text(plan.operation.mode)),
                num_bytes(tick_sum(now, policy.ttl)),
            ]);
        }
        let plan_bytes = encode_plan(&plan);
        let key = match self.book.intern(plan_bytes.as_slice()) {
            Ok(k) => k,
            Err(e) => return Err(Error::Book(e)),
        };
        let provider_plan = to_provider_plan(&key, &plan)?;
        Ok((key, plan, provider_plan))
    }

    /// Records a review of `planned` and issues approval `id` for `run`.
    /// Returns the review's content key.
    pub fn review(&mut self, id: &str, planned: &Planned, reviewer: &str, run: &str) -> (r: Result<Key, Error>)
        ensures
            final(self).book.table.reliable() == old(self).book.table.reliable(),
            r matches Ok(k) ==> {
                let review = review_code(id@, planned.key@, reviewer@, run@);
                let approval = approval_code(
                    ApprovalRecord { plan: planned.key@, reviewer: reviewer@, consumed_by: run@, consumed: false },
                );
                &&& k@ == content_key(review)
                &&& final(self).book.table.cells() == old(self).book.table.cells().insert(k@, review).insert(
                    approval_key(id@),
                    approval,
                )
            },
            old(self).book.table.reliable() ==> (r is Ok <==> {
                let review = review_code(id@, planned.key@, reviewer@, run@);
                let approval = approval_code(
                    ApprovalRecord { plan: planned.key@, reviewer: reviewer@, consumed_by: run@, consumed: false },
                );
                &&& absent_or_same(old(self).book.table.cells(), content_key(review), review)
                &&& absent_or_same(old(self).book.table.cells(), approval_key(id@), approval)
            }),
    {
        proof {
            lemma_key_kinds(review_code(id@, planned.key@, reviewer@, run@), run@, id@, seq![]);
        }
        let b = encode_review(id, &planned.key, reviewer, run);
        let key = match self.book.intern(b.as_slice()) {
            Ok(k) => k,
            Err(e) => return Err(Error::Book(e)),
        };
        let approval = ApprovalUse {
            plan: planned.key.clone(),
            reviewer: reviewer.to_owned(),
            consumed_by: run.to_owned(),
        };
        match self.book.issue_approval(id, &approval) {
            Ok(()) => Ok(key),
            Err(e) => Err(Error::Book(e)),
        }
    }
}


/// Rust's debug form of the text `s`, as `format!("{:?}", s)` writes it:
/// quoted, with quotes, backslashes and characters that are not printable
/// escaped.
pub uninterp spec fn debug_str(s: Seq<char>) -> Seq<char>;

/// `<str as Debug>::fmt` through `format!("{:?}", ..)` (std): the debug form
/// of `s`. The contract names the result and claims only that it depends on
/// `s` alone; the escaping itself is left to std.
#[verifier::external_body]
fn debug_text(s: &str) -> (r: String)
    ensures
        r@ == debug_str(s@),
{
    format!("{:?}", s)
}

/// `true` or `false`.
pub open spec fn flag_text(b: bool) -> Seq<char> {
    if b {
        "true"@
    } else {
        "false"@
    }
}

/// A lease as its debug form shows it.
pub open spec fn lease_debug(l: LeaseView) -> Seq<char> {
    "LeaseRecord { holder: "@ + debug_str(l.holder) + ", generation: "@ + decimal_text(l.generation as nat)
        + ", expires_at: "@ + decimal_text(l.expires_at as nat) + ", quarantined: "@ + flag_text(l.quarantined)
        + " }"@
}

/// A held lease as the debug form of `Some(lease)` shows it.
pub open spec fn held_debug(l: LeaseView) -> Seq<char> {
    "Some("@ + lease_debug(l) + ")"@
}

fn push_lease_debug(out: &mut Vec<char>, l: &LeaseRecord)
    ensures
        final(out)@ == old(out)@ + lease_debug(l@),
{
    let ghost start = out@;
    push_str(out, "LeaseRecord { holder: ");
    let quoted = debug_text(l.holder.as_str());
    push_str(out, quoted.as_str());
    push_str(out, ", generation: ");
    push_decimal(out, l.generation);
    push_str(out, ", expires_at: ");
    push_decimal(out, l.expires_at);
    push_str(out, ", quarantined: ");
    if l.quarantined {
        push_str(out, "true");
    } else {
        push_str(out, "false");
    }
    push_str(out, " }");
    assert(out@ =~= start + lease_debug(l@));
}

/// The debug form of `l`.
pub fn lease_debug_text(l: &LeaseRecord) -> (r: String)
    ensures
        r@ == lease_debug(l@),
{
    let mut out: Vec<char> = Vec::new();
    push_lease_debug(&mut out, l);
    assert(out@ =~= lease_debug(l@));
    string_of(&out)
}

/// The debug form of `Some(l)`.
pub fn held_debug_text(l: &LeaseRecord) -> (r: String)
    ensures
        r@ == held_debug(l@),
{
    let mut out: Vec<char> = Vec::new();
    push_str(&mut out, "Some(");
    push_lease_debug(&mut out, l);
    push_str(&mut out, ")");
    assert(out@ =~= held_debug(l@));
    string_of(&out)
}

/// The name of a callback event kind, as its variant is written.
pub open spec fn event_kind_name(k: crate::records::EventKind) -> Seq<char> {
    match k {
        crate::records::EventKind::Accepted => "Accepted"@,
        crate::records::EventKind::Progress => "Progress"@,
        crate::records::EventKind::Changed => "Changed"@,
        crate::records::EventKind::Unchanged => "Unchanged"@,
        crate::records::EventKind::Cancelled => "Cancelled"@,
        crate::records::EventKind::Malformed => "Malformed"@,
    }
}

/// The name of `k`, as its variant is written.
pub fn event_kind_text(k: crate::records::EventKind) -> (r: String)
    ensures
        r@ == event_kind_name(k),
{
    match k {
        crate::records::EventKind::Accepted => "Accepted".to_owned(),
        crate::records::EventKind::Progress => "Progress".to_owned(),
        crate::records::EventKind::Changed => "Changed".to_owned(),
        crate::records::EventKind::Unchanged => "Unchanged".to_owned(),
        crate::records::EventKind::Cancelled => "Cancelled".to_owned(),
        crate::records::EventKind::Malformed => "Malformed".to_owned(),
    }
}

/// A refusal with `reason`, observing `observed`.
pub open spec fn is_refusal(e: Error, reason: Seq<char>, observed: Seq<char>) -> bool {
    e matches Error::Refused { reason: r, observed: o } && r@ == reason && o@ == observed
}

/// Refuses a plan whose expiry tick `expires_at` is before `now`, observing
/// the time.
fn check_expiry(expires_at: u64, now: u64) -> (r: Result<(), Error>)
    ensures
        r is Ok <==> now <= expires_at,
        r matches Err(e) ==> is_refusal(e, "expired plan"@, decimal_text(now as nat)),
{
    if now > expires_at {
        let mut cs: Vec<char> = Vec::new();
        push_decimal(&mut cs, now);
        assert(cs@ =~= decimal_text(now as nat));
        Err(Error::Refused { reason: "expired plan".to_owned(), observed: string_of(&cs) })
    } else {
        Ok(())
    }
}

fn same_bytes(a: &Vec<u8>, b: &Vec<u8>) -> (r: bool)
    ensures
        r == (a@ == b@),
{
    if a.len() != b.len() {
        return false;
    }
    let mut i: usize = 0;
    while i < a.len()
        invariant
            a@.len() == b@.len(),
            i <= a@.len(),
            forall|j: int| 0 <= j < i ==> a@[j] == b@[j],
        decreases a.len() - i,
    {
        if a[i] != b[i] {
            return false;
        }
        i = i + 1;
    }
    assert(a@ =~= b@);
    true
}

/// `revision=` and the decimal revision.
pub open spec fn revision_text(revision: u64) -> Seq<char> {
    "revision="@ + decimal_text(revision as nat)
}

/// Refuses a discovery whose card or inventory is not the planned one,
/// observing the discovered inventory revision.
fn check_fresh(plan: &ImmutablePlan, card: &ProviderCard, inventory: &SanitizedInventory) -> (r: Result<(), Error>)
    ensures
        r is Ok <==> card_code(*card) == card_code(plan.provider) && inventory_code(*inventory) == inventory_code(
            plan.inventory,
        ),
        r matches Err(e) ==> is_refusal(e, "stale discovery"@, revision_text(inventory.revision)),
{
    let a = encode_card(card);
    let b = encode_card(&plan.provider);
    let c = encode_inventory(inventory);
    let d = encode_inventory(&plan.inventory);
    if !same_bytes(&a, &b) || !same_bytes(&c, &d) {
        let mut cs: Vec<char> = Vec::new();
        push_str(&mut cs, "revision=");
        push_decimal(&mut cs, inventory.revision);
        assert(cs@ =~= revision_text(inventory.revision));
        Err(Error::Refused { reason: "stale discovery".to_owned(), observed: string_of(&cs) })
    } else {
        Ok(())
    }
}

/// `c2` follows `c1` in the work on `run`: approvals are as they were,
/// leases are as they were except on `names`, and the history of `run`,
/// where `c1` holds one, grew by `new`.
pub open spec fn advanced(
    c1: Map<Seq<char>, Seq<u8>>,
    c2: Map<Seq<char>, Seq<u8>>,
    run: Seq<char>,
    names: Seq<Seq<char>>,
    new: Seq<EventRecord>,
) -> bool {
    &&& approvals_kept(c1, c2)
    &&& forall|n: Seq<char>| !names.contains(n) ==> #[trigger] cell(c2, lease_key(n)) == cell(c1, lease_key(n))
    &&& history(c1, run) is Some ==> history(c2, run) == Some(history(c1, run)->0 + new)
}

proof fn lemma_advanced_still(c: Map<Seq<char>, Seq<u8>>, run: Seq<char>, names: Seq<Seq<char>>)
    ensures
        advanced(c, c, run, names, seq![]),
{
    if history(c, run) is Some {
        assert(history(c, run)->0 + seq![] =~= history(c, run)->0);
    }
}

proof fn lemma_advanced_trans(
    c1: Map<Seq<char>, Seq<u8>>,
    c2: Map<Seq<char>, Seq<u8>>,
    c3: Map<Seq<char>, Seq<u8>>,
    run: Seq<char>,
    names: Seq<Seq<char>>,
    e1: Seq<EventRecord>,
    e2: Seq<EventRecord>,
)
    requires
        advanced(c1, c2, run, names, e1),
        advanced(c2, c3, run, names, e2),
    ensures
        advanced(c1, c3, run, names, e1 + e2),
{
    assert forall|k: Seq<char>| k.len() > 0 && k[0] == 'a' implies #[trigger] cell(c3, k) == cell(c1, k) by {
        assert(cell(c3, k) == cell(c2, k));
    }
    assert forall|n: Seq<char>| !names.contains(n) implies #[trigger] cell(c3, lease_key(n)) == cell(c1, lease_key(n)) by {
        assert(cell(c3, lease_key(n)) == cell(c2, lease_key(n)));
    }
    if history(c1, run) is Some {
        assert(history(c1, run)->0 + e1 + e2 =~= history(c1, run)->0 + (e1 + e2));
    }
}

proof fn lemma_advanced_widen(
    c1: Map<Seq<char>, Seq<u8>>,
    c2: Map<Seq<char>, Seq<u8>>,
    run: Seq<char>,
    names: Seq<Seq<char>>,
    more: Seq<Seq<char>>,
    e: Seq<EventRecord>,
)
    requires
        advanced(c1, c2, run, names, e),
        forall|n: Seq<char>| names.contains(n) ==> more.contains(n),
    ensures
        advanced(c1, c2, run, more, e),
{
    assert forall|n: Seq<char>| !more.contains(n) implies #[trigger] cell(c2, lease_key(n)) == cell(c1, lease_key(n)) by {
        assert(!names.contains(n));
    }
}

proof fn lemma_append_advanced(
    c: Map<Seq<char>, Seq<u8>>,
    c2: Map<Seq<char>, Seq<u8>>,
    run: Seq<char>,
    kind: EventRecord,
    names: Seq<Seq<char>>,
)
    requires
        appended(c, run, kind) == Some(c2),
        history(c, run) is Some ==> history(c2, run) == Some(history(c, run)->0.push(kind)),
    ensures
        advanced(c, c2, run, names, seq![kind]),
{
    lemma_append_outside_history(c, run, kind);
    assert forall|k: Seq<char>| k.len() > 0 && k[0] == 'a' implies #[trigger] cell(c2, k) == cell(c, k) by {
        lemma_key_kinds(seq![], run, seq![], seq![]);
        assert(k != head_key(run));
    }
    assert forall|n: Seq<char>| !names.contains(n) implies #[trigger] cell(c2, lease_key(n)) == cell(c, lease_key(n)) by {
        lemma_lease_outside_history(c, c2, run, n);
    }
    if history(c, run) is Some {
        assert(history(c, run)->0.push(kind) =~= history(c, run)->0 + seq![kind]);
    }
}

proof fn lemma_intern_advanced(c: Map<Seq<char>, Seq<u8>>, b: Seq<u8>, run: Seq<char>, names: Seq<Seq<char>>)
    requires
        absent_or_same(c, content_key(b), b),
    ensures
        advanced(c, c.insert(content_key(b), b), run, names, seq![]),
{
    let c2 = c.insert(content_key(b), b);
    lemma_intern_outside_history(c, b, run);
    assert forall|k: Seq<char>| k.len() > 0 && k[0] == 'a' implies #[trigger] cell(c2, k) == cell(c, k) by {
        lemma_key_kinds(b, run, seq![], seq![]);
    }
    assert forall|n: Seq<char>| !names.contains(n) implies #[trigger] cell(c2, lease_key(n)) == cell(c, lease_key(n)) by {
        lemma_key_kinds(b, run, seq![], n);
    }
    if history(c, run) is Some {
        lemma_history_intern(c, b, run);
        assert(history(c, run)->0 + seq![] =~= history(c, run)->0);
    }
}

proof fn lemma_approvals_trans(c1: Map<Seq<char>, Seq<u8>>, c2: Map<Seq<char>, Seq<u8>>, c3: Map<Seq<char>, Seq<u8>>)
    requires
        approvals_kept(c1, c2),
        approvals_kept(c2, c3),
    ensures
        approvals_kept(c1, c3),
{
    assert forall|k: Seq<char>| k.len() > 0 && k[0] == 'a' implies #[trigger] cell(c3, k) == cell(c1, k) by {
        assert(cell(c3, k) == cell(c2, k));
    }
}

/// A lease as the table shows it: `None` where nobody holds it.
pub open spec fn shown(l: LeaseView) -> Option<LeaseView> {
    if is_free(l) {
        None
    } else {
        Some(l)
    }
}

proof fn lemma_lease_write(
    c: Map<Seq<char>, Seq<u8>>,
    c2: Map<Seq<char>, Seq<u8>>,
    name: Seq<char>,
    expected: Option<LeaseView>,
    new: LeaseView,
    run: Seq<char>,
    names: Seq<Seq<char>>,
)
    requires
        leased(c, name, expected, new) == Some(c2),
        fits(c2[lease_key(name)]),
        names.contains(name),
    ensures
        advanced(c, c2, run, names, seq![]),
        lease_state_of(c, name) == Some(expected),
        lease_state_of(c2, name) == Some(shown(new)),
        forall|n: Seq<char>| n != name ==> #[trigger] cell(c2, lease_key(n)) == cell(c, lease_key(n)),
{
    lemma_lease_roundtrip(new);
    lemma_key_kinds(seq![], run, seq![], name);
    assert forall|k: Seq<char>| k.len() > 0 && k[0] == 'a' implies #[trigger] cell(c2, k) == cell(c, k) by {
        assert(k != lease_key(name));
    }
    assert forall|n: Seq<char>| n != name implies #[trigger] cell(c2, lease_key(n)) == cell(c, lease_key(n)) by {
        if lease_key(n) == lease_key(name) {
            lemma_lease_key_injective(n, name);
        }
    }
    if history(c, run) is Some {
        lemma_history_other_write(c, lease_key(name), lease_code(new), run);
        assert(history(c, run)->0 + seq![] =~= history(c, run)->0);
    }
}

/// The pairs of `held` as target texts and lease views.
pub open spec fn held_view(held: Seq<(String, LeaseRecord)>) -> Seq<(Seq<char>, LeaseView)> {
    held.map_values(|p: (String, LeaseRecord)| (p.0@, p.1@))
}

/// The targets of `held`.
pub open spec fn held_names(held: Seq<(Seq<char>, LeaseView)>) -> Seq<Seq<char>> {
    held.map_values(|p: (Seq<char>, LeaseView)| p.0)
}

/// The table shows each lease of `held` on its target.
pub open spec fn holds(cells: Map<Seq<char>, Seq<u8>>, held: Seq<(Seq<char>, LeaseView)>) -> bool {
    forall|i: int| 0 <= i < held.len() ==> lease_state_of(cells, (#[trigger] held[i]).0) == Some(shown(held[i].1))
}

/// A lease quarantined by `run`: the next generation, the same expiry.
pub open spec fn fenced(l: LeaseView, run: Seq<char>) -> LeaseView {
    LeaseView { holder: run, generation: (l.generation + 1) as u64, expires_at: l.expires_at, quarantined: true }
}

/// A lease given back: no holder, the next generation, no expiry.
pub open spec fn freed(l: LeaseView) -> LeaseView {
    LeaseView { holder: seq![], generation: (l.generation + 1) as u64, expires_at: 0, quarantined: false }
}

/// The table after appending `kinds` to `run` in order; `None` where an
/// append would be refused.
#[verifier::opaque]
pub open spec fn appended_all(cells: Map<Seq<char>, Seq<u8>>, run: Seq<char>, kinds: Seq<EventRecord>) -> Option<
    Map<Seq<char>, Seq<u8>>,
>
    decreases kinds.len(),
{
    if kinds.len() == 0 {
        Some(cells)
    } else {
        match appended_all(cells, run, kinds.drop_last()) {
            Some(c) => appended(c, run, kinds.last()),
            None => None,
        }
    }
}

proof fn lemma_appended_all_prefix(c: Map<Seq<char>, Seq<u8>>, run: Seq<char>, ks: Seq<EventRecord>, j: int)
    requires
        0 <= j <= ks.len(),
        appended_all(c, run, ks.take(j)) is None,
    ensures
        appended_all(c, run, ks) is None,
    decreases ks.len() - j,
{
    reveal(appended_all);
    if j < ks.len() {
        assert(ks.take(j + 1).drop_last() =~= ks.take(j));
        lemma_appended_all_prefix(c, run, ks, j + 1);
    } else {
        assert(ks.take(j) =~= ks);
    }
}

/// The table after giving back the leases of `held`, last first, each
/// followed by its cleanup record; `None` where a lease is not as held or
/// a record would be refused.
#[verifier::opaque]
pub open spec fn released(cells: Map<Seq<char>, Seq<u8>>, run: Seq<char>, held: Seq<(Seq<char>, LeaseView)>) -> Option<
    Map<Seq<char>, Seq<u8>>,
>
    decreases held.len(),
{
    if held.len() == 0 {
        Some(cells)
    } else {
        let t = held.last().0;
        let l = held.last().1;
        match leased(cells, t, Some(l), freed(l)) {
            Some(c1) => match appended(c1, run, EventRecord::Cleanup { target: t, generation: l.generation }) {
                Some(c2) => released(c2, run, held.drop_last()),
                None => None,
            },
            None => None,
        }
    }
}

/// The table after quarantining the leases of `held` for `run`, last first,
/// each followed by its record of `reason`; `None` where a lease is not as
/// held or a record would be refused.
#[verifier::opaque]
pub open spec fn fenced_all(
    cells: Map<Seq<char>, Seq<u8>>,
    run: Seq<char>,
    held: Seq<(Seq<char>, LeaseView)>,
    reason: Seq<char>,
) -> Option<Map<Seq<char>, Seq<u8>>>
    decreases held.len(),
{
    if held.len() == 0 {
        Some(cells)
    } else {
        let t = held.last().0;
        let l = held.last().1;
        match leased(cells, t, Some(l), fenced(l, run)) {
            Some(c1) => match appended(c1, run, EventRecord::Quarantined { target: t, reason }) {
                Some(c2) => fenced_all(c2, run, held.drop_last(), reason),
                None => None,
            },
            None => None,
        }
    }
}

/// The table after quarantining `held` for `reason` and recording the
/// run's final `quarantined` state.
#[verifier::opaque]
pub open spec fn quarantined_after(
    cells: Map<Seq<char>, Seq<u8>>,
    run: Seq<char>,
    held: Seq<(Seq<char>, LeaseView)>,
    reason: Seq<char>,
) -> Option<Map<Seq<char>, Seq<u8>>> {
    match fenced_all(cells, run, held, reason) {
        Some(c) => appended(c, run, EventRecord::Final { state: quarantined_text() }),
        None => None,
    }
}

/// The table after giving back `held` and recording the final `state`.
#[verifier::opaque]
pub open spec fn closed(
    cells: Map<Seq<char>, Seq<u8>>,
    run: Seq<char>,
    held: Seq<(Seq<char>, LeaseView)>,
    state: ApplyState,
) -> Option<Map<Seq<char>, Seq<u8>>> {
    match released(cells, run, held) {
        Some(c) => appended(c, run, EventRecord::Final { state: apply_state_text(state) }),
        None => None,
    }
}

/// The table after opening `run` for `plan`: its opening, the interned
/// preview and its record where there is a preview, then the intent to
/// dispatch; `None` where a write would be refused.
#[verifier::opaque]
pub open spec fn opened(
    cells: Map<Seq<char>, Seq<u8>>,
    run: Seq<char>,
    plan: Seq<char>,
    preview: Option<Preview>,
) -> Option<Map<Seq<char>, Seq<u8>>> {
    match appended(cells, run, EventRecord::Opened { plan }) {
        Some(c1) => {
            let c2 = match preview {
                Some(p) => {
                    let b = preview_code(p);
                    if absent_or_same(c1, content_key(b), b) {
                        appended(c1.insert(content_key(b), b), run, EventRecord::Preview { evidence: content_key(b) })
                    } else {
                        None
                    }
                },
                None => Some(c1),
            };
            match c2 {
                Some(c) => appended(c, run, EventRecord::DispatchIntent),
                None => None,
            }
        },
        None => None,
    }
}

/// What giving back `held`, last first, records.
pub open spec fn cleanup_events(held: Seq<(Seq<char>, LeaseView)>) -> Seq<EventRecord> {
    Seq::new(
        held.len(),
        |j: int|
            EventRecord::Cleanup {
                target: held[held.len() - 1 - j].0,
                generation: held[held.len() - 1 - j].1.generation,
            },
    )
}

/// What quarantining `held`, last first, for `reason` records, before the
/// run's final `quarantined` state.
pub open spec fn quarantine_events(held: Seq<(Seq<char>, LeaseView)>, reason: Seq<char>) -> Seq<EventRecord> {
    Seq::new(held.len(), |j: int| EventRecord::Quarantined { target: held[held.len() - 1 - j].0, reason })
}

/// The lease a run takes on a target until `expires_at`.
pub open spec fn taken(run: Seq<char>, expires_at: u64) -> LeaseView {
    LeaseView { holder: run, generation: 1, expires_at, quarantined: false }
}

/// No symbol occurs twice in `v`.
pub open spec fn distinct_symbols(v: Seq<Symbol>) -> bool {
    forall|i: int, j: int| 0 <= i < j < v.len() ==> v[i]@ != v[j]@
}

proof fn lemma_lease_then_append(
    c: Map<Seq<char>, Seq<u8>>,
    c2: Map<Seq<char>, Seq<u8>>,
    c3: Map<Seq<char>, Seq<u8>>,
    name: Seq<char>,
    expected: Option<LeaseView>,
    new: LeaseView,
    run: Seq<char>,
    kind: EventRecord,
    names: Seq<Seq<char>>,
)
    requires
        leased(c, name, expected, new) == Some(c2),
        fits(c2[lease_key(name)]),
        names.contains(name),
        appended(c2, run, kind) == Some(c3),
        history(c2, run) is Some ==> history(c3, run) == Some(history(c2, run)->0.push(kind)),
    ensures
        advanced(c, c3, run, names, seq![kind]),
        lease_state_of(c, name) == Some(expected),
        lease_state_of(c3, name) == Some(shown(new)),
        forall|n: Seq<char>| n != name ==> #[trigger] cell(c3, lease_key(n)) == cell(c, lease_key(n)),
{
    lemma_lease_write(c, c2, name, expected, new, run, names);
    lemma_append_advanced(c2, c3, run, kind, names);
    lemma_advanced_trans(c, c2, c3, run, names, seq![], seq![kind]);
    assert(seq![] + seq![kind] =~= seq![kind]);
    lemma_lease_outside_history(c2, c3, run, name);
    assert forall|n: Seq<char>| n != name implies #[trigger] cell(c3, lease_key(n)) == cell(c, lease_key(n)) by {
        lemma_lease_outside_history(c2, c3, run, n);
    }
}

impl<T: Table> Organ<T> {
    /// Gives back the leases of `held`, last first: each target is left free
    /// at the next generation and a cleanup is recorded for it. The list is
    /// spent: it is left empty, also where giving back stops part way.
    fn release(&mut self, run: &str, held: &mut Vec<(String, LeaseRecord)>) -> (r: Result<(), Error>)
        requires
            forall|i: int| 0 <= i < old(held)@.len() ==> (#[trigger] old(held)@[i]).1.generation < u64::MAX,
        ensures
            old(self).book.table.reliable() ==> approvals_kept(old(self).book.table.cells(), final(self).book.table.cells()),
            final(self).book.table.reliable() == old(self).book.table.reliable(),
            r is Ok ==> advanced(
                old(self).book.table.cells(),
                final(self).book.table.cells(),
                run@,
                held_names(held_view(old(held)@)),
                cleanup_events(held_view(old(held)@)),
            ),
            r is Ok ==> forall|i: int| 0 <= i < old(held)@.len() ==> lease_state_of(final(self).book.table.cells(), (#[trigger] old(held)@[i]).0@)
                == Some(None::<LeaseView>),
            r is Ok ==> released(old(self).book.table.cells(), run@, held_view(old(held)@)) == Some(final(self).book.table.cells()),
            old(self).book.table.reliable() ==> (r is Ok <==> released(old(self).book.table.cells(), run@, held_view(old(held)@)) is Some),
            final(held)@.len() == 0,
    {
        let r = self.give_back(run, held);
        held.clear();
        r
    }

    /// Gives back the leases of `held` (see `release`), leaving the list as it is.
    #[verifier::spinoff_prover]
    #[verifier::rlimit(100)]
    fn give_back(&mut self, run: &str, held: &Vec<(String, LeaseRecord)>) -> (r: Result<(), Error>)
        requires
            forall|i: int| 0 <= i < held@.len() ==> (#[trigger] held@[i]).1.generation < u64::MAX,
        ensures
            old(self).book.table.reliable() ==> approvals_kept(old(self).book.table.cells(), final(self).book.table.cells()),
            final(self).book.table.reliable() == old(self).book.table.reliable(),
            r is Ok ==> advanced(
                old(self).book.table.cells(),
                final(self).book.table.cells(),
                run@,
                held_names(held_view(held@)),
                cleanup_events(held_view(held@)),
            ),
            r is Ok ==> forall|i: int| 0 <= i < held@.len() ==> lease_state_of(final(self).book.table.cells(), (#[trigger] held@[i]).0@)
                == Some(None::<LeaseView>),
            r is Ok ==> released(old(self).book.table.cells(), run@, held_view(held@)) == Some(final(self).book.table.cells()),
            old(self).book.table.reliable() ==> (r is Ok <==> released(old(self).book.table.cells(), run@, held_view(held@)) is Some),
    {
        proof {
            reveal(released);
        }
        let ghost c0 = self.book.table.cells();
        let ghost rel = self.book.table.reliable();
        let ghost h = held_view(held@);
        let ghost names = held_names(h);
        let mut i: usize = held.len();
        proof {
            lemma_advanced_still(c0, run@, names);
            assert(h.skip(i as int) =~= seq![]);
            assert(cleanup_events(h.skip(i as int)) =~= seq![]);
            assert(h.take(i as int) =~= h);
        }
        while i > 0
            invariant
                i <= held@.len(),
                h == held_view(held@),
                names == held_names(h),
                self.book.table.reliable() == rel,
                rel == old(self).book.table.reliable(),
                c0 == old(self).book.table.cells(),
                released(c0, run@, h) == released(self.book.table.cells(), run@, h.take(i as int)),
                advanced(c0, self.book.table.cells(), run@, names, cleanup_events(h.skip(i as int))),
                forall|j: int| i <= j < h.len() ==> lease_state_of(self.book.table.cells(), (#[trigger] h[j]).0) == Some(
                    None::<LeaseView>,
                ),
                forall|j: int| 0 <= j < held@.len() ==> (#[trigger] held@[j]).1.generation < u64::MAX,
            decreases i,
        {
            proof {
                reveal(released);
            }
            let target = &held[i - 1].0;
            let lease = &held[i - 1].1;
            let ghost ca = self.book.table.cells();
            let free = LeaseRecord {
                holder: String::new(),
                generation: lease.generation + 1,
                expires_at: 0,
                quarantined: false,
            };
            proof {
                let hk = h.take(i as int);
                assert(hk.last() == h[i - 1]);
                assert(h[i - 1] == (target@, lease@));
                assert(hk.drop_last() =~= h.take(i - 1));
                assert(free@ == freed(lease@));
            }
            match self.book.lease(target.as_str(), Some(lease), &free) {
                Ok(()) => {},
                Err(e) => {
                    proof {
                        assert(approvals_kept(c0, ca));
                        if rel {
                            assert(released(ca, run@, h.take(i as int)) is None);
                        }
                    }
                    return Err(Error::Book(e));
                },
            }
            let ghost cb = self.book.table.cells();
            proof {
                assert(names[i - 1] == target@);
                lemma_lease_write(ca, cb, target@, Some(lease@), free@, run@, names);
                lemma_approvals_trans(c0, ca, cb);
            }
            let kind = BookEvent::Cleanup { target: target.clone(), generation: lease.generation };
            match self.book.append(run, kind) {
                Ok(_) => {},
                Err(e) => {
                    proof {
                        if rel {
                            assert(released(ca, run@, h.take(i as int)) is None);
                        }
                    }
                    return Err(Error::Book(e));
                },
            }
            proof {
                assert(released(ca, run@, h.take(i as int)) == released(self.book.table.cells(), run@, h.take(i - 1)));
            }
            proof {
                let k = i - 1;
                assert(h[k as int] == (target@, lease@));
                assert(names[k as int] == target@);
                lemma_lease_then_append(
                    ca,
                    cb,
                    self.book.table.cells(),
                    target@,
                    Some(lease@),
                    free@,
                    run@,
                    EventRecord::Cleanup { target: target@, generation: lease.generation },
                    names,
                );
                lemma_advanced_trans(
                    c0,
                    ca,
                    self.book.table.cells(),
                    run@,
                    names,
                    cleanup_events(h.skip(i as int)),
                    seq![EventRecord::Cleanup { target: target@, generation: lease.generation }],
                );
                assert(cleanup_events(h.skip(i as int)) + seq![
                    EventRecord::Cleanup { target: target@, generation: lease.generation },
                ] =~= cleanup_events(h.skip(k as int)));
                assert forall|j: int| k <= j < h.len() implies lease_state_of(self.book.table.cells(), (#[trigger] h[j]).0)
                    == Some(None::<LeaseView>) by {
                    if j > k {
                        if h[j].0 == target@ {
                            assert(held@[j].1@ == h[j].1);
                            assert(false);
                        }
                        lemma_lease_state_cell(ca, self.book.table.cells(), h[j].0);
                    }
                }
            }
            i = i - 1;
        }
        proof {
            assert(h.take(0) =~= Seq::<(Seq<char>, LeaseView)>::empty());
            assert(h.skip(0) =~= h);
            assert forall|j: int| 0 <= j < held@.len() implies lease_state_of(self.book.table.cells(), (#[trigger] held@[j]).0@)
                == Some(None::<LeaseView>) by {
                assert(h[j].0 == held@[j].0@);
            }
        }
        Ok(())
    }
}

impl<T: Table> Organ<T> {
    /// Quarantines the leases of `held` for `run`, last first: each target
    /// stays held by `run`, quarantined, at the next generation, with a
    /// record of the reason; then the run's final state is `quarantined`.
    /// The list is spent: it is left empty, also where quarantining stops
    /// part way.
    fn quarantine(&mut self, run: &str, held: &mut Vec<(String, LeaseRecord)>, reason: &str) -> (r: Result<(), Error>)
        requires
            forall|i: int| 0 <= i < old(held)@.len() ==> (#[trigger] old(held)@[i]).1.generation < u64::MAX,
            forall|i: int| 0 <= i < old(held)@.len() ==> !(#[trigger] old(held)@[i]).1.quarantined,
        ensures
            old(self).book.table.reliable() ==> approvals_kept(old(self).book.table.cells(), final(self).book.table.cells()),
            final(self).book.table.reliable() == old(self).book.table.reliable(),
            r is Ok ==> advanced(
                old(self).book.table.cells(),
                final(self).book.table.cells(),
                run@,
                held_names(held_view(old(held)@)),
                quarantine_events(held_view(old(held)@), reason@) + seq![EventRecord::Final { state: quarantined_text() }],
            ),
            r is Ok ==> forall|i: int| 0 <= i < old(held)@.len() ==> lease_state_of(final(self).book.table.cells(), (#[trigger] old(held)@[i]).0@)
                == Some(Some(fenced(old(held)@[i].1@, run@))),
            r is Ok ==> quarantined_after(old(self).book.table.cells(), run@, held_view(old(held)@), reason@) == Some(
                final(self).book.table.cells(),
            ),
            old(self).book.table.reliable() ==> (r is Ok <==> quarantined_after(
                old(self).book.table.cells(),
                run@,
                held_view(old(held)@),
                reason@,
            ) is Some),
            final(held)@.len() == 0,
            r matches Err(e) ==> e is Book,
    {
        let r = self.fence(run, held, reason);
        held.clear();
        r
    }

    /// Quarantines the leases of `held` (see `quarantine`), leaving the list as it is.
    #[verifier::spinoff_prover]
    #[verifier::rlimit(100)]
    fn fence(&mut self, run: &str, held: &Vec<(String, LeaseRecord)>, reason: &str) -> (r: Result<(), Error>)
        requires
            forall|i: int| 0 <= i < held@.len() ==> (#[trigger] held@[i]).1.generation < u64::MAX,
            forall|i: int| 0 <= i < held@.len() ==> !(#[trigger] held@[i]).1.quarantined,
        ensures
            old(self).book.table.reliable() ==> approvals_kept(old(self).book.table.cells(), final(self).book.table.cells()),
            final(self).book.table.reliable() == old(self).book.table.reliable(),
            r is Ok ==> advanced(
                old(self).book.table.cells(),
                final(self).book.table.cells(),
                run@,
                held_names(held_view(held@)),
                quarantine_events(held_view(held@), reason@) + seq![EventRecord::Final { state: quarantined_text() }],
            ),
            r is Ok ==> forall|i: int| 0 <= i < held@.len() ==> lease_state_of(final(self).book.table.cells(), (#[trigger] held@[i]).0@)
                == Some(Some(fenced(held@[i].1@, run@))),
            r is Ok ==> quarantined_after(old(self).book.table.cells(), run@, held_view(held@), reason@) == Some(
                final(self).book.table.cells(),
            ),
            old(self).book.table.reliable() ==> (r is Ok <==> quarantined_after(
                old(self).book.table.cells(),
                run@,
                held_view(held@),
                reason@,
            ) is Some),
            r matches Err(e) ==> e is Book,
    {
        proof {
            reveal(fenced_all);
            reveal(quarantined_after);
        }
        let ghost c0 = self.book.table.cells();
        let ghost rel = self.book.table.reliable();
        let ghost h = held_view(held@);
        let ghost names = held_names(h);
        let mut i: usize = held.len();
        proof {
            lemma_advanced_still(c0, run@, names);
            assert(h.skip(i as int) =~= seq![]);
            assert(quarantine_events(h.skip(i as int), reason@) =~= seq![]);
            assert(h.take(i as int) =~= h);
        }
        while i > 0
            invariant
                i <= held@.len(),
                h == held_view(held@),
                names == held_names(h),
                self.book.table.reliable() == rel,
                rel == old(self).book.table.reliable(),
                c0 == old(self).book.table.cells(),
                fenced_all(c0, run@, h, reason@) == fenced_all(self.book.table.cells(), run@, h.take(i as int), reason@),
                advanced(c0, self.book.table.cells(), run@, names, quarantine_events(h.skip(i as int), reason@)),
                forall|j: int| i <= j < h.len() ==> lease_state_of(self.book.table.cells(), (#[trigger] h[j]).0) == Some(
                    Some(fenced(h[j].1, run@)),
                ),
                forall|j: int| 0 <= j < held@.len() ==> (#[trigger] held@[j]).1.generation < u64::MAX,
                forall|j: int| 0 <= j < held@.len() ==> !(#[trigger] held@[j]).1.quarantined,
            decreases i,
        {
            proof {
                reveal(quarantined_after);
                reveal(fenced_all);
            }
            let target = &held[i - 1].0;
            let lease = &held[i - 1].1;
            let ghost ca = self.book.table.cells();
            let q = LeaseRecord {
                holder: run.to_owned(),
                generation: lease.generation + 1,
                expires_at: lease.expires_at,
                quarantined: true,
            };
            proof {
                let hk = h.take(i as int);
                assert(hk.last() == h[i - 1]);
                assert(h[i - 1] == (target@, lease@));
                assert(hk.drop_last() =~= h.take(i - 1));
                assert(q@ == fenced(lease@, run@));
            }
            match self.book.lease(target.as_str(), Some(lease), &q) {
                Ok(()) => {},
                Err(e) => {
                    proof {
                        assert(approvals_kept(c0, ca));
                        if rel {
                            assert(fenced_all(ca, run@, h.take(i as int), reason@) is None);
                        }
                    }
                    return Err(Error::Book(e));
                },
            }
            let ghost cb = self.book.table.cells();
            proof {
                assert(names[i - 1] == target@);
                lemma_lease_write(ca, cb, target@, Some(lease@), q@, run@, names);
                lemma_approvals_trans(c0, ca, cb);
            }
            let kind = BookEvent::Quarantined { target: target.clone(), reason: reason.to_owned() };
            match self.book.append(run, kind) {
                Ok(_) => {},
                Err(e) => {
                    proof {
                        if rel {
                            assert(fenced_all(ca, run@, h.take(i as int), reason@) is None);
                        }
                    }
                    return Err(Error::Book(e));
                },
            }
            proof {
                assert(fenced_all(ca, run@, h.take(i as int), reason@) == fenced_all(
                    self.book.table.cells(),
                    run@,
                    h.take(i - 1),
                    reason@,
                ));
            }
            proof {
                let k = i - 1;
                assert(h[k as int] == (target@, lease@));
                assert(names[k as int] == target@);
                assert(q@ == fenced(lease@, run@));
                lemma_lease_then_append(
                    ca,
                    cb,
                    self.book.table.cells(),
                    target@,
                    Some(lease@),
                    q@,
                    run@,
                    EventRecord::Quarantined { target: target@, reason: reason@ },
                    names,
                );
                lemma_advanced_trans(
                    c0,
                    ca,
                    self.book.table.cells(),
                    run@,
                    names,
                    quarantine_events(h.skip(i as int), reason@),
                    seq![EventRecord::Quarantined { target: target@, reason: reason@ }],
                );
                assert(quarantine_events(h.skip(i as int), reason@) + seq![
                    EventRecord::Quarantined { target: target@, reason: reason@ },
                ] =~= quarantine_events(h.skip(k as int), reason@));
                assert forall|j: int| k <= j < h.len() implies lease_state_of(self.book.table.cells(), (#[trigger] h[j]).0)
                    == Some(Some(fenced(h[j].1, run@))) by {
                    if j > k {
                        if h[j].0 == target@ {
                            assert(held@[j].1@ == h[j].1);
                            assert(fenced(h[j].1, run@).quarantined);
                            assert(!lease@.quarantined);
                            assert(false);
                        }
                        lemma_lease_state_cell(ca, self.book.table.cells(), h[j].0);
                    }
                }
            }
            i = i - 1;
        }
        let ghost cz = self.book.table.cells();
        proof {
            assert(h.take(0) =~= Seq::<(Seq<char>, LeaseView)>::empty());
            assert(fenced_all(c0, run@, h, reason@) == Some(cz));
        }
        let fin = BookEvent::Final { state: string_of(&vec!['q', 'u', 'a', 'r', 'a', 'n', 't', 'i', 'n', 'e', 'd']) };
        match self.book.append(run, fin) {
            Ok(_) => {},
            Err(e) => return Err(Error::Book(e)),
        }
        proof {
            assert(h.skip(0) =~= h);
            let fk = EventRecord::Final { state: quarantined_text() };
            lemma_append_advanced(cz, self.book.table.cells(), run@, fk, names);
            lemma_advanced_trans(c0, cz, self.book.table.cells(), run@, names, quarantine_events(h, reason@), seq![fk]);
            assert forall|j: int| 0 <= j < held@.len() implies lease_state_of(self.book.table.cells(), (#[trigger] held@[j]).0@)
                == Some(Some(fenced(held@[j].1@, run@))) by {
                assert(h[j].0 == held@[j].0@);
                assert(h[j].1 == held@[j].1@);
                lemma_lease_outside_history(cz, self.book.table.cells(), run@, h[j].0);
            }
        }
        Ok(())
    }
}

/// Every symbol of `v` names a target whose lease is absent or free in `cells`.
pub open spec fn all_free(cells: Map<Seq<char>, Seq<u8>>, v: Seq<Symbol>) -> bool {
    forall|i: int| 0 <= i < v.len() ==> lease_state_of(cells, (#[trigger] v[i])@) == Some(None::<LeaseView>)
}

impl<T: Table> Organ<T> {
    /// Takes a lease for `run` until `expires_at` on each of `targets`, in
    /// order. A target whose lease someone holds, `run` included, is refused
    /// as unavailable; the leases taken before it stay taken.
    #[verifier::spinoff_prover]
    fn acquire(&mut self, run: &str, targets: &Vec<Symbol>, expires_at: u64) -> (r: Result<
        Vec<(String, LeaseRecord)>,
        Error,
    >)
        ensures
            old(self).book.table.reliable() ==> approvals_kept(old(self).book.table.cells(), final(self).book.table.cells()),
            final(self).book.table.reliable() == old(self).book.table.reliable(),
            r matches Ok(held) ==> {
                &&& held@.len() == targets@.len()
                &&& forall|i: int| 0 <= i < held@.len() ==> (#[trigger] held@[i]).0@ == targets@[i]@
                    && held@[i].1@ == taken(run@, expires_at)
                &&& all_free(old(self).book.table.cells(), targets@)
                &&& run@.len() > 0 ==> distinct_symbols(targets@)
                &&& holds(final(self).book.table.cells(), held_view(held@))
                &&& advanced(
                    old(self).book.table.cells(),
                    final(self).book.table.cells(),
                    run@,
                    held_names(held_view(held@)),
                    seq![],
                )
            },
            old(self).book.table.reliable() ==> (r is Ok <==> all_free(old(self).book.table.cells(), targets@) && (
            run@.len() > 0 ==> distinct_symbols(targets@))),
            r matches Err(Error::Refused { reason, .. }) ==> reason@ == "target unavailable"@,
            r matches Err(Error::Refused { observed, .. }) ==> exists|i: int|
                #![trigger targets@[i]]
                {
                    &&& 0 <= i < targets@.len()
                    &&& all_free(old(self).book.table.cells(), targets@.take(i))
                    &&& lease_state_of(final(self).book.table.cells(), targets@[i]@) matches Some(Some(l))
                    &&& observed@ == held_debug(l)
                    &&& (forall|j: int| 0 <= j < i ==> targets@[j]@ != targets@[i]@) ==> lease_state_of(
                        old(self).book.table.cells(),
                        targets@[i]@,
                    ) == Some(Some(l))
                },
    {
        let ghost c0 = self.book.table.cells();
        let ghost rel = self.book.table.reliable();
        let ghost l = taken(run@, expires_at);
        let mut held: Vec<(String, LeaseRecord)> = Vec::new();
        let mut i: usize = 0;
        proof {
            lemma_advanced_still(c0, run@, seq![]);
        }
        while i < targets.len()
            invariant
                i <= targets@.len(),
                held@.len() == i,
                self.book.table.reliable() == rel,
                rel == old(self).book.table.reliable(),
                c0 == old(self).book.table.cells(),
                l == taken(run@, expires_at),
                forall|j: int| 0 <= j < i ==> (#[trigger] held@[j]).0@ == targets@[j]@ && held@[j].1@ == l,
                all_free(c0, targets@.take(i as int)),
                run@.len() > 0 ==> distinct_symbols(targets@.take(i as int)),
                holds(self.book.table.cells(), held_view(held@)),
                forall|n: Seq<char>| !held_names(held_view(held@)).contains(n) ==> #[trigger] cell(
                    self.book.table.cells(),
                    lease_key(n),
                ) == cell(c0, lease_key(n)),
                advanced(c0, self.book.table.cells(), run@, held_names(held_view(held@)), seq![]),
            decreases targets.len() - i,
        {
            let name = targets[i].as_str();
            let ghost ca = self.book.table.cells();
            let ghost names = held_names(held_view(held@));
            let observed = match self.book.lease_state(name) {
                Ok(o) => o,
                Err(e) => {
                    proof {
                        if rel {
                            assert(lease_state_of(ca, name@) is None);
                            if names.contains(name@) {
                                let j = choose|j: int| 0 <= j < names.len() && names[j] == name@;
                                assert(held_view(held@)[j].0 == name@);
                            }
                            lemma_lease_state_cell(ca, c0, name@);
                            assert(lease_state_of(c0, targets@[i as int]@) is None);
                            assert(!all_free(c0, targets@));
                        }
                    }
                    return Err(Error::Book(e));
                },
            };
            match observed {
                Some(held_lease) => {
                    proof {
                        if rel {
                            assert(!(all_free(c0, targets@) && (run@.len() > 0 ==> distinct_symbols(targets@)))) by {
                                if names.contains(name@) {
                                    let j = choose|j: int| 0 <= j < names.len() && names[j] == name@;
                                    assert(held_view(held@)[j].0 == name@);
                                    assert(held@[j].0@ == targets@[j]@);
                                    if run@.len() > 0 && distinct_symbols(targets@) {
                                        assert(targets@[j]@ != targets@[i as int]@);
                                    }
                                } else {
                                    lemma_lease_state_cell(ca, c0, name@);
                                    assert(lease_state_of(c0, targets@[i as int]@) != Some(None::<LeaseView>));
                                }
                            }
                        }
                        assert(targets@[i as int]@ == name@);
                        if forall|j: int| 0 <= j < i ==> targets@[j]@ != targets@[i as int]@ {
                            if names.contains(name@) {
                                let j = choose|j: int| 0 <= j < names.len() && names[j] == name@;
                                assert(held_view(held@)[j].0 == name@);
                                assert(held@[j].0@ == targets@[j]@);
                            }
                            lemma_lease_state_cell(ca, c0, name@);
                        }
                    }
                    return Err(
                        Error::Refused { reason: "target unavailable".to_owned(), observed: held_debug_text(&held_lease) },
                    );
                },
                None => {},
            }
            let lease = LeaseRecord { holder: run.to_owned(), generation: 1, expires_at, quarantined: false };
            match self.book.lease(name, None, &lease) {
                Ok(()) => {},
                Err(e) => return Err(Error::Book(e)),
            }
            let ghost cb = self.book.table.cells();
            let ghost names2 = names.push(name@);
            let ghost hb = held_view(held@);
            held.push((name.to_owned(), lease));
            proof {
                assert(held_names(held_view(held@)) =~= names2);
                assert(names2[names.len() as int] == name@);
                lemma_lease_write(ca, cb, name@, None, l, run@, names2);
                assert forall|n: Seq<char>| names.contains(n) implies names2.contains(n) by {
                    let j = choose|j: int| 0 <= j < names.len() && names[j] == n;
                    assert(names2[j] == names[j]);
                }
                lemma_advanced_widen(c0, ca, run@, names, names2, seq![]);
                lemma_advanced_trans(c0, ca, cb, run@, names2, seq![], seq![]);
                assert(Seq::<EventRecord>::empty() + Seq::<EventRecord>::empty() =~= Seq::<EventRecord>::empty());
                assert(targets@.take(i + 1) =~= targets@.take(i as int).push(targets@[i as int]));
                if !names.contains(name@) {
                    lemma_lease_state_cell(ca, c0, name@);
                } else {
                    let j = choose|j: int| 0 <= j < names.len() && names[j] == name@;
                    assert(hb[j].0 == name@);
                    assert(held@[j].0@ == targets@[j]@);
                    assert(hb[j].1 == l);
                    assert(lease_state_of(ca, hb[j].0) == Some(shown(hb[j].1)));
                    assert(shown(l) is None);
                    assert(run@.len() == 0);
                    assert(targets@.take(i as int)[j] == targets@[j]);
                    assert(lease_state_of(c0, targets@[j]@) == Some(None::<LeaseView>));
                }
                assert forall|a: int, b: int| 0 <= a < b < i + 1 && run@.len() > 0 implies (#[trigger] targets@.take(i + 1)[a])@
                    != (#[trigger] targets@.take(i + 1)[b])@ by {
                    if b == i {
                        assert(hb[a].0 == targets@[a]@);
                        assert(names[a] == targets@[a]@);
                        if targets@[a]@ == name@ {
                            assert(hb[a].1 == l);
                            assert(lease_state_of(ca, hb[a].0) == Some(shown(hb[a].1)));
                        }
                    }
                }
                assert forall|j: int| 0 <= j < held_view(held@).len() implies lease_state_of(cb, (#[trigger] held_view(held@)[j]).0)
                    == Some(shown(held_view(held@)[j].1)) by {
                    if j < i {
                        assert(held_view(held@)[j] == hb[j]);
                        if held_view(held@)[j].0 != name@ {
                            lemma_lease_state_cell(ca, cb, held_view(held@)[j].0);
                        }
                    }
                }
                assert forall|n: Seq<char>| !names2.contains(n) implies #[trigger] cell(cb, lease_key(n)) == cell(c0, lease_key(n)) by {
                    assert(!names.contains(n));
                    assert(n != name@);
                }
            }
            i = i + 1;
        }
        proof {
            assert(targets@.take(targets@.len() as int) =~= targets@);
        }
        Ok(held)
    }
}

/// What opening a run records: the plan, the preview's evidence where
/// there is a preview, then the intent to dispatch.
pub open spec fn opening_events(plan: Seq<char>, preview: Option<Preview>) -> Seq<EventRecord> {
    seq![EventRecord::Opened { plan }] + match preview {
        Some(p) => seq![EventRecord::Preview { evidence: content_key(preview_code(p)) }],
        None => seq![],
    } + seq![EventRecord::DispatchIntent]
}

/// What the callback events `es` record, in order.
pub open spec fn callback_events(es: Seq<crate::records::Event>) -> Seq<EventRecord> {
    es.map_values(
        |e: crate::records::Event| EventRecord::Callback { sequence: e.sequence as u64, kind: event_kind_name(e.kind) },
    )
}

/// The final state an apply records.
pub open spec fn apply_state_text(s: ApplyState) -> Seq<char> {
    match s {
        ApplyState::Verified => verified_text(),
        ApplyState::ProcessCompleteUnverified => unverified_text(),
        ApplyState::Quarantined => quarantined_text(),
    }
}

/// The text `returned`.
pub open spec fn returned_text() -> Seq<char> {
    "returned"@
}

/// The reason recorded for targets quarantined after an unknown dispatch.
pub open spec fn unknown_reason() -> Seq<char> {
    "unknown-after-dispatch"@
}

/// The symbols of `v`, copied.
fn copy_symbols(v: &Vec<Symbol>) -> (r: Vec<Symbol>)
    ensures
        r@ == v@,
{
    let mut out: Vec<Symbol> = Vec::new();
    let mut i: usize = 0;
    while i < v.len()
        invariant
            i <= v@.len(),
            out@ == v@.take(i as int),
        decreases v.len() - i,
    {
        out.push(v[i].clone());
        proof {
            assert(v@.take(i + 1) =~= v@.take(i as int).push(v@[i as int]));
        }
        i = i + 1;
    }
    assert(v@.take(v@.len() as int) =~= v@);
    out
}

impl<T: Table> Organ<T> {
    /// Records `kind` for `run`.
    fn record(&mut self, run: &str, kind: BookEvent) -> (r: Result<(), Error>)
        ensures
            old(self).book.table.reliable() ==> approvals_kept(old(self).book.table.cells(), final(self).book.table.cells()),
            final(self).book.table.reliable() == old(self).book.table.reliable(),
            r is Ok ==> advanced(old(self).book.table.cells(), final(self).book.table.cells(), run@, seq![], seq![kind@]),
            r is Ok ==> appended(old(self).book.table.cells(), run@, kind@) == Some(final(self).book.table.cells()),
            old(self).book.table.reliable() ==> (r is Ok <==> appended(old(self).book.table.cells(), run@, kind@) is Some),
            r matches Err(e) ==> e is Book,
    {
        let ghost c = self.book.table.cells();
        let ghost k = kind@;
        match self.book.append(run, kind) {
            Ok(_) => {
                proof {
                    lemma_append_advanced(c, self.book.table.cells(), run@, k, seq![]);
                }
                Ok(())
            },
            Err(e) => Err(Error::Book(e)),
        }
    }

    /// Opens `run` for `planned`: records the plan, the interned preview
    /// where there is one, and the intent to dispatch.
    #[verifier::spinoff_prover]
    fn open_run(&mut self, run: &str, planned: &Planned) -> (r: Result<(), Error>)
        ensures
            old(self).book.table.reliable() ==> approvals_kept(old(self).book.table.cells(), final(self).book.table.cells()),
            final(self).book.table.reliable() == old(self).book.table.reliable(),
            r is Ok ==> advanced(
                old(self).book.table.cells(),
                final(self).book.table.cells(),
                run@,
                seq![],
                opening_events(planned.key@, planned.preview),
            ),
            r is Ok ==> opened(old(self).book.table.cells(), run@, planned.key@, planned.preview) == Some(
                final(self).book.table.cells(),
            ),
            old(self).book.table.reliable() ==> (r is Ok <==> opened(old(self).book.table.cells(), run@, planned.key@, planned.preview)
                is Some),
    {
        proof {
            reveal(opened);
        }
        let ghost c0 = self.book.table.cells();
        self.record(run, BookEvent::Opened { plan: planned.key.clone() })?;
        let ghost c1 = self.book.table.cells();
        let ghost mid: Seq<EventRecord> = seq![];
        match &planned.preview {
            Some(p) => {
                let b = encode_preview(p);
                let k = match self.book.intern(b.as_slice()) {
                    Ok(k) => k,
                    Err(e) => return Err(Error::Book(e)),
                };
                let ghost ci = self.book.table.cells();
                proof {
                    lemma_intern_advanced(c1, b@, run@, seq![]);
                }
                self.record(run, BookEvent::Preview { evidence: k })?;
                proof {
                    mid = seq![EventRecord::Preview { evidence: content_key(preview_code(*p)) }];
                    lemma_advanced_trans(c1, ci, self.book.table.cells(), run@, seq![], seq![], mid);
                    assert(Seq::<EventRecord>::empty() + mid =~= mid);
                }
            },
            None => {
                proof {
                    lemma_advanced_still(c1, run@, seq![]);
                }
            },
        }
        let ghost c2 = self.book.table.cells();
        self.record(run, BookEvent::DispatchIntent)?;
        proof {
            let o = seq![EventRecord::Opened { plan: planned.key@ }];
            let d = seq![EventRecord::DispatchIntent];
            lemma_advanced_trans(c0, c1, c2, run@, seq![], o, mid);
            lemma_advanced_trans(c0, c2, self.book.table.cells(), run@, seq![], o + mid, d);
            assert(o + mid + d =~= opening_events(planned.key@, planned.preview));
        }
        Ok(())
    }

    /// Records each callback event of `events`, in order, by its sequence
    /// number and kind name.
    #[verifier::spinoff_prover]
    fn record_events(&mut self, run: &str, events: &Vec<crate::records::Event>) -> (r: Result<(), Error>)
        ensures
            old(self).book.table.reliable() ==> approvals_kept(old(self).book.table.cells(), final(self).book.table.cells()),
            final(self).book.table.reliable() == old(self).book.table.reliable(),
            r is Ok ==> advanced(
                old(self).book.table.cells(),
                final(self).book.table.cells(),
                run@,
                seq![],
                callback_events(events@),
            ),
            r is Ok ==> appended_all(old(self).book.table.cells(), run@, callback_events(events@)) == Some(
                final(self).book.table.cells(),
            ),
            old(self).book.table.reliable() ==> (r is Ok <==> appended_all(
                old(self).book.table.cells(),
                run@,
                callback_events(events@),
            ) is Some),
    {
        proof {
            reveal(appended_all);
        }
        let ghost c0 = self.book.table.cells();
        let ghost rel = self.book.table.reliable();
        let mut i: usize = 0;
        proof {
            lemma_advanced_still(c0, run@, seq![]);
            assert(callback_events(events@.take(0)) =~= seq![]);
        }
        while i < events.len()
            invariant
                i <= events@.len(),
                self.book.table.reliable() == rel,
                rel == old(self).book.table.reliable(),
                c0 == old(self).book.table.cells(),
                advanced(c0, self.book.table.cells(), run@, seq![], callback_events(events@.take(i as int))),
                appended_all(c0, run@, callback_events(events@.take(i as int))) == Some(self.book.table.cells()),
            decreases events.len() - i,
        {
            proof {
                reveal(appended_all);
            }
            let e = &events[i];
            let ghost ca = self.book.table.cells();
            let kind = BookEvent::Callback { sequence: e.sequence as u64, kind: event_kind_text(e.kind) };
            let ghost kv = kind@;
            proof {
                assert(events@.take(i + 1) =~= events@.take(i as int).push(events@[i as int]));
                assert(callback_events(events@.take(i as int)).push(kv) =~= callback_events(events@.take(i + 1)));
                assert(callback_events(events@.take(i + 1)).drop_last() =~= callback_events(events@.take(i as int)));
            }
            match self.record(run, kind) {
                Ok(()) => {},
                Err(e) => {
                    proof {
                        if rel {
                            assert(callback_events(events@).take(i + 1) =~= callback_events(events@.take(i + 1)));
                            assert(callback_events(events@.take(i + 1)).last() == kv);
                            assert(appended(ca, run@, kv) is None);
                            assert(appended_all(c0, run@, callback_events(events@.take(i + 1))) is None);
                            lemma_appended_all_prefix(c0, run@, callback_events(events@), i + 1);
                        }
                    }
                    return Err(e);
                },
            }
            proof {
                lemma_advanced_trans(c0, ca, self.book.table.cells(), run@, seq![], callback_events(events@.take(i as int)), seq![kv]);
                assert(events@.take(i + 1) =~= events@.take(i as int).push(events@[i as int]));
                assert(callback_events(events@.take(i as int)) + seq![kv] =~= callback_events(events@.take(i + 1)));
            }
            i = i + 1;
        }
        proof {
            assert(events@.take(events@.len() as int) =~= events@);
        }
        Ok(())
    }
}

/// `after` is `before` followed by the events of one run of a plan: they
/// open with the plan and end with the final `state`.
pub open spec fn ran(before: Seq<EventRecord>, after: Seq<EventRecord>, plan: Seq<char>, state: Seq<char>) -> bool {
    &&& after.len() > before.len() + 1
    &&& after.take(before.len() as int) == before
    &&& after[before.len() as int] == EventRecord::Opened { plan }
    &&& forall|i: int| before.len() < i < after.len() ==> !(#[trigger] after[i] is Opened)
    &&& after.last() == EventRecord::Final { state }
}

/// `after` is `before` followed by events that open no run and end with
/// the final `state`.
pub open spec fn ended(before: Seq<EventRecord>, after: Seq<EventRecord>, state: Seq<char>) -> bool {
    &&& after.len() > before.len()
    &&& after.take(before.len() as int) == before
    &&& forall|i: int| before.len() <= i < after.len() ==> !(#[trigger] after[i] is Opened)
    &&& after.last() == EventRecord::Final { state }
}

/// After a run of a plan, the run's projection names the plan and shows
/// the final state.
pub proof fn lemma_ran_state(before: Seq<EventRecord>, after: Seq<EventRecord>, plan: Seq<char>, state: Seq<char>)
    requires
        ran(before, after, plan, state),
    ensures
        plan_and_state(after) == (plan, state),
{
    lemma_plan_after_open(after, before.len() as int, plan);
}

proof fn lemma_plan_after_open(es: Seq<EventRecord>, k: int, plan: Seq<char>)
    requires
        0 <= k < es.len(),
        es[k] == (EventRecord::Opened { plan }),
        forall|i: int| k < i < es.len() ==> !(#[trigger] es[i] is Opened),
    ensures
        plan_and_state(es).0 == plan,
    decreases es.len(),
{
    if k < es.len() - 1 {
        assert(!(es[es.len() - 1] is Opened));
        assert forall|i: int| k < i < es.drop_last().len() implies !(#[trigger] es.drop_last()[i] is Opened) by {
            assert(es.drop_last()[i] == es[i]);
        }
        lemma_plan_after_open(es.drop_last(), k, plan);
    }
}


/// No event of `es` opens a run.
pub open spec fn opens_none(es: Seq<EventRecord>) -> bool {
    forall|i: int| 0 <= i < es.len() ==> !(#[trigger] es[i] is Opened)
}

proof fn lemma_opens_none_add(a: Seq<EventRecord>, b: Seq<EventRecord>)
    requires
        opens_none(a),
        opens_none(b),
    ensures
        opens_none(a + b),
{
    assert forall|i: int| 0 <= i < (a + b).len() implies !(#[trigger] (a + b)[i] is Opened) by {
        if i < a.len() {
            assert((a + b)[i] == a[i]);
        } else {
            assert((a + b)[i] == b[i - a.len()]);
        }
    }
}

/// A consumed approval stays consumed while its cell is kept.
proof fn lemma_single_use_kept(c0: Map<Seq<char>, Seq<u8>>, c1: Map<Seq<char>, Seq<u8>>, c2: Map<Seq<char>, Seq<u8>>, id: Seq<char>, run: Seq<char>)
    requires
        consumed_after(c0, id, run) == Some(c1),
        fits(c1[approval_key(id)]),
        approvals_kept(c1, c2),
    ensures
        forall|again: Seq<char>| #[trigger] consumed_after(c2, id, again) is None,
{
    lemma_key_kinds(seq![], seq![], id, seq![]);
    assert(cell(c2, approval_key(id)) == cell(c1, approval_key(id)));
    assert forall|again: Seq<char>| #[trigger] consumed_after(c2, id, again) is None by {
        lemma_approval_single_use(c0, id, run, again);
        lemma_consumed_after_cell(c1, c2, id, again);
    }
}

/// The lease a target is left with after an apply that ended in `state`:
/// free, or quarantined and held by `run` at the second generation.
pub open spec fn left_lease(l: Option<Option<LeaseView>>, state: ApplyState, run: Seq<char>) -> bool {
    if state == ApplyState::Quarantined {
        l matches Some(Some(v)) && v.holder == run && v.quarantined && v.generation == 2
    } else {
        l == Some(None::<LeaseView>)
    }
}

/// An apply outcome for `run` under `policy`: verified exactly when a
/// passed verification is reported, which the policy asked for.
pub open spec fn outcome_fits(o: ApplyOutcome, policy: Policy, run: Seq<char>) -> bool {
    &&& o.run@ == run
    &&& (o.state == ApplyState::Verified) == (o.verification is Some)
    &&& o.verification matches Some(v) ==> v.passed
    &&& o.state == ApplyState::Verified ==> policy.verify
    &&& o.state == ApplyState::ProcessCompleteUnverified ==> !policy.verify
}


proof fn lemma_opening_shape(plan: Seq<char>, preview: Option<Preview>)
    ensures
        opening_events(plan, preview).len() > 1,
        opening_events(plan, preview)[0] == (EventRecord::Opened { plan }),
        forall|i: int| 0 < i < opening_events(plan, preview).len() ==> !(#[trigger] opening_events(plan, preview)[i] is Opened),
{
    let o = opening_events(plan, preview);
    let mid: Seq<EventRecord> = match preview {
        Some(p) => seq![EventRecord::Preview { evidence: content_key(preview_code(p)) }],
        None => seq![],
    };
    assert(o == seq![EventRecord::Opened { plan }] + mid + seq![EventRecord::DispatchIntent]);
    assert forall|i: int| 0 < i < o.len() implies !(#[trigger] o[i] is Opened) by {
        if i < 1 + mid.len() {
            assert(o[i] == mid[i - 1]);
        } else {
            assert(o[i] == EventRecord::DispatchIntent);
        }
    }
}

proof fn lemma_quarantine_tail(held: Seq<(Seq<char>, LeaseView)>, reason: Seq<char>)
    ensures
        opens_none(quarantine_events(held, reason) + seq![EventRecord::Final { state: quarantined_text() }]),
{
    let q = quarantine_events(held, reason);
    assert(opens_none(q));
    assert(opens_none(seq![EventRecord::Final { state: quarantined_text() }]));
    lemma_opens_none_add(q, seq![EventRecord::Final { state: quarantined_text() }]);
}

proof fn lemma_finish_tail(
    events: Seq<crate::records::Event>,
    checked: Seq<EventRecord>,
    held: Seq<(Seq<char>, LeaseView)>,
    state: Seq<char>,
)
    requires
        opens_none(checked),
    ensures
        opens_none(callback_events(events) + checked + (cleanup_events(held) + seq![EventRecord::Final { state }])),
{
    let fin = seq![EventRecord::Final { state }];
    assert(opens_none(callback_events(events)));
    assert(opens_none(cleanup_events(held)));
    assert(opens_none(fin));
    lemma_opens_none_add(callback_events(events), checked);
    lemma_opens_none_add(cleanup_events(held), fin);
    lemma_opens_none_add(callback_events(events) + checked, cleanup_events(held) + fin);
}

/// A run's history that reaches `c4` by `opening`, and then ends as
/// `ended` says, ran from `c2`.
proof fn lemma_open_ended(
    c2: Map<Seq<char>, Seq<u8>>,
    c4: Map<Seq<char>, Seq<u8>>,
    cf: Map<Seq<char>, Seq<u8>>,
    run: Seq<char>,
    opening: Seq<EventRecord>,
    plan: Seq<char>,
    state: Seq<char>,
)
    requires
        advanced(c2, c4, run, seq![], opening),
        approvals_kept(c4, cf),
        history(c4, run) matches Some(h4) ==> history(cf, run) matches Some(h) && ended(h4, h, state),
        opening.len() > 1,
        opening[0] == (EventRecord::Opened { plan }),
        forall|i: int| 0 < i < opening.len() ==> !(#[trigger] opening[i] is Opened),
    ensures
        approvals_kept(c2, cf),
        history(c2, run) matches Some(h0) ==> history(cf, run) matches Some(h) && ran(h0, h, plan, state),
{
    assert forall|k: Seq<char>| k.len() > 0 && k[0] == 'a' implies #[trigger] cell(cf, k) == cell(c2, k) by {
        assert(cell(c4, k) == cell(c2, k));
    }
    if history(c2, run) is Some {
        let h2 = history(c2, run)->0;
        let h4 = history(c4, run)->0;
        let h = history(cf, run)->0;
        assert(h4 == h2 + opening);
        assert(h.take(h4.len() as int) == h4);
        assert(h.take(h2.len() as int) =~= h4.take(h2.len() as int));
        assert(h4.take(h2.len() as int) =~= h2);
        assert(h[h2.len() as int] == h.take(h4.len() as int)[h2.len() as int]);
        assert(h4[h2.len() as int] == opening[0]);
        assert forall|i: int| h2.len() < i < h.len() implies !(#[trigger] h[i] is Opened) by {
            if i < h4.len() {
                assert(h[i] == h.take(h4.len() as int)[i]);
                assert(h4[i] == opening[i - h2.len()]);
            }
        }
    }
}

/// A history that grows by `tail`, which opens no run and ends with the
/// final `state`, has ended.
proof fn lemma_tail_ended(
    c1: Map<Seq<char>, Seq<u8>>,
    c2: Map<Seq<char>, Seq<u8>>,
    run: Seq<char>,
    names: Seq<Seq<char>>,
    tail: Seq<EventRecord>,
    state: Seq<char>,
)
    requires
        advanced(c1, c2, run, names, tail),
        opens_none(tail),
        tail.len() > 0,
        tail.last() == (EventRecord::Final { state }),
    ensures
        history(c1, run) matches Some(h1) ==> history(c2, run) matches Some(h) && ended(h1, h, state),
{
    if history(c1, run) is Some {
        let h1 = history(c1, run)->0;
        let h = h1 + tail;
        assert(h.take(h1.len() as int) =~= h1);
        assert(h.last() == tail.last());
        assert forall|i: int| h1.len() <= i < h.len() implies !(#[trigger] h[i] is Opened) by {
            assert(h[i] == tail[i - h1.len()]);
        }
    }
}

/// A history that grows by `mid`, which opens no run, and then ends, has
/// ended.
proof fn lemma_ended_after(
    c1: Map<Seq<char>, Seq<u8>>,
    c2: Map<Seq<char>, Seq<u8>>,
    c3: Map<Seq<char>, Seq<u8>>,
    run: Seq<char>,
    mid: Seq<EventRecord>,
    state: Seq<char>,
)
    requires
        advanced(c1, c2, run, seq![], mid),
        opens_none(mid),
        history(c2, run) matches Some(h2) ==> history(c3, run) matches Some(h) && ended(h2, h, state),
    ensures
        history(c1, run) matches Some(h1) ==> history(c3, run) matches Some(h) && ended(h1, h, state),
{
    if history(c1, run) is Some {
        let h1 = history(c1, run)->0;
        let h2 = history(c2, run)->0;
        let h = history(c3, run)->0;
        assert(h2 == h1 + mid);
        assert(h.take(h2.len() as int) == h2);
        assert(h.take(h1.len() as int) =~= h2.take(h1.len() as int));
        assert(h2.take(h1.len() as int) =~= h1);
        assert forall|i: int| h1.len() <= i < h.len() implies !(#[trigger] h[i] is Opened) by {
            if i < h2.len() {
                assert(h[i] == h.take(h2.len() as int)[i]);
                assert(h2[i] == mid[i - h1.len()]);
            }
        }
    }
}

impl<T: Table> Organ<T> {
    /// Interns the planned inventory and builds the request the effect gate
    /// is asked to let through, the provider-facing plan, and the approval
    /// the provider is shown.
    #[verifier::spinoff_prover]
    fn effect_request(&mut self, planned: &Planned, approval_key: Key) -> (r: Result<(EffectRequest, Plan, crate::records::Approval), Error>)
        requires
            planned.key@.len() >= 23,
        ensures
            old(self).book.table.reliable() ==> approvals_kept(old(self).book.table.cells(), final(self).book.table.cells()),
            final(self).book.table.reliable() == old(self).book.table.reliable(),
            r matches Ok((req, plan, approval)) ==> {
                let inv = inventory_code(planned.plan.inventory);
                &&& absent_or_same(old(self).book.table.cells(), content_key(inv), inv)
                &&& final(self).book.table.cells() == old(self).book.table.cells().insert(content_key(inv), inv)
                &&& req.plan@ == planned.key@
                &&& req.provider@ == planned.plan.provider.provider@
                &&& req.operation@ == planned.plan.operation.exposure@
                &&& req.project == planned.plan.project
                &&& req.inventory@ == content_key(inv)
                &&& req.targets@ == planned.plan.targets@
                &&& req.approval@ == approval_key@
                &&& plan.id@ == provider_plan_id(planned.key@)
                &&& approval.version == 1
                &&& approval.plan@ == plan.id@
                &&& approval.project == planned.plan.project
                &&& approval.granted
            },
            old(self).book.table.reliable() ==> (r is Ok <==> absent_or_same(
                old(self).book.table.cells(),
                content_key(inventory_code(planned.plan.inventory)),
                inventory_code(planned.plan.inventory),
            ) && is_symbol_text(provider_plan_id(planned.key@))),
    {
        let b = encode_inventory(&planned.plan.inventory);
        let inventory = match self.book.intern(b.as_slice()) {
            Ok(k) => k,
            Err(e) => return Err(Error::Book(e)),
        };
        let request = EffectRequest {
            plan: planned.key.clone(),
            provider: planned.plan.provider.provider.clone(),
            operation: planned.plan.operation.exposure.clone(),
            project: planned.plan.project,
            inventory,
            targets: copy_symbols(&planned.plan.targets),
            approval: approval_key,
        };
        let plan = to_provider_plan(&planned.key, &planned.plan)?;
        let approval = crate::records::Approval {
            version: 1,
            plan: plan.id.clone(),
            project: planned.plan.project,
            granted: true,
        };
        Ok((request, plan, approval))
    }

    /// Carries out an approved, leased run of `planned`: records the run's
    /// opening, consults the effect gate before each of the three provider calls that
    /// act or read (the effect itself, its callbacks, its check), and
    /// settles the leases of `held` by the outcome.
    #[verifier::spinoff_prover]
    #[verifier::rlimit(60)]
    fn carry_out<P: EstateProvider, G: EffectGate>(
        &mut self,
        provider: &mut P,
        gate: &mut G,
        planned: &Planned,
        approval_key: Key,
        run: &str,
        held: &mut Vec<(String, LeaseRecord)>,
    ) -> (r: Result<ApplyOutcome, Error>)
        requires
            planned.key@.len() >= 23,
            forall|i: int| 0 <= i < old(held)@.len() ==> (#[trigger] old(held)@[i]).1.generation == 1 && !old(held)@[i].1.quarantined
                && old(held)@[i].1.holder@ == run@,
        ensures
            old(self).book.table.reliable() ==> approvals_kept(old(self).book.table.cells(), final(self).book.table.cells()),
            final(self).book.table.reliable() == old(self).book.table.reliable(),
            r matches Ok(o) ==> outcome_fits(o, planned.plan.policy, run@),
            r is Ok ==> approvals_kept(old(self).book.table.cells(), final(self).book.table.cells()),
            r matches Ok(o) ==> forall|i: int| 0 <= i < old(held)@.len() ==> left_lease(
                lease_state_of(final(self).book.table.cells(), (#[trigger] old(held)@[i]).0@),
                o.state,
                run@,
            ),
            r matches Ok(o) ==> (history(old(self).book.table.cells(), run@) matches Some(h0) ==> history(
                final(self).book.table.cells(),
                run@,
            ) matches Some(h) && ran(h0, h, planned.key@, apply_state_text(o.state))),
            r is Ok ==> final(held)@.len() == 0,
            final(held)@ == old(held)@ || final(held)@.len() == 0,
            r matches Ok(o) ==> (o.state == ApplyState::Quarantined ==> forall|i: int| 0 <= i < old(held)@.len()
                ==> lease_state_of(final(self).book.table.cells(), (#[trigger] old(held)@[i]).0@) == Some(
                Some(fenced(old(held)@[i].1@, run@)),
            )),
    {
        let ghost h0 = held@;
        let ghost c2 = self.book.table.cells();
        let ghost hv = held_view(h0);
        let ghost names = held_names(hv);
        proof {
            assert forall|i: int| 0 <= i < h0.len() implies (#[trigger] h0[i]).1.generation < u64::MAX by {}
        }
        self.open_run(run, planned)?;
        let ghost c3 = self.book.table.cells();
        let (request, provider_plan, approval) = self.effect_request(planned, approval_key)?;
        let ghost c4 = self.book.table.cells();
        let ghost opening = opening_events(planned.key@, planned.preview);
        proof {
            lemma_intern_advanced(c3, inventory_code(planned.plan.inventory), run@, seq![]);
            lemma_advanced_trans(c2, c3, c4, run@, seq![], opening, seq![]);
            assert(opening + Seq::<EventRecord>::empty() =~= opening);
        }
        let dispatched: Result<crate::records::Run, Error> = match gate.allow(&request) {
            Ok(()) => match provider.perform(&provider_plan, &approval) {
                Ok(x) => Ok(x),
                Err(e) => Err(Error::Estate(e)),
            },
            Err(e) => Err(e),
        };
        let o = self.conclude_dispatch(provider, gate, &request, planned, run, held, dispatched)?;
        proof {
            lemma_opening_shape(planned.key@, planned.preview);
            lemma_open_ended(c2, c4, self.book.table.cells(), run@, opening, planned.key@, apply_state_text(o.state));
        }
        Ok(o)
    }

    /// Concludes a run whose effect was dispatched, `dispatched` being what
    /// the gated perform answered: a returned run is recorded as a process
    /// attempt and finished (see `finish_run`); an outcome unknown after
    /// dispatch quarantines the targets of `held` and is reported as
    /// quarantined; any other refusal gives the leases back and stands.
    #[verifier::spinoff_prover]
    #[verifier::rlimit(60)]
    fn conclude_dispatch<P: EstateProvider, G: EffectGate>(
        &mut self,
        provider: &mut P,
        gate: &mut G,
        request: &EffectRequest,
        planned: &Planned,
        run: &str,
        held: &mut Vec<(String, LeaseRecord)>,
        dispatched: Result<crate::records::Run, Error>,
    ) -> (r: Result<ApplyOutcome, Error>)
        requires
            forall|i: int| 0 <= i < old(held)@.len() ==> (#[trigger] old(held)@[i]).1.generation == 1 && !old(held)@[i].1.quarantined
                && old(held)@[i].1.holder@ == run@,
        ensures
            old(self).book.table.reliable() ==> approvals_kept(old(self).book.table.cells(), final(self).book.table.cells()),
            final(self).book.table.reliable() == old(self).book.table.reliable(),
            r matches Ok(o) ==> outcome_fits(o, planned.plan.policy, run@),
            r is Ok ==> approvals_kept(old(self).book.table.cells(), final(self).book.table.cells()),
            r matches Ok(o) ==> forall|i: int| 0 <= i < old(held)@.len() ==> left_lease(
                lease_state_of(final(self).book.table.cells(), (#[trigger] old(held)@[i]).0@),
                o.state,
                run@,
            ),
            r matches Ok(o) ==> (history(old(self).book.table.cells(), run@) matches Some(h0) ==> history(
                final(self).book.table.cells(),
                run@,
            ) matches Some(h) && ended(h0, h, apply_state_text(o.state))),
            dispatched == Err::<crate::records::Run, Error>(Error::Estate(EstateError::UnknownAfterDispatch)) ==> (
            r matches Ok(o) ==> {
                &&& o.run@ == run@
                &&& o.state == ApplyState::Quarantined
                &&& o.verification is None
                &&& quarantined_after(old(self).book.table.cells(), run@, held_view(old(held)@), unknown_reason()) == Some(
                    final(self).book.table.cells(),
                )
            }),
            old(self).book.table.reliable() && dispatched == Err::<crate::records::Run, Error>(
                Error::Estate(EstateError::UnknownAfterDispatch),
            ) ==> (r is Ok <==> quarantined_after(
                old(self).book.table.cells(),
                run@,
                held_view(old(held)@),
                unknown_reason(),
            ) is Some),
            dispatched matches Err(e) ==> (e != Error::Estate(EstateError::UnknownAfterDispatch) ==> r is Err),
            old(self).book.table.reliable() ==> (dispatched matches Err(e) ==> (e != Error::Estate(
                EstateError::UnknownAfterDispatch,
            ) ==> (released(old(self).book.table.cells(), run@, held_view(old(held)@)) matches Some(c) ==> r == Err::<
                ApplyOutcome,
                Error,
            >(e) && final(self).book.table.cells() == c))),
            dispatched is Ok ==> (r matches Ok(o) ==> o.state != ApplyState::Quarantined),
            r is Ok ==> final(held)@.len() == 0,
            dispatched is Err ==> final(held)@.len() == 0,
            final(held)@ == old(held)@ || final(held)@.len() == 0,
            r matches Ok(o) ==> (o.state == ApplyState::Quarantined ==> forall|i: int| 0 <= i < old(held)@.len()
                ==> lease_state_of(final(self).book.table.cells(), (#[trigger] old(held)@[i]).0@) == Some(
                Some(fenced(old(held)@[i].1@, run@)),
            )),
    {
        let ghost h0 = held@;
        let ghost c4 = self.book.table.cells();
        let ghost hv = held_view(h0);
        let ghost names = held_names(hv);
        let settled = self.settle_dispatch(run, held, dispatched)?;
        let run_record = match settled {
            Some(x) => x,
            None => {
                proof {
                    let tail = quarantine_events(hv, unknown_reason()) + seq![EventRecord::Final { state: quarantined_text() }];
                    lemma_quarantine_tail(hv, unknown_reason());
                    lemma_tail_ended(c4, self.book.table.cells(), run@, names, tail, quarantined_text());
                }
                return Ok(ApplyOutcome { run: run.to_owned(), state: ApplyState::Quarantined, verification: None });
            },
        };
        let ghost c5 = self.book.table.cells();
        let o = self.finish_run(provider, gate, request, &run_record, planned, run, held)?;
        proof {
            let pa = seq![EventRecord::ProcessAttempt { dispatched: true, detail: returned_text() }];
            assert(opens_none(pa));
            lemma_ended_after(c4, c5, self.book.table.cells(), run@, pa, apply_state_text(o.state));
        }
        Ok(o)
    }

    /// What a dispatch result leaves: a returned run is recorded as a
    /// process attempt and handed on; an outcome unknown after dispatch
    /// quarantines the targets of `held` (`None`); any other refusal gives
    /// the leases back and stands.
    #[verifier::spinoff_prover]
    #[verifier::rlimit(100)]
    fn settle_dispatch(
        &mut self,
        run: &str,
        held: &mut Vec<(String, LeaseRecord)>,
        dispatched: Result<crate::records::Run, Error>,
    ) -> (r: Result<Option<crate::records::Run>, Error>)
        requires
            forall|i: int| 0 <= i < old(held)@.len() ==> (#[trigger] old(held)@[i]).1.generation == 1 && !old(held)@[i].1.quarantined,
        ensures
            old(self).book.table.reliable() ==> approvals_kept(old(self).book.table.cells(), final(self).book.table.cells()),
            final(self).book.table.reliable() == old(self).book.table.reliable(),
            r matches Ok(Some(x)) ==> dispatched == Ok::<crate::records::Run, Error>(x) && advanced(
                old(self).book.table.cells(),
                final(self).book.table.cells(),
                run@,
                seq![],
                seq![EventRecord::ProcessAttempt { dispatched: true, detail: returned_text() }],
            ),
            r matches Ok(None) ==> dispatched == Err::<crate::records::Run, Error>(Error::Estate(EstateError::UnknownAfterDispatch))
                && advanced(
                old(self).book.table.cells(),
                final(self).book.table.cells(),
                run@,
                held_names(held_view(old(held)@)),
                quarantine_events(held_view(old(held)@), unknown_reason()) + seq![EventRecord::Final { state: quarantined_text() }],
            ) && forall|i: int| 0 <= i < old(held)@.len() ==> lease_state_of(final(self).book.table.cells(), (#[trigger] old(held)@[i]).0@)
                == Some(Some(fenced(old(held)@[i].1@, run@))),
            dispatched is Err && dispatched != Err::<crate::records::Run, Error>(Error::Estate(EstateError::UnknownAfterDispatch))
                ==> r is Err,
            old(self).book.table.reliable() ==> (r is Ok <==> match dispatched {
                Ok(_) => appended(
                    old(self).book.table.cells(),
                    run@,
                    EventRecord::ProcessAttempt { dispatched: true, detail: returned_text() },
                ) is Some,
                Err(Error::Estate(EstateError::UnknownAfterDispatch)) => quarantined_after(
                    old(self).book.table.cells(),
                    run@,
                    held_view(old(held)@),
                    unknown_reason(),
                ) is Some,
                Err(_) => false,
            }),
            old(self).book.table.reliable() && released(old(self).book.table.cells(), run@, held_view(old(held)@)) is Some
                ==> (dispatched matches Err(e) ==> (e != Error::Estate(EstateError::UnknownAfterDispatch) ==> r
                == Err::<Option<crate::records::Run>, Error>(e))),
            r matches Ok(Some(_)) ==> appended(
                old(self).book.table.cells(),
                run@,
                EventRecord::ProcessAttempt { dispatched: true, detail: returned_text() },
            ) == Some(final(self).book.table.cells()),
            r matches Ok(None) ==> quarantined_after(old(self).book.table.cells(), run@, held_view(old(held)@), unknown_reason())
                == Some(final(self).book.table.cells()),
            old(self).book.table.reliable() ==> (dispatched matches Err(e) ==> (e != Error::Estate(
                EstateError::UnknownAfterDispatch,
            ) ==> (released(old(self).book.table.cells(), run@, held_view(old(held)@)) matches Some(c)
                ==> final(self).book.table.cells() == c))),
            dispatched is Ok ==> final(held)@ == old(held)@,
            dispatched is Err ==> final(held)@.len() == 0,
    {
        let ghost h0 = held@;
        match dispatched {
            Ok(x) => {
                self.record(run, BookEvent::ProcessAttempt { dispatched: true, detail: "returned".to_owned() })?;
                Ok(Some(x))
            },
            Err(Error::Estate(EstateError::UnknownAfterDispatch)) => {
                self.quarantine(run, held, "unknown-after-dispatch")?;
                Ok(None)
            },
            Err(e) => {
                self.release(run, held)?;
                Err(e)
            },
        }
    }

    /// Settles the check of a returned run, `checked` being what the check
    /// answered: a passed check is recorded and returned; a failed or
    /// refused check quarantines the targets of `held` and is an error.
    #[verifier::spinoff_prover]
    fn check_run(
        &mut self,
        run: &str,
        held: &mut Vec<(String, LeaseRecord)>,
        checked: Result<Verification, Error>,
    ) -> (r: Result<Verification, Error>)
        requires
            forall|i: int| 0 <= i < old(held)@.len() ==> (#[trigger] old(held)@[i]).1.generation == 1 && !old(held)@[i].1.quarantined,
        ensures
            old(self).book.table.reliable() ==> approvals_kept(old(self).book.table.cells(), final(self).book.table.cells()),
            final(self).book.table.reliable() == old(self).book.table.reliable(),
            r matches Ok(v) ==> v.passed && advanced(
                old(self).book.table.cells(),
                final(self).book.table.cells(),
                run@,
                seq![],
                seq![EventRecord::Verification { passed: true }],
            ),
            r is Ok ==> r == checked,
            old(self).book.table.reliable() ==> (r is Ok <==> (checked matches Ok(v) && v.passed && appended(
                old(self).book.table.cells(),
                run@,
                EventRecord::Verification { passed: true },
            ) is Some)),
            old(self).book.table.reliable() ==> (checked matches Ok(v) ==> (!v.passed ==> (appended(
                old(self).book.table.cells(),
                run@,
                EventRecord::Verification { passed: false },
            ) matches Some(c) ==> (quarantined_after(c, run@, held_view(old(held)@), "verification-failed"@) is Some ==> r
                == Err::<Verification, Error>(Error::Estate(EstateError::VerificationFailed)))))),
            old(self).book.table.reliable() ==> (checked matches Err(e) ==> (quarantined_after(
                old(self).book.table.cells(),
                run@,
                held_view(old(held)@),
                "verification-failed"@,
            ) is Some ==> r == Err::<Verification, Error>(e))),
            old(self).book.table.reliable() ==> (checked matches Ok(v) ==> (!v.passed ==> (appended(
                old(self).book.table.cells(),
                run@,
                EventRecord::Verification { passed: false },
            ) matches Some(c) ==> (quarantined_after(c, run@, held_view(old(held)@), "verification-failed"@) matches Some(
                c2,
            ) ==> final(self).book.table.cells() == c2)))),
            old(self).book.table.reliable() ==> (checked is Err ==> (quarantined_after(
                old(self).book.table.cells(),
                run@,
                held_view(old(held)@),
                "verification-failed"@,
            ) matches Some(c2) ==> final(self).book.table.cells() == c2)),
            r is Ok ==> final(held)@ == old(held)@,
            checked is Err ==> final(held)@.len() == 0,
            final(held)@ == old(held)@ || final(held)@.len() == 0,
            r == Err::<Verification, Error>(Error::Estate(EstateError::VerificationFailed)) || (checked is Err && !(r matches Err(
                Error::Book(_),
            ))) ==> (history(old(self).book.table.cells(), run@) is Some ==> (history(final(self).book.table.cells(), run@) matches Some(
                h,
            ) && plan_and_state(h).1 == quarantined_text())),
    {
        let ghost h0 = held@;
        match checked {
            Ok(v) => {
                self.record(run, BookEvent::Verification { passed: v.passed })?;
                if !v.passed {
                    let ghost c = self.book.table.cells();
                    self.quarantine(run, held, "verification-failed")?;
                    proof {
                        lemma_quarantined_last(c, self.book.table.cells(), run@, held_names(held_view(h0)), quarantine_events(held_view(h0), "verification-failed"@));
                    }
                    return Err(Error::Estate(EstateError::VerificationFailed));
                }
                Ok(v)
            },
            Err(e) => {
                let ghost c = self.book.table.cells();
                self.quarantine(run, held, "verification-failed")?;
                proof {
                    lemma_quarantined_last(c, self.book.table.cells(), run@, held_names(held_view(h0)), quarantine_events(held_view(h0), "verification-failed"@));
                }
                Err(e)
            },
        }
    }

    /// Closes a run: gives the leases of `held` back and records `state`
    /// as the run's final state.
    #[verifier::spinoff_prover]
    fn close_run(&mut self, run: &str, held: &mut Vec<(String, LeaseRecord)>, state: ApplyState) -> (r: Result<(), Error>)
        requires
            forall|i: int| 0 <= i < old(held)@.len() ==> (#[trigger] old(held)@[i]).1.generation == 1,
            state != ApplyState::Quarantined,
        ensures
            old(self).book.table.reliable() ==> approvals_kept(old(self).book.table.cells(), final(self).book.table.cells()),
            final(self).book.table.reliable() == old(self).book.table.reliable(),
            r is Ok ==> advanced(
                old(self).book.table.cells(),
                final(self).book.table.cells(),
                run@,
                held_names(held_view(old(held)@)),
                cleanup_events(held_view(old(held)@)) + seq![EventRecord::Final { state: apply_state_text(state) }],
            ),
            r is Ok ==> forall|i: int| 0 <= i < old(held)@.len() ==> lease_state_of(final(self).book.table.cells(), (#[trigger] old(held)@[i]).0@)
                == Some(None::<LeaseView>),
            r is Ok ==> closed(old(self).book.table.cells(), run@, held_view(old(held)@), state) == Some(
                final(self).book.table.cells(),
            ),
            old(self).book.table.reliable() ==> (r is Ok <==> closed(old(self).book.table.cells(), run@, held_view(old(held)@), state)
                is Some),
            final(held)@.len() == 0,
    {
        let ghost h0 = held@;
        proof {
            reveal(closed);
        }
        let ghost c7 = self.book.table.cells();
        let ghost hv = held_view(h0);
        let ghost names = held_names(hv);
        self.release(run, held)?;
        let ghost c8 = self.book.table.cells();
        let text = match state {
            ApplyState::Verified => string_of(&vec!['v', 'e', 'r', 'i', 'f', 'i', 'e', 'd']),
            _ => string_of(
                &vec![
                    'p', 'r', 'o', 'c', 'e', 's', 's', '-', 'c', 'o', 'm', 'p', 'l', 'e', 't', 'e', '/', 'u',
                    'n', 'v', 'e', 'r', 'i', 'f', 'i', 'e', 'd',
                ],
            ),
        };
        self.record(run, BookEvent::Final { state: text })?;
        proof {
            let fin = seq![EventRecord::Final { state: apply_state_text(state) }];
            lemma_advanced_widen(c8, self.book.table.cells(), run@, seq![], names, fin);
            lemma_advanced_trans(c7, c8, self.book.table.cells(), run@, names, cleanup_events(hv), fin);
            assert forall|i: int| 0 <= i < h0.len() implies lease_state_of(self.book.table.cells(), (#[trigger] h0[i]).0@)
                == Some(None::<LeaseView>) by {
                assert(cell(self.book.table.cells(), lease_key(h0[i].0@)) == cell(c8, lease_key(h0[i].0@)));
                lemma_lease_state_cell(c8, self.book.table.cells(), h0[i].0@);
            }
        }
        Ok(())
    }

    /// Finishes a run whose effect returned `run_record`: records its
    /// callbacks, checks it where the policy asks for a check (see
    /// `check_run`), gives the leases of `held` back, and records the final
    /// state.
    #[verifier::spinoff_prover]
    fn finish_run<P: EstateProvider, G: EffectGate>(
        &mut self,
        provider: &mut P,
        gate: &mut G,
        request: &EffectRequest,
        run_record: &crate::records::Run,
        planned: &Planned,
        run: &str,
        held: &mut Vec<(String, LeaseRecord)>,
    ) -> (r: Result<ApplyOutcome, Error>)
        requires
            forall|i: int| 0 <= i < old(held)@.len() ==> (#[trigger] old(held)@[i]).1.generation == 1 && !old(held)@[i].1.quarantined
                && old(held)@[i].1.holder@ == run@,
        ensures
            old(self).book.table.reliable() ==> approvals_kept(old(self).book.table.cells(), final(self).book.table.cells()),
            final(self).book.table.reliable() == old(self).book.table.reliable(),
            r matches Ok(o) ==> outcome_fits(o, planned.plan.policy, run@) && o.state != ApplyState::Quarantined,
            r is Ok ==> approvals_kept(old(self).book.table.cells(), final(self).book.table.cells()),
            r matches Ok(o) ==> forall|i: int| 0 <= i < old(held)@.len() ==> left_lease(
                lease_state_of(final(self).book.table.cells(), (#[trigger] old(held)@[i]).0@),
                o.state,
                run@,
            ),
            r matches Ok(o) ==> (history(old(self).book.table.cells(), run@) matches Some(h0) ==> history(
                final(self).book.table.cells(),
                run@,
            ) matches Some(h) && ended(h0, h, apply_state_text(o.state))),
            r is Ok ==> final(held)@.len() == 0,
            final(held)@ == old(held)@ || final(held)@.len() == 0,
    {
        let ghost h0 = held@;
        let ghost c5 = self.book.table.cells();
        let ghost hv = held_view(h0);
        let ghost names = held_names(hv);
        let events = match gate.allow(request) {
            Ok(()) => match provider.events(run_record, 4096) {
                Ok(v) => v,
                Err(e) => return Err(Error::Estate(e)),
            },
            Err(e) => return Err(e),
        };
        self.record_events(run, &events)?;
        let ghost c6 = self.book.table.cells();
        let ghost mid = callback_events(events@);
        let ghost mut checked_events: Seq<EventRecord> = seq![];
        let verification = if planned.plan.policy.verify {
            let checked: Result<Verification, Error> = match gate.allow(request) {
                Ok(()) => match provider.verify(run_record) {
                    Ok(v) => Ok(v),
                    Err(e) => Err(Error::Estate(e)),
                },
                Err(e) => Err(e),
            };
            let v = self.check_run(run, held, checked)?;
            proof {
                checked_events = seq![EventRecord::Verification { passed: true }];
            }
            Some(v)
        } else {
            proof {
                lemma_advanced_still(c6, run@, seq![]);
            }
            None
        };
        let ghost c7 = self.book.table.cells();
        let state = if verification.is_some() {
            ApplyState::Verified
        } else {
            ApplyState::ProcessCompleteUnverified
        };
        self.close_run(run, held, state)?;
        proof {
            let fin = seq![EventRecord::Final { state: apply_state_text(state) }];
            let cf = self.book.table.cells();
            lemma_advanced_trans(c5, c6, c7, run@, seq![], mid, checked_events);
            lemma_advanced_widen(c5, c7, run@, seq![], names, mid + checked_events);
            lemma_advanced_trans(c5, c7, cf, run@, names, mid + checked_events, cleanup_events(hv) + fin);
            if history(c5, run@) is Some {
                let tail = mid + checked_events + (cleanup_events(hv) + fin);
                let h5 = history(c5, run@)->0;
                assert((h5 + tail).take(h5.len() as int) =~= h5);
                assert(tail.last() == fin[0]);
                assert((h5 + tail).last() == tail.last());
                lemma_finish_tail(events@, checked_events, hv, apply_state_text(state));
                assert forall|i: int| h5.len() <= i < (h5 + tail).len() implies !(#[trigger] (h5 + tail)[i] is Opened) by {
                    assert((h5 + tail)[i] == tail[i - h5.len()]);
                }
            }
        }
        Ok(ApplyOutcome { run: run.to_owned(), state, verification })
    }

    /// Applies `planned` as `run` under approval `approval_id`.
    ///
    /// Reads the time once, refuses an expired plan and a discovery that is
    /// not the planned one, consumes the approval, leases every planned
    /// target until `policy.ttl` ticks from now, records the run's opening,
    /// and consults the effect gate before each of the three provider calls that act
    /// or read (the effect itself, its callbacks, its check). A returned run is recorded, its callbacks recorded, verified
    /// where the policy asks, its leases given back and its final state
    /// recorded. An outcome unknown after dispatch quarantines the targets and
    /// is reported as quarantined; a failed or refused verification
    /// quarantines them and is an error; any other refusal of the perform
    /// gives the leases back and stands.
    #[verifier::spinoff_prover]
    pub fn apply<P: EstateProvider, G: EffectGate, C: Clock>(
        &mut self,
        provider: &mut P,
        gate: &mut G,
        clock: &C,
        planned: &Planned,
        approval_id: &str,
        approval_key: Key,
        run: &str,
    ) -> (r: Result<ApplyOutcome, Error>)
        requires
            planned.key@.len() >= 23,
        ensures
            final(self).book.table.reliable() == old(self).book.table.reliable(),
            old(self).book.table.reliable() && consumed_after(old(self).book.table.cells(), approval_id@, run@) is None
                ==> r is Err && final(self).book.table.cells() == old(self).book.table.cells(),
            old(self).book.table.reliable() && final(self).book.table.cells() != old(self).book.table.cells()
                ==> consumed_after(old(self).book.table.cells(), approval_id@, run@) is Some,
            old(self).book.table.reliable() && final(self).book.table.cells() != old(self).book.table.cells()
                ==> forall|again: Seq<char>| #[trigger] consumed_after(final(self).book.table.cells(), approval_id@, again) is None,
            r is Ok ==> consumed_after(old(self).book.table.cells(), approval_id@, run@) is Some,
            old(self).book.table.reliable() && consumed_after(old(self).book.table.cells(), approval_id@, run@) is None
                && old(self).book.table.cells().contains_key(crate::book::approval_key(approval_id@))
                && crate::book::approval_of(old(self).book.table.cells()[crate::book::approval_key(approval_id@)],
            ) is Some ==> (r matches Err(Error::Book(e)) ==> e is Conflict),
            r is Ok ==> forall|again: Seq<char>| #[trigger] consumed_after(final(self).book.table.cells(), approval_id@, again) is None,
            r is Ok ==> all_free(old(self).book.table.cells(), planned.plan.targets@),
            r matches Ok(o) ==> outcome_fits(o, planned.plan.policy, run@),
            r matches Ok(o) ==> forall|i: int| 0 <= i < planned.plan.targets@.len() ==> left_lease(
                lease_state_of(final(self).book.table.cells(), (#[trigger] planned.plan.targets@[i])@),
                o.state,
                run@,
            ),
            r matches Ok(o) ==> (history(old(self).book.table.cells(), run@) matches Some(h0) ==> history(
                final(self).book.table.cells(),
                run@,
            ) matches Some(h) && ran(h0, h, planned.key@, apply_state_text(o.state))),
            r matches Ok(o) ==> (history(old(self).book.table.cells(), run@) is Some ==> plan_and_state(
                history(final(self).book.table.cells(), run@)->0,
            ) == (planned.key@, apply_state_text(o.state))),
            r matches Ok(o) ==> (o.state == ApplyState::Quarantined ==> exists|now: u64|
                forall|i: int|
                    0 <= i < planned.plan.targets@.len() ==> lease_state_of(
                        final(self).book.table.cells(),
                        (#[trigger] planned.plan.targets@[i])@,
                    ) == Some(Some(#[trigger] quarantined_at(run@, now, planned.plan.policy.ttl)))),
    {
        let now = clock.now();
        let r = self.apply_at(provider, gate, planned, approval_id, approval_key, run, now);
        proof {
            let _ = quarantined_at(run@, now, planned.plan.policy.ttl);
        }
        r
    }

    /// Applies `planned` as `run` under approval `approval_id` at the time
    /// `now`: an expired plan is refused, observing the time, with nothing
    /// written and nothing asked of the provider; otherwise the provider's
    /// discovery is taken on to `apply_discovered`.
    #[verifier::spinoff_prover]
    fn apply_at<P: EstateProvider, G: EffectGate>(
        &mut self,
        provider: &mut P,
        gate: &mut G,
        planned: &Planned,
        approval_id: &str,
        approval_key: Key,
        run: &str,
        now: u64,
    ) -> (r: Result<ApplyOutcome, Error>)
        requires
            planned.key@.len() >= 23,
        ensures
            final(self).book.table.reliable() == old(self).book.table.reliable(),
            old(self).book.table.reliable() && consumed_after(old(self).book.table.cells(), approval_id@, run@) is None
                ==> r is Err && final(self).book.table.cells() == old(self).book.table.cells(),
            old(self).book.table.reliable() && final(self).book.table.cells() != old(self).book.table.cells()
                ==> consumed_after(old(self).book.table.cells(), approval_id@, run@) is Some,
            old(self).book.table.reliable() && final(self).book.table.cells() != old(self).book.table.cells()
                ==> forall|again: Seq<char>| #[trigger] consumed_after(final(self).book.table.cells(), approval_id@, again) is None,
            r is Ok ==> consumed_after(old(self).book.table.cells(), approval_id@, run@) is Some,
            old(self).book.table.reliable() && consumed_after(old(self).book.table.cells(), approval_id@, run@) is None
                && old(self).book.table.cells().contains_key(crate::book::approval_key(approval_id@))
                && crate::book::approval_of(old(self).book.table.cells()[crate::book::approval_key(approval_id@)],
            ) is Some ==> (r matches Err(Error::Book(e)) ==> e is Conflict),
            r is Ok ==> forall|again: Seq<char>| #[trigger] consumed_after(final(self).book.table.cells(), approval_id@, again) is None,
            r is Ok ==> all_free(old(self).book.table.cells(), planned.plan.targets@),
            r matches Ok(o) ==> outcome_fits(o, planned.plan.policy, run@),
            r matches Ok(o) ==> forall|i: int| 0 <= i < planned.plan.targets@.len() ==> left_lease(
                lease_state_of(final(self).book.table.cells(), (#[trigger] planned.plan.targets@[i])@),
                o.state,
                run@,
            ),
            r matches Ok(o) ==> (history(old(self).book.table.cells(), run@) matches Some(h0) ==> history(
                final(self).book.table.cells(),
                run@,
            ) matches Some(h) && ran(h0, h, planned.key@, apply_state_text(o.state))),
            r matches Ok(o) ==> (history(old(self).book.table.cells(), run@) is Some ==> plan_and_state(
                history(final(self).book.table.cells(), run@)->0,
            ) == (planned.key@, apply_state_text(o.state))),
            now > planned.plan.expires_at ==> (r matches Err(e) && is_refusal(e, "expired plan"@, decimal_text(now as nat)))
                && final(self).book.table.cells() == old(self).book.table.cells(),
            r matches Ok(o) ==> (o.state == ApplyState::Quarantined ==> forall|i: int|
                0 <= i < planned.plan.targets@.len() ==> lease_state_of(
                    final(self).book.table.cells(),
                    (#[trigger] planned.plan.targets@[i])@,
                ) == Some(Some(quarantined_at(run@, now, planned.plan.policy.ttl)))),
    {
        check_expiry(planned.plan.expires_at, now)?;
        let discovered = provider.discover();
        self.apply_discovered(provider, gate, planned, approval_id, approval_key, run, now, discovered)
    }

    /// Applies `planned` as `run` under approval `approval_id` at the time
    /// `now`, `discovered` being what the provider's discovery answered: its
    /// refusal stands and a discovery that is not the planned one is refused
    /// as stale, observing its revision, both with nothing written; then the
    /// approval is consumed, the targets leased and the run carried out (see
    /// `carry_out`).
    #[verifier::spinoff_prover]
    #[verifier::rlimit(60)]
    fn apply_discovered<P: EstateProvider, G: EffectGate>(
        &mut self,
        provider: &mut P,
        gate: &mut G,
        planned: &Planned,
        approval_id: &str,
        approval_key: Key,
        run: &str,
        now: u64,
        discovered: Result<(ProviderCard, SanitizedInventory), EstateError>,
    ) -> (r: Result<ApplyOutcome, Error>)
        requires
            planned.key@.len() >= 23,
        ensures
            final(self).book.table.reliable() == old(self).book.table.reliable(),
            old(self).book.table.reliable() && consumed_after(old(self).book.table.cells(), approval_id@, run@) is None
                ==> r is Err && final(self).book.table.cells() == old(self).book.table.cells(),
            old(self).book.table.reliable() && final(self).book.table.cells() != old(self).book.table.cells()
                ==> consumed_after(old(self).book.table.cells(), approval_id@, run@) is Some,
            old(self).book.table.reliable() && final(self).book.table.cells() != old(self).book.table.cells()
                ==> forall|again: Seq<char>| #[trigger] consumed_after(final(self).book.table.cells(), approval_id@, again) is None,
            r is Ok ==> consumed_after(old(self).book.table.cells(), approval_id@, run@) is Some,
            old(self).book.table.reliable() && consumed_after(old(self).book.table.cells(), approval_id@, run@) is None
                && old(self).book.table.cells().contains_key(crate::book::approval_key(approval_id@))
                && crate::book::approval_of(old(self).book.table.cells()[crate::book::approval_key(approval_id@)],
            ) is Some ==> (r matches Err(Error::Book(e)) ==> e is Conflict),
            r is Ok ==> forall|again: Seq<char>| #[trigger] consumed_after(final(self).book.table.cells(), approval_id@, again) is None,
            r is Ok ==> all_free(old(self).book.table.cells(), planned.plan.targets@),
            r matches Ok(o) ==> outcome_fits(o, planned.plan.policy, run@),
            r matches Ok(o) ==> forall|i: int| 0 <= i < planned.plan.targets@.len() ==> left_lease(
                lease_state_of(final(self).book.table.cells(), (#[trigger] planned.plan.targets@[i])@),
                o.state,
                run@,
            ),
            r matches Ok(o) ==> (history(old(self).book.table.cells(), run@) matches Some(h0) ==> history(
                final(self).book.table.cells(),
                run@,
            ) matches Some(h) && ran(h0, h, planned.key@, apply_state_text(o.state))),
            r matches Ok(o) ==> (history(old(self).book.table.cells(), run@) is Some ==> plan_and_state(
                history(final(self).book.table.cells(), run@)->0,
            ) == (planned.key@, apply_state_text(o.state))),
            discovered matches Err(e) ==> r == Err::<ApplyOutcome, Error>(Error::Estate(e))
                && final(self).book.table.cells() == old(self).book.table.cells(),
            discovered matches Ok((card, inventory)) ==> (!(card_code(card) == card_code(planned.plan.provider)
                && inventory_code(inventory) == inventory_code(planned.plan.inventory)) ==> (r matches Err(e) && is_refusal(
                e,
                "stale discovery"@,
                revision_text(inventory.revision),
            )) && final(self).book.table.cells() == old(self).book.table.cells()),
            r matches Ok(o) ==> (o.state == ApplyState::Quarantined ==> forall|i: int|
                0 <= i < planned.plan.targets@.len() ==> lease_state_of(
                    final(self).book.table.cells(),
                    (#[trigger] planned.plan.targets@[i])@,
                ) == Some(Some(quarantined_at(run@, now, planned.plan.policy.ttl)))),
    {
        let ghost c0 = self.book.table.cells();
        let (card, inventory) = match discovered {
            Ok(x) => x,
            Err(e) => return Err(Error::Estate(e)),
        };
        check_fresh(&planned.plan, &card, &inventory)?;
        match self.book.consume_approval(approval_id, run) {
            Ok(()) => {},
            Err(e) => return Err(Error::Book(e)),
        }
        let ghost c1 = self.book.table.cells();
        proof {
            lemma_key_kinds(seq![], run@, approval_id@, seq![]);
            if history(c0, run@) is Some {
                lemma_history_other_write(c0, crate::book::approval_key(approval_id@), c1[crate::book::approval_key(approval_id@)], run@);
                assert(c1 == c0.insert(crate::book::approval_key(approval_id@), c1[crate::book::approval_key(approval_id@)]));
            }
        }
        let expires = now.saturating_add(planned.plan.policy.ttl);
        let mut held = match self.acquire(run, &planned.plan.targets, expires) {
            Ok(h) => h,
            Err(e) => {
                proof {
                    if self.book.table.reliable() {
                        lemma_single_use_kept(c0, c1, self.book.table.cells(), approval_id@, run@);
                    }
                }
                return Err(e);
            },
        };
        let ghost c2 = self.book.table.cells();
        proof {
            assert forall|i: int| 0 <= i < planned.plan.targets@.len() implies lease_state_of(c0, (#[trigger] planned.plan.targets@[i])@)
                == Some(None::<LeaseView>) by {
                lemma_key_kinds(seq![], run@, approval_id@, planned.plan.targets@[i]@);
                assert(lease_key(planned.plan.targets@[i]@) != crate::book::approval_key(approval_id@));
                lemma_lease_state_cell(c0, c1, planned.plan.targets@[i]@);
            }
            assert forall|i: int| 0 <= i < held@.len() implies (#[trigger] held@[i]).1.generation == 1 && !held@[i].1.quarantined
                && held@[i].1.holder@ == run@ by {
                assert(held@[i].1@ == taken(run@, expires));
            }
        }
        let ghost hq = held@;
        let o = match self.carry_out(provider, gate, planned, approval_key, run, &mut held) {
            Ok(o) => o,
            Err(e) => {
                proof {
                    if self.book.table.reliable() {
                        lemma_approvals_trans(c1, c2, self.book.table.cells());
                        lemma_single_use_kept(c0, c1, self.book.table.cells(), approval_id@, run@);
                    }
                }
                return Err(e);
            },
        };
        proof {
            let cf = self.book.table.cells();
            assert(approvals_kept(c1, cf)) by {
                assert forall|k: Seq<char>| k.len() > 0 && k[0] == 'a' implies #[trigger] cell(cf, k) == cell(c1, k) by {
                    assert(cell(c2, k) == cell(c1, k));
                }
            }
            lemma_single_use_kept(c0, c1, cf, approval_id@, run@);
            if history(c0, run@) is Some {
                assert(history(c1, run@)->0 + Seq::<EventRecord>::empty() =~= history(c1, run@)->0);
            }
            assert forall|i: int| 0 <= i < planned.plan.targets@.len() implies left_lease(
                lease_state_of(cf, (#[trigger] planned.plan.targets@[i])@),
                o.state,
                run@,
            ) by {
                assert(hq[i].0@ == planned.plan.targets@[i]@);
            }
            if history(c0, run@) is Some {
                lemma_ran_state(history(c0, run@)->0, history(cf, run@)->0, planned.key@, apply_state_text(o.state));
            }
            if o.state == ApplyState::Quarantined {
                assert forall|i: int| 0 <= i < planned.plan.targets@.len() implies lease_state_of(
                    cf,
                    (#[trigger] planned.plan.targets@[i])@,
                ) == Some(Some(quarantined_at(run@, now, planned.plan.policy.ttl))) by {
                    assert(hq[i].0@ == planned.plan.targets@[i]@);
                    assert(hq[i].1@ == taken(run@, expires));
                }
            }
        }
        Ok(o)
    }
}

/// The lease an apply at `now` leaves on a target it quarantined: held by
/// `run`, quarantined, at the second generation, expiring `ttl` ticks after
/// `now` as when it was taken.
pub open spec fn quarantined_at(run: Seq<char>, now: u64, ttl: u64) -> LeaseView {
    LeaseView { holder: run, generation: 2, expires_at: tick_sum(now, ttl), quarantined: true }
}

/// `l` renewed at `now` for `ttl` ticks: the same holder, the next
/// generation, not quarantined.
pub open spec fn renewed_lease(l: LeaseView, now: u64, ttl: u64) -> LeaseView {
    LeaseView { holder: l.holder, generation: tick_sum(l.generation, 1), expires_at: tick_sum(now, ttl), quarantined: false }
}

/// The lease on `name` in `cells` is its lease in `before` renewed for
/// `ttl` ticks from some time.
pub open spec fn renewed_from(before: Map<Seq<char>, Seq<u8>>, cells: Map<Seq<char>, Seq<u8>>, name: Seq<char>, ttl: u64) -> bool {
    exists|now: u64|
        lease_state_of(cells, name) == Some(Some(#[trigger] renewed_lease(lease_state_of(before, name)->0->0, now, ttl)))
}

/// The name of `v[i]` occurs in `v` only at `i`.
pub open spec fn only_at(v: Seq<Symbol>, i: int) -> bool {
    forall|k: int| 0 <= k < v.len() && k != i ==> (#[trigger] v[k])@ != v[i]@
}

/// What a refused renewal observed of a lease: `absent`, or the lease's
/// debug form.
pub open spec fn lost_text(l: Option<LeaseView>) -> Seq<char> {
    match l {
        None => "absent"@,
        Some(v) => lease_debug(v),
    }
}

/// A lease state that `run` may renew: held by `run` and not quarantined.
pub open spec fn renewable(s: Option<Option<LeaseView>>, run: Seq<char>) -> bool {
    s matches Some(Some(l)) && l.holder == run && !l.quarantined
}

/// The texts of the symbols of `v`.
pub open spec fn symbol_texts(v: Seq<Symbol>) -> Seq<Seq<char>> {
    v.map_values(|s: Symbol| s@)
}

impl<T: Table> Organ<T> {
    /// Renews `run`'s lease on each of `targets`, in order, to expire `ttl`
    /// ticks after the time read for it, at the next generation. A target
    /// whose lease is absent, free, quarantined or held by another run is
    /// refused as a lost lease; the leases renewed before it stay renewed.
    #[verifier::spinoff_prover]
    pub fn renew<C: Clock>(&mut self, run: &str, targets: &[Symbol], clock: &C, ttl: u64) -> (r: Result<(), Error>)
        ensures
            final(self).book.table.reliable() == old(self).book.table.reliable(),
            r is Ok ==> forall|i: int| 0 <= i < targets@.len() ==> renewable(
                lease_state_of(old(self).book.table.cells(), (#[trigger] targets@[i])@),
                run@,
            ),
            r is Ok ==> forall|i: int| 0 <= i < targets@.len() ==> renewable(
                lease_state_of(final(self).book.table.cells(), (#[trigger] targets@[i])@),
                run@,
            ),
            r is Ok ==> advanced(
                old(self).book.table.cells(),
                final(self).book.table.cells(),
                run@,
                symbol_texts(targets@),
                seq![],
            ),
            old(self).book.table.reliable() ==> (r is Ok <==> forall|i: int| 0 <= i < targets@.len() ==> renewable(
                lease_state_of(old(self).book.table.cells(), (#[trigger] targets@[i])@),
                run@,
            )),
            r matches Err(Error::Refused { reason, .. }) ==> reason@ == "lease lost"@,
            targets@.len() == 0 ==> final(self).book.table.cells() == old(self).book.table.cells(),
            old(self).book.table.reliable() && (forall|i: int| 0 <= i < targets@.len() ==> lease_state_of(
                old(self).book.table.cells(),
                (#[trigger] targets@[i])@,
            ) is Some) ==> (r is Err ==> r matches Err(Error::Refused { .. })),
            r is Ok ==> forall|i: int| 0 <= i < targets@.len() && only_at(targets@, i) ==> renewed_from(
                old(self).book.table.cells(),
                final(self).book.table.cells(),
                (#[trigger] targets@[i])@,
                ttl,
            ),
            r matches Err(Error::Refused { observed, .. }) ==> exists|i: int|
                #![trigger targets@[i]]
                {
                    &&& 0 <= i < targets@.len()
                    &&& forall|j: int| 0 <= j < i ==> renewable(
                        lease_state_of(old(self).book.table.cells(), (#[trigger] targets@[j])@),
                        run@,
                    )
                    &&& !renewable(lease_state_of(old(self).book.table.cells(), targets@[i]@), run@)
                    &&& lease_state_of(old(self).book.table.cells(), targets@[i]@) matches Some(o)
                    &&& observed@ == lost_text(o)
                    &&& forall|j: int| 0 <= j < i && only_at(targets@, j) ==> renewed_from(
                        old(self).book.table.cells(),
                        final(self).book.table.cells(),
                        (#[trigger] targets@[j])@,
                        ttl,
                    )
                    &&& forall|n: Seq<char>| !symbol_texts(targets@.take(i)).contains(n) ==> #[trigger] cell(
                        final(self).book.table.cells(),
                        lease_key(n),
                    ) == cell(old(self).book.table.cells(), lease_key(n))
                },
    {
        let ghost c0 = self.book.table.cells();
        let ghost rel = self.book.table.reliable();
        let mut i: usize = 0;
        proof {
            lemma_advanced_still(c0, run@, seq![]);
            assert(symbol_texts(targets@.take(0)) =~= seq![]);
        }
        while i < targets.len()
            invariant
                i <= targets@.len(),
                self.book.table.reliable() == rel,
                rel == old(self).book.table.reliable(),
                c0 == old(self).book.table.cells(),
                forall|j: int| 0 <= j < i ==> renewable(lease_state_of(c0, (#[trigger] targets@[j])@), run@),
                forall|j: int| 0 <= j < i ==> renewable(lease_state_of(self.book.table.cells(), (#[trigger] targets@[j])@), run@),
                forall|n: Seq<char>| !symbol_texts(targets@.take(i as int)).contains(n) ==> #[trigger] cell(
                    self.book.table.cells(),
                    lease_key(n),
                ) == cell(c0, lease_key(n)),
                advanced(c0, self.book.table.cells(), run@, symbol_texts(targets@.take(i as int)), seq![]),
                targets@.len() == 0 ==> self.book.table.cells() == c0,
                forall|j: int| 0 <= j < i && only_at(targets@, j) ==> renewed_from(
                    c0,
                    self.book.table.cells(),
                    (#[trigger] targets@[j])@,
                    ttl,
                ),
            decreases targets.len() - i,
        {
            let name = targets[i].as_str();
            let ghost ca = self.book.table.cells();
            let ghost names = symbol_texts(targets@.take(i as int));
            let ghost names2 = symbol_texts(targets@.take(i + 1));
            proof {
                assert(names2 =~= names.push(name@));
                if names.contains(name@) {
                    let j = choose|j: int| 0 <= j < names.len() && names[j] == name@;
                    assert(targets@.take(i as int)[j] == targets@[j]);
                    assert(renewable(lease_state_of(ca, targets@[j]@), run@));
                    assert(renewable(lease_state_of(c0, targets@[j]@), run@));
                } else {
                    lemma_lease_state_cell(ca, c0, name@);
                }
                assert(renewable(lease_state_of(ca, name@), run@) == renewable(lease_state_of(c0, name@), run@));
            }
            let observed = match self.book.lease_state(name) {
                Ok(o) => o,
                Err(e) => {
                    proof {
                        assert(targets@[i as int]@ == name@);
                        if !names.contains(name@) {
                            lemma_lease_state_cell(ca, c0, name@);
                        }
                    }
                    return Err(Error::Book(e));
                },
            };
            let current = match observed {
                Some(l) => l,
                None => {
                    proof {
                        assert(targets@[i as int]@ == name@);
                        if !names.contains(name@) {
                            lemma_lease_state_cell(ca, c0, name@);
                        }
                    }
                    return Err(Error::Refused { reason: "lease lost".to_owned(), observed: "absent".to_owned() });
                },
            };
            if !same_text(current.holder.as_str(), run) || current.quarantined {
                proof {
                    assert(targets@[i as int]@ == name@);
                    if !names.contains(name@) {
                        lemma_lease_state_cell(ca, c0, name@);
                    }
                }
                return Err(Error::Refused { reason: "lease lost".to_owned(), observed: lease_debug_text(&current) });
            }
            let now = clock.now();
            let next = LeaseRecord {
                holder: current.holder.clone(),
                generation: current.generation.saturating_add(1),
                expires_at: now.saturating_add(ttl),
                quarantined: current.quarantined,
            };
            match self.book.lease(name, Some(&current), &next) {
                Ok(()) => {},
                Err(e) => return Err(Error::Book(e)),
            }
            proof {
                let cb = self.book.table.cells();
                assert(names2[names.len() as int] == name@);
                lemma_lease_write(ca, cb, name@, Some(current@), next@, run@, names2);
                assert forall|n: Seq<char>| names.contains(n) implies names2.contains(n) by {
                    let j = choose|j: int| 0 <= j < names.len() && names[j] == n;
                    assert(names2[j] == names[j]);
                }
                lemma_advanced_widen(c0, ca, run@, names, names2, seq![]);
                lemma_advanced_trans(c0, ca, cb, run@, names2, seq![], seq![]);
                assert(Seq::<EventRecord>::empty() + Seq::<EventRecord>::empty() =~= Seq::<EventRecord>::empty());
                assert forall|j: int| 0 <= j < i + 1 implies renewable(lease_state_of(cb, (#[trigger] targets@[j])@), run@) by {
                    if targets@[j]@ != name@ {
                        lemma_lease_state_cell(ca, cb, targets@[j]@);
                    }
                }
                assert forall|n: Seq<char>| !names2.contains(n) implies #[trigger] cell(cb, lease_key(n)) == cell(c0, lease_key(n)) by {
                    assert(!names.contains(n));
                    assert(n != name@);
                }
                assert(targets@[i as int]@ == name@);
                assert forall|j: int| 0 <= j < i + 1 && only_at(targets@, j) implies renewed_from(
                    c0,
                    cb,
                    (#[trigger] targets@[j])@,
                    ttl,
                ) by {
                    if j < i {
                        assert(targets@[i as int]@ != targets@[j]@);
                        lemma_lease_state_cell(ca, cb, targets@[j]@);
                        let w = choose|now: u64|
                            lease_state_of(ca, targets@[j]@) == Some(
                                Some(#[trigger] renewed_lease(lease_state_of(c0, targets@[j]@)->0->0, now, ttl)),
                            );
                        assert(lease_state_of(cb, targets@[j]@) == Some(
                            Some(renewed_lease(lease_state_of(c0, targets@[j]@)->0->0, w, ttl)),
                        ));
                    } else {
                        if names.contains(name@) {
                            let k = choose|k: int| 0 <= k < names.len() && names[k] == name@;
                            assert(targets@.take(i as int)[k] == targets@[k]);
                            assert(targets@[k]@ != targets@[i as int]@);
                        }
                        lemma_lease_state_cell(ca, c0, name@);
                        assert(next@ == renewed_lease(current@, now, ttl));
                        assert(lease_state_of(cb, name@) == Some(Some(renewed_lease(current@, now, ttl))));
                    }
                }
            }
            i = i + 1;
        }
        proof {
            assert(targets@.take(targets@.len() as int) =~= targets@);
        }
        Ok(())
    }

    /// The state of `run`. A run whose projection is final reads as its
    /// recorded state (see `state_from_text`) and nothing is written; an open
    /// run is settled by what the artifacts say of it, unknown after
    /// dispatch where they say nothing, and that state is recorded as the
    /// run's final state.
    #[verifier::spinoff_prover]
    pub fn reconcile<A: ArtifactReader>(&mut self, run: &str, artifacts: &A) -> (r: Result<RunState, Error>)
        ensures
            final(self).book.table.reliable() == old(self).book.table.reliable(),
            r is Ok ==> old(self).book.table.cells().contains_key(head_key(run@)) && history(
                old(self).book.table.cells(),
                run@,
            ) is Some,
            old(self).book.table.reliable() && !(old(self).book.table.cells().contains_key(head_key(run@)) && history(
                old(self).book.table.cells(),
                run@,
            ) is Some) ==> r is Err && final(self).book.table.cells() == old(self).book.table.cells(),
            r matches Ok(s) ==> {
                let h = history(old(self).book.table.cells(), run@)->0;
                if plan_and_state(h).1 != open_text() {
                    &&& s == state_from_text(plan_and_state(h).1)
                    &&& final(self).book.table.cells() == old(self).book.table.cells()
                } else {
                    history(final(self).book.table.cells(), run@) == Some(
                        h.push(EventRecord::Final { state: run_state_name(s) }),
                    )
                }
            },
            old(self).book.table.reliable() ==> (history(old(self).book.table.cells(), run@) matches Some(h) ==> (
            old(self).book.table.cells().contains_key(head_key(run@)) && plan_and_state(h).1 != open_text() ==> r
                == Ok::<RunState, Error>(state_from_text(plan_and_state(h).1)))),
    {
        let projection = match self.book.projection(run) {
            Ok(p) => p,
            Err(e) => return Err(Error::Book(e)),
        };
        let ghost h = history(self.book.table.cells(), run@)->0;
        proof {
            reveal_strlit("open");
            assert("open"@ =~= open_text());
            assert(projection.state@ == plan_and_state(h).1);
        }
        if !same_text(projection.state.as_str(), "open") {
            return Ok(parse_state(projection.state.as_str()));
        }
        let found = artifacts.reconcile(run);
        self.settle_reconciliation(run, found)
    }

    /// Settles an open run by what the artifacts said of it, `found`: the
    /// state they name, unknown after dispatch where they name none, recorded
    /// as the run's final state; their refusal stands.
    fn settle_reconciliation(&mut self, run: &str, found: Result<Option<RunState>, Error>) -> (r: Result<RunState, Error>)
        ensures
            final(self).book.table.reliable() == old(self).book.table.reliable(),
            found matches Err(e) ==> r == Err::<RunState, Error>(e) && final(self).book.table.cells()
                == old(self).book.table.cells(),
            r matches Ok(s) ==> found is Ok && s == settled_state(found->Ok_0) && appended(
                old(self).book.table.cells(),
                run@,
                EventRecord::Final { state: run_state_name(s) },
            ) == Some(final(self).book.table.cells()),
            r is Ok && history(old(self).book.table.cells(), run@) is Some ==> history(final(self).book.table.cells(), run@)
                == Some(history(old(self).book.table.cells(), run@)->0.push(EventRecord::Final { state: run_state_name(r->Ok_0) })),
            old(self).book.table.reliable() ==> (r is Ok <==> (found matches Ok(x) && appended(
                old(self).book.table.cells(),
                run@,
                EventRecord::Final { state: run_state_name(settled_state(x)) },
            ) is Some)),
    {
        let state = match found {
            Ok(Some(s)) => s,
            Ok(None) => RunState::UnknownAfterDispatch,
            Err(e) => return Err(e),
        };
        let name = run_state_text(state);
        match self.book.append(run, BookEvent::Final { state: name }) {
            Ok(_) => {},
            Err(e) => return Err(Error::Book(e)),
        }
        Ok(state)
    }
}

/// The state an open run settles to: the one the artifacts name, unknown
/// after dispatch where they name none.
pub open spec fn settled_state(found: Option<RunState>) -> RunState {
    match found {
        Some(s) => s,
        None => RunState::UnknownAfterDispatch,
    }
}

} // verus!
