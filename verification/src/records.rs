//! Portable estate records: bounded, deterministic values that providers,
//! the book and the organ share.
use vstd::prelude::*;
use crate::text::{chars_of, push_str, string_of};
use crate::digest::{sha256, sha256_digest};
use crate::canon::{
    labels_code, parameters_code, symbols_code, target_code, targets_code, value_code, value_codes,
};

verus! {

/// The version written into every record this library creates.
pub const SCHEMA_VERSION: u16 = 1;

/// Characters a symbol may hold: ASCII letters and digits, `/ - _ .`.
pub open spec fn symbol_char(c: char) -> bool {
    let u = c as u32;
    ||| 97 <= u <= 122
    ||| 65 <= u <= 90
    ||| 48 <= u <= 57
    ||| c == '/'
    ||| c == '-'
    ||| c == '_'
    ||| c == '.'
}

/// Position `i` starts a `..`.
pub open spec fn dot_pair(s: Seq<char>, i: int) -> bool {
    s[i] == '.' && s[i + 1] == '.'
}

/// The text of a valid symbol: 1 to 96 symbol characters, no `..`, not
/// starting with `/`, `.` or `-`, not ending with `.` or `-`.
pub open spec fn is_symbol_text(s: Seq<char>) -> bool {
    &&& 0 < s.len() <= 96
    &&& forall|i: int| 0 <= i < s.len() ==> symbol_char(#[trigger] s[i])
    &&& forall|i: int| 0 <= i < s.len() - 1 ==> !#[trigger] dot_pair(s, i)
    &&& s[0] != '/' && s[0] != '.' && s[0] != '-'
    &&& s.last() != '.' && s.last() != '-'
}

/// Open, validated identity. Provider and risk namespaces are intentionally extensible.
#[derive(Debug, Eq, Hash, PartialOrd, Ord)]
pub struct Symbol(String);

impl Symbol {
    #[verifier::type_invariant]
    spec fn well_formed(self) -> bool {
        is_symbol_text(self.0@)
    }
}

impl View for Symbol {
    type V = Seq<char>;

    closed spec fn view(&self) -> Seq<char> {
        self.0@
    }
}

fn symbol_char_exec(c: char) -> (r: bool)
    ensures
        r == symbol_char(c),
{
    let u = c as u32;
    (97 <= u && u <= 122) || (65 <= u && u <= 90) || (48 <= u && u <= 57) || c == '/' || c == '-'
        || c == '_' || c == '.'
}

/// Whether `cs` is valid symbol text.
pub fn symbol_text_ok(cs: &Vec<char>) -> (r: bool)
    ensures
        r == is_symbol_text(cs@),
{
    let n = cs.len();
    if n == 0 || n > 96 {
        return false;
    }
    if cs[0] == '/' || cs[0] == '.' || cs[0] == '-' {
        return false;
    }
    if cs[n - 1] == '.' || cs[n - 1] == '-' {
        return false;
    }
    let mut i: usize = 0;
    while i < n
        invariant
            n == cs@.len(),
            0 < n <= 96,
            i <= n,
            forall|j: int| 0 <= j < i ==> symbol_char(#[trigger] cs@[j]),
            forall|j: int| 0 <= j < i && j < n - 1 ==> !#[trigger] dot_pair(cs@, j),
        decreases n - i,
    {
        if !symbol_char_exec(cs[i]) {
            return false;
        }
        if i + 1 < n && cs[i] == '.' && cs[i + 1] == '.' {
            assert(dot_pair(cs@, i as int));
            return false;
        }
        i = i + 1;
    }
    true
}

impl Symbol {
    /// Accepts `value` exactly when it is valid symbol text.
    pub fn new(value: &str) -> (r: Result<Symbol, EstateError>)
        ensures
            match r {
                Ok(s) => is_symbol_text(value@) && s@ == value@,
                Err(e) => !is_symbol_text(value@) && e == EstateError::InvalidSymbol,
            },
    {
        let cs = chars_of(value);
        if symbol_text_ok(&cs) {
            Ok(Symbol(value.to_owned()))
        } else {
            Err(EstateError::InvalidSymbol)
        }
    }

    /// Accepts the characters `cs` exactly when they are valid symbol text.
    pub fn from_chars(cs: &Vec<char>) -> (r: Result<Symbol, EstateError>)
        ensures
            match r {
                Ok(s) => is_symbol_text(cs@) && s@ == cs@,
                Err(e) => !is_symbol_text(cs@) && e == EstateError::InvalidSymbol,
            },
    {
        if symbol_text_ok(cs) {
            Ok(Symbol(string_of(cs)))
        } else {
            Err(EstateError::InvalidSymbol)
        }
    }

    /// The symbol of text known to be valid.
    pub(crate) fn known(cs: Vec<char>) -> (r: Symbol)
        requires
            is_symbol_text(cs@),
        ensures
            r@ == cs@,
    {
        Symbol(string_of(&cs))
    }

    /// The symbol's text.
    pub fn as_str(&self) -> (r: &str)
        ensures
            r@ == self@,
            is_symbol_text(self@),
    {
        proof {
            use_type_invariant(self);
        }
        self.0.as_str()
    }

    /// Whether two symbols hold the same text.
    pub fn same(&self, other: &Symbol) -> (r: bool)
        ensures
            r == (self@ == other@),
    {
        self.0 == other.0
    }
}

impl Clone for Symbol {
    fn clone(&self) -> (r: Self)
        ensures
            r == *self,
    {
        proof {
            use_type_invariant(self);
        }
        Symbol(self.0.clone())
    }
}

impl PartialEq for Symbol {
    fn eq(&self, other: &Self) -> (r: bool) {
        self.0 == other.0
    }
}

impl vstd::std_specs::cmp::PartialEqSpecImpl for Symbol {
    open spec fn obeys_eq_spec() -> bool {
        true
    }

    open spec fn eq_spec(&self, other: &Symbol) -> bool {
        self@ == other@
    }
}

/// What a provider is and what it can do.
#[derive(Debug, Eq, PartialEq)]
pub struct ProviderCard {
    pub version: u16,
    pub provider: Symbol,
    pub capabilities: Vec<Symbol>,
    pub max_targets: u32,
}

/// One addressable target; `labels` holds label/value pairs read as a map:
/// their order does not matter, and a later pair for a label replaces an
/// earlier one.
#[derive(Debug, Eq, PartialEq)]
pub struct Target {
    pub version: u16,
    pub id: Symbol,
    pub labels: Vec<(Symbol, Symbol)>,
}

/// The targets a provider reports, at one inventory revision.
#[derive(Debug, Eq, PartialEq)]
pub struct SanitizedInventory {
    pub version: u16,
    pub revision: u64,
    pub targets: Vec<Target>,
}

/// The content identity of a reviewed project.
#[derive(Clone, Copy, Debug, Eq, PartialEq)]
pub struct ProjectFingerprint {
    pub version: u16,
    pub digest: [u8; 32],
}

#[derive(Clone, Copy, Debug, Eq, PartialEq, Structural)]
pub enum OperationMode {
    Inspect,
    Change,
}

/// An exposure applied to one target; `parameters` holds name/value pairs
/// read as a map: their order does not matter, and a later pair for a name
/// replaces an earlier one.
#[derive(Debug, Eq, PartialEq)]
pub struct Operation {
    pub version: u16,
    pub exposure: Symbol,
    pub target: Symbol,
    pub parameters: Vec<(Symbol, Value)>,
    pub mode: OperationMode,
}

/// A shaped parameter value.
#[derive(Debug, Eq, PartialEq)]
pub enum Value {
    Bool(bool),
    Integer(i64),
    Text(String),
    Symbol(Symbol),
    List(Vec<Value>),
}

#[derive(Debug, Eq, PartialEq)]
pub struct Plan {
    pub version: u16,
    pub id: Symbol,
    pub operation: Operation,
    pub inventory_revision: u64,
    pub project: ProjectFingerprint,
    pub risk: Symbol,
    pub preview: Option<Preview>,
}

#[derive(Debug, Eq, PartialEq)]
pub struct Preview {
    pub changed_targets: u32,
    pub notices: Vec<Symbol>,
}

#[derive(Debug, Eq, PartialEq)]
pub struct Approval {
    pub version: u16,
    pub plan: Symbol,
    pub project: ProjectFingerprint,
    pub granted: bool,
}

#[derive(Debug, Eq, PartialEq)]
pub struct Run {
    pub version: u16,
    pub id: Symbol,
    pub plan: Symbol,
    pub dispatched_at: u64,
}

#[derive(Clone, Copy, Debug, Eq, PartialEq, Structural)]
pub enum EventKind {
    Accepted,
    Progress,
    Changed,
    Unchanged,
    Cancelled,
    Malformed,
}

#[derive(Debug, Eq, PartialEq)]
pub struct Event {
    pub version: u16,
    pub sequence: u32,
    pub at: u64,
    pub kind: EventKind,
}

#[derive(Debug, Eq, PartialEq)]
pub struct Verification {
    pub version: u16,
    pub run: Symbol,
    pub passed: bool,
    pub checks: Vec<Symbol>,
}

#[derive(Debug, Eq, PartialEq)]
pub struct Reconciliation {
    pub version: u16,
    pub run: Symbol,
    pub state: RunState,
    pub observed_at: u64,
}

#[derive(Clone, Copy, Debug, Eq, PartialEq, Structural)]
pub enum RunState {
    NotDispatched,
    Running,
    Changed,
    Unchanged,
    Cancelled,
    Failed,
    UnknownAfterDispatch,
}

#[derive(Debug, Eq, PartialEq)]
pub struct Lease {
    pub version: u16,
    pub resource: Symbol,
    pub holder: Symbol,
    pub expires_at: u64,
}

#[derive(Debug, Eq, PartialEq)]
pub struct Quarantine {
    pub version: u16,
    pub target: Symbol,
    pub reason: Symbol,
    pub until: Option<u64>,
}

#[derive(Debug, Eq, PartialEq)]
pub struct Outcome {
    pub version: u16,
    pub run: Option<Symbol>,
    pub state: RunState,
    pub verification: Option<Verification>,
    pub reconciliation: Option<Reconciliation>,
}

/// Two fingerprints name the same project content.
pub open spec fn same_project(a: ProjectFingerprint, b: ProjectFingerprint) -> bool {
    a.version == b.version && a.digest@ == b.digest@
}

impl ProjectFingerprint {
    /// The fingerprint of project content `bytes`: its SHA-256 digest.
    pub fn of(bytes: &[u8]) -> (r: Self)
        ensures
            r.version == SCHEMA_VERSION,
            r.digest@ == sha256(bytes@),
    {
        ProjectFingerprint { version: SCHEMA_VERSION, digest: sha256_digest(bytes) }
    }

    /// Whether two fingerprints are the same.
    pub fn same(&self, other: &ProjectFingerprint) -> (r: bool)
        ensures
            r == same_project(*self, *other),
    {
        if self.version != other.version {
            return false;
        }
        let mut i: usize = 0;
        while i < 32
            invariant
                i <= 32,
                forall|j: int| 0 <= j < i ==> self.digest@[j] == other.digest@[j],
            decreases 32 - i,
        {
            if self.digest[i] != other.digest[i] {
                return false;
            }
            i = i + 1;
        }
        assert(self.digest@ =~= other.digest@);
        true
    }
}

/// A copy of the label pairs.
pub fn copy_labels(v: &Vec<(Symbol, Symbol)>) -> (r: Vec<(Symbol, Symbol)>)
    ensures
        r@ == v@,
{
    let mut out: Vec<(Symbol, Symbol)> = Vec::new();
    let mut i: usize = 0;
    while i < v.len()
        invariant
            i <= v@.len(),
            out@ == v@.take(i as int),
        decreases v.len() - i,
    {
        out.push((v[i].0.clone(), v[i].1.clone()));
        proof {
            assert(v@.take(i + 1) =~= v@.take(i as int).push(v@[i as int]));
        }
        i = i + 1;
    }
    assert(v@.take(v@.len() as int) =~= v@);
    out
}

impl Clone for Target {
    fn clone(&self) -> (r: Self)
        ensures
            r.version == self.version,
            r.id == self.id,
            r.labels@ == self.labels@,
            target_code(r) == target_code(*self),
    {
        Target { version: self.version, id: self.id.clone(), labels: copy_labels(&self.labels) }
    }
}

/// A copy of the targets, each with the same content.
pub fn copy_targets(v: &Vec<Target>) -> (r: Vec<Target>)
    ensures
        r@.len() == v@.len(),
        forall|i: int| 0 <= i < v@.len() ==> (#[trigger] r@[i]).id == v@[i].id,
        forall|i: int| 0 <= i < v@.len() ==> (#[trigger] r@[i]).version == v@[i].version && r@[i].labels@ == v@[i].labels@,
        targets_code(r@) == targets_code(v@),
{
    let mut out: Vec<Target> = Vec::new();
    let mut i: usize = 0;
    while i < v.len()
        invariant
            i <= v@.len(),
            out@.len() == i,
            forall|j: int| 0 <= j < i ==> (#[trigger] out@[j]).id == v@[j].id,
            forall|j: int| 0 <= j < i ==> target_code(#[trigger] out@[j]) == target_code(v@[j]),
            forall|j: int| 0 <= j < i ==> (#[trigger] out@[j]).version == v@[j].version && out@[j].labels@ == v@[j].labels@,
        decreases v.len() - i,
    {
        out.push(v[i].clone());
        i = i + 1;
    }
    assert(out@.map_values(|t: Target| target_code(t)) =~= v@.map_values(|t: Target| target_code(t)));
    out
}

impl Clone for SanitizedInventory {
    fn clone(&self) -> (r: Self)
        ensures
            r.version == self.version,
            r.revision == self.revision,
            targets_code(r.targets@) == targets_code(self.targets@),
            r.targets@.len() == self.targets@.len(),
            forall|i: int| 0 <= i < self.targets@.len() ==> (#[trigger] r.targets@[i]).id == self.targets@[i].id,
    {
        SanitizedInventory {
            version: self.version,
            revision: self.revision,
            targets: copy_targets(&self.targets),
        }
    }
}

impl Clone for ProviderCard {
    fn clone(&self) -> (r: Self)
        ensures
            r.version == self.version,
            r.provider == self.provider,
            r.capabilities@ == self.capabilities@,
            r.max_targets == self.max_targets,
    {
        ProviderCard {
            version: self.version,
            provider: self.provider.clone(),
            capabilities: self.capabilities.clone(),
            max_targets: self.max_targets,
        }
    }
}

impl Clone for Preview {
    fn clone(&self) -> (r: Self)
        ensures
            r.changed_targets == self.changed_targets,
            r.notices@ == self.notices@,
    {
        Preview { changed_targets: self.changed_targets, notices: self.notices.clone() }
    }
}

impl Clone for Verification {
    fn clone(&self) -> (r: Self)
        ensures
            r.version == self.version,
            r.run == self.run,
            r.passed == self.passed,
            r.checks@ == self.checks@,
    {
        Verification {
            version: self.version,
            run: self.run.clone(),
            passed: self.passed,
            checks: self.checks.clone(),
        }
    }
}

impl Clone for Reconciliation {
    fn clone(&self) -> (r: Self)
        ensures
            r == *self,
    {
        Reconciliation {
            version: self.version,
            run: self.run.clone(),
            state: self.state,
            observed_at: self.observed_at,
        }
    }
}

impl Clone for Run {
    fn clone(&self) -> (r: Self)
        ensures
            r == *self,
    {
        Run {
            version: self.version,
            id: self.id.clone(),
            plan: self.plan.clone(),
            dispatched_at: self.dispatched_at,
        }
    }
}

/// A copy of `v` with the same content.
pub fn copy_value(v: &Value) -> (r: Value)
    ensures
        value_code(r) == value_code(*v),
    decreases v,
{
    match v {
        Value::Bool(b) => Value::Bool(*b),
        Value::Integer(i) => Value::Integer(*i),
        Value::Text(s) => Value::Text(s.clone()),
        Value::Symbol(s) => Value::Symbol(s.clone()),
        Value::List(items) => {
            let mut out: Vec<Value> = Vec::new();
            let mut i: usize = 0;
            while i < items.len()
                invariant
                    i <= items@.len(),
                    *v == Value::List(*items),
                    value_codes(out@) == value_codes(items@.take(i as int)),
                decreases items.len() - i,
            {
                proof {
                    assert(decreases_to!(*v => v->List_0));
                    assert(decreases_to!(*items => items@));
                    assert(decreases_to!(items@ => items@[i as int]));
                }
                let c = copy_value(&items[i]);
                let ghost before = out@;
                out.push(c);
                proof {
                    assert(out@.drop_last() =~= before);
                    assert(items@.take(i + 1).drop_last() =~= items@.take(i as int));
                }
                i = i + 1;
            }
            assert(items@.take(items@.len() as int) =~= items@);
            Value::List(out)
        },
    }
}

impl Clone for Value {
    fn clone(&self) -> (r: Self)
        ensures
            value_code(r) == value_code(*self),
    {
        copy_value(self)
    }
}

/// A copy of the parameter pairs, each with the same content.
pub fn copy_parameters(v: &Vec<(Symbol, Value)>) -> (r: Vec<(Symbol, Value)>)
    ensures
        parameters_code(r@) == parameters_code(v@),
{
    let mut out: Vec<(Symbol, Value)> = Vec::new();
    let mut i: usize = 0;
    while i < v.len()
        invariant
            i <= v@.len(),
            out@.len() == i,
            forall|j: int| 0 <= j < i ==> (#[trigger] out@[j]).0 == v@[j].0,
            forall|j: int| 0 <= j < i ==> value_code((#[trigger] out@[j]).1) == value_code(v@[j].1),
        decreases v.len() - i,
    {
        out.push((v[i].0.clone(), copy_value(&v[i].1)));
        i = i + 1;
    }
    assert(crate::order::pair_keys(out@) =~= crate::order::pair_keys(v@));
    let ghost order = crate::order::key_order(crate::order::pair_keys(v@));
    assert(order.map_values(|j: int| crate::canon::parameter_code(out@[j])) =~= order.map_values(
        |j: int| crate::canon::parameter_code(v@[j]),
    )) by {
        assert forall|k: int| 0 <= k < order.len() implies crate::canon::parameter_code(out@[#[trigger] order[k]])
            == crate::canon::parameter_code(v@[order[k]]) by {
            if 0 <= order[k] < v@.len() {
            } else {
                crate::order::lemma_key_order_range(crate::order::pair_keys(v@), k);
            }
        }
    }
    out
}

impl Clone for Operation {
    fn clone(&self) -> (r: Self)
        ensures
            r.version == self.version,
            r.exposure == self.exposure,
            r.target == self.target,
            parameters_code(r.parameters@) == parameters_code(self.parameters@),
            r.mode == self.mode,
    {
        Operation {
            version: self.version,
            exposure: self.exposure.clone(),
            target: self.target.clone(),
            parameters: copy_parameters(&self.parameters),
            mode: self.mode,
        }
    }
}

/// Typed refusal that providers and this library return.
#[derive(Clone, Debug, Eq, PartialEq)]
pub enum EstateError {
    Unsupported(Symbol),
    InvalidSymbol,
    BoundExceeded(Symbol),
    StalePlan,
    TargetDisappeared,
    VerificationFailed,
    MalformedEvent,
    Cancelled,
    NotDispatched,
    UnknownAfterDispatch,
}

/// The debug form of a symbol: `Symbol("text")`. Symbol text holds no
/// character that the debug form escapes.
pub open spec fn symbol_debug(s: Seq<char>) -> Seq<char> {
    "Symbol(\""@ + s + "\")"@
}

/// What an estate error says.
pub open spec fn error_message(e: EstateError) -> Seq<char> {
    match e {
        EstateError::Unsupported(s) => "unsupported: "@ + symbol_debug(s@),
        EstateError::InvalidSymbol => "invalid symbol"@,
        EstateError::BoundExceeded(s) => "bound exceeded: "@ + symbol_debug(s@),
        EstateError::StalePlan => "stale plan"@,
        EstateError::TargetDisappeared => "target disappeared"@,
        EstateError::VerificationFailed => "verification failed"@,
        EstateError::MalformedEvent => "malformed provider event"@,
        EstateError::Cancelled => "cancelled"@,
        EstateError::NotDispatched => "not dispatched"@,
        EstateError::UnknownAfterDispatch => "outcome unknown after dispatch"@,
    }
}

impl EstateError {
    /// What the error says.
    pub fn message(&self) -> (r: String)
        ensures
            r@ == error_message(*self),
    {
        let mut out: Vec<char> = Vec::new();
        match self {
            EstateError::Unsupported(s) => {
                push_str(&mut out, "unsupported: Symbol(\"");
                push_str(&mut out, s.as_str());
                push_str(&mut out, "\")");
            },
            EstateError::InvalidSymbol => push_str(&mut out, "invalid symbol"),
            EstateError::BoundExceeded(s) => {
                push_str(&mut out, "bound exceeded: Symbol(\"");
                push_str(&mut out, s.as_str());
                push_str(&mut out, "\")");
            },
            EstateError::StalePlan => push_str(&mut out, "stale plan"),
            EstateError::TargetDisappeared => push_str(&mut out, "target disappeared"),
            EstateError::VerificationFailed => push_str(&mut out, "verification failed"),
            EstateError::MalformedEvent => push_str(&mut out, "malformed provider event"),
            EstateError::Cancelled => push_str(&mut out, "cancelled"),
            EstateError::NotDispatched => push_str(&mut out, "not dispatched"),
            EstateError::UnknownAfterDispatch => push_str(&mut out, "outcome unknown after dispatch"),
        }
        proof {
            match self {
                EstateError::Unsupported(s) => {
                    reveal_strlit("unsupported: Symbol(\"");
                    reveal_strlit("unsupported: ");
                    reveal_strlit("Symbol(\"");
                },
                EstateError::BoundExceeded(s) => {
                    reveal_strlit("bound exceeded: Symbol(\"");
                    reveal_strlit("bound exceeded: ");
                    reveal_strlit("Symbol(\"");
                },
                _ => {},
            }
        }
        assert(out@ =~= error_message(*self));
        string_of(&out)
    }
}

} // verus!
