//! Immutable, hash-linked estate history over the `Table` port.
//!
//! Every record is content-addressed under `sha256:<hex>`; a run's head cell
//! `run/<run>/head` names its newest event envelope, and each envelope names
//! the one before it. Events are published before the head advances, so every
//! acknowledged head is rebuildable, and a losing writer's envelope stays in
//! the table. Approvals live under `approval/<id>`, leases under `lease/<name>`.
use vstd::prelude::*;
use crate::canon::{encode_flag, encode_num, encode_text, frame_of};
use crate::codec::{
    lemma_radix_values,
    fields_fit, fits, flag_bytes, flag_field, flag_of, frame, lemma_fits_parts,
    lemma_flag_roundtrip, lemma_num_roundtrip, lemma_text_roundtrip, lemma_unframe_frame,
    num_bytes, num_field, num_of, split_frame, text_bytes, text_field, text_of, unframe,
};
use crate::digest::{hex_digest, sha256_hex};
use crate::table::{absent_or_same, bytes_view, cell, slice_view, BookError, Key, Table};
use crate::text::{chars_of, push_chars, string_of};

verus! {

/// What the book records about a run.
#[derive(Debug, Eq, PartialEq)]
pub enum EventKind {
    Opened { plan: Key },
    Preview { evidence: Key },
    DispatchIntent,
    ProcessAttempt { dispatched: bool, detail: String },
    Callback { sequence: u64, kind: String },
    Verification { passed: bool },
    Cleanup { target: String, generation: u64 },
    Quarantined { target: String, reason: String },
    Final { state: String },
}

/// The content of an `EventKind`.
pub enum EventRecord {
    Opened { plan: Seq<char> },
    Preview { evidence: Seq<char> },
    DispatchIntent,
    ProcessAttempt { dispatched: bool, detail: Seq<char> },
    Callback { sequence: u64, kind: Seq<char> },
    Verification { passed: bool },
    Cleanup { target: Seq<char>, generation: u64 },
    Quarantined { target: Seq<char>, reason: Seq<char> },
    Final { state: Seq<char> },
}

impl View for EventKind {
    type V = EventRecord;

    open spec fn view(&self) -> EventRecord {
        match self {
            EventKind::Opened { plan } => EventRecord::Opened { plan: plan@ },
            EventKind::Preview { evidence } => EventRecord::Preview { evidence: evidence@ },
            EventKind::DispatchIntent => EventRecord::DispatchIntent,
            EventKind::ProcessAttempt { dispatched, detail } => EventRecord::ProcessAttempt {
                dispatched: *dispatched,
                detail: detail@,
            },
            EventKind::Callback { sequence, kind } => EventRecord::Callback {
                sequence: *sequence,
                kind: kind@,
            },
            EventKind::Verification { passed } => EventRecord::Verification { passed: *passed },
            EventKind::Cleanup { target, generation } => EventRecord::Cleanup {
                target: target@,
                generation: *generation,
            },
            EventKind::Quarantined { target, reason } => EventRecord::Quarantined {
                target: target@,
                reason: reason@,
            },
            EventKind::Final { state } => EventRecord::Final { state: state@ },
        }
    }
}

impl Clone for EventKind {
    fn clone(&self) -> (r: Self)
        ensures
            r == *self,
    {
        match self {
            EventKind::Opened { plan } => EventKind::Opened { plan: plan.clone() },
            EventKind::Preview { evidence } => EventKind::Preview { evidence: evidence.clone() },
            EventKind::DispatchIntent => EventKind::DispatchIntent,
            EventKind::ProcessAttempt { dispatched, detail } => EventKind::ProcessAttempt {
                dispatched: *dispatched,
                detail: detail.clone(),
            },
            EventKind::Callback { sequence, kind } => EventKind::Callback {
                sequence: *sequence,
                kind: kind.clone(),
            },
            EventKind::Verification { passed } => EventKind::Verification { passed: *passed },
            EventKind::Cleanup { target, generation } => EventKind::Cleanup {
                target: target.clone(),
                generation: *generation,
            },
            EventKind::Quarantined { target, reason } => EventKind::Quarantined {
                target: target.clone(),
                reason: reason.clone(),
            },
            EventKind::Final { state } => EventKind::Final { state: state.clone() },
        }
    }
}

/// The fields an event kind is written as: a tag, then its data.
pub open spec fn kind_fields(k: EventRecord) -> Seq<Seq<u8>> {
    match k {
        EventRecord::Opened { plan } => seq![seq![0u8], text_bytes(plan)],
        EventRecord::Preview { evidence } => seq![seq![1u8], text_bytes(evidence)],
        EventRecord::DispatchIntent => seq![seq![2u8]],
        EventRecord::ProcessAttempt { dispatched, detail } => seq![
            seq![3u8],
            flag_bytes(dispatched),
            text_bytes(detail),
        ],
        EventRecord::Callback { sequence, kind } => seq![
            seq![4u8],
            num_bytes(sequence),
            text_bytes(kind),
        ],
        EventRecord::Verification { passed } => seq![seq![5u8], flag_bytes(passed)],
        EventRecord::Cleanup { target, generation } => seq![
            seq![6u8],
            text_bytes(target),
            num_bytes(generation),
        ],
        EventRecord::Quarantined { target, reason } => seq![
            seq![7u8],
            text_bytes(target),
            text_bytes(reason),
        ],
        EventRecord::Final { state } => seq![seq![8u8], text_bytes(state)],
    }
}

/// The encoding of an event kind.
pub open spec fn kind_code(k: EventRecord) -> Seq<u8> {
    frame(kind_fields(k))
}

/// The event kind that fields hold, if they hold one.
pub open spec fn kind_from_fields(fs: Seq<Seq<u8>>) -> Option<EventRecord> {
    if fs.len() == 0 || fs[0].len() != 1 {
        None
    } else {
        let t = fs[0][0];
        if t == 0 && fs.len() == 2 && text_of(fs[1]) is Some {
            Some(EventRecord::Opened { plan: text_of(fs[1])->0 })
        } else if t == 1 && fs.len() == 2 && text_of(fs[1]) is Some {
            Some(EventRecord::Preview { evidence: text_of(fs[1])->0 })
        } else if t == 2 && fs.len() == 1 {
            Some(EventRecord::DispatchIntent)
        } else if t == 3 && fs.len() == 3 && flag_of(fs[1]) is Some && text_of(fs[2]) is Some {
            Some(
                EventRecord::ProcessAttempt {
                    dispatched: flag_of(fs[1])->0,
                    detail: text_of(fs[2])->0,
                },
            )
        } else if t == 4 && fs.len() == 3 && num_of(fs[1]) is Some && text_of(fs[2]) is Some {
            Some(EventRecord::Callback { sequence: num_of(fs[1])->0, kind: text_of(fs[2])->0 })
        } else if t == 5 && fs.len() == 2 && flag_of(fs[1]) is Some {
            Some(EventRecord::Verification { passed: flag_of(fs[1])->0 })
        } else if t == 6 && fs.len() == 3 && text_of(fs[1]) is Some && num_of(fs[2]) is Some {
            Some(EventRecord::Cleanup { target: text_of(fs[1])->0, generation: num_of(fs[2])->0 })
        } else if t == 7 && fs.len() == 3 && text_of(fs[1]) is Some && text_of(fs[2]) is Some {
            Some(EventRecord::Quarantined { target: text_of(fs[1])->0, reason: text_of(fs[2])->0 })
        } else if t == 8 && fs.len() == 2 && text_of(fs[1]) is Some {
            Some(EventRecord::Final { state: text_of(fs[1])->0 })
        } else {
            None
        }
    }
}

/// The event kind that bytes hold, if they hold one.
pub open spec fn kind_of(b: Seq<u8>) -> Option<EventRecord> {
    match unframe(b) {
        Some(fs) => kind_from_fields(fs),
        None => None,
    }
}

/// An event kind reads back from its encoding.
pub proof fn lemma_kind_roundtrip(k: EventRecord)
    requires
        fits(kind_code(k)),
    ensures
        kind_of(kind_code(k)) == Some(k),
{
    lemma_fits_parts(kind_fields(k));
    lemma_unframe_frame(kind_fields(k));
    match k {
        EventRecord::Opened { plan } => {
            lemma_text_roundtrip(plan);
        },
        EventRecord::Preview { evidence } => {
            lemma_text_roundtrip(evidence);
        },
        EventRecord::DispatchIntent => {},
        EventRecord::ProcessAttempt { dispatched, detail } => {
            lemma_flag_roundtrip(dispatched);
            lemma_text_roundtrip(detail);
        },
        EventRecord::Callback { sequence, kind } => {
            lemma_num_roundtrip(sequence);
            lemma_text_roundtrip(kind);
        },
        EventRecord::Verification { passed } => {
            lemma_flag_roundtrip(passed);
        },
        EventRecord::Cleanup { target, generation } => {
            lemma_text_roundtrip(target);
            lemma_num_roundtrip(generation);
        },
        EventRecord::Quarantined { target, reason } => {
            lemma_text_roundtrip(target);
            lemma_text_roundtrip(reason);
        },
        EventRecord::Final { state } => {
            lemma_text_roundtrip(state);
        },
    }
}

fn tag_field(t: u8) -> (r: Vec<u8>)
    ensures
        r@ == seq![t],
{
    let mut b: Vec<u8> = Vec::new();
    b.push(t);
    assert(b@ =~= seq![t]);
    b
}

/// The bytes `k` is written as.
pub fn encode_kind(k: &EventKind) -> (r: Vec<u8>)
    ensures
        r@ == kind_code(k@),
{
    let fs: Vec<Vec<u8>> = match k {
        EventKind::Opened { plan } => vec![tag_field(0), encode_text(plan.0.as_str())],
        EventKind::Preview { evidence } => vec![tag_field(1), encode_text(evidence.0.as_str())],
        EventKind::DispatchIntent => vec![tag_field(2)],
        EventKind::ProcessAttempt { dispatched, detail } => vec![
            tag_field(3),
            encode_flag(*dispatched),
            encode_text(detail.as_str()),
        ],
        EventKind::Callback { sequence, kind } => vec![
            tag_field(4),
            encode_num(*sequence),
            encode_text(kind.as_str()),
        ],
        EventKind::Verification { passed } => vec![tag_field(5), encode_flag(*passed)],
        EventKind::Cleanup { target, generation } => vec![
            tag_field(6),
            encode_text(target.as_str()),
            encode_num(*generation),
        ],
        EventKind::Quarantined { target, reason } => vec![
            tag_field(7),
            encode_text(target.as_str()),
            encode_text(reason.as_str()),
        ],
        EventKind::Final { state } => vec![tag_field(8), encode_text(state.as_str())],
    };
    assert(fs@.map_values(|f: Vec<u8>| f@) =~= kind_fields(k@));
    frame_of(&fs)
}

/// The event kind that the fields hold, if they hold one.
fn kind_from(fs: &Vec<Vec<u8>>) -> (r: Option<EventKind>)
    ensures
        match r {
            Some(k) => kind_from_fields(fs@.map_values(|f: Vec<u8>| f@)) == Some(k@),
            None => kind_from_fields(fs@.map_values(|f: Vec<u8>| f@)) is None,
        },
{
    let ghost v = fs@.map_values(|f: Vec<u8>| f@);
    if fs.len() == 0 || fs[0].len() != 1 {
        return None;
    }
    assert(v[0] == fs@[0]@);
    let t = fs[0][0];
    if fs.len() == 1 {
        return if t == 2 {
            Some(EventKind::DispatchIntent)
        } else {
            None
        };
    }
    assert(v[1] == fs@[1]@);
    if fs.len() == 2 {
        if t == 0 || t == 1 || t == 8 {
            return match text_field(&fs[1]) {
                Some(s) => {
                    if t == 0 {
                        Some(EventKind::Opened { plan: Key(s) })
                    } else if t == 1 {
                        Some(EventKind::Preview { evidence: Key(s) })
                    } else {
                        Some(EventKind::Final { state: s })
                    }
                },
                None => None,
            };
        } else if t == 5 {
            return match flag_field(&fs[1]) {
                Some(b) => Some(EventKind::Verification { passed: b }),
                None => None,
            };
        } else {
            return None;
        }
    }
    if fs.len() != 3 {
        return None;
    }
    assert(v[2] == fs@[2]@);
    if t == 3 {
        match (flag_field(&fs[1]), text_field(&fs[2])) {
            (Some(b), Some(s)) => Some(EventKind::ProcessAttempt { dispatched: b, detail: s }),
            _ => None,
        }
    } else if t == 4 {
        match (num_field(&fs[1]), text_field(&fs[2])) {
            (Some(n), Some(s)) => Some(EventKind::Callback { sequence: n, kind: s }),
            _ => None,
        }
    } else if t == 6 {
        match (text_field(&fs[1]), num_field(&fs[2])) {
            (Some(s), Some(n)) => Some(EventKind::Cleanup { target: s, generation: n }),
            _ => None,
        }
    } else if t == 7 {
        match (text_field(&fs[1]), text_field(&fs[2])) {
            (Some(a), Some(b)) => Some(EventKind::Quarantined { target: a, reason: b }),
            _ => None,
        }
    } else {
        None
    }
}

/// The event kind that `b` holds, if it holds one.
pub fn decode_kind(b: &Vec<u8>) -> (r: Option<EventKind>)
    ensures
        match r {
            Some(k) => kind_of(b@) == Some(k@),
            None => kind_of(b@) is None,
        },
{
    match split_frame(b.as_slice()) {
        Some(fs) => kind_from(&fs),
        None => None,
    }
}

/// Views of an optional key.
pub open spec fn key_view(k: Option<Key>) -> Option<Seq<char>> {
    match k {
        Some(x) => Some(x@),
        None => None,
    }
}

/// The link to the envelope before: none, or its key.
pub open spec fn prior_fields(p: Option<Seq<char>>) -> Seq<Seq<u8>> {
    match p {
        Some(k) => seq![text_bytes(k)],
        None => seq![],
    }
}

/// The prior link that bytes hold: `Some(None)` for none, `None` where they
/// hold no link at all.
pub open spec fn prior_of(b: Seq<u8>) -> Option<Option<Seq<char>>> {
    match unframe(b) {
        Some(fs) => if fs.len() == 0 {
            Some(None)
        } else if fs.len() == 1 && text_of(fs[0]) is Some {
            Some(Some(text_of(fs[0])->0))
        } else {
            None
        },
        None => None,
    }
}

/// What an event envelope holds: its run, its position in the run, the
/// key of the envelope before it, and the event.
pub struct Envelope {
    pub run: Seq<char>,
    pub sequence: u64,
    pub prior: Option<Seq<char>>,
    pub kind: EventRecord,
}

/// The fields of an envelope: run, position, link, kind.
pub open spec fn envelope_fields(e: Envelope) -> Seq<Seq<u8>> {
    seq![text_bytes(e.run), num_bytes(e.sequence), frame(prior_fields(e.prior)), kind_code(e.kind)]
}

/// The encoding of an envelope.
pub open spec fn envelope_code(e: Envelope) -> Seq<u8> {
    frame(envelope_fields(e))
}

/// The envelope that `b` encodes, if any.
pub open spec fn envelope_of(b: Seq<u8>) -> Option<Envelope> {
    match unframe(b) {
        Some(fs) => if fs.len() == 4 && text_of(fs[0]) is Some && num_of(fs[1]) is Some && prior_of(
            fs[2],
        ) is Some && kind_of(fs[3]) is Some {
            Some(
                Envelope {
                    run: text_of(fs[0])->0,
                    sequence: num_of(fs[1])->0,
                    prior: prior_of(fs[2])->0,
                    kind: kind_of(fs[3])->0,
                },
            )
        } else {
            None
        },
        None => None,
    }
}

/// An envelope reads back from its encoding.
pub proof fn lemma_envelope_roundtrip(e: Envelope)
    requires
        fits(envelope_code(e)),
    ensures
        envelope_of(envelope_code(e)) == Some(e),
{
    let fs = envelope_fields(e);
    lemma_fits_parts(fs);
    lemma_unframe_frame(fs);
    lemma_text_roundtrip(e.run);
    lemma_num_roundtrip(e.sequence);
    assert(fits(fs[2]));
    lemma_fits_parts(prior_fields(e.prior));
    lemma_unframe_frame(prior_fields(e.prior));
    match e.prior {
        Some(k) => {
            lemma_text_roundtrip(k);
        },
        None => {},
    }
    assert(fits(fs[3]));
    lemma_kind_roundtrip(e.kind);
}

/// The fields of a run head: the newest envelope's key and position.
pub open spec fn head_fields(k: Seq<char>, n: u64) -> Seq<Seq<u8>> {
    seq![text_bytes(k), num_bytes(n)]
}

/// A run head: the key of the newest envelope and its position.
pub open spec fn head_code(k: Seq<char>, n: u64) -> Seq<u8> {
    frame(head_fields(k, n))
}

/// The run head that `b` encodes, if any.
pub open spec fn head_of(b: Seq<u8>) -> Option<(Seq<char>, u64)> {
    match unframe(b) {
        Some(fs) => if fs.len() == 2 && text_of(fs[0]) is Some && num_of(fs[1]) is Some {
            Some((text_of(fs[0])->0, num_of(fs[1])->0))
        } else {
            None
        },
        None => None,
    }
}

/// A run head reads back from its encoding.
pub proof fn lemma_head_roundtrip(k: Seq<char>, n: u64)
    requires
        fits(head_code(k, n)),
    ensures
        head_of(head_code(k, n)) == Some((k, n)),
{
    lemma_fits_parts(head_fields(k, n));
    lemma_unframe_frame(head_fields(k, n));
    lemma_text_roundtrip(k);
    lemma_num_roundtrip(n);
}

/// `sha256:`
pub open spec fn content_prefix() -> Seq<char> {
    seq!['s', 'h', 'a', '2', '5', '6', ':']
}

/// The content key of bytes `b`: `sha256:` and their lowercase hex digest.
pub open spec fn content_key(b: Seq<u8>) -> Seq<char> {
    content_prefix() + sha256_hex(b)
}

/// `run/<run>/head`
pub open spec fn head_key(run: Seq<char>) -> Seq<char> {
    seq!['r', 'u', 'n', '/'] + run + seq!['/', 'h', 'e', 'a', 'd']
}

/// `approval/<id>`
pub open spec fn approval_key(id: Seq<char>) -> Seq<char> {
    seq!['a', 'p', 'p', 'r', 'o', 'v', 'a', 'l', '/'] + id
}

/// `lease/<name>`
pub open spec fn lease_key(name: Seq<char>) -> Seq<char> {
    seq!['l', 'e', 'a', 's', 'e', '/'] + name
}

fn key_of(prefix: Vec<char>, middle: &str, suffix: Vec<char>) -> (k: Key)
    ensures
        k@ == prefix@ + middle@ + suffix@,
{
    let mut cs = prefix;
    let m = chars_of(middle);
    push_chars(&mut cs, &m);
    push_chars(&mut cs, &suffix);
    Key(string_of(&cs))
}

/// The content key of `b`.
pub fn content_key_of(b: &[u8]) -> (k: Key)
    ensures
        k@ == content_key(b@),
        k@.len() == 71,
{
    let mut cs = vec!['s', 'h', 'a', '2', '5', '6', ':'];
    let h = hex_digest(b);
    push_chars(&mut cs, &h);
    Key(string_of(&cs))
}

/// The key of the head of `run`.
pub fn head_key_of(run: &str) -> (k: Key)
    ensures
        k@ == head_key(run@),
{
    key_of(vec!['r', 'u', 'n', '/'], run, vec!['/', 'h', 'e', 'a', 'd'])
}

/// The key of approval `id`.
pub fn approval_key_of(id: &str) -> (k: Key)
    ensures
        k@ == approval_key(id@),
{
    let k = key_of(vec!['a', 'p', 'p', 'r', 'o', 'v', 'a', 'l', '/'], id, Vec::new());
    assert(k@ =~= approval_key(id@));
    k
}

/// The key of the lease on `name`.
pub fn lease_key_of(name: &str) -> (k: Key)
    ensures
        k@ == lease_key(name@),
{
    let k = key_of(vec!['l', 'e', 'a', 's', 'e', '/'], name, Vec::new());
    assert(k@ =~= lease_key(name@));
    k
}

/// The encoding of an envelope.
pub fn encode_envelope(run: &str, sequence: u64, prior: &Option<Key>, kind: &EventKind) -> (r: Vec<u8>)
    ensures
        r@ == envelope_code(Envelope { run: run@, sequence, prior: key_view(*prior), kind: kind@ }),
{
    let p: Vec<Vec<u8>> = match prior {
        Some(k) => vec![encode_text(k.0.as_str())],
        None => Vec::new(),
    };
    assert(p@.map_values(|f: Vec<u8>| f@) =~= prior_fields(key_view(*prior)));
    let fs = vec![encode_text(run), encode_num(sequence), frame_of(&p), encode_kind(kind)];
    assert(fs@.map_values(|f: Vec<u8>| f@) =~= envelope_fields(
        Envelope { run: run@, sequence, prior: key_view(*prior), kind: kind@ },
    ));
    frame_of(&fs)
}

/// The envelope that `b` holds, with its run text, if it holds one.
pub fn decode_envelope(b: &Vec<u8>) -> (r: Option<(String, u64, Option<Key>, EventKind)>)
    ensures
        match r {
            Some((run, n, prior, kind)) => envelope_of(b@) == Some(
                Envelope { run: run@, sequence: n, prior: key_view(prior), kind: kind@ },
            ),
            None => envelope_of(b@) is None,
        },
{
    let fs = match split_frame(b.as_slice()) {
        Some(fs) => fs,
        None => return None,
    };
    let ghost v = fs@.map_values(|f: Vec<u8>| f@);
    if fs.len() != 4 {
        return None;
    }
    assert(v[0] == fs@[0]@ && v[1] == fs@[1]@ && v[2] == fs@[2]@ && v[3] == fs@[3]@);
    let run = match text_field(&fs[0]) {
        Some(s) => s,
        None => return None,
    };
    let n = match num_field(&fs[1]) {
        Some(n) => n,
        None => return None,
    };
    let prior: Option<Key> = match split_frame(fs[2].as_slice()) {
        Some(ps) => {
            let ghost pv = ps@.map_values(|f: Vec<u8>| f@);
            if ps.len() == 0 {
                None
            } else if ps.len() == 1 {
                assert(pv[0] == ps@[0]@);
                match text_field(&ps[0]) {
                    Some(k) => Some(Key(k)),
                    None => return None,
                }
            } else {
                return None;
            }
        },
        None => return None,
    };
    let kind = match decode_kind(&fs[3]) {
        Some(k) => k,
        None => return None,
    };
    Some((run, n, prior, kind))
}

/// The encoding of a run head.
pub fn encode_head(k: &Key, n: u64) -> (r: Vec<u8>)
    ensures
        r@ == head_code(k@, n),
{
    let fs = vec![encode_text(k.0.as_str()), encode_num(n)];
    assert(fs@.map_values(|f: Vec<u8>| f@) =~= head_fields(k@, n));
    frame_of(&fs)
}

/// The run head that `b` encodes, if any.
pub fn decode_head(b: &Vec<u8>) -> (r: Option<(Key, u64)>)
    ensures
        match r {
            Some((k, n)) => head_of(b@) == Some((k@, n)),
            None => head_of(b@) is None,
        },
{
    let fs = match split_frame(b.as_slice()) {
        Some(fs) => fs,
        None => return None,
    };
    let ghost v = fs@.map_values(|f: Vec<u8>| f@);
    if fs.len() != 2 {
        return None;
    }
    assert(v[0] == fs@[0]@ && v[1] == fs@[1]@);
    match (text_field(&fs[0]), num_field(&fs[1])) {
        (Some(k), Some(n)) => Some((Key(k), n)),
        _ => None,
    }
}

/// A reviewed approval: the plan it approves, who reviewed it, and the run
/// that may consume it.
#[derive(Debug, Eq, PartialEq)]
pub struct ApprovalUse {
    pub plan: Key,
    pub reviewer: String,
    pub consumed_by: String,
}

/// A stored approval and whether it has been consumed.
pub struct ApprovalRecord {
    pub plan: Seq<char>,
    pub reviewer: Seq<char>,
    pub consumed_by: Seq<char>,
    pub consumed: bool,
}

/// The fields of a stored approval.
pub open spec fn approval_fields(a: ApprovalRecord) -> Seq<Seq<u8>> {
    seq![text_bytes(a.plan), text_bytes(a.reviewer), text_bytes(a.consumed_by), flag_bytes(a.consumed)]
}

/// The encoding of a stored approval.
pub open spec fn approval_code(a: ApprovalRecord) -> Seq<u8> {
    frame(approval_fields(a))
}

/// The stored approval that `b` encodes, if any.
pub open spec fn approval_of(b: Seq<u8>) -> Option<ApprovalRecord> {
    match unframe(b) {
        Some(fs) => if fs.len() == 4 && text_of(fs[0]) is Some && text_of(fs[1]) is Some && text_of(
            fs[2],
        ) is Some && flag_of(fs[3]) is Some {
            Some(
                ApprovalRecord {
                    plan: text_of(fs[0])->0,
                    reviewer: text_of(fs[1])->0,
                    consumed_by: text_of(fs[2])->0,
                    consumed: flag_of(fs[3])->0,
                },
            )
        } else {
            None
        },
        None => None,
    }
}

/// A stored approval reads back from its encoding.
pub proof fn lemma_approval_roundtrip(a: ApprovalRecord)
    requires
        fits(approval_code(a)),
    ensures
        approval_of(approval_code(a)) == Some(a),
{
    lemma_fits_parts(approval_fields(a));
    lemma_unframe_frame(approval_fields(a));
    lemma_text_roundtrip(a.plan);
    lemma_text_roundtrip(a.reviewer);
    lemma_text_roundtrip(a.consumed_by);
    lemma_flag_roundtrip(a.consumed);
}

/// The approval `u`, consumed or not.
pub open spec fn approval_record(u: ApprovalUse, consumed: bool) -> ApprovalRecord {
    ApprovalRecord { plan: u.plan@, reviewer: u.reviewer@, consumed_by: u.consumed_by@, consumed }
}

fn encode_approval(plan: &str, reviewer: &str, consumed_by: &str, consumed: bool) -> (r: Vec<u8>)
    ensures
        r@ == approval_code(ApprovalRecord { plan: plan@, reviewer: reviewer@, consumed_by: consumed_by@, consumed }),
{
    let fs = vec![encode_text(plan), encode_text(reviewer), encode_text(consumed_by), encode_flag(consumed)];
    assert(fs@.map_values(|f: Vec<u8>| f@) =~= approval_fields(
        ApprovalRecord { plan: plan@, reviewer: reviewer@, consumed_by: consumed_by@, consumed },
    ));
    frame_of(&fs)
}

fn decode_approval(b: &Vec<u8>) -> (r: Option<(String, String, String, bool)>)
    ensures
        match r {
            Some((p, rv, c, d)) => approval_of(b@) == Some(
                ApprovalRecord { plan: p@, reviewer: rv@, consumed_by: c@, consumed: d },
            ),
            None => approval_of(b@) is None,
        },
{
    let fs = match split_frame(b.as_slice()) {
        Some(fs) => fs,
        None => return None,
    };
    let ghost v = fs@.map_values(|f: Vec<u8>| f@);
    if fs.len() != 4 {
        return None;
    }
    assert(v[0] == fs@[0]@ && v[1] == fs@[1]@ && v[2] == fs@[2]@ && v[3] == fs@[3]@);
    match (text_field(&fs[0]), text_field(&fs[1]), text_field(&fs[2]), flag_field(&fs[3])) {
        (Some(p), Some(rv), Some(c), Some(d)) => Some((p, rv, c, d)),
        _ => None,
    }
}

/// Who holds a target, until when, and whether it is quarantined. A lease
/// with no holder that is not quarantined is free.
#[derive(Debug, Eq, PartialEq)]
pub struct LeaseRecord {
    pub holder: String,
    pub generation: u64,
    pub expires_at: u64,
    pub quarantined: bool,
}

pub struct LeaseView {
    pub holder: Seq<char>,
    pub generation: u64,
    pub expires_at: u64,
    pub quarantined: bool,
}

impl View for LeaseRecord {
    type V = LeaseView;

    open spec fn view(&self) -> LeaseView {
        LeaseView {
            holder: self.holder@,
            generation: self.generation,
            expires_at: self.expires_at,
            quarantined: self.quarantined,
        }
    }
}

impl Clone for LeaseRecord {
    fn clone(&self) -> (r: Self)
        ensures
            r == *self,
    {
        LeaseRecord {
            holder: self.holder.clone(),
            generation: self.generation,
            expires_at: self.expires_at,
            quarantined: self.quarantined,
        }
    }
}

/// The view of an optional lease.
pub open spec fn lease_view_opt(l: Option<&LeaseRecord>) -> Option<LeaseView> {
    match l {
        Some(x) => Some(x@),
        None => None,
    }
}

/// The view of an optional lease.
pub open spec fn lease_view_of(l: Option<LeaseRecord>) -> Option<LeaseView> {
    match l {
        Some(x) => Some(x@),
        None => None,
    }
}

/// The fields of a lease.
pub open spec fn lease_fields(l: LeaseView) -> Seq<Seq<u8>> {
    seq![text_bytes(l.holder), num_bytes(l.generation), num_bytes(l.expires_at), flag_bytes(l.quarantined)]
}

/// The encoding of a lease.
pub open spec fn lease_code(l: LeaseView) -> Seq<u8> {
    frame(lease_fields(l))
}

/// The lease that `b` encodes, if any.
pub open spec fn lease_of(b: Seq<u8>) -> Option<LeaseView> {
    match unframe(b) {
        Some(fs) => if fs.len() == 4 && text_of(fs[0]) is Some && num_of(fs[1]) is Some && num_of(
            fs[2],
        ) is Some && flag_of(fs[3]) is Some {
            Some(
                LeaseView {
                    holder: text_of(fs[0])->0,
                    generation: num_of(fs[1])->0,
                    expires_at: num_of(fs[2])->0,
                    quarantined: flag_of(fs[3])->0,
                },
            )
        } else {
            None
        },
        None => None,
    }
}

/// A lease reads back from its encoding.
pub proof fn lemma_lease_roundtrip(l: LeaseView)
    requires
        fits(lease_code(l)),
    ensures
        lease_of(lease_code(l)) == Some(l),
{
    lemma_fits_parts(lease_fields(l));
    lemma_unframe_frame(lease_fields(l));
    lemma_text_roundtrip(l.holder);
    lemma_num_roundtrip(l.generation);
    lemma_num_roundtrip(l.expires_at);
    lemma_flag_roundtrip(l.quarantined);
}

/// A lease that nobody holds.
pub open spec fn is_free(l: LeaseView) -> bool {
    l.holder.len() == 0 && !l.quarantined
}

fn encode_lease(l: &LeaseRecord) -> (r: Vec<u8>)
    ensures
        r@ == lease_code(l@),
{
    let fs = vec![
        encode_text(l.holder.as_str()),
        encode_num(l.generation),
        encode_num(l.expires_at),
        encode_flag(l.quarantined),
    ];
    assert(fs@.map_values(|f: Vec<u8>| f@) =~= lease_fields(l@));
    frame_of(&fs)
}

fn decode_lease(b: &Vec<u8>) -> (r: Option<LeaseRecord>)
    ensures
        match r {
            Some(l) => lease_of(b@) == Some(l@),
            None => lease_of(b@) is None,
        },
{
    let fs = match split_frame(b.as_slice()) {
        Some(fs) => fs,
        None => return None,
    };
    let ghost v = fs@.map_values(|f: Vec<u8>| f@);
    if fs.len() != 4 {
        return None;
    }
    assert(v[0] == fs@[0]@ && v[1] == fs@[1]@ && v[2] == fs@[2]@ && v[3] == fs@[3]@);
    match (text_field(&fs[0]), num_field(&fs[1]), num_field(&fs[2]), flag_field(&fs[3])) {
        (Some(h), Some(g), Some(e), Some(q)) => Some(
            LeaseRecord { holder: h, generation: g, expires_at: e, quarantined: q },
        ),
        _ => None,
    }
}

/// Where a run's next event goes: the key of its newest envelope (none for a
/// new run) and the next position. `None` where the head cell is not a head.
pub open spec fn head_state(cells: Map<Seq<char>, Seq<u8>>, run: Seq<char>) -> Option<(Option<Seq<char>>, u64)> {
    let hk = head_key(run);
    if !cells.contains_key(hk) {
        Some((None, 0))
    } else {
        match head_of(cells[hk]) {
            Some((k, n)) => if n < u64::MAX {
                Some((Some(k), (n + 1) as u64))
            } else {
                None
            },
            None => None,
        }
    }
}

/// The envelope that appending `kind` to `run` writes.
pub open spec fn next_envelope(cells: Map<Seq<char>, Seq<u8>>, run: Seq<char>, kind: EventRecord) -> Envelope {
    let (prior, n) = head_state(cells, run)->0;
    Envelope { run, sequence: n, prior, kind }
}

/// The table after appending `kind` to `run`: the envelope is published under
/// its content key, then the head names it. `None` where the head cell is not a
/// head or another record holds the envelope's key.
pub open spec fn appended(cells: Map<Seq<char>, Seq<u8>>, run: Seq<char>, kind: EventRecord) -> Option<
    Map<Seq<char>, Seq<u8>>,
> {
    match head_state(cells, run) {
        Some((prior, n)) => {
            let e = envelope_code(next_envelope(cells, run, kind));
            let ek = content_key(e);
            if absent_or_same(cells, ek, e) {
                Some(cells.insert(ek, e).insert(head_key(run), head_code(ek, n)))
            } else {
                None
            }
        },
        None => None,
    }
}

/// The events of `run` from the envelope under `key`, at position `n`, back
/// to its first: each envelope must sit under its own content key, belong to
/// `run`, hold its position, and link to the one before; `None` otherwise.
pub open spec fn walk(cells: Map<Seq<char>, Seq<u8>>, run: Seq<char>, key: Seq<char>, n: u64) -> Option<Seq<EventRecord>>
    decreases n,
{
    if !cells.contains_key(key) || content_key(cells[key]) != key {
        None
    } else {
        match envelope_of(cells[key]) {
            Some(env) => if env.run != run || env.sequence != n {
                None
            } else if n == 0 {
                if env.prior is None {
                    Some(seq![env.kind])
                } else {
                    None
                }
            } else {
                match env.prior {
                    Some(p) => match walk(cells, run, p, (n - 1) as u64) {
                        Some(es) => Some(es.push(env.kind)),
                        None => None,
                    },
                    None => None,
                }
            },
            None => None,
        }
    }
}

/// The recorded events of `run`, oldest first: none for a run without a head.
pub open spec fn history(cells: Map<Seq<char>, Seq<u8>>, run: Seq<char>) -> Option<Seq<EventRecord>> {
    let hk = head_key(run);
    if !cells.contains_key(hk) {
        Some(seq![])
    } else {
        match head_of(cells[hk]) {
            Some((k, n)) => walk(cells, run, k, n),
            None => None,
        }
    }
}

/// `open`: the state of an opened run.
pub open spec fn open_text() -> Seq<char> {
    seq!['o', 'p', 'e', 'n']
}

/// The plan and state that events leave: `Opened` names the plan and opens
/// the run, `Final` sets the state, other events change neither.
pub open spec fn plan_and_state(es: Seq<EventRecord>) -> (Seq<char>, Seq<char>)
    decreases es.len(),
{
    if es.len() == 0 {
        (seq![], seq![])
    } else {
        let (p, st) = plan_and_state(es.drop_last());
        match es.last() {
            EventRecord::Opened { plan } => (plan, open_text()),
            EventRecord::Final { state } => (p, state),
            _ => (p, st),
        }
    }
}

/// A run as its events describe it.
#[derive(Debug, Eq, PartialEq)]
pub struct Projection {
    pub run: String,
    pub plan: Key,
    pub state: String,
    pub events: Vec<EventKind>,
}

pub struct ProjectionView {
    pub run: Seq<char>,
    pub plan: Seq<char>,
    pub state: Seq<char>,
    pub events: Seq<EventRecord>,
}

impl View for Projection {
    type V = ProjectionView;

    open spec fn view(&self) -> ProjectionView {
        ProjectionView {
            run: self.run@,
            plan: self.plan@,
            state: self.state@,
            events: self.events@.map_values(|k: EventKind| k@),
        }
    }
}

/// The projection of `run` with events `es`.
pub open spec fn projection_of(run: Seq<char>, es: Seq<EventRecord>) -> ProjectionView {
    ProjectionView { run, plan: plan_and_state(es).0, state: plan_and_state(es).1, events: es }
}

/// The table after consuming approval `id` for `run`: the approval must be
/// stored, unconsumed and meant for `run`; `None` otherwise.
pub open spec fn consumed_after(cells: Map<Seq<char>, Seq<u8>>, id: Seq<char>, run: Seq<char>) -> Option<
    Map<Seq<char>, Seq<u8>>,
> {
    let k = approval_key(id);
    if !cells.contains_key(k) {
        None
    } else {
        match approval_of(cells[k]) {
            Some(a) => if a.consumed || a.consumed_by != run {
                None
            } else {
                Some(cells.insert(k, approval_code(ApprovalRecord { consumed: true, ..a })))
            },
            None => None,
        }
    }
}

/// The lease on `name`: `Some(None)` where it is absent or free,
/// `Some(Some(l))` where it is held, `None` where the cell is not a lease.
pub open spec fn lease_state_of(cells: Map<Seq<char>, Seq<u8>>, name: Seq<char>) -> Option<Option<LeaseView>> {
    let k = lease_key(name);
    if !cells.contains_key(k) {
        Some(None)
    } else {
        match lease_of(cells[k]) {
            Some(l) => if is_free(l) {
                Some(None)
            } else {
                Some(Some(l))
            },
            None => None,
        }
    }
}

/// The table after replacing the lease on `name`, which must be `expected`,
/// with `new`; `None` otherwise.
pub open spec fn leased(
    cells: Map<Seq<char>, Seq<u8>>,
    name: Seq<char>,
    expected: Option<LeaseView>,
    new: LeaseView,
) -> Option<Map<Seq<char>, Seq<u8>>> {
    match lease_state_of(cells, name) {
        Some(observed) => if observed == expected {
            Some(cells.insert(lease_key(name), lease_code(new)))
        } else {
            None
        },
        None => None,
    }
}

fn slice_of(v: &Option<Vec<u8>>) -> (r: Option<&[u8]>)
    ensures
        slice_view(r) == bytes_view(*v),
{
    match v {
        Some(b) => Some(b.as_slice()),
        None => None,
    }
}

fn same_chars(a: &Vec<char>, b: &Vec<char>) -> (r: bool)
    ensures
        r == (a@ == b@),
{
    if a.len() != b.len() {
        return false;
    }
    let mut i: usize = 0;
    while i < a.len()
        invariant
            a@.len() == b@.len(),
            i <= a@.len(),
            forall|j: int| 0 <= j < i ==> a@[j] == b@[j],
        decreases a.len() - i,
    {
        if a[i] != b[i] {
            return false;
        }
        i = i + 1;
    }
    assert(a@ =~= b@);
    true
}

/// Immutable, hash-linked estate history over a `Table`.
pub struct Book<T> {
    pub table: T,
}

impl<T: Table> Book<T> {
    /// A book over `table`.
    pub fn new(table: T) -> (b: Self)
        ensures
            b.table == table,
    {
        Book { table }
    }

    /// Stores `bytes` under their content key and returns that key.
    pub fn intern(&mut self, bytes: &[u8]) -> (r: Result<Key, BookError>)
        ensures
            final(self).table.reliable() == old(self).table.reliable(),
            r matches Ok(k) ==> {
                &&& k@ == content_key(bytes@)
                &&& k@.len() == 71
                &&& absent_or_same(old(self).table.cells(), k@, bytes@)
                &&& final(self).table.cells() == old(self).table.cells().insert(k@, bytes@)
            },
            old(self).table.reliable() ==> (r is Ok <==> absent_or_same(old(self).table.cells(), content_key(bytes@), bytes@)),
            old(self).table.reliable() && r is Err ==> final(self).table.cells() == old(self).table.cells(),
            r is Ok ==> keeps_content(old(self).table.cells(), final(self).table.cells()),
    {
        let k = content_key_of(bytes);
        self.table.put_absent(&k, bytes)?;
        Ok(k)
    }

    /// Appends `kind` to the history of `run`: the envelope is published
    /// before the head advances to it. Returns the envelope's key.
    pub fn append(&mut self, run: &str, kind: EventKind) -> (r: Result<Key, BookError>)
        ensures
            final(self).table.reliable() == old(self).table.reliable(),
            r matches Ok(k) ==> {
                &&& k@ == content_key(envelope_code(next_envelope(old(self).table.cells(), run@, kind@)))
                &&& appended(old(self).table.cells(), run@, kind@) == Some(final(self).table.cells())
            },
            old(self).table.reliable() ==> (r is Ok <==> appended(old(self).table.cells(), run@, kind@) is Some),
            old(self).table.reliable() && r is Err ==> final(self).table.cells() == old(self).table.cells(),
            r is Ok && history(old(self).table.cells(), run@) is Some ==> history(final(self).table.cells(), run@)
                == Some(history(old(self).table.cells(), run@)->0.push(kind@)),
            r is Ok ==> keeps_content(old(self).table.cells(), final(self).table.cells()),
    {
        let ghost c0 = self.table.cells();
        let hk = head_key_of(run);
        let old_head = self.table.get(&hk)?;
        let (prior, n): (Option<Key>, u64) = match &old_head {
            None => (None, 0),
            Some(hb) => match decode_head(hb) {
                Some((k, m)) => {
                    if m < u64::MAX {
                        (Some(k), m + 1)
                    } else {
                        return Err(BookError::Corrupt { key: hk });
                    }
                },
                None => return Err(BookError::Corrupt { key: hk }),
            },
        };
        assert(head_state(c0, run@) == Some((key_view(prior), n)));
        let e = encode_envelope(run, n, &prior, &kind);
        let ek = self.intern(e.as_slice())?;
        let ghost c1 = self.table.cells();
        let h = encode_head(&ek, n);
        proof {
            lemma_content_key_not_head(e@, run@);
        }
        let expected = slice_of(&old_head);
        self.table.compare_and_swap(&hk, expected, h.as_slice())?;
        proof {
            lemma_radix_values();
            assert(e@.len() == e.len() && e.len() <= usize::MAX);
            assert(h@.len() == h.len() && h.len() <= usize::MAX);
            assert(fits(e@));
            assert(fits(h@));
            if history(c0, run@) is Some {
                lemma_append_extends_history(c0, run@, kind@);
            }
            lemma_key_kinds(seq![], run@, seq![], seq![]);
            lemma_write_keeps_content(c1, head_key(run@), h@);
            lemma_keeps_content_trans(c0, c1, self.table.cells());
        }
        Ok(ek)
    }

    /// Rebuilds the projection of `run` from its head back to its first event,
    /// checking each envelope's content key, run, position and link.
    pub fn projection(&self, run: &str) -> (r: Result<Projection, BookError>)
        ensures
            r matches Ok(p) ==> {
                &&& self.table.cells().contains_key(head_key(run@))
                &&& history(self.table.cells(), run@) matches Some(es) && p@ == projection_of(run@, es)
            },
            self.table.reliable() ==> (r is Ok <==> (self.table.cells().contains_key(head_key(run@))
                && history(self.table.cells(), run@) is Some)),
    {
        let ghost c = self.table.cells();
        let hk = head_key_of(run);
        let hb = match self.table.get(&hk)? {
            Some(b) => b,
            None => return Err(BookError::Missing { key: hk }),
        };
        let (k0, n0) = match decode_head(&hb) {
            Some(x) => x,
            None => return Err(BookError::Corrupt { key: hk }),
        };
        let run_chars = chars_of(run);
        let mut cur = k0;
        let mut n = n0;
        let mut newest_first: Vec<EventKind> = Vec::new();
        let ghost mut tail: Seq<EventRecord> = seq![];
        loop
            invariant_except_break
                history(c, run@) == match walk(c, run@, cur@, n) {
                    Some(es) => Some(es + tail),
                    None => None::<Seq<EventRecord>>,
                },
            invariant
                c == self.table.cells(),
                run_chars@ == run@,
                self.table.cells().contains_key(head_key(run@)),
                newest_first@.len() == tail.len(),
                forall|i: int| 0 <= i < tail.len() ==> (#[trigger] newest_first@[i])@ == tail[tail.len() - 1 - i],
            ensures
                history(c, run@) == Some(tail),
            decreases n,
        {
            let b = match self.table.get(&cur)? {
                Some(b) => b,
                None => return Err(BookError::Missing { key: cur }),
            };
            let digest_key = content_key_of(b.as_slice());
            let cur_chars = chars_of(cur.0.as_str());
            let dk_chars = chars_of(digest_key.0.as_str());
            if !same_chars(&cur_chars, &dk_chars) {
                return Err(BookError::Corrupt { key: cur });
            }
            let (erun, en, eprior, ekind) = match decode_envelope(&b) {
                Some(x) => x,
                None => return Err(BookError::Corrupt { key: cur }),
            };
            let erun_chars = chars_of(erun.as_str());
            if !same_chars(&erun_chars, &run_chars) || en != n {
                return Err(BookError::Corrupt { key: cur });
            }
            let ghost kv = ekind@;
            let ghost prev_tail = tail;
            newest_first.push(ekind);
            proof {
                tail = seq![kv] + tail;
                assert forall|i: int| 0 <= i < tail.len() implies (#[trigger] newest_first@[i])@ == tail[tail.len() - 1 - i] by {
                    if i < tail.len() - 1 {
                        assert(tail[tail.len() - 1 - i] == prev_tail[prev_tail.len() - 1 - i]);
                    }
                }
            }
            if n == 0 {
                match eprior {
                    None => {
                        assert(walk(c, run@, cur@, n) == Some(seq![kv]));
                        assert(seq![kv] + prev_tail =~= tail);
                        break;
                    },
                    Some(_) => return Err(BookError::Corrupt { key: cur }),
                }
            } else {
                match eprior {
                    Some(p) => {
                        proof {
                            match walk(c, run@, p@, (n - 1) as u64) {
                                Some(es) => {
                                    assert(es.push(kv) + prev_tail =~= es + tail);
                                },
                                None => {},
                            }
                        }
                        cur = p;
                        n = n - 1;
                    },
                    None => return Err(BookError::Corrupt { key: cur }),
                }
            }
        }
        let mut events: Vec<EventKind> = Vec::new();
        let mut plan = Key(String::new());
        let mut state = String::new();
        let mut i: usize = newest_first.len();
        proof {
            assert(seq![] + tail =~= tail);
        }
        while i > 0
            invariant
                i <= newest_first@.len(),
                newest_first@.len() == tail.len(),
                forall|j: int| 0 <= j < tail.len() ==> (#[trigger] newest_first@[j])@ == tail[tail.len() - 1 - j],
                events@.map_values(|k: EventKind| k@) == tail.take(tail.len() - i),
                (plan@, state@) == plan_and_state(tail.take(tail.len() - i)),
            decreases i,
        {
            let k = newest_first[i - 1].clone();
            let ghost before = events@.map_values(|x: EventKind| x@);
            proof {
                assert(tail.take(tail.len() - i + 1).drop_last() =~= tail.take(tail.len() - i));
                assert(tail[tail.len() - i] == newest_first@[i - 1]@);
            }
            match &k {
                EventKind::Opened { plan: p } => {
                    plan = p.clone();
                    state = string_of(&vec!['o', 'p', 'e', 'n']);
                },
                EventKind::Final { state: s } => {
                    state = s.clone();
                },
                _ => {},
            }
            events.push(k);
            proof {
                assert(events@.map_values(|x: EventKind| x@) =~= before.push(tail[tail.len() - i]));
            }
            i = i - 1;
        }
        proof {
            assert(tail.take(tail.len() as int) =~= tail);
        }
        Ok(Projection { run: string_of(&run_chars), plan, state, events })
    }

    /// Stores approval `id`, unconsumed, where no other approval holds the id.
    pub fn issue_approval(&mut self, id: &str, approval: &ApprovalUse) -> (r: Result<(), BookError>)
        ensures
            final(self).table.reliable() == old(self).table.reliable(),
            r is Ok ==> final(self).table.cells() == old(self).table.cells().insert(
                approval_key(id@),
                approval_code(approval_record(*approval, false)),
            ),
            r is Ok ==> fits(approval_code(approval_record(*approval, false))),
            old(self).table.reliable() ==> (r is Ok <==> absent_or_same(
                old(self).table.cells(),
                approval_key(id@),
                approval_code(approval_record(*approval, false)),
            )),
            old(self).table.reliable() && r is Err ==> final(self).table.cells() == old(self).table.cells(),
            r is Ok ==> keeps_content(old(self).table.cells(), final(self).table.cells()),
    {
        let k = approval_key_of(id);
        proof {
            lemma_key_kinds(seq![], seq![], id@, seq![]);
            lemma_write_keeps_content(self.table.cells(), approval_key(id@), approval_code(approval_record(*approval, false)));
        }
        let b = encode_approval(approval.plan.0.as_str(), approval.reviewer.as_str(), approval.consumed_by.as_str(), false);
        proof {
            lemma_radix_values();
            assert(b@.len() == b.len() && b.len() <= usize::MAX);
        }
        self.table.put_absent(&k, b.as_slice())
    }

    /// Consumes approval `id` for `run`: it must be stored, unconsumed and
    /// meant for `run`. A consumed approval is refused with a conflict.
    pub fn consume_approval(&mut self, id: &str, run: &str) -> (r: Result<(), BookError>)
        ensures
            final(self).table.reliable() == old(self).table.reliable(),
            r is Ok ==> consumed_after(old(self).table.cells(), id@, run@) == Some(final(self).table.cells()),
            old(self).table.reliable() ==> (r is Ok <==> consumed_after(old(self).table.cells(), id@, run@) is Some),
            old(self).table.reliable() && r is Err ==> final(self).table.cells() == old(self).table.cells(),
            r is Ok ==> fits(final(self).table.cells()[approval_key(id@)]),
            r is Err && old(self).table.reliable() && old(self).table.cells().contains_key(approval_key(id@))
                && approval_of(old(self).table.cells()[approval_key(id@)]) is Some ==> (r matches Err(e) && e is Conflict),
            r is Ok ==> keeps_content(old(self).table.cells(), final(self).table.cells()),
    {
        let k = approval_key_of(id);
        proof {
            lemma_key_kinds(seq![], seq![], id@, seq![]);
        }
        let b = match self.table.get(&k)? {
            Some(b) => b,
            None => return Err(BookError::Conflict { key: k, observed: None }),
        };
        let (plan, reviewer, consumed_by, consumed) = match decode_approval(&b) {
            Some(x) => x,
            None => return Err(BookError::Corrupt { key: k }),
        };
        let cb = chars_of(consumed_by.as_str());
        let rc = chars_of(run);
        if consumed || !same_chars(&cb, &rc) {
            return Err(BookError::Conflict { key: k, observed: Some(b) });
        }
        let nb = encode_approval(plan.as_str(), reviewer.as_str(), consumed_by.as_str(), true);
        proof {
            lemma_radix_values();
            assert(nb@.len() == nb.len() && nb.len() <= usize::MAX);
            lemma_write_keeps_content(self.table.cells(), approval_key(id@), nb@);
        }
        self.table.compare_and_swap(&k, Some(b.as_slice()), nb.as_slice())
    }

    /// The lease on `name` where it is held; `None` where it is absent or free.
    pub fn lease_state(&self, name: &str) -> (r: Result<Option<LeaseRecord>, BookError>)
        ensures
            r matches Ok(l) ==> lease_state_of(self.table.cells(), name@) == Some(lease_view_of(l)),
            self.table.reliable() ==> (r is Ok <==> lease_state_of(self.table.cells(), name@) is Some),
    {
        let k = lease_key_of(name);
        let b = match self.table.get(&k)? {
            Some(b) => b,
            None => return Ok(None),
        };
        match decode_lease(&b) {
            Some(l) => {
                if l.holder.as_str().is_empty() && !l.quarantined {
                    Ok(None)
                } else {
                    Ok(Some(l))
                }
            },
            None => Err(BookError::Corrupt { key: k }),
        }
    }

    /// Replaces the lease on `name`, which must be `expected` (`None`: absent
    /// or free), with `new`.
    pub fn lease(&mut self, name: &str, expected: Option<&LeaseRecord>, new: &LeaseRecord) -> (r: Result<(), BookError>)
        ensures
            final(self).table.reliable() == old(self).table.reliable(),
            r is Ok ==> leased(old(self).table.cells(), name@, lease_view_opt(expected), new@) == Some(final(self).table.cells()),
            r is Ok ==> fits(final(self).table.cells()[lease_key(name@)]),
            old(self).table.reliable() ==> (r is Ok <==> leased(old(self).table.cells(), name@, lease_view_opt(expected), new@) is Some),
            old(self).table.reliable() && r is Err ==> final(self).table.cells() == old(self).table.cells(),
            r is Ok ==> keeps_content(old(self).table.cells(), final(self).table.cells()),
    {
        let k = lease_key_of(name);
        let raw = self.table.get(&k)?;
        let observed: Option<LeaseRecord> = match &raw {
            None => None,
            Some(b) => match decode_lease(b) {
                Some(l) => {
                    if l.holder.as_str().is_empty() && !l.quarantined {
                        None
                    } else {
                        Some(l)
                    }
                },
                None => return Err(BookError::Corrupt { key: k }),
            },
        };
        if !same_lease(&observed, expected) {
            return Err(BookError::Conflict { key: k, observed: raw });
        }
        let nb = encode_lease(new);
        proof {
            lemma_radix_values();
            assert(nb@.len() == nb.len() && nb.len() <= usize::MAX);
            lemma_key_kinds(seq![], seq![], seq![], name@);
            lemma_write_keeps_content(self.table.cells(), lease_key(name@), nb@);
        }
        let expected_raw = slice_of(&raw);
        self.table.compare_and_swap(&k, expected_raw, nb.as_slice())
    }
}

fn same_lease(a: &Option<LeaseRecord>, b: Option<&LeaseRecord>) -> (r: bool)
    ensures
        r == (lease_view_of(*a) == lease_view_opt(b)),
{
    match (a, b) {
        (None, None) => true,
        (Some(x), Some(y)) => {
            let hx = chars_of(x.holder.as_str());
            let hy = chars_of(y.holder.as_str());
            same_chars(&hx, &hy) && x.generation == y.generation && x.expires_at == y.expires_at
                && x.quarantined == y.quarantined
        },
        _ => false,
    }
}

/// Every content-addressed cell of `c1` is in `c2`, unchanged.
pub open spec fn keeps_content(c1: Map<Seq<char>, Seq<u8>>, c2: Map<Seq<char>, Seq<u8>>) -> bool {
    forall|k: Seq<char>| #[trigger] c1.contains_key(k) && content_key(c1[k]) == k ==> c2.contains_key(k)
        && c2[k] == c1[k]
}

/// A walk reads only content-addressed cells.
pub proof fn lemma_walk_stable(
    c1: Map<Seq<char>, Seq<u8>>,
    c2: Map<Seq<char>, Seq<u8>>,
    run: Seq<char>,
    key: Seq<char>,
    n: u64,
)
    requires
        walk(c1, run, key, n) is Some,
        keeps_content(c1, c2),
    ensures
        walk(c2, run, key, n) == walk(c1, run, key, n),
    decreases n,
{
    assert(c1.contains_key(key) && content_key(c1[key]) == key);
    assert(c2[key] == c1[key]);
    let env = envelope_of(c1[key])->0;
    if n > 0 {
        lemma_walk_stable(c1, c2, run, env.prior->0, (n - 1) as u64);
    }
}

/// Appending an event to a run extends the run's rebuilt history by exactly
/// that event, where the records the append writes are storable.
pub proof fn lemma_append_extends_history(cells: Map<Seq<char>, Seq<u8>>, run: Seq<char>, kind: EventRecord)
    requires
        history(cells, run) is Some,
        appended(cells, run, kind) is Some,
        fits(envelope_code(next_envelope(cells, run, kind))),
        fits(head_code(content_key(envelope_code(next_envelope(cells, run, kind))), next_envelope(cells, run, kind).sequence)),
    ensures
        history(appended(cells, run, kind)->0, run) == Some(history(cells, run)->0.push(kind)),
{
    let hk = head_key(run);
    let env = next_envelope(cells, run, kind);
    let e = envelope_code(env);
    let ek = content_key(e);
    let n = env.sequence;
    let c2 = appended(cells, run, kind)->0;
    lemma_content_key_not_head(e, run);
    assert(c2 == cells.insert(ek, e).insert(hk, head_code(ek, n)));
    lemma_head_roundtrip(ek, n);
    assert(c2.contains_key(hk) && c2[hk] == head_code(ek, n));
    assert(c2.contains_key(ek) && c2[ek] == e);
    lemma_envelope_roundtrip(env);
    assert(keeps_content(cells, c2)) by {
        assert forall|k: Seq<char>| #[trigger] cells.contains_key(k) && content_key(cells[k]) == k implies c2.contains_key(k)
            && c2[k] == cells[k] by {
            lemma_content_key_not_head(cells[k], run);
        }
    }
    if n == 0 {
        assert(!cells.contains_key(hk));
        assert(walk(c2, run, ek, n) == Some(seq![kind]));
        assert(seq![].push(kind) =~= seq![kind]);
    } else {
        let (k, m) = head_of(cells[hk])->0;
        assert(env.prior == Some(k));
        assert(m == n - 1);
        lemma_walk_stable(cells, c2, run, k, m);
    }
}

/// A consumed approval cannot be consumed again, by any run.
pub proof fn lemma_approval_single_use(cells: Map<Seq<char>, Seq<u8>>, id: Seq<char>, run: Seq<char>, again: Seq<char>)
    requires
        consumed_after(cells, id, run) is Some,
        fits(consumed_after(cells, id, run)->0[approval_key(id)]),
    ensures
        consumed_after(consumed_after(cells, id, run)->0, id, again) is None,
{
    let k = approval_key(id);
    let a = approval_of(cells[k])->0;
    lemma_approval_roundtrip(ApprovalRecord { consumed: true, ..a });
}

/// A reviewed approval is used exactly once: once issued, the run it names
/// can consume it, and after that no run can consume it again.
pub proof fn law_reviewed_approval_used_once(
    cells: Map<Seq<char>, Seq<u8>>,
    id: Seq<char>,
    a: ApprovalRecord,
    again: Seq<char>,
)
    requires
        !a.consumed,
        fits(approval_code(a)),
    ensures
        consumed_after(cells.insert(approval_key(id), approval_code(a)), id, a.consumed_by) is Some,
        consumed_after(
            consumed_after(cells.insert(approval_key(id), approval_code(a)), id, a.consumed_by)->0,
            id,
            again,
        ) is None,
{
    let issued = cells.insert(approval_key(id), approval_code(a));
    lemma_approval_roundtrip(a);
    let spent = ApprovalRecord { consumed: true, ..a };
    crate::codec::lemma_frame_len_eq(approval_fields(a), approval_fields(spent));
    assert(consumed_after(issued, id, a.consumed_by)->0[approval_key(id)] == approval_code(spent));
    lemma_approval_single_use(issued, id, a.consumed_by, again);
}

/// An issued approval can be consumed by the run it names.
pub proof fn lemma_issued_approval_consumable(cells: Map<Seq<char>, Seq<u8>>, id: Seq<char>, approval: ApprovalUse)
    requires
        fits(approval_code(approval_record(approval, false))),
    ensures
        consumed_after(
            cells.insert(approval_key(id), approval_code(approval_record(approval, false))),
            id,
            approval.consumed_by@,
        ) is Some,
{
    lemma_approval_roundtrip(approval_record(approval, false));
}

/// A held lease is not free: once taken, taking it as free is refused until
/// it is replaced by naming it.
pub proof fn lemma_held_lease_excludes(
    cells: Map<Seq<char>, Seq<u8>>,
    name: Seq<char>,
    expected: Option<LeaseView>,
    new: LeaseView,
    other: LeaseView,
)
    requires
        leased(cells, name, expected, new) is Some,
        fits(leased(cells, name, expected, new)->0[lease_key(name)]),
        !is_free(new),
    ensures
        lease_state_of(leased(cells, name, expected, new)->0, name) == Some(Some(new)),
        leased(leased(cells, name, expected, new)->0, name, None, other) is None,
{
    lemma_lease_roundtrip(new);
}

/// Content keys start with `s`, head keys with `r`, approval keys with `a`,
/// lease keys with `l`.
pub proof fn lemma_key_kinds(b: Seq<u8>, run: Seq<char>, id: Seq<char>, name: Seq<char>)
    ensures
        content_key(b).len() > 0 && content_key(b)[0] == 's',
        head_key(run).len() > 0 && head_key(run)[0] == 'r',
        approval_key(id).len() > 0 && approval_key(id)[0] == 'a',
        lease_key(name).len() > 0 && lease_key(name)[0] == 'l',
{
}

/// `c2` holds what `c1` holds, except in content cells and the head of `run`.
pub open spec fn same_outside_history(c1: Map<Seq<char>, Seq<u8>>, c2: Map<Seq<char>, Seq<u8>>, run: Seq<char>) -> bool {
    forall|k: Seq<char>| !(k.len() > 0 && k[0] == 's') && k != head_key(run) ==> #[trigger] cell(c2, k) == cell(c1, k)
}

/// An append changes only content cells and the run's head.
pub proof fn lemma_append_outside_history(c: Map<Seq<char>, Seq<u8>>, run: Seq<char>, kind: EventRecord)
    requires
        appended(c, run, kind) is Some,
    ensures
        same_outside_history(c, appended(c, run, kind)->0, run),
{
    let e = envelope_code(next_envelope(c, run, kind));
    lemma_key_kinds(e, run, seq![], seq![]);
}

/// Interning changes only a content cell.
pub proof fn lemma_intern_outside_history(c: Map<Seq<char>, Seq<u8>>, b: Seq<u8>, run: Seq<char>)
    ensures
        same_outside_history(c, c.insert(content_key(b), b), run),
{
    lemma_key_kinds(b, run, seq![], seq![]);
}

/// The lease on `name` is what its cell holds.
pub proof fn lemma_lease_state_cell(c1: Map<Seq<char>, Seq<u8>>, c2: Map<Seq<char>, Seq<u8>>, name: Seq<char>)
    requires
        cell(c1, lease_key(name)) == cell(c2, lease_key(name)),
    ensures
        lease_state_of(c1, name) == lease_state_of(c2, name),
{
}

/// Leases are as they were where only content cells and a head changed.
pub proof fn lemma_lease_outside_history(c1: Map<Seq<char>, Seq<u8>>, c2: Map<Seq<char>, Seq<u8>>, run: Seq<char>, name: Seq<char>)
    requires
        same_outside_history(c1, c2, run),
    ensures
        lease_state_of(c1, name) == lease_state_of(c2, name),
        cell(c1, lease_key(name)) == cell(c2, lease_key(name)),
{
    lemma_key_kinds(seq![], run, seq![], name);
    assert(cell(c2, lease_key(name)) == cell(c1, lease_key(name)));
}

/// A history depends only on its head and the content cells.
pub proof fn lemma_history_stable(c1: Map<Seq<char>, Seq<u8>>, c2: Map<Seq<char>, Seq<u8>>, run: Seq<char>)
    requires
        history(c1, run) is Some,
        keeps_content(c1, c2),
        cell(c1, head_key(run)) == cell(c2, head_key(run)),
    ensures
        history(c2, run) == history(c1, run),
{
    let hk = head_key(run);
    if c1.contains_key(hk) {
        let (k, n) = head_of(c1[hk])->0;
        lemma_walk_stable(c1, c2, run, k, n);
    }
}

/// Writing a non-content, non-head cell leaves every history as it was.
pub proof fn lemma_history_other_write(c: Map<Seq<char>, Seq<u8>>, k: Seq<char>, v: Seq<u8>, run: Seq<char>)
    requires
        history(c, run) is Some,
        k.len() > 0,
        k[0] != 's',
        k[0] != 'r',
    ensures
        history(c.insert(k, v), run) == history(c, run),
{
    let c2 = c.insert(k, v);
    assert(keeps_content(c, c2)) by {
        assert forall|x: Seq<char>| #[trigger] c.contains_key(x) && content_key(c[x]) == x implies c2.contains_key(x)
            && c2[x] == c[x] by {
            lemma_key_kinds(c[x], run, seq![], seq![]);
        }
    }
    lemma_key_kinds(seq![], run, seq![], seq![]);
    lemma_history_stable(c, c2, run);
}

/// Interning content leaves every history as it was.
pub proof fn lemma_history_intern(c: Map<Seq<char>, Seq<u8>>, b: Seq<u8>, run: Seq<char>)
    requires
        history(c, run) is Some,
        absent_or_same(c, content_key(b), b),
    ensures
        history(c.insert(content_key(b), b), run) == history(c, run),
{
    let c2 = c.insert(content_key(b), b);
    assert(keeps_content(c, c2));
    lemma_key_kinds(b, run, seq![], seq![]);
    lemma_history_stable(c, c2, run);
}

/// Approval cells of `c1` are in `c2` unchanged.
pub open spec fn approvals_kept(c1: Map<Seq<char>, Seq<u8>>, c2: Map<Seq<char>, Seq<u8>>) -> bool {
    forall|k: Seq<char>| k.len() > 0 && k[0] == 'a' ==> #[trigger] cell(c2, k) == cell(c1, k)
}

/// Different names have different lease keys.
pub proof fn lemma_lease_key_injective(a: Seq<char>, b: Seq<char>)
    requires
        lease_key(a) == lease_key(b),
    ensures
        a == b,
{
    assert(a =~= lease_key(a).skip(6));
    assert(b =~= lease_key(b).skip(6));
}

/// Whether approval `id` can be consumed depends only on its cell.
pub proof fn lemma_consumed_after_cell(c1: Map<Seq<char>, Seq<u8>>, c2: Map<Seq<char>, Seq<u8>>, id: Seq<char>, run: Seq<char>)
    requires
        cell(c1, approval_key(id)) == cell(c2, approval_key(id)),
    ensures
        consumed_after(c1, id, run) is None <==> consumed_after(c2, id, run) is None,
{
}

/// Content keys and head keys never meet.
pub proof fn lemma_content_key_not_head(b: Seq<u8>, run: Seq<char>)
    ensures
        content_key(b) != head_key(run),
{
    assert(content_key(b)[0] == 's');
    assert(head_key(run)[0] == 'r');
}

/// Keeping content is transitive.
pub proof fn lemma_keeps_content_trans(c1: Map<Seq<char>, Seq<u8>>, c2: Map<Seq<char>, Seq<u8>>, c3: Map<Seq<char>, Seq<u8>>)
    requires
        keeps_content(c1, c2),
        keeps_content(c2, c3),
    ensures
        keeps_content(c1, c3),
{
    assert forall|k: Seq<char>| #[trigger] c1.contains_key(k) && content_key(c1[k]) == k implies c3.contains_key(k)
        && c3[k] == c1[k] by {
        assert(c2.contains_key(k) && c2[k] == c1[k]);
    }
}

/// Writing a cell whose key is not a content key keeps every content cell.
pub proof fn lemma_write_keeps_content(c: Map<Seq<char>, Seq<u8>>, k: Seq<char>, v: Seq<u8>)
    requires
        k.len() > 0,
        k[0] != 's',
    ensures
        keeps_content(c, c.insert(k, v)),
{
    assert forall|x: Seq<char>| #[trigger] c.contains_key(x) && content_key(c[x]) == x implies c.insert(k, v).contains_key(x)
        && c.insert(k, v)[x] == c[x] by {
        lemma_key_kinds(c[x], seq![], seq![], seq![]);
    }
}

} // verus!
