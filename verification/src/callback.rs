//! Hash-chained callback evidence: an event file is split into bounded
//! lines, and the wire events read from them are checked against their run,
//! plan, position and hash chain, then turned into callback events and the
//! run state they settle.
use vstd::prelude::*;
use crate::digest::{hex_digest, sha256_hex};
use crate::records::{
    is_symbol_text, symbol_text_ok, EstateError, Event, EventKind, RunState, Symbol, SCHEMA_VERSION,
};
use crate::table::bytes_view;
use crate::text::{chars_of, same_text};

verus! {

/// The largest event file read.
pub const MAX_EVENT_FILE_BYTES: usize = 4194304;

/// The longest event line read.
pub const MAX_EVENT_LINE_BYTES: usize = 8192;

/// One callback line as the callback plugin writes it.
#[derive(Debug, Eq, PartialEq)]
pub struct WireEvent {
    pub schema: u16,
    pub run: String,
    pub plan: String,
    pub sequence: u32,
    pub host: Option<String>,
    pub task: Option<String>,
    pub status: String,
    pub changed: bool,
    pub prior_hash: String,
    pub current_hash: String,
    pub terminal: bool,
}

/// A callback line as read: the wire event it holds, where it holds one,
/// and its canonical form (the line with its current hash blank), where
/// it has one.
#[derive(Debug, Eq, PartialEq)]
pub struct ReadLine {
    pub wire: Option<WireEvent>,
    pub canonical: Option<Vec<u8>>,
}

/// The callback events of a run, whether its last line was terminal, and
/// the run state they settle.
#[derive(Debug, Eq, PartialEq)]
pub struct DecodedEvents {
    pub events: Vec<Event>,
    pub terminal: bool,
    pub state: RunState,
}

/// Splitting at line feeds: the lines completed so far and the one being read.
pub open spec fn split_state(b: Seq<u8>) -> (Seq<Seq<u8>>, Seq<u8>)
    decreases b.len(),
{
    if b.len() == 0 {
        (seq![], seq![])
    } else {
        let (done, cur) = split_state(b.drop_last());
        if b.last() == 10 {
            if cur.len() > 0 {
                (done.push(cur), seq![])
            } else {
                (done, seq![])
            }
        } else {
            (done, cur.push(b.last()))
        }
    }
}

/// The non-empty lines of `b`, split at line feeds.
pub open spec fn lines_of(b: Seq<u8>) -> Seq<Seq<u8>> {
    let (done, cur) = split_state(b);
    if cur.len() > 0 {
        done.push(cur)
    } else {
        done
    }
}

/// Every line is at most `MAX_EVENT_LINE_BYTES` long.
pub open spec fn lines_fit(ls: Seq<Seq<u8>>) -> bool {
    forall|i: int| 0 <= i < ls.len() ==> (#[trigger] ls[i]).len() <= MAX_EVENT_LINE_BYTES
}

/// The text `event-file`.
pub open spec fn event_file_text() -> Seq<char> {
    "event-file"@
}

/// The non-empty lines of an event file. A file over
/// `MAX_EVENT_FILE_BYTES` is refused as a bound exceeded; a line over
/// `MAX_EVENT_LINE_BYTES` as malformed.
pub fn event_lines(input: &[u8]) -> (r: Result<Vec<Vec<u8>>, EstateError>)
    ensures
        input@.len() > MAX_EVENT_FILE_BYTES ==> (r matches Err(EstateError::BoundExceeded(s)) && s@ == event_file_text()),
        input@.len() <= MAX_EVENT_FILE_BYTES ==> match r {
            Ok(ls) => ls@.map_values(|l: Vec<u8>| l@) == lines_of(input@) && lines_fit(lines_of(input@)),
            Err(e) => e == EstateError::MalformedEvent && !lines_fit(lines_of(input@)),
        },
{
    if input.len() > MAX_EVENT_FILE_BYTES {
        let cs = vec!['e', 'v', 'e', 'n', 't', '-', 'f', 'i', 'l', 'e'];
        proof {
            reveal_strlit("event-file");
            assert(cs@ =~= event_file_text());
        }
        return match Symbol::from_chars(&cs) {
            Ok(s) => Err(EstateError::BoundExceeded(s)),
            Err(e) => Err(e),
        };
    }
    let mut done: Vec<Vec<u8>> = Vec::new();
    let mut cur: Vec<u8> = Vec::new();
    let mut i: usize = 0;
    while i < input.len()
        invariant
            i <= input@.len(),
            (done@.map_values(|l: Vec<u8>| l@), cur@) == split_state(input@.take(i as int)),
        decreases input.len() - i,
    {
        let ghost before = done@.map_values(|l: Vec<u8>| l@);
        proof {
            assert(input@.take(i + 1).drop_last() =~= input@.take(i as int));
        }
        if input[i] == 10 {
            if cur.len() > 0 {
                let line = cur;
                cur = Vec::new();
                done.push(line);
                proof {
                    assert(done@.map_values(|l: Vec<u8>| l@) =~= before.push(line@));
                }
            }
        } else {
            cur.push(input[i]);
        }
        i = i + 1;
    }
    proof {
        assert(input@.take(input@.len() as int) =~= input@);
    }
    if cur.len() > 0 {
        let ghost before = done@.map_values(|l: Vec<u8>| l@);
        let line = cur;
        done.push(line);
        proof {
            assert(done@.map_values(|l: Vec<u8>| l@) =~= before.push(line@));
        }
    }
    let ghost ls = done@.map_values(|l: Vec<u8>| l@);
    assert(ls == lines_of(input@));
    let mut j: usize = 0;
    while j < done.len()
        invariant
            j <= done@.len(),
            input@.len() <= MAX_EVENT_FILE_BYTES,
            ls == lines_of(input@),
            ls == done@.map_values(|l: Vec<u8>| l@),
            forall|k: int| 0 <= k < j ==> (#[trigger] ls[k]).len() <= MAX_EVENT_LINE_BYTES,
        decreases done.len() - j,
    {
        if done[j].len() > MAX_EVENT_LINE_BYTES {
            assert(ls[j as int].len() > MAX_EVENT_LINE_BYTES);
            return Err(EstateError::MalformedEvent);
        }
        j = j + 1;
    }
    Ok(done)
}

/// Sixty-four zeros: the hash the first line names as its prior.
pub open spec fn zero_hash() -> Seq<char> {
    Seq::new(64, |i: int| '0')
}

/// The callback kind that a status and change flag stand for, and the run
/// state they settle, if they settle one. `None` for an unknown status.
pub open spec fn status_reading(status: Seq<char>, changed: bool) -> Option<(EventKind, Option<RunState>)> {
    if status == "accepted"@ {
        Some((EventKind::Accepted, None))
    } else if status == "progress"@ {
        Some((if changed { EventKind::Changed } else { EventKind::Progress }, None))
    } else if status == "ok"@ {
        Some((if changed { EventKind::Changed } else { EventKind::Unchanged }, None))
    } else if status == "failed"@ {
        Some((EventKind::Progress, Some(RunState::Failed)))
    } else if status == "cancelled"@ {
        Some((EventKind::Cancelled, Some(RunState::Cancelled)))
    } else if status == "final"@ {
        Some((EventKind::Progress, Some(if changed { RunState::Changed } else { RunState::Unchanged })))
    } else {
        None
    }
}

/// The wire event `w` with canonical form `canonical` is the line at
/// `index` of `run` under `plan` that follows the hash `prior`.
pub open spec fn wire_fits(
    w: WireEvent,
    canonical: Option<Seq<u8>>,
    index: int,
    prior: Seq<char>,
    run: Seq<char>,
    plan: Seq<char>,
) -> bool {
    &&& w.schema == SCHEMA_VERSION
    &&& w.run@ == run
    &&& w.plan@ == plan
    &&& w.sequence == index
    &&& w.prior_hash@ == prior
    &&& w.host matches Some(h) ==> is_symbol_text(h@)
    &&& w.task matches Some(t) ==> is_symbol_text(t@)
    &&& canonical matches Some(c) && w.current_hash@ == sha256_hex(c)
    &&& status_reading(w.status@, w.changed) is Some
}

/// A line as its reading needs it: the wire event it holds and its
/// canonical form.
pub open spec fn line_view(l: ReadLine) -> (Option<WireEvent>, Option<Seq<u8>>) {
    (l.wire, bytes_view(l.canonical))
}

/// Reading `lines` in order (see `reading_of`).
pub open spec fn reading(lines: Seq<ReadLine>, run: Seq<char>, plan: Seq<char>) -> Option<
    (Seq<Event>, bool, RunState, Seq<char>),
> {
    reading_of(lines.map_values(|l: ReadLine| line_view(l)), run, plan)
}

/// Reading lines, each given by the wire event it holds and its canonical
/// form, in order: the events so far, whether the last line was terminal,
/// the run state, and the hash the next line must name as its prior.
/// `None` where a line is not a wire event, does not fit its place or
/// follows a terminal line.
pub open spec fn reading_of(lines: Seq<(Option<WireEvent>, Option<Seq<u8>>)>, run: Seq<char>, plan: Seq<char>) -> Option<
    (Seq<Event>, bool, RunState, Seq<char>),
>
    decreases lines.len(),
{
    if lines.len() == 0 {
        Some((seq![], false, RunState::Running, zero_hash()))
    } else {
        match reading_of(lines.drop_last(), run, plan) {
            Some((es, terminal, state, prior)) => {
                let l = lines.last();
                if terminal {
                    None
                } else {
                    match l.0 {
                        Some(w) => if wire_fits(w, l.1, lines.len() - 1, prior, run, plan) {
                            let (kind, settled) = status_reading(w.status@, w.changed)->0;
                            Some(
                                (
                                    es.push(
                                        Event { version: SCHEMA_VERSION, sequence: w.sequence, at: w.sequence as u64, kind },
                                    ),
                                    w.terminal,
                                    match settled {
                                        Some(s) => s,
                                        None => state,
                                    },
                                    w.current_hash@,
                                ),
                            )
                        } else {
                            None
                        },
                        None => None,
                    }
                }
            },
            None => None,
        }
    }
}

/// How a line settles the run: a `final` line settles it as changed or
/// unchanged as its change flag says, a `failed` line as failed, a
/// `cancelled` line as cancelled, and an `accepted`, `progress` or `ok`
/// line leaves the state of the lines before it; reading stops at a line
/// after a terminal one, and the terminal flag is the last line's.
pub proof fn law_last_line_settles_state(
    lines: Seq<(Option<WireEvent>, Option<Seq<u8>>)>,
    run: Seq<char>,
    plan: Seq<char>,
)
    requires
        lines.len() > 0,
        reading_of(lines, run, plan) is Some,
    ensures
        reading_of(lines.drop_last(), run, plan) matches Some((_, before_terminal, before, _)) && !before_terminal && (
        lines.last().0 matches Some(w) && {
            let (_, terminal, state, _) = reading_of(lines, run, plan)->0;
            &&& terminal == w.terminal
            &&& w.status@ == "final"@ ==> state == (if w.changed {
                RunState::Changed
            } else {
                RunState::Unchanged
            })
            &&& w.status@ == "failed"@ ==> state == RunState::Failed
            &&& w.status@ == "cancelled"@ ==> state == RunState::Cancelled
            &&& (w.status@ == "accepted"@ || w.status@ == "progress"@ || w.status@ == "ok"@) ==> state == before
        }),
{
    reveal_strlit("accepted");
    reveal_strlit("progress");
    reveal_strlit("ok");
    reveal_strlit("failed");
    reveal_strlit("cancelled");
    reveal_strlit("final");
    let l = lines.last();
    let r0 = reading_of(lines.drop_last(), run, plan);
    assert(r0 is Some);
    let w = l.0->0;
    assert(l.0 is Some);
    assert(status_reading(w.status@, w.changed) is Some);
    assert("progress"@[0] != "accepted"@[0]);
    assert("final"@.len() != "accepted"@.len());
    assert("final"@.len() != "progress"@.len());
    assert("final"@.len() != "ok"@.len());
    assert("final"@.len() != "failed"@.len());
    assert("final"@.len() != "cancelled"@.len());
    assert("failed"@.len() != "accepted"@.len());
    assert("failed"@.len() != "progress"@.len());
    assert("failed"@.len() != "ok"@.len());
    assert("cancelled"@.len() != "accepted"@.len());
    assert("cancelled"@.len() != "progress"@.len());
    assert("cancelled"@.len() != "ok"@.len());
    assert("cancelled"@.len() != "failed"@.len());
    assert("ok"@.len() != "accepted"@.len());
    assert("ok"@.len() != "progress"@.len());
}

fn status_of(status: &str, changed: bool) -> (r: Option<(EventKind, Option<RunState>)>)
    ensures
        r == status_reading(status@, changed),
{
    if same_text(status, "accepted") {
        Some((EventKind::Accepted, None))
    } else if same_text(status, "progress") {
        Some((if changed { EventKind::Changed } else { EventKind::Progress }, None))
    } else if same_text(status, "ok") {
        Some((if changed { EventKind::Changed } else { EventKind::Unchanged }, None))
    } else if same_text(status, "failed") {
        Some((EventKind::Progress, Some(RunState::Failed)))
    } else if same_text(status, "cancelled") {
        Some((EventKind::Cancelled, Some(RunState::Cancelled)))
    } else if same_text(status, "final") {
        Some((EventKind::Progress, Some(if changed { RunState::Changed } else { RunState::Unchanged })))
    } else {
        None
    }
}

fn optional_symbol_ok(v: &Option<String>) -> (r: bool)
    ensures
        r == (v matches Some(h) ==> is_symbol_text(h@)),
{
    match v {
        Some(h) => symbol_text_ok(&chars_of(h.as_str())),
        None => true,
    }
}

fn same_chars(a: &Vec<char>, b: &Vec<char>) -> (r: bool)
    ensures
        r == (a@ == b@),
{
    if a.len() != b.len() {
        return false;
    }
    let mut i: usize = 0;
    while i < a.len()
        invariant
            a@.len() == b@.len(),
            i <= a@.len(),
            forall|j: int| 0 <= j < i ==> a@[j] == b@[j],
        decreases a.len() - i,
    {
        if a[i] != b[i] {
            return false;
        }
        i = i + 1;
    }
    assert(a@ =~= b@);
    true
}

/// Whether the wire event `w`, canonical form `canonical`, fits position
/// `index` of `run` under `plan` after the hash `prior`.
fn fits_place(
    w: &WireEvent,
    canonical: &Option<Vec<u8>>,
    index: usize,
    prior: &Vec<char>,
    run: &Symbol,
    plan: &Symbol,
) -> (r: bool)
    ensures
        r == wire_fits(*w, bytes_view(*canonical), index as int, prior@, run@, plan@),
{
    if w.schema != SCHEMA_VERSION || !same_text(w.run.as_str(), run.as_str()) || !same_text(
        w.plan.as_str(),
        plan.as_str(),
    ) {
        return false;
    }
    if w.sequence as usize != index {
        return false;
    }
    if !same_chars(&chars_of(w.prior_hash.as_str()), prior) {
        return false;
    }
    if !optional_symbol_ok(&w.host) || !optional_symbol_ok(&w.task) {
        return false;
    }
    let c = match canonical {
        Some(c) => c,
        None => return false,
    };
    let expected = hex_digest(c.as_slice());
    if !same_chars(&chars_of(w.current_hash.as_str()), &expected) {
        return false;
    }
    status_of(w.status.as_str(), w.changed).is_some()
}

/// The callback events of `run` under `plan` that `lines` hold, in order.
/// A line that is not a wire event, is not at its position, does not name
/// the hash of the line before it (zeros for the first), holds a host or
/// task that is not a symbol, whose current hash is not the digest of its
/// canonical form, whose status is unknown, or that follows a terminal line
/// is refused as malformed; where `require_terminal`, lines that end
/// without a terminal one are refused as unknown after dispatch.
pub fn decode_lines(lines: &Vec<ReadLine>, run: &Symbol, plan: &Symbol, require_terminal: bool) -> (r: Result<
    DecodedEvents,
    EstateError,
>)
    ensures
        match reading(lines@, run@, plan@) {
            None => r == Err::<DecodedEvents, EstateError>(EstateError::MalformedEvent),
            Some((es, terminal, state, _)) => if require_terminal && !terminal {
                r == Err::<DecodedEvents, EstateError>(EstateError::UnknownAfterDispatch)
            } else {
                r matches Ok(d) && d.events@ == es && d.terminal == terminal && d.state == state
            },
        },
{
    let mut prior: Vec<char> = Vec::new();
    let mut k: usize = 0;
    while k < 64
        invariant
            k <= 64,
            prior@ == Seq::new(k as nat, |i: int| '0'),
        decreases 64 - k,
    {
        prior.push('0');
        proof {
            assert(prior@ =~= Seq::new((k + 1) as nat, |i: int| '0'));
        }
        k = k + 1;
    }
    let mut events: Vec<Event> = Vec::new();
    let mut terminal = false;
    let mut state = RunState::Running;
    let mut i: usize = 0;
    proof {
        assert(lines@.take(0) =~= seq![]);
        assert(prior@ =~= zero_hash());
    }
    while i < lines.len()
        invariant
            i <= lines@.len(),
            reading(lines@.take(i as int), run@, plan@) == Some((events@, terminal, state, prior@)),
            events@.len() == i,
        decreases lines.len() - i,
    {
        proof {
            assert(lines@.take(i + 1).drop_last() =~= lines@.take(i as int));
            assert(lines@.take(i + 1).last() == lines@[i as int]);
            lemma_views_step(lines@, i as int);
        }
        if terminal {
            proof {
                lemma_reading_stops(lines@, i as int, run@, plan@);
            }
            return Err(EstateError::MalformedEvent);
        }
        let line = &lines[i];
        let w = match &line.wire {
            Some(w) => w,
            None => {
                proof {
                    lemma_reading_stops(lines@, i as int, run@, plan@);
                }
                return Err(EstateError::MalformedEvent);
            },
        };
        if !fits_place(w, &line.canonical, i, &prior, run, plan) {
            proof {
                lemma_reading_stops(lines@, i as int, run@, plan@);
            }
            return Err(EstateError::MalformedEvent);
        }
        let (kind, settled) = match status_of(w.status.as_str(), w.changed) {
            Some(x) => x,
            None => return Err(EstateError::MalformedEvent),
        };
        events.push(Event { version: SCHEMA_VERSION, sequence: w.sequence, at: w.sequence as u64, kind });
        terminal = w.terminal;
        match settled {
            Some(s) => {
                state = s;
            },
            None => {},
        }
        prior = chars_of(w.current_hash.as_str());
        i = i + 1;
    }
    proof {
        assert(lines@.take(lines@.len() as int) =~= lines@);
    }
    if require_terminal && !terminal {
        return Err(EstateError::UnknownAfterDispatch);
    }
    Ok(DecodedEvents { events, terminal, state })
}

/// The member of a callback line that holds the line's own hash.
pub open spec fn current_hash_field() -> Seq<char> {
    "current_hash"@
}

/// What `serde_json` makes of `line` read as a JSON object (`from_slice`),
/// with its member `field` set to the empty string (`Map::insert`), written
/// back as JSON (`to_vec`); `None` where the line is not a JSON object.
pub uninterp spec fn canonical_json(line: Seq<u8>, field: Seq<char>) -> Option<Seq<u8>>;

/// The canonical form of `line`: reads it with `serde_json::from_slice`,
/// sets the object's member `field` to "" and writes it back with
/// `serde_json::to_vec`. The contract names the result and claims only that
/// it depends on the line and the field alone; what the JSON text is, is
/// left to `serde_json`.
#[verifier::external_body]
fn canonical_line(line: &[u8], field: &str) -> (r: Option<Vec<u8>>)
    ensures
        bytes_view(r) == canonical_json(line@, field@),
{
    let mut value: serde_json::Value = serde_json::from_slice(line).ok()?;
    value.as_object_mut()?.insert(field.to_owned(), serde_json::Value::String(String::new()));
    serde_json::to_vec(&value).ok()
}

/// The canonical forms of `lines`: each read as JSON with its current hash
/// blank.
pub open spec fn canonical_forms(lines: Seq<Seq<u8>>) -> Seq<Option<Seq<u8>>> {
    lines.map_values(|l: Seq<u8>| canonical_json(l, current_hash_field()))
}

/// Each wire event paired with the canonical form at its place.
pub open spec fn paired(wires: Seq<Option<WireEvent>>, canon: Seq<Option<Seq<u8>>>) -> Seq<
    (Option<WireEvent>, Option<Seq<u8>>),
> {
    Seq::new(wires.len(), |i: int| (wires[i], canon[i]))
}

/// The callback events of `run` under `plan` that the event file `input`
/// holds, `wires` being the wire event read from each of its non-empty
/// lines, where one could be read. A file over `MAX_EVENT_FILE_BYTES` is
/// refused as a bound exceeded, a line over `MAX_EVENT_LINE_BYTES` as
/// malformed; the lines are then checked and read as `decode_lines` does,
/// each with its canonical form: the line as JSON with its current hash
/// blank.
pub fn decode_events(
    input: &[u8],
    wires: Vec<Option<WireEvent>>,
    run: &Symbol,
    plan: &Symbol,
    require_terminal: bool,
) -> (r: Result<DecodedEvents, EstateError>)
    requires
        wires@.len() == lines_of(input@).len(),
    ensures
        input@.len() > MAX_EVENT_FILE_BYTES ==> (r matches Err(EstateError::BoundExceeded(s)) && s@ == event_file_text()),
        input@.len() <= MAX_EVENT_FILE_BYTES && !lines_fit(lines_of(input@)) ==> r == Err::<DecodedEvents, EstateError>(
            EstateError::MalformedEvent,
        ),
        input@.len() <= MAX_EVENT_FILE_BYTES && lines_fit(lines_of(input@)) ==> match reading_of(
            paired(wires@, canonical_forms(lines_of(input@))),
            run@,
            plan@,
        ) {
            None => r == Err::<DecodedEvents, EstateError>(EstateError::MalformedEvent),
            Some((es, terminal, state, _)) => if require_terminal && !terminal {
                r == Err::<DecodedEvents, EstateError>(EstateError::UnknownAfterDispatch)
            } else {
                r matches Ok(d) && d.events@ == es && d.terminal == terminal && d.state == state
            },
        },
{
    let lines = match event_lines(input) {
        Ok(ls) => ls,
        Err(e) => return Err(e),
    };
    let ghost ls = lines_of(input@);
    let ghost ws = wires@;
    proof {
        assert(lines@.map_values(|l: Vec<u8>| l@).len() == lines@.len());
    }
    let mut rest = wires;
    let mut read: Vec<ReadLine> = Vec::new();
    let mut i: usize = 0;
    proof {
        assert(rest@ =~= ws.skip(0));
    }
    while i < lines.len()
        invariant
            i <= lines@.len(),
            lines@.len() == ls.len(),
            ws.len() == ls.len(),
            lines@.map_values(|l: Vec<u8>| l@) == ls,
            rest@ == ws.skip(i as int),
            read@.len() == i,
            forall|j: int| 0 <= j < i ==> line_view(#[trigger] read@[j]) == (ws[j], canonical_json(ls[j], current_hash_field())),
        decreases lines.len() - i,
    {
        let w = rest.remove(0);
        proof {
            assert(rest@ =~= ws.skip(i + 1));
            assert(lines@.map_values(|l: Vec<u8>| l@)[i as int] == lines@[i as int]@);
        }
        let canonical = canonical_line(lines[i].as_slice(), "current_hash");
        read.push(ReadLine { wire: w, canonical });
        i = i + 1;
    }
    proof {
        assert(read@.map_values(|l: ReadLine| line_view(l)) =~= paired(ws, canonical_forms(ls)));
    }
    decode_lines(&read, run, plan, require_terminal)
}

/// The views of the first `i + 1` lines are those of the first `i` and the
/// view of line `i`.
proof fn lemma_views_step(lines: Seq<ReadLine>, i: int)
    requires
        0 <= i < lines.len(),
    ensures
        lines.take(i + 1).map_values(|l: ReadLine| line_view(l)).drop_last() == lines.take(i).map_values(
            |l: ReadLine| line_view(l),
        ),
        lines.take(i + 1).map_values(|l: ReadLine| line_view(l)).last() == line_view(lines[i]),
{
    assert(lines.take(i + 1).map_values(|l: ReadLine| line_view(l)).drop_last() =~= lines.take(i).map_values(
        |l: ReadLine| line_view(l),
    ));
}

/// Where reading stops at line `i`, it stops for good.
proof fn lemma_reading_stops(lines: Seq<ReadLine>, i: int, run: Seq<char>, plan: Seq<char>)
    requires
        0 <= i < lines.len(),
        reading(lines.take(i + 1), run, plan) is None,
    ensures
        reading(lines, run, plan) is None,
    decreases lines.len() - i,
{
    if i + 1 < lines.len() {
        assert(lines.take(i + 2).drop_last() =~= lines.take(i + 1));
        lemma_views_step(lines, i + 1);
        lemma_reading_stops(lines, i + 1, run, plan);
    } else {
        assert(lines.take(i + 1) =~= lines);
    }
}

} // verus!
