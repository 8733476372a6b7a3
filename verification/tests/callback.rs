use sim_estate::callback::{decode_events, decode_lines, event_lines, ReadLine, WireEvent, MAX_EVENT_FILE_BYTES};
use sim_estate::records::{EstateError, EventKind, RunState, Symbol};
use sim_estate::support::hash_text;

fn sym(value: &str) -> Symbol {
    Symbol::new(value).unwrap()
}

/// A chain of lines for `run` under `plan` with the given statuses; the
/// last is terminal where `terminal`.
fn chain(statuses: &[(&str, bool)], terminal: bool) -> Vec<ReadLine> {
    let mut prior = "0".repeat(64);
    let mut out = Vec::new();
    for (index, (status, changed)) in statuses.iter().enumerate() {
        let canonical = format!("line-{index}-{status}");
        let current = hash_text(&canonical);
        out.push(ReadLine {
            wire: Some(WireEvent {
                schema: 1,
                run: "run/1".into(),
                plan: "plan/1".into(),
                sequence: index as u32,
                host: Some("host/a".into()),
                task: None,
                status: (*status).into(),
                changed: *changed,
                prior_hash: prior.clone(),
                current_hash: current.clone(),
                terminal: terminal && index + 1 == statuses.len(),
            }),
            canonical: Some(canonical.into_bytes()),
        });
        prior = current;
    }
    out
}

#[test]
fn event_files_split_into_nonempty_lines() {
    let lines = event_lines(b"a\n\nbc\n").unwrap();
    assert_eq!(lines, vec![b"a".to_vec(), b"bc".to_vec()]);
    assert_eq!(event_lines(b"").unwrap(), Vec::<Vec<u8>>::new());
    assert_eq!(event_lines(b"x").unwrap(), vec![b"x".to_vec()]);
    let long = vec![b'a'; 8193];
    assert_eq!(event_lines(&long), Err(EstateError::MalformedEvent));
    assert!(event_lines(&vec![b'a'; 8192]).is_ok());
    let huge = vec![b'\n'; MAX_EVENT_FILE_BYTES + 1];
    assert_eq!(
        event_lines(&huge),
        Err(EstateError::BoundExceeded(sym("event-file")))
    );
}

#[test]
fn a_hash_chain_decodes_to_events_and_state() {
    let lines = chain(&[("accepted", false), ("ok", true), ("final", true)], true);
    let decoded = decode_lines(&lines, &sym("run/1"), &sym("plan/1"), true).unwrap();
    assert!(decoded.terminal);
    assert_eq!(decoded.state, RunState::Changed);
    let kinds: Vec<EventKind> = decoded.events.iter().map(|e| e.kind).collect();
    assert_eq!(kinds, vec![EventKind::Accepted, EventKind::Changed, EventKind::Progress]);
    assert_eq!(decoded.events[2].sequence, 2);
    assert_eq!(decoded.events[2].at, 2);
}

#[test]
fn statuses_settle_the_run_state() {
    let failed = chain(&[("progress", false), ("failed", false)], false);
    let d = decode_lines(&failed, &sym("run/1"), &sym("plan/1"), false).unwrap();
    assert_eq!(d.state, RunState::Failed);
    assert_eq!(d.events[0].kind, EventKind::Progress);
    let cancelled = chain(&[("cancelled", false)], false);
    let d = decode_lines(&cancelled, &sym("run/1"), &sym("plan/1"), false).unwrap();
    assert_eq!(d.state, RunState::Cancelled);
    assert_eq!(d.events[0].kind, EventKind::Cancelled);
    let running = chain(&[("ok", false)], false);
    let d = decode_lines(&running, &sym("run/1"), &sym("plan/1"), false).unwrap();
    assert_eq!(d.state, RunState::Running);
    assert_eq!(d.events[0].kind, EventKind::Unchanged);
}

#[test]
fn a_missing_terminal_line_is_unknown_after_dispatch() {
    let lines = chain(&[("accepted", false)], false);
    assert_eq!(
        decode_lines(&lines, &sym("run/1"), &sym("plan/1"), true),
        Err(EstateError::UnknownAfterDispatch)
    );
}

#[test]
fn broken_chains_are_malformed() {
    let run = sym("run/1");
    let plan = sym("plan/1");
    let mut wrong_hash = chain(&[("accepted", false), ("ok", false)], false);
    wrong_hash[1].wire.as_mut().unwrap().current_hash = "0".repeat(64);
    assert_eq!(decode_lines(&wrong_hash, &run, &plan, false), Err(EstateError::MalformedEvent));
    let mut wrong_prior = chain(&[("accepted", false), ("ok", false)], false);
    wrong_prior[1].wire.as_mut().unwrap().prior_hash = "0".repeat(64);
    assert_eq!(decode_lines(&wrong_prior, &run, &plan, false), Err(EstateError::MalformedEvent));
    let after_terminal = chain(&[("accepted", false), ("ok", false)], false);
    let mut after_terminal = after_terminal;
    after_terminal[0].wire.as_mut().unwrap().terminal = true;
    assert_eq!(decode_lines(&after_terminal, &run, &plan, false), Err(EstateError::MalformedEvent));
    let mut bad_host = chain(&[("accepted", false)], false);
    bad_host[0].wire.as_mut().unwrap().host = Some("a b".into());
    assert_eq!(decode_lines(&bad_host, &run, &plan, false), Err(EstateError::MalformedEvent));
    let unknown = chain(&[("weird", false)], false);
    assert_eq!(decode_lines(&unknown, &run, &plan, false), Err(EstateError::MalformedEvent));
    let not_wire = vec![ReadLine { wire: None, canonical: None }];
    assert_eq!(decode_lines(&not_wire, &run, &plan, false), Err(EstateError::MalformedEvent));
    let other_run = chain(&[("accepted", false)], false);
    assert_eq!(
        decode_lines(&other_run, &sym("run/2"), &plan, false),
        Err(EstateError::MalformedEvent)
    );
}

/// A callback line as JSON, with the given hashes.
fn json_line(index: usize, status: &str, changed: bool, prior: &str, current: &str, terminal: bool) -> String {
    format!(
        "{{\"schema\":1,\"run\":\"run/1\",\"plan\":\"plan/1\",\"sequence\":{index},\"host\":\"host/a\",\"task\":null,\"status\":\"{status}\",\"changed\":{changed},\"prior_hash\":\"{prior}\",\"current_hash\":\"{current}\",\"terminal\":{terminal}}}"
    )
}

/// The hash a JSON line carries: that of the line with its current hash
/// blank, as `serde_json` writes it back.
fn line_hash(line: &str) -> String {
    let mut value: serde_json::Value = serde_json::from_str(line).unwrap();
    value["current_hash"] = serde_json::Value::String(String::new());
    let canonical = serde_json::to_vec(&value).unwrap();
    hash_text(std::str::from_utf8(&canonical).unwrap())
}

fn wire_of(index: usize, status: &str, changed: bool, prior: &str, current: &str, terminal: bool) -> WireEvent {
    WireEvent {
        schema: 1,
        run: "run/1".into(),
        plan: "plan/1".into(),
        sequence: index as u32,
        host: Some("host/a".into()),
        task: None,
        status: status.into(),
        changed,
        prior_hash: prior.into(),
        current_hash: current.into(),
        terminal,
    }
}

#[test]
fn an_event_file_is_hash_chained_over_its_json_lines() {
    let zero = "0".repeat(64);
    let first = line_hash(&json_line(0, "accepted", false, &zero, "", false));
    let second = line_hash(&json_line(1, "final", true, &first, "", true));
    let file = format!(
        "{}\n\n{}\n",
        json_line(0, "accepted", false, &zero, &first, false),
        json_line(1, "final", true, &first, &second, true)
    );
    let wires = vec![
        Some(wire_of(0, "accepted", false, &zero, &first, false)),
        Some(wire_of(1, "final", true, &first, &second, true)),
    ];
    let decoded = decode_events(file.as_bytes(), wires, &sym("run/1"), &sym("plan/1"), true).unwrap();
    assert!(decoded.terminal);
    assert_eq!(decoded.state, RunState::Changed);
    assert_eq!(decoded.events.len(), 2);
    // A hash taken over the raw line rather than its canonical form is refused.
    let raw = hash_text(&json_line(0, "accepted", false, &zero, "", false).replace("\"current_hash\":\"\"", "\"current_hash\":\"x\""));
    let bad = json_line(0, "accepted", false, &zero, &raw, true);
    assert_eq!(
        decode_events(bad.as_bytes(), vec![Some(wire_of(0, "accepted", false, &zero, &raw, true))], &sym("run/1"), &sym("plan/1"), false),
        Err(EstateError::MalformedEvent)
    );
    // A line that is not a JSON object has no canonical form.
    assert_eq!(
        decode_events(b"[1]", vec![Some(wire_of(0, "accepted", false, &zero, &first, true))], &sym("run/1"), &sym("plan/1"), false),
        Err(EstateError::MalformedEvent)
    );
}
