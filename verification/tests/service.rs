use hourus::cli::breakdown;
use hourus::entry::{Entry, Interval};
use hourus::log::{parse_log_lines, EntryLog, LogError};
use hourus::service::{summarize, task_rows, SessionAction, SessionStatus};
use hourus::time::{MAX_TIME, MIN_TIME};

fn closed(desc: &str, start: i128, end: i128) -> Entry {
    Entry { desc: desc.to_string(), interval: Interval { start, end: Some(end) } }
}

fn open(desc: &str, start: i128) -> Entry {
    Entry { desc: desc.to_string(), interval: Interval { start, end: None } }
}

fn active(desc: &str, at: i128) -> SessionStatus {
    SessionStatus::Active { desc: desc.to_string(), started_at: at }
}

#[test]
fn status_from_entries() {
    assert!(matches!(SessionStatus::from_entries(&[]), SessionStatus::Idle));
    let es = vec![closed("a", 0, 60)];
    assert!(matches!(SessionStatus::from_entries(&es), SessionStatus::Idle));
    let es = vec![closed("a", 0, 60), open("b", 100)];
    match SessionStatus::from_entries(&es) {
        SessionStatus::Active { desc, started_at } => {
            assert_eq!(desc, "b");
            assert_eq!(started_at, 100);
        }
        other => panic!("unexpected {other:?}"),
    }
}

#[test]
fn start_always_writes_and_activates() {
    for s in [SessionStatus::Idle, active("a", 5), SessionStatus::Paused { desc: "p".into() }] {
        let t = s.start("new", 50);
        assert!(matches!(t.next, SessionStatus::Active { ref desc, started_at: 50 } if desc == "new"));
        assert!(matches!(t.action, SessionAction::Start { ref desc, at: 50 } if desc == "new"));
    }
}

#[test]
fn pause_ends_active_session_and_keeps_task() {
    let t = active("a", 5).pause(70);
    assert!(matches!(t.next, SessionStatus::Paused { ref desc } if desc == "a"));
    assert!(matches!(t.action, SessionAction::End { at: 70 }));

    let t = SessionStatus::Idle.pause(70);
    assert!(matches!(t.next, SessionStatus::Idle));
    assert!(matches!(t.action, SessionAction::Nothing));
}

#[test]
fn resume_restarts_paused_task() {
    let t = SessionStatus::Paused { desc: "a".into() }.resume(90);
    assert!(matches!(t.next, SessionStatus::Active { ref desc, started_at: 90 } if desc == "a"));
    assert!(matches!(t.action, SessionAction::Start { ref desc, at: 90 } if desc == "a"));

    let t = active("a", 5).resume(90);
    assert!(matches!(t.next, SessionStatus::Active { started_at: 5, .. }));
    assert!(matches!(t.action, SessionAction::Nothing));
}

#[test]
fn pause_then_resume_continues_same_task() {
    let paused = active("deep work", 0).pause(100).next;
    let resumed = paused.resume(200).next;
    assert!(matches!(resumed, SessionStatus::Active { ref desc, started_at: 200 } if desc == "deep work"));
}

#[test]
fn end_needs_active_session() {
    let t = active("a", 5).end(60).unwrap();
    assert!(matches!(t.next, SessionStatus::Idle));
    assert!(matches!(t.action, SessionAction::End { at: 60 }));
    assert!(matches!(SessionStatus::Idle.end(60), Err(LogError::NothingStarted)));
    assert!(matches!(
        SessionStatus::Paused { desc: "a".into() }.end(60),
        Err(LogError::NothingStarted)
    ));
}

#[test]
fn discard_only_drops_paused() {
    assert!(matches!(SessionStatus::Paused { desc: "a".into() }.discard_paused(), SessionStatus::Idle));
    assert!(matches!(active("a", 1).discard_paused(), SessionStatus::Active { started_at: 1, .. }));
    assert!(matches!(SessionStatus::Idle.discard_paused(), SessionStatus::Idle));
}

#[test]
fn rename_keeps_start_time() {
    let t = active("a", 7).rename("b");
    assert!(matches!(t.next, SessionStatus::Active { ref desc, started_at: 7 } if desc == "b"));
    assert!(matches!(t.action, SessionAction::Rename { ref desc } if desc == "b"));
    let t = SessionStatus::Paused { desc: "a".into() }.rename("c");
    assert!(matches!(t.next, SessionStatus::Paused { ref desc } if desc == "c"));
    let t = SessionStatus::Idle.rename("c");
    assert!(matches!(t.next, SessionStatus::Idle));
    assert!(matches!(t.action, SessionAction::Nothing));
}

#[test]
fn summarize_aggregates_closed_sessions_longest_first() {
    let es = vec![
        closed("coding", 0, 3600),
        closed("review", 3600, 5400),
        closed("coding", 5400, 9000),
        open("writing", 9000),
    ];
    let rows = summarize(&es);
    assert_eq!(rows, vec![("coding".to_string(), 7200), ("review".to_string(), 1800)]);
}

#[test]
fn summarize_ignores_running_sessions_and_empty_input() {
    assert!(summarize(&[]).is_empty());
    assert!(summarize(&[open("a", 0)]).is_empty());
}

#[test]
fn breakdown_total_is_sum_of_rows() {
    let es = vec![closed("a", 0, 60), closed("b", 60, 240), closed("a", 300, 330)];
    let (rows, total) = breakdown(&es).unwrap();
    assert_eq!(rows, vec![("b".to_string(), 180), ("a".to_string(), 90)]);
    assert_eq!(total, 270);
}

#[test]
fn breakdown_refuses_totals_beyond_a_duration() {
    // each session spans the whole range of times; 600 of them add up to
    // more than the longest duration
    let es: Vec<Entry> = (0..600).map(|_| closed("a", MIN_TIME, MAX_TIME)).collect();
    assert!(task_rows(&es).is_none());
    assert!(breakdown(&es).is_none());
    // a few of them fit
    let few: Vec<Entry> = (0..3).map(|_| closed("a", MIN_TIME, MAX_TIME)).collect();
    let (rows, total) = breakdown(&few).unwrap();
    assert_eq!(rows, vec![("a".to_string(), 3 * (MAX_TIME - MIN_TIME))]);
    assert_eq!(total, 3 * (MAX_TIME - MIN_TIME));
}

#[test]
fn backward_sessions_count_against_their_task() {
    // a session whose end precedes its start (possible from a database)
    // subtracts its length
    let es = vec![closed("a", 0, 100), closed("a", 50, 20), closed("b", 0, 10)];
    assert_eq!(
        task_rows(&es).unwrap(),
        vec![("a".to_string(), 70), ("b".to_string(), 10)]
    );
}

// Performing each command's action on a log keeps the status in agreement
// with what the log itself says.
#[test]
fn status_agrees_with_log_after_each_command() {
    let texts: Vec<String> = vec!["START - 2024-01-01 09:00:00 - coding".into()];
    let lines = parse_log_lines(&texts).unwrap();
    let mut log = EntryLog::from_lines(&lines).unwrap();
    let mut status = SessionStatus::from_entries(log.entries());
    assert!(matches!(status, SessionStatus::Active { ref desc, .. } if desc == "coding"));

    let base = 1_704_100_000;
    let apply = |log: &mut EntryLog, action: &SessionAction| match action {
        SessionAction::Nothing => {}
        SessionAction::Start { desc, at } => log.start_session(desc, *at),
        SessionAction::End { at } => log.end_session(*at).unwrap(),
        SessionAction::Rename { desc } => {
            log.rename_current(desc);
        }
    };

    let t = status.pause(base);
    apply(&mut log, &t.action);
    status = t.next;
    assert!(matches!(status, SessionStatus::Paused { .. }));
    assert!(matches!(SessionStatus::from_entries(log.entries()), SessionStatus::Idle));

    let t = status.resume(base + 60);
    apply(&mut log, &t.action);
    status = t.next;
    match (&status, SessionStatus::from_entries(log.entries())) {
        (
            SessionStatus::Active { desc: a, started_at: s },
            SessionStatus::Active { desc: b, started_at: u },
        ) => {
            assert_eq!(a, &b);
            assert_eq!(*s, u);
        }
        other => panic!("unexpected {other:?}"),
    }

    let t = status.rename("writing");
    apply(&mut log, &t.action);
    status = t.next;
    assert!(matches!(
        SessionStatus::from_entries(log.entries()),
        SessionStatus::Active { ref desc, .. } if desc == "writing"
    ));

    let t = status.end(base + 120).unwrap();
    apply(&mut log, &t.action);
    status = t.next;
    assert!(matches!(status, SessionStatus::Idle));
    assert!(matches!(SessionStatus::from_entries(log.entries()), SessionStatus::Idle));
}
