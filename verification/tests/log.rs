use hourus::entry::{Entry, EntryKind, EntryLine};
use hourus::error::ParseError;
use hourus::log::{load_entries, parse_log_lines, EntryLog, LogError, QueryOpts};

fn ts(s: &str) -> i128 {
    chrono::NaiveDateTime::parse_from_str(s, "%Y-%m-%d %H:%M:%S")
        .unwrap()
        .and_utc()
        .timestamp() as i128
        * 1_000_000_000
}

fn texts(s: &str) -> Vec<String> {
    s.lines().map(|l| l.to_string()).collect()
}

fn log_of(s: &str) -> EntryLog {
    let lines = parse_log_lines(&texts(s)).unwrap();
    EntryLog::from_lines(&lines).unwrap()
}

fn descs(es: &[Entry]) -> Vec<String> {
    es.iter().map(|e| e.desc.clone()).collect()
}

const TWO_CLOSED: &str = "\
START - 2024-01-01 09:00:00 - coding
END - 2024-01-01 10:00:00 - coding

START - 2024-01-02 09:00:00 - review
END - 2024-01-02 09:30:00 - review
";

const OPEN_AT_END: &str = "\
START - 2024-01-01 09:00:00 - coding
END - 2024-01-01 10:00:00 - coding
START - 2024-01-01 11:00:00 - writing
";

#[test]
fn parse_log_lines_skips_blank_lines() {
    let lines = parse_log_lines(&texts(TWO_CLOSED)).unwrap();
    assert_eq!(lines.len(), 4);
    assert_eq!(lines[2].kind, EntryKind::Start);
    assert_eq!(lines[2].desc, "review");
}

#[test]
fn parse_log_lines_reports_bad_line() {
    let err = parse_log_lines(&texts("START - 2024-01-01 09:00:00 - a\nnonsense\n")).unwrap_err();
    assert!(matches!(err, ParseError::Malformatted));
}

#[test]
fn load_keeps_trailing_start_open() {
    let log = log_of(OPEN_AT_END);
    let es = log.entries();
    assert_eq!(es.len(), 2);
    assert_eq!(es[1].desc, "writing");
    assert_eq!(es[1].interval.start, ts("2024-01-01 11:00:00"));
    assert_eq!(es[1].interval.end, None);
    assert_eq!(es[0].interval.end, Some(ts("2024-01-01 10:00:00")));
}

#[test]
fn load_rejects_mismatched_pair() {
    let lines = parse_log_lines(&texts(
        "START - 2024-01-01 09:00:00 - a\nEND - 2024-01-01 10:00:00 - b\n",
    ))
    .unwrap();
    assert!(matches!(load_entries(&lines), Err(ParseError::DescMismatch)));
    assert!(EntryLog::from_lines(&lines).is_err());
}

#[test]
fn list_filters_by_window_offset_and_limit() {
    let log = log_of(TWO_CLOSED);
    let all = log.list(&QueryOpts::default());
    assert_eq!(descs(&all), vec!["coding", "review"]);

    let from = QueryOpts { from: Some(ts("2024-01-02 00:00:00")), ..QueryOpts::default() };
    assert_eq!(descs(&log.list(&from)), vec!["review"]);

    let to = QueryOpts { to: Some(ts("2024-01-01 23:59:59")), ..QueryOpts::default() };
    assert_eq!(descs(&log.list(&to)), vec!["coding"]);

    let skip = QueryOpts { offset: Some(1), ..QueryOpts::default() };
    assert_eq!(descs(&log.list(&skip)), vec!["review"]);

    let first = QueryOpts { limit: Some(1), ..QueryOpts::default() };
    assert_eq!(descs(&log.list(&first)), vec!["coding"]);

    let none = QueryOpts { offset: Some(5), ..QueryOpts::default() };
    assert!(log.list(&none).is_empty());
}

#[test]
fn start_closes_running_session_one_second_earlier() {
    let mut log = log_of(OPEN_AT_END);
    let now = ts("2024-01-01 12:00:00");
    let lines = log.start_lines("review", now);
    assert_eq!(lines.len(), 2);
    assert_eq!(lines[0].kind, EntryKind::End);
    assert_eq!(lines[0].desc, "writing");
    assert_eq!(lines[0].dt, now - 1_000_000_000);
    assert_eq!(lines[1].kind, EntryKind::Start);
    assert_eq!(lines[1].desc, "review");
    assert_eq!(lines[1].dt, now);

    log.start_session("review", now);
    let es = log.entries();
    assert_eq!(es.len(), 3);
    assert_eq!(es[1].interval.end, Some(now - 1_000_000_000));
    assert_eq!(es[2].desc, "review");
    assert_eq!(es[2].interval.end, None);
}

#[test]
fn start_without_running_session_writes_one_line() {
    let log = log_of(TWO_CLOSED);
    let lines = log.start_lines("new", ts("2024-02-01 08:00:00"));
    assert_eq!(lines.len(), 1);
    assert_eq!(lines[0].kind, EntryKind::Start);
}

#[test]
fn end_requires_running_session() {
    let mut log = log_of(TWO_CLOSED);
    assert!(matches!(log.end_lines(ts("2024-02-01 08:00:00")), Err(LogError::NothingStarted)));
    assert!(matches!(log.end_session(ts("2024-02-01 08:00:00")), Err(LogError::NothingStarted)));
    assert_eq!(log.entries().len(), 2);
    assert_eq!(LogError::NothingStarted.message(), "tried to end but nothing was started");
}

#[test]
fn end_closes_running_session() {
    let mut log = log_of(OPEN_AT_END);
    let now = ts("2024-01-01 12:30:00");
    let lines = log.end_lines(now).unwrap();
    assert_eq!(lines.len(), 1);
    assert_eq!(lines[0].kind, EntryKind::End);
    assert_eq!(lines[0].desc, "writing");
    log.end_session(now).unwrap();
    assert_eq!(log.entries()[1].interval.end, Some(now));
}

#[test]
fn rename_current_returns_start_line_with_start_time() {
    let mut log = log_of(OPEN_AT_END);
    let line = log.rename_current("editing").unwrap();
    assert_eq!(line.kind, EntryKind::Start);
    assert_eq!(line.desc, "editing");
    assert_eq!(line.dt, ts("2024-01-01 11:00:00"));
    assert_eq!(log.entries()[1].desc, "editing");

    let mut closed = log_of(TWO_CLOSED);
    assert!(closed.rename_current("x").is_none());
    assert_eq!(descs(closed.entries()), vec!["coding", "review"]);
}

#[test]
fn pending_lines_replay_new_sessions_only() {
    let mut log = log_of(TWO_CLOSED);
    assert!(log.pending_lines().is_empty());
    let t1 = ts("2024-03-01 09:00:00");
    log.start_session("a", t1);
    log.end_session(t1 + 60).unwrap();
    log.start_session("b", t1 + 120);
    let lines = log.pending_lines();
    let got: Vec<(EntryKind, String, i128)> =
        lines.iter().map(|l| (l.kind, l.desc.clone(), l.dt)).collect();
    assert_eq!(
        got,
        vec![
            (EntryKind::Start, "a".to_string(), t1),
            (EntryKind::End, "a".to_string(), t1 + 60),
            (EntryKind::Start, "b".to_string(), t1 + 120),
        ]
    );
}

// Reading the log back after appending the lines a command names gives the
// sessions the command left in memory.
#[test]
fn appended_lines_read_back_as_in_memory_state() {
    let mut lines: Vec<EntryLine> = parse_log_lines(&texts(OPEN_AT_END)).unwrap();
    let mut log = EntryLog::from_lines(&lines).unwrap();
    let now = ts("2024-01-01 13:00:00");
    lines.extend(log.start_lines("review", now));
    log.start_session("review", now);
    let end = now + 600;
    lines.extend(log.end_lines(end).unwrap());
    log.end_session(end).unwrap();

    let reread = EntryLog::from_lines(&lines).unwrap();
    let a = reread.entries();
    let b = log.entries();
    assert_eq!(a.len(), b.len());
    for (x, y) in a.iter().zip(b.iter()) {
        assert_eq!(x.desc, y.desc);
        assert_eq!(x.interval, y.interval);
    }
}

#[test]
fn load_reports_bad_pair_before_unpaired_line() {
    let lines = parse_log_lines(&texts(
        "START - 2024-01-01 09:00:00 - a\nEND - 2024-01-01 10:00:00 - b\nEND - 2024-01-01 11:00:00 - a\n",
    ))
    .unwrap();
    assert!(matches!(load_entries(&lines), Err(ParseError::DescMismatch)));
    assert!(matches!(EntryLog::from_lines(&lines), Err(ParseError::DescMismatch)));
}
