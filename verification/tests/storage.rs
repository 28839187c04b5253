use hourus::cli::{end_of_day, is_database_extension, resolve_path, start_mode, CliError, StartMode, ENV_KEY};
use hourus::entry::{EntryKind, EntryLine};
use hourus::log::QueryOpts;
use hourus::storage::{
    start_line_cut, LastLineError,
    entry_of_row, last_line_span, list_query, needs_newline, prefixed_lines, terminated_lines,
    truncated_len, FileStorage,
};
use std::path::PathBuf;

fn ts(s: &str) -> i128 {
    chrono::NaiveDateTime::parse_from_str(s, "%Y-%m-%d %H:%M:%S")
        .unwrap()
        .and_utc()
        .timestamp() as i128
        * 1_000_000_000
}

fn line(kind: EntryKind, desc: &str, at: &str) -> EntryLine {
    EntryLine { kind, desc: desc.to_string(), dt: ts(at) }
}

fn last_line(b: &[u8]) -> Option<String> {
    last_line_span(b).map(|(s, e)| String::from_utf8(b[s..e].to_vec()).unwrap().trim_end().to_string())
}

#[test]
fn file_storage_keeps_its_path() {
    let s = FileStorage::new(Some(PathBuf::from("log.hours")));
    assert_eq!(s.location(), &Some(PathBuf::from("log.hours")));
    assert_eq!(FileStorage::new(None).location(), &None);
}

#[test]
fn appended_text_forms() {
    let lines = vec![
        line(EntryKind::End, "coding", "2024-01-01 10:00:00"),
        line(EntryKind::Start, "review", "2024-01-01 10:00:01"),
    ];
    assert_eq!(
        terminated_lines(&lines),
        "END - 2024-01-01 10:00:00 - coding\nSTART - 2024-01-01 10:00:01 - review\n"
    );
    assert_eq!(
        prefixed_lines(&lines),
        "\nEND - 2024-01-01 10:00:00 - coding\nSTART - 2024-01-01 10:00:01 - review"
    );
    assert_eq!(terminated_lines(&[]), "");
}

#[test]
fn last_line_of_file_contents() {
    assert_eq!(last_line(b""), None);
    assert_eq!(last_line(b"A\nB\n"), Some("B".to_string()));
    assert_eq!(last_line(b"A\nB"), Some("B".to_string()));
    assert_eq!(last_line(b"A\nB\n\n"), Some("".to_string()));
    // a file of one line gives that whole line
    assert_eq!(last_line(b"START - x"), Some("START - x".to_string()));
    assert_eq!(last_line(b"AB\n"), Some("AB".to_string()));
    assert_eq!(last_line(b"X"), Some("X".to_string()));
}

#[test]
fn dropping_the_last_line() {
    assert_eq!(truncated_len(b""), 0);
    assert_eq!(truncated_len(b"A\nB\n"), 2);
    assert_eq!(truncated_len(b"A\nB"), 2);
    assert_eq!(truncated_len(b"B\n"), 0);
    assert_eq!(truncated_len(b"AB"), 0);
}

#[test]
fn newline_needed_before_appending() {
    assert!(!needs_newline(b""));
    assert!(!needs_newline(b"A\n"));
    assert!(needs_newline(b"A"));
}

#[test]
fn sql_listing_query() {
    let (q, p) = list_query(&QueryOpts::default());
    assert_eq!(q, "SELECT desc, start_ts, end_ts FROM session WHERE 1=1 ORDER BY start_ts ASC");
    assert!(p.is_empty());

    let opts = QueryOpts {
        from: Some(10 * 1_000_000_000),
        to: Some(20 * 1_000_000_000 + 999),
        limit: Some(5),
        offset: Some(2),
    };
    let (q, p) = list_query(&opts);
    assert_eq!(
        q,
        "SELECT desc, start_ts, end_ts FROM session WHERE 1=1 AND start_ts >= ? AND start_ts <= ? ORDER BY start_ts ASC LIMIT ? OFFSET ?"
    );
    assert_eq!(p, vec![10, 20, 5, 2]);

    let opts = QueryOpts { offset: Some(3), ..QueryOpts::default() };
    let (q, p) = list_query(&opts);
    assert!(q.ends_with(" LIMIT -1 OFFSET ?"));
    assert_eq!(p, vec![3]);
}

#[test]
fn rows_become_entries() {
    let e = entry_of_row("a".to_string(), 100, Some(200));
    assert_eq!(e.desc, "a");
    assert_eq!(e.interval.start, 100 * 1_000_000_000);
    assert_eq!(e.interval.end, Some(200 * 1_000_000_000));
    let e = entry_of_row("b".to_string(), i64::MAX, Some(i64::MIN));
    assert_eq!(e.interval.start, 0);
    assert_eq!(e.interval.end, None);
}

#[test]
fn command_line_rules() {
    assert_eq!(ENV_KEY, "HOURUS_DEFAULT_FILE");
    assert_eq!(resolve_path(Some("a".into()), false, Some("b".into())), Some("a".to_string()));
    assert_eq!(resolve_path(None, false, Some("b".into())), Some("b".to_string()));
    assert_eq!(resolve_path(None, true, Some("b".into())), None);
    assert!(is_database_extension(Some("db")));
    assert!(is_database_extension(Some("sqlite")));
    assert!(!is_database_extension(Some("hours")));
    assert!(!is_database_extension(None));
    assert!(matches!(start_mode(None, true), Ok(StartMode::Interactive(None))));
    assert!(matches!(start_mode(Some("x".into()), false), Ok(StartMode::Direct(ref d)) if d == "x"));
    let err = start_mode(None, false).unwrap_err();
    assert_eq!(err, CliError::MissingDescription);
    assert_eq!(err.message(), "a description is required when not using --interactive");
    let day = ts("2024-05-01 00:00:00");
    assert_eq!(end_of_day(day), ts("2024-05-01 23:59:59"));
}

#[test]
fn appended_lines_are_the_next_lines_of_the_log() {
    let lines = vec![
        line(EntryKind::Start, "review", "2024-01-01 10:00:01"),
        line(EntryKind::End, "review", "2024-01-01 11:00:00"),
    ];
    let before = "START - 2024-01-01 09:00:00 - coding\nEND - 2024-01-01 10:00:00 - coding\n";
    let after = format!("{before}{}", terminated_lines(&lines));
    let read = hourus::text::split_lines(&after);
    assert_eq!(
        read,
        vec![
            "START - 2024-01-01 09:00:00 - coding",
            "END - 2024-01-01 10:00:00 - coding",
            "START - 2024-01-01 10:00:01 - review",
            "END - 2024-01-01 11:00:00 - review",
        ]
    );
}

#[test]
fn cut_starts_where_last_line_starts() {
    let b = b"START - 2024-01-01 09:00:00 - a\nSTART - 2024-01-01 10:00:00 - b\n";
    let (start, _) = last_line_span(b).unwrap();
    assert_eq!(truncated_len(b), start);
    assert_eq!(b[start - 1], b'\n');
}

#[test]
fn rename_cuts_a_trailing_start_line() {
    let one = b"START - 2024-01-01 09:00:00 - a\n";
    assert_eq!(start_line_cut(one), Ok(Some(0)));
    let two = b"END - 2024-01-01 08:00:00 - z\nSTART - 2024-01-01 09:00:00 - a";
    assert_eq!(start_line_cut(two), Ok(Some(30)));
    let closed = b"START - 2024-01-01 09:00:00 - a\nEND - 2024-01-01 10:00:00 - a\n";
    assert_eq!(start_line_cut(closed), Ok(None));
    assert_eq!(start_line_cut(b""), Ok(None));
    assert_eq!(start_line_cut(b"x\n\xff\xfe"), Err(LastLineError::NotUtf8));
}
