use hourus::entry::EntryKind;
use hourus::error::ParseError;
use hourus::report::{Report, StartError};

const S: i128 = 1_000_000_000;

fn parse_dt(s: &str) -> i128 {
    chrono::NaiveDateTime::parse_from_str(s, "%Y-%m-%d %H:%M:%S")
        .unwrap()
        .and_utc()
        .timestamp() as i128
        * S
}

// A well-formed two-entry report (1 hour of "coding")
const ONE_PAIR: &str = "START - 2024-01-01 09:00:00 - coding\nEND - 2024-01-01 10:00:00 - coding";

// Two tasks: coding 2 h, review 30 min
const TWO_TASKS: &str = "\
START - 2024-01-01 09:00:00 - coding\n\
END - 2024-01-01 11:00:00 - coding\n\
START - 2024-01-01 11:00:00 - review\n\
END - 2024-01-01 11:30:00 - review";

// Same task logged twice: 1 h + 90 min
const REPEATED_TASK: &str = "\
START - 2024-01-01 09:00:00 - coding\n\
END - 2024-01-01 10:00:00 - coding\n\
START - 2024-01-01 10:00:00 - coding\n\
END - 2024-01-01 11:30:00 - coding";

// --- Report::from_str ---

#[test]
fn from_str_empty_input_produces_empty_report() {
    let report: Report = "".parse().unwrap();
    assert!(report.entries.is_empty());
    assert!(report.entry_lines.is_empty());
}

#[test]
fn from_str_single_pair_parses_correctly() {
    let report: Report = ONE_PAIR.parse().unwrap();
    assert_eq!(report.entry_lines.len(), 2);
    assert_eq!(report.intervals_for("coding").unwrap().len(), 1);
}

#[test]
fn from_str_multiple_pairs_parsed() {
    let report: Report = TWO_TASKS.parse().unwrap();
    assert_eq!(report.entry_lines.len(), 4);
    assert!(report.has_task("coding"));
    assert!(report.has_task("review"));
}

#[test]
fn from_str_invalid_line_returns_err() {
    let input = "BOGUS - 2024-01-01 09:00:00 - coding\nEND - 2024-01-01 10:00:00 - coding";
    assert!(input.parse::<Report>().is_err());
}

#[test]
fn from_str_mismatched_desc_pair_returns_err() {
    let input = "START - 2024-01-01 09:00:00 - coding\nEND - 2024-01-01 10:00:00 - review";
    assert!(matches!(
        input.parse::<Report>().unwrap_err(),
        ParseError::DescMismatch
    ));
}

#[test]
fn from_str_end_before_start_time_returns_err() {
    let input = "START - 2024-01-01 10:00:00 - coding\nEND - 2024-01-01 09:00:00 - coding";
    assert!(matches!(
        input.parse::<Report>().unwrap_err(),
        ParseError::EndBeforeStart
    ));
}

// --- Report::total_duration ---

#[test]
fn total_duration_empty_report_is_zero() {
    let report: Report = "".parse().unwrap();
    assert_eq!(report.total_duration(), 0);
}

#[test]
fn total_duration_single_pair() {
    let report: Report = ONE_PAIR.parse().unwrap();
    assert_eq!(report.total_duration() / (3600 * S), 1);
}

#[test]
fn total_duration_multiple_tasks_summed() {
    let report: Report = TWO_TASKS.parse().unwrap();
    assert_eq!(report.total_duration() / (60 * S), 150); // 2h + 30m
}

#[test]
fn total_duration_repeated_task_accumulates() {
    let report: Report = REPEATED_TASK.parse().unwrap();
    assert_eq!(report.total_duration() / (60 * S), 150); // 1h + 90m
}

// --- Report::summarize ---

#[test]
fn summarize_empty_report_is_empty() {
    let report: Report = "".parse().unwrap();
    assert!(report.summarize().is_empty());
}

#[test]
fn summarize_single_task() {
    let report: Report = ONE_PAIR.parse().unwrap();
    let summary = report.summarize();
    assert_eq!(summary.len(), 1);
    assert_eq!(summary[0].0, "coding");
    assert_eq!(summary[0].1 / (3600 * S), 1);
}

#[test]
fn summarize_sorted_descending_by_duration() {
    let report: Report = TWO_TASKS.parse().unwrap();
    let summary = report.summarize();
    assert_eq!(summary.len(), 2);
    // coding (2 h) should come before review (30 min)
    assert_eq!(summary[0].0, "coding");
    assert_eq!(summary[1].0, "review");
}

#[test]
fn summarize_repeated_task_aggregated() {
    let report: Report = REPEATED_TASK.parse().unwrap();
    let summary = report.summarize();
    assert_eq!(summary.len(), 1);
    assert_eq!(summary[0].0, "coding");
    assert_eq!(summary[0].1 / (60 * S), 150);
}

// --- Report::build_start_entries ---

#[test]
fn build_start_entries_empty_desc_returns_err() {
    let report: Report = "".parse().unwrap();
    let now = parse_dt("2024-01-01 12:00:00");
    assert!(report.build_start_entries("", now).is_err());
}

#[test]
fn build_start_entries_no_open_session_returns_single_start() {
    let report: Report = ONE_PAIR.parse().unwrap();
    let now = parse_dt("2024-01-01 12:00:00");
    let entries = report.build_start_entries("new task", now).unwrap();
    assert_eq!(entries.len(), 1);
    assert_eq!(entries[0].kind, EntryKind::Start);
    assert_eq!(entries[0].desc, "new task");
    assert_eq!(entries[0].dt, now);
}

#[test]
fn build_start_entries_empty_report_returns_single_start() {
    let report: Report = "".parse().unwrap();
    let now = parse_dt("2024-01-01 12:00:00");
    let entries = report.build_start_entries("task", now).unwrap();
    assert_eq!(entries.len(), 1);
    assert_eq!(entries[0].kind, EntryKind::Start);
}

#[test]
fn build_start_entries_open_session_returns_end_and_start() {
    // Report ending with an open START
    let input = "START - 2024-01-01 09:00:00 - coding\nEND - 2024-01-01 10:00:00 - coding\nSTART - 2024-01-01 10:00:00 - coding";
    // The last line is unpaired (pairing drops it), but entry_lines has it
    let report: Report = input.parse().unwrap();
    let now = parse_dt("2024-01-01 12:00:00");
    let entries = report.build_start_entries("review", now).unwrap();
    assert_eq!(entries.len(), 2);
    assert_eq!(entries[0].kind, EntryKind::End);
    assert_eq!(entries[0].desc, "coding");
    assert_eq!(entries[0].dt, now);
    assert_eq!(entries[1].kind, EntryKind::Start);
    assert_eq!(entries[1].desc, "review");
}

#[test]
fn build_start_entries_open_session_desc_lowercased() {
    let input = "START - 2024-01-01 09:00:00 - coding";
    let report: Report = input.parse().unwrap();
    let now = parse_dt("2024-01-01 12:00:00");
    let entries = report.build_start_entries("MY TASK", now).unwrap();
    assert_eq!(entries[1].desc, "my task");
}

#[test]
fn build_start_entries_open_session_now_before_last_returns_err() {
    let input = "START - 2024-01-01 10:00:00 - coding";
    let report: Report = input.parse().unwrap();
    let now = parse_dt("2024-01-01 09:00:00"); // before the open START
    assert!(report.build_start_entries("review", now).is_err());
}

#[test]
fn build_start_entries_new_start_is_one_second_after_end() {
    let input = "START - 2024-01-01 09:00:00 - coding";
    let report: Report = input.parse().unwrap();
    let now = parse_dt("2024-01-01 12:00:00");
    let entries = report.build_start_entries("review", now).unwrap();
    assert_eq!(entries[1].dt, now + S);
}

// --- Further cases ---

#[test]
fn build_start_entries_errors_are_distinguished() {
    let report: Report = "START - 2024-01-01 10:00:00 - coding".parse().unwrap();
    let now = parse_dt("2024-01-01 10:00:00");
    assert_eq!(report.build_start_entries("x", now).unwrap_err(), StartError::EndBeforeStart);
    assert_eq!(
        report.build_start_entries("", now).unwrap_err(),
        StartError::MissingDescription
    );
}

#[test]
fn from_str_accepts_t_separator_and_crlf() {
    let input = "START - 2024-01-01T09:00:00 - Coding \r\nEND - 2024-01-01T09:45:00 - coding\r\n";
    let report: Report = input.parse().unwrap();
    assert_eq!(report.entry_lines.len(), 2);
    assert_eq!(report.entry_lines[0].desc, "coding");
    assert_eq!(report.total_duration(), 45 * 60 * S);
}

#[test]
fn from_str_error_kinds() {
    assert!(matches!(
        "START 2024-01-01 09:00:00 coding".parse::<Report>().unwrap_err(),
        ParseError::Malformatted
    ));
    assert!(matches!(
        "BOGUS - 2024-01-01 09:00:00 - coding".parse::<Report>().unwrap_err(),
        ParseError::UnknownEntryKind
    ));
    assert!(matches!(
        "START - yesterday - coding".parse::<Report>().unwrap_err(),
        ParseError::TimeFormat(_)
    ));
    assert!(matches!(
        "END - 2024-01-01 09:00:00 - a\nSTART - 2024-01-01 10:00:00 - a".parse::<Report>().unwrap_err(),
        ParseError::StartNoEnd
    ));
}

#[test]
fn summarize_total_matches_total_duration() {
    let report: Report = TWO_TASKS.parse().unwrap();
    let summary = report.summarize();
    let total: i128 = summary.iter().map(|(_, d)| *d).sum();
    assert_eq!(total, report.total_duration());
}
