use hourus::entry::{pair_up, parse_entry_lines, str_eq, Entry, EntryKind, EntryLine, Interval};
use hourus::error::ParseError;
use hourus::time::{day_start, num_minutes, parse_datetime};

fn ts(s: &str) -> i128 {
    chrono::NaiveDateTime::parse_from_str(s, "%Y-%m-%d %H:%M:%S")
        .unwrap()
        .and_utc()
        .timestamp() as i128
        * 1_000_000_000
}

fn line(kind: EntryKind, desc: &str, at: &str) -> EntryLine {
    EntryLine { kind, desc: desc.to_string(), dt: ts(at) }
}

#[test]
fn entry_kind_keywords() {
    assert_eq!(EntryKind::parse(" Start ").unwrap(), EntryKind::Start);
    assert_eq!("END".parse::<EntryKind>().unwrap(), EntryKind::End);
    assert!(matches!(EntryKind::parse("stop"), Err(ParseError::UnknownEntryKind)));
    assert_eq!(EntryKind::Start.label(), "START");
    assert_eq!(EntryKind::End.label(), "END");
}

#[test]
fn entry_line_parse_normalises_description() {
    let l = EntryLine::parse("start - 2024-01-01T09:00:00 -   Code Review  ").unwrap();
    assert_eq!(l.kind, EntryKind::Start);
    assert_eq!(l.desc, "code review");
    assert_eq!(l.dt, ts("2024-01-01 09:00:00"));
    // the description may itself contain the separator
    let l = EntryLine::parse("END - 2024-01-01 10:00:00 - a - b").unwrap();
    assert_eq!(l.desc, "a - b");
}

#[test]
fn entry_line_parse_errors_in_order() {
    assert!(matches!(EntryLine::parse("START - 2024-01-01 09:00:00"), Err(ParseError::Malformatted)));
    assert!(matches!(
        EntryLine::parse("BEGIN - not a date - x"),
        Err(ParseError::UnknownEntryKind)
    ));
    assert!(matches!(EntryLine::parse("START - not a date - x"), Err(ParseError::TimeFormat(_))));
    assert_eq!(ParseError::Malformatted.message(), "malformatted line");
}

#[test]
fn entry_line_to_line() {
    let l = line(EntryKind::End, "review", "2024-01-01 10:30:00");
    assert_eq!(l.to_line(), "END - 2024-01-01 10:30:00 - review");
    let back = EntryLine::parse(&l.to_line()).unwrap();
    assert_eq!(back.kind, l.kind);
    assert_eq!(back.desc, l.desc);
    assert_eq!(back.dt, l.dt);
}

#[test]
fn entry_new_checks_pair() {
    let a = line(EntryKind::Start, "x", "2024-01-01 09:00:00");
    let b = line(EntryKind::End, "x", "2024-01-01 09:45:00");
    let e = Entry::new(&a, &b).unwrap();
    assert_eq!(e.desc, "x");
    assert_eq!(e.interval.duration(), 45 * 60 * 1_000_000_000);
    assert!(matches!(Entry::new(&b, &a), Err(ParseError::StartNoEnd)));
    let other = line(EntryKind::End, "y", "2024-01-01 09:45:00");
    assert!(matches!(Entry::new(&a, &other), Err(ParseError::DescMismatch)));
    let early = line(EntryKind::End, "x", "2024-01-01 08:00:00");
    assert!(matches!(Entry::new(&a, &early), Err(ParseError::EndBeforeStart)));
    let same = line(EntryKind::End, "x", "2024-01-01 09:00:00");
    assert_eq!(Entry::new(&a, &same).unwrap().interval, Interval { start: a.dt, end: Some(a.dt) });
}

#[test]
fn parse_lines_and_pair_them() {
    let texts: Vec<String> = vec![
        "START - 2024-01-01 09:00:00 - a".into(),
        "END - 2024-01-01 10:00:00 - a".into(),
        "START - 2024-01-01 10:00:00 - b".into(),
    ];
    let lines = parse_entry_lines(&texts).unwrap();
    assert_eq!(lines.len(), 3);
    let pairs = pair_up(&lines).unwrap();
    assert_eq!(pairs.len(), 1);
    assert_eq!(pairs[0].desc, "a");
}

#[test]
fn time_helpers() {
    assert_eq!(parse_datetime("2024-01-01T00:00:00").unwrap(), ts("2024-01-01 00:00:00"));
    assert_eq!(
        parse_datetime("2024-01-01 00:00:00.750").unwrap(),
        ts("2024-01-01 00:00:00") + 750_000_000
    );
    assert!(parse_datetime("01/01/2024").is_err());
    let epoch = EntryLine { kind: EntryKind::Start, desc: "x".into(), dt: 0 };
    assert_eq!(epoch.to_line(), "START - 1970-01-01 00:00:00 - x");
    assert_eq!(num_minutes(150 * 1_000_000_000), 2);
    assert_eq!(num_minutes(-150 * 1_000_000_000), -2);
    assert_eq!(day_start(ts("2024-01-01 13:14:15")), ts("2024-01-01 00:00:00"));
    assert_eq!(day_start(-1), -86400 * 1_000_000_000);
    assert_eq!(
        hourus::tui::Timespan::Month1.lower_bound(ts("2024-05-31 08:00:00")),
        Some(ts("2024-04-30 08:00:00"))
    );
    assert!(str_eq("abc", "abc"));
    assert!(!str_eq("abc", "abd"));
}

#[test]
fn written_lines_read_back_as_themselves() {
    for (kind, desc, at) in [
        (EntryKind::Start, "code review", "0000-01-01 00:00:00"),
        (EntryKind::End, "a - b", "9999-12-31 23:59:59"),
    ] {
        let l = EntryLine { kind, desc: desc.to_string(), dt: ts(at) };
        let back: EntryLine = l.to_line().parse().unwrap();
        assert_eq!((back.kind, back.desc, back.dt), (l.kind, l.desc, l.dt));
    }
}

#[test]
fn fractions_of_a_second_are_kept() {
    let a = EntryLine::parse("START - 2024-01-01 09:00:00.5 - x").unwrap();
    let b = EntryLine::parse("END - 2024-01-01 09:00:00.2 - x").unwrap();
    assert_eq!(b.dt - a.dt, -300_000_000);
    assert!(matches!(Entry::new(&a, &b), Err(ParseError::EndBeforeStart)));
    let c = EntryLine::parse("END - 2024-01-01T09:00:01.25 - x").unwrap();
    assert_eq!(Entry::new(&a, &c).unwrap().interval.duration(), 750_000_000);
    assert_eq!(a.to_line(), "START - 2024-01-01 09:00:00.500 - x");
    let back = EntryLine::parse(&c.to_line()).unwrap();
    assert_eq!(back.dt, c.dt);
}
