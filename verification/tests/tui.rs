use hourus::entry::{Entry, Interval};
use hourus::history::HistoryList;
use hourus::service::SessionStatus;
use hourus::time::{MAX_TIME, MIN_TIME};
use hourus::tui::{
    accrue, completed_duration_since, duration_today, hints, history_of, screen_command,
    submitted_desc, summary_for_display, summary_pads, HintMode, Key, PromptOutcome, PromptState,
    ScreenCommand, Timespan,
};

const DAY: i128 = 86400 * 1_000_000_000;

fn ts(s: &str) -> i128 {
    chrono::NaiveDateTime::parse_from_str(s, "%Y-%m-%d %H:%M:%S")
        .unwrap()
        .and_utc()
        .timestamp() as i128
        * 1_000_000_000
}

fn active(desc: &str, at: i128) -> SessionStatus {
    SessionStatus::Active { desc: desc.to_string(), started_at: at }
}

#[test]
fn timespan_cycles_through_presets() {
    let mut t = Timespan::All;
    let mut labels = vec![];
    for _ in 0..7 {
        labels.push(t.label());
        t = t.next();
    }
    assert_eq!(labels, vec!["all", "1d", "3d", "7d", "1M", "3M", "1y"]);
    assert_eq!(t, Timespan::All);
}

#[test]
fn timespan_lower_bounds() {
    let now = ts("2024-03-31 10:20:30");
    assert_eq!(Timespan::All.lower_bound(now), None);
    assert_eq!(Timespan::Day1.lower_bound(now), Some(now - DAY));
    assert_eq!(Timespan::Day3.lower_bound(now), Some(now - 3 * DAY));
    assert_eq!(Timespan::Day7.lower_bound(now), Some(now - 7 * DAY));
    // a month back from March 31 clamps to February 29 (leap year), same time of day
    assert_eq!(Timespan::Month1.lower_bound(now), Some(ts("2024-02-29 10:20:30")));
    assert_eq!(Timespan::Month3.lower_bound(now), Some(ts("2023-12-31 10:20:30")));
    assert_eq!(Timespan::Year1.lower_bound(now), Some(ts("2023-03-31 10:20:30")));
}

#[test]
fn prompt_walks_history_and_back() {
    let history = HistoryList::from_strs(&["old", "middle", "recent"]);
    let mut p = PromptState::new("");
    p.edited("my dra");
    assert!(matches!(p.handle(Key::Up, &history), PromptOutcome::Replaced));
    assert_eq!(p.text, "recent");
    assert_eq!(p.saved_input, "my dra");
    assert_eq!(p.history_idx, Some(0));
    assert!(matches!(p.handle(Key::Up, &history), PromptOutcome::Replaced));
    assert!(matches!(p.handle(Key::Up, &history), PromptOutcome::Replaced));
    assert_eq!(p.text, "old");
    // at the oldest entry Up does nothing
    assert!(matches!(p.handle(Key::Up, &history), PromptOutcome::Unchanged));
    assert_eq!(p.history_idx, Some(2));
    assert!(matches!(p.handle(Key::Down, &history), PromptOutcome::Replaced));
    assert_eq!(p.text, "middle");
    assert!(matches!(p.handle(Key::Down, &history), PromptOutcome::Replaced));
    assert!(matches!(p.handle(Key::Down, &history), PromptOutcome::Replaced));
    assert_eq!(p.text, "my dra");
    assert_eq!(p.history_idx, None);
    assert!(matches!(p.handle(Key::Down, &history), PromptOutcome::Unchanged));
}

#[test]
fn prompt_up_on_empty_history_does_nothing() {
    let history = HistoryList::new();
    let mut p = PromptState::new("abc");
    assert!(matches!(p.handle(Key::Up, &history), PromptOutcome::Unchanged));
    assert_eq!(p.text, "abc");
    assert_eq!(p.history_idx, None);
}

#[test]
fn prompt_edit_leaves_history() {
    let history = HistoryList::from_strs(&["a"]);
    let mut p = PromptState::new("");
    p.handle(Key::Up, &history);
    assert!(matches!(p.handle(Key::Char('x'), &history), PromptOutcome::Edit));
    p.edited("ax");
    assert_eq!(p.history_idx, None);
    assert_eq!(p.text, "ax");
}

#[test]
fn prompt_enter_submits_trimmed_lowercase() {
    let history = HistoryList::new();
    let mut p = PromptState::new("  Write Docs ");
    match p.handle(Key::Enter, &history) {
        PromptOutcome::Submitted(d) => assert_eq!(d, "write docs"),
        other => panic!("unexpected {other:?}"),
    }
    let mut blank = PromptState::new("   ");
    assert!(matches!(blank.handle(Key::Enter, &history), PromptOutcome::Unchanged));
    assert!(matches!(blank.handle(Key::Esc, &history), PromptOutcome::Cancelled));
    assert_eq!(submitted_desc(""), None);
    assert_eq!(submitted_desc("X"), Some("x".to_string()));
}

#[test]
fn screen_keys_depend_on_status() {
    let idle = SessionStatus::Idle;
    let run = active("a", 0);
    let paused = SessionStatus::Paused { desc: "a".into() };
    assert_eq!(screen_command(Key::Char('q'), &run), ScreenCommand::Quit);
    assert_eq!(screen_command(Key::Char('r'), &idle), ScreenCommand::Nothing);
    assert_eq!(screen_command(Key::Char('r'), &paused), ScreenCommand::Rename);
    assert_eq!(screen_command(Key::Char('s'), &idle), ScreenCommand::CycleSpan);
    assert_eq!(screen_command(Key::Char(' '), &run), ScreenCommand::Pause);
    assert_eq!(screen_command(Key::Char(' '), &paused), ScreenCommand::Resume);
    assert_eq!(screen_command(Key::Char(' '), &idle), ScreenCommand::Nothing);
    assert_eq!(screen_command(Key::Esc, &run), ScreenCommand::End);
    assert_eq!(screen_command(Key::Esc, &paused), ScreenCommand::Discard);
    assert_eq!(screen_command(Key::Esc, &idle), ScreenCommand::Quit);
    assert_eq!(screen_command(Key::Enter, &idle), ScreenCommand::NewSession);
    assert_eq!(screen_command(Key::Up, &run), ScreenCommand::Nothing);
}

#[test]
fn accrue_counts_recent_sessions_only() {
    let now = ts("2024-01-02 12:00:00");
    assert_eq!(accrue(100, now - 3600, now, now), 3700);
    assert_eq!(accrue(100, now - 2 * DAY, now, now), 100);
    // an end before the start never subtracts
    assert_eq!(accrue(100, now - 10, now - 20, now), 100);
}

#[test]
fn duration_today_adds_running_session() {
    let now = ts("2024-01-02 12:00:00");
    assert_eq!(duration_today(600, &active("a", now - 60), now), 660);
    assert_eq!(duration_today(600, &active("a", now - 2 * DAY), now), 600);
    assert_eq!(duration_today(600, &SessionStatus::Idle, now), 600);
    assert_eq!(duration_today(600, &active("a", now + 60), now), 600);
}

#[test]
fn summary_for_display_adds_running_time() {
    let cache = vec![("coding".to_string(), 3600), ("review".to_string(), 60)];
    let now = 10_000;
    let shown = summary_for_display(&cache, &active("review", now - 100), None, now);
    assert_eq!(shown, vec![("coding".to_string(), 3600), ("review".to_string(), 160)]);
    let shown = summary_for_display(&cache, &active("new", now - 100), Some(now - 40), now);
    assert_eq!(
        shown,
        vec![("coding".to_string(), 3600), ("review".to_string(), 60), ("new".to_string(), 40)]
    );
    let shown = summary_for_display(&cache, &SessionStatus::Idle, None, now);
    assert_eq!(shown, cache);
}

#[test]
fn history_of_entries_is_most_recent_first() {
    let es = vec![
        Entry { desc: "a".into(), interval: Interval { start: 0, end: Some(1) } },
        Entry { desc: "b".into(), interval: Interval { start: 2, end: Some(3) } },
        Entry { desc: "a".into(), interval: Interval { start: 4, end: None } },
    ];
    let h = history_of(&es);
    assert_eq!(h.str_iter(), vec!["a", "b"]);
}

#[test]
fn completed_time_since_midnight() {
    let midnight = ts("2024-01-02 00:00:00");
    let es = vec![
        Entry { desc: "a".into(), interval: Interval { start: midnight - 100, end: Some(midnight + 100) } },
        Entry { desc: "b".into(), interval: Interval { start: midnight + 200, end: Some(midnight + 500) } },
        Entry { desc: "c".into(), interval: Interval { start: midnight + 600, end: None } },
    ];
    assert_eq!(completed_duration_since(&es, midnight), Some(300));
}

#[test]
fn completed_time_beyond_a_duration_is_refused() {
    let whole = Entry { desc: "a".into(), interval: Interval { start: MIN_TIME, end: Some(MAX_TIME) } };
    let es: Vec<Entry> = (0..600).map(|_| whole.clone()).collect();
    assert_eq!(completed_duration_since(&es, MIN_TIME), None);
    // the same sessions before `since` are not counted at all
    assert_eq!(completed_duration_since(&es, MIN_TIME + 1), Some(0));
}

#[test]
fn summary_pads_align_columns() {
    let rows = vec![("coding".to_string(), 1), ("ab".to_string(), 2)];
    let (pads, total_pad) = summary_pads(&rows);
    assert_eq!(pads, vec![2, 6]);
    assert_eq!(total_pad, 3);
    let (pads, total_pad) = summary_pads(&[("é".to_string(), 1)]);
    assert_eq!(pads, vec![2]);
    assert_eq!(total_pad, 0);
}

#[test]
fn hints_follow_mode_and_status() {
    let keys: Vec<&str> = hints(HintMode::Normal, &SessionStatus::Idle).iter().map(|h| h.0).collect();
    assert_eq!(keys, vec!["enter", "s", "esc", "q"]);
    let run = hints(HintMode::Normal, &active("a", 0));
    assert_eq!(run[0], ("space", "pause"));
    let paused = hints(HintMode::Normal, &SessionStatus::Paused { desc: "a".into() });
    assert_eq!(paused[1], ("esc", "discard"));
    assert_eq!(hints(HintMode::Renaming, &SessionStatus::Idle)[1], ("enter", "rename"));
    assert_eq!(hints(HintMode::Prompting, &SessionStatus::Idle)[1], ("enter", "confirm"));
}
