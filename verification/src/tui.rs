//! The decisions of the interactive screen: the summary's time window, the
//! description prompt with its walk through the task history, what each
//! key does, and the running totals shown while a session runs.  Drawing
//! and reading the keyboard are the terminal's business.
use crate::entry::{interval_duration, valid_interval, Entry};
use crate::history::{pushed_all, HistoryList};
use crate::service::{SessionStatus, StatusView};
use crate::text::{lowercase, spec_lowercase, spec_trim, trim};
use crate::time::{months_before, months_before_of, valid_delta, valid_time, MAX_DELTA, NANOS_PER_DAY};
use vstd::prelude::*;
use vstd::utf8::encode_utf8;

verus! {

/// Nanoseconds in a day.
pub open spec fn day() -> int {
    86400000000000
}

/// How far back the summary reaches.
#[derive(Debug, Clone, Copy, PartialEq, Eq, Structural)]
pub enum Timespan {
    All,
    Day1,
    Day3,
    Day7,
    Month1,
    Month3,
    Year1,
}

/// Position of a span in the cycle the `s` key walks through.
pub open spec fn span_index(t: Timespan) -> int {
    match t {
        Timespan::All => 0,
        Timespan::Day1 => 1,
        Timespan::Day3 => 2,
        Timespan::Day7 => 3,
        Timespan::Month1 => 4,
        Timespan::Month3 => 5,
        Timespan::Year1 => 6,
    }
}

/// The span the `s` key moves to.
pub open spec fn span_next(t: Timespan) -> Timespan {
    match t {
        Timespan::All => Timespan::Day1,
        Timespan::Day1 => Timespan::Day3,
        Timespan::Day3 => Timespan::Day7,
        Timespan::Day7 => Timespan::Month1,
        Timespan::Month1 => Timespan::Month3,
        Timespan::Month3 => Timespan::Year1,
        Timespan::Year1 => Timespan::All,
    }
}

/// The label shown for a span.
pub open spec fn span_label(t: Timespan) -> Seq<char> {
    match t {
        Timespan::All => "all"@,
        Timespan::Day1 => "1d"@,
        Timespan::Day3 => "3d"@,
        Timespan::Day7 => "7d"@,
        Timespan::Month1 => "1M"@,
        Timespan::Month3 => "3M"@,
        Timespan::Year1 => "1y"@,
    }
}

/// Whole days a span reaches back, for the spans counted in days.
pub open spec fn span_days(t: Timespan) -> Option<int> {
    match t {
        Timespan::Day1 => Some(1),
        Timespan::Day3 => Some(3),
        Timespan::Day7 => Some(7),
        _ => None,
    }
}

/// Calendar months a span reaches back, for the spans counted in months.
pub open spec fn span_months(t: Timespan) -> Option<u32> {
    match t {
        Timespan::Month1 => Some(1),
        Timespan::Month3 => Some(3),
        Timespan::Year1 => Some(12),
        _ => None,
    }
}

/// Earliest start a span admits at `now`; `None` means all time (or no
/// date that many months back).
pub open spec fn span_lower_bound(t: Timespan, now: i128) -> Option<i128> {
    match span_days(t) {
        Some(n) => Some((now - n * day()) as i128),
        None => match span_months(t) {
            Some(m) => match months_before_of(now as int, m) {
                Some(u) => Some(u as i128),
                None => None,
            },
            None => None,
        },
    }
}

impl Timespan {
    /// The span after this one, wrapping around to `All`.
    pub fn next(self) -> (r: Timespan)
        ensures
            r == span_next(self),
            span_index(r) == (span_index(self) + 1) % 7,
    {
        match self {
            Timespan::All => Timespan::Day1,
            Timespan::Day1 => Timespan::Day3,
            Timespan::Day3 => Timespan::Day7,
            Timespan::Day7 => Timespan::Month1,
            Timespan::Month1 => Timespan::Month3,
            Timespan::Month3 => Timespan::Year1,
            Timespan::Year1 => Timespan::All,
        }
    }

    /// The label shown for this span.
    pub fn label(self) -> (r: &'static str)
        ensures
            r@ == span_label(self),
    {
        match self {
            Timespan::All => "all",
            Timespan::Day1 => "1d",
            Timespan::Day3 => "3d",
            Timespan::Day7 => "7d",
            Timespan::Month1 => "1M",
            Timespan::Month3 => "3M",
            Timespan::Year1 => "1y",
        }
    }

    /// Lower bound of this span relative to `now`; `None` means all time.
    pub fn lower_bound(self, now: i128) -> (r: Option<i128>)
        requires
            valid_time(now as int),
            span_days(self) matches Some(n) ==> valid_time(now - n * day()),
        ensures
            r == span_lower_bound(self, now),
            r matches Some(u) ==> u <= now,
    {
        match self {
            Timespan::All => None,
            Timespan::Day1 => Some(now - NANOS_PER_DAY),
            Timespan::Day3 => Some(now - 3 * NANOS_PER_DAY),
            Timespan::Day7 => Some(now - 7 * NANOS_PER_DAY),
            Timespan::Month1 => months_before(now, 1),
            Timespan::Month3 => months_before(now, 3),
            Timespan::Year1 => months_before(now, 12),
        }
    }
}

/// Law: pressing the span key seven times comes back to the span it
/// started from.
pub proof fn lemma_span_cycle(t: Timespan)
    ensures
        span_next(span_next(span_next(span_next(span_next(span_next(span_next(t))))))) == t,
{
}

/// A key press, as far as the screen tells keys apart.
#[derive(Debug, Clone, Copy, PartialEq, Eq, Structural)]
pub enum Key {
    Char(char),
    Enter,
    Esc,
    Up,
    Down,
    Other,
}

/// The description prompt: the text in the box, the text the user had typed
/// before walking into the history, and where in the history the walk is
/// (`None`: the user's own text is shown).
#[derive(Debug)]
pub struct PromptState {
    pub text: String,
    pub saved_input: String,
    pub history_idx: Option<usize>,
}

/// What the prompt holds: text, saved input, history position.
pub type PromptView = (Seq<char>, Seq<char>, Option<usize>);

/// A prompt position lies in the history (whose length a `usize` holds)
/// and shows that entry.
pub open spec fn prompt_wf(p: PromptView, h: Seq<Seq<char>>) -> bool {
    &&& h.len() <= usize::MAX
    &&& p.2 matches Some(i) ==> i < h.len() && p.0 == h[i as int]
}

/// Up: from the user's own text to the most recent task (remembering the
/// text), or one task further back; nothing at the oldest task or with an
/// empty history.
pub open spec fn up_step(p: PromptView, h: Seq<Seq<char>>) -> PromptView {
    match p.2 {
        None => if h.len() > 0 {
            (h[0], p.0, Some(0usize))
        } else {
            p
        },
        Some(i) => if i + 1 < h.len() {
            (h[i + 1], p.1, Some((i + 1) as usize))
        } else {
            p
        },
    }
}

/// Down: one task more recent, or from the most recent task back to the
/// text the user had typed; nothing when not in the history.
pub open spec fn down_step(p: PromptView, h: Seq<Seq<char>>) -> PromptView {
    match p.2 {
        None => p,
        Some(i) => if i == 0 {
            (p.1, p.1, None)
        } else {
            (h[i - 1], p.1, Some((i - 1) as usize))
        },
    }
}

/// The description a submitted line gives: trimmed and lowercased; `None`
/// when nothing is left.
pub open spec fn submitted(line: Seq<char>) -> Option<Seq<char>> {
    if spec_trim(line).len() == 0 {
        None
    } else {
        Some(spec_lowercase(spec_trim(line)))
    }
}

/// What a key does to the prompt.
#[derive(Debug)]
pub enum PromptOutcome {
    /// The prompt closes without effect.
    Cancelled,
    /// The prompt closes with this description.
    Submitted(String),
    /// The prompt stays; its text was replaced and must be shown anew.
    Replaced,
    /// The prompt stays as it is.
    Unchanged,
    /// The prompt stays; the key edits its text, which is then handed back
    /// through `edited`.
    Edit,
}

impl PromptState {
    /// What the prompt holds.
    pub open spec fn view(&self) -> PromptView {
        (self.text@, self.saved_input@, self.history_idx)
    }

    /// A prompt showing `text`, outside the history; the text is also the
    /// saved input (empty for a new session, the current description for a
    /// rename).
    pub fn new(text: &str) -> (r: PromptState)
        ensures
            r.view() == (text@, text@, None::<usize>),
    {
        PromptState { text: text.to_owned(), saved_input: text.to_owned(), history_idx: None }
    }

    /// Walks one task back in the history; true when the text changed.
    pub fn up(&mut self, history: &HistoryList) -> (changed: bool)
        requires
            history.wf(),
            prompt_wf(old(self).view(), history@),
        ensures
            final(self).view() == up_step(old(self).view(), history@),
            prompt_wf(final(self).view(), history@),
            changed == (final(self).view().2 != old(self).view().2),
    {
        let len = history.len();
        match self.history_idx {
            None => {
                if len > 0 {
                    let first = history.index(0);
                    self.saved_input = self.text.clone();
                    self.text = first.to_owned();
                    self.history_idx = Some(0);
                    true
                } else {
                    false
                }
            },
            Some(i) => {
                if i + 1 < len {
                    let t = history.index(i + 1);
                    self.text = t.to_owned();
                    self.history_idx = Some(i + 1);
                    true
                } else {
                    false
                }
            },
        }
    }

    /// Walks one task forward in the history, or back to the saved input;
    /// true when the text changed.
    pub fn down(&mut self, history: &HistoryList) -> (changed: bool)
        requires
            history.wf(),
            prompt_wf(old(self).view(), history@),
        ensures
            final(self).view() == down_step(old(self).view(), history@),
            prompt_wf(final(self).view(), history@),
            changed == (old(self).view().2 is Some),
    {
        match self.history_idx {
            None => false,
            Some(i) => {
                if i == 0 {
                    self.text = self.saved_input.clone();
                    self.history_idx = None;
                } else {
                    let t = history.index(i - 1);
                    self.text = t.to_owned();
                    self.history_idx = Some(i - 1);
                }
                true
            },
        }
    }

    /// The user edited the text, which now reads `text`; the prompt leaves
    /// the history.
    pub fn edited(&mut self, text: &str)
        ensures
            final(self).view() == (text@, old(self).view().1, None::<usize>),
    {
        self.text = text.to_owned();
        self.history_idx = None;
    }

    /// Handles a key: Esc cancels, Enter submits a non-empty description,
    /// Up and Down walk the history, any other key edits the text.
    pub fn handle(&mut self, key: Key, history: &HistoryList) -> (r: PromptOutcome)
        requires
            history.wf(),
            prompt_wf(old(self).view(), history@),
        ensures
            prompt_wf(final(self).view(), history@),
            key == Key::Esc ==> r is Cancelled && final(self).view() == old(self).view(),
            key == Key::Enter ==> final(self).view() == old(self).view(),
            key == Key::Enter ==> match submitted(old(self).view().0) {
                Some(d) => r matches PromptOutcome::Submitted(s) && s@ == d,
                None => r is Unchanged,
            },
            key == Key::Up ==> final(self).view() == up_step(old(self).view(), history@),
            key == Key::Up ==> (r is Replaced) == (final(self).view().2 != old(self).view().2),
            key == Key::Up ==> (r is Replaced || r is Unchanged),
            key == Key::Down ==> final(self).view() == down_step(old(self).view(), history@),
            key == Key::Down ==> (r is Replaced) == (old(self).view().2 is Some),
            key == Key::Down ==> (r is Replaced || r is Unchanged),
            key != Key::Esc && key != Key::Enter && key != Key::Up && key != Key::Down ==> r is Edit
                && final(self).view() == old(self).view(),
    {
        match key {
            Key::Esc => PromptOutcome::Cancelled,
            Key::Enter => match submitted_desc(self.text.as_str()) {
                Some(d) => PromptOutcome::Submitted(d),
                None => PromptOutcome::Unchanged,
            },
            Key::Up => {
                if self.up(history) {
                    PromptOutcome::Replaced
                } else {
                    PromptOutcome::Unchanged
                }
            },
            Key::Down => {
                if self.down(history) {
                    PromptOutcome::Replaced
                } else {
                    PromptOutcome::Unchanged
                }
            },
            _ => PromptOutcome::Edit,
        }
    }
}

/// The description a submitted line gives, if any is left after trimming.
pub fn submitted_desc(line: &str) -> (r: Option<String>)
    ensures
        match submitted(line@) {
            Some(d) => r matches Some(s) && s@ == d,
            None => r is None,
        },
{
    let t = trim(line);
    if t.is_empty() {
        None
    } else {
        Some(lowercase(t))
    }
}

/// Law: Down takes back what Up did.  After a step into (or further into)
/// the history, Down shows the text shown before at the same position.
pub proof fn lemma_down_undoes_up(p: PromptView, h: Seq<Seq<char>>)
    requires
        prompt_wf(p, h),
        up_step(p, h).2 != p.2,
    ensures
        down_step(up_step(p, h), h).0 == p.0,
        down_step(up_step(p, h), h).2 == p.2,
{
}

/// Law: every walk through the history stays inside it and shows the entry
/// it stands on.
pub proof fn lemma_walk_stays_in_history(p: PromptView, h: Seq<Seq<char>>)
    requires
        prompt_wf(p, h),
    ensures
        prompt_wf(up_step(p, h), h),
        prompt_wf(down_step(p, h), h),
{
}

/// What a key does on the main screen.
#[derive(Debug, Clone, Copy, PartialEq, Eq, Structural)]
pub enum ScreenCommand {
    /// Leave the screen.
    Quit,
    /// Open the prompt to rename the current session.
    Rename,
    /// Move the summary to the next time window.
    CycleSpan,
    /// Pause the running session.
    Pause,
    /// Resume the paused session.
    Resume,
    /// End the running session.
    End,
    /// Drop the paused session.
    Discard,
    /// Open the prompt for a new session.
    NewSession,
    /// Nothing.
    Nothing,
}

/// The main screen's key map: `q` quits; `r` renames a current session;
/// `s` moves the summary window; space pauses or resumes; Esc ends a
/// running session, drops a paused one, or quits when idle; Enter opens
/// the prompt for a new session.
pub open spec fn screen_command_of(key: Key, s: StatusView) -> ScreenCommand {
    match key {
        Key::Char(c) => if c == 'q' {
            ScreenCommand::Quit
        } else if c == 'r' {
            match s {
                StatusView::Idle => ScreenCommand::Nothing,
                _ => ScreenCommand::Rename,
            }
        } else if c == 's' {
            ScreenCommand::CycleSpan
        } else if c == ' ' {
            match s {
                StatusView::Active(_, _) => ScreenCommand::Pause,
                StatusView::Paused(_) => ScreenCommand::Resume,
                StatusView::Idle => ScreenCommand::Nothing,
            }
        } else {
            ScreenCommand::Nothing
        },
        Key::Esc => match s {
            StatusView::Active(_, _) => ScreenCommand::End,
            StatusView::Paused(_) => ScreenCommand::Discard,
            StatusView::Idle => ScreenCommand::Quit,
        },
        Key::Enter => ScreenCommand::NewSession,
        _ => ScreenCommand::Nothing,
    }
}

/// Law: the rename key opens the rename prompt exactly when there is a
/// current session, running or paused, and does nothing when idle.
pub proof fn lemma_rename_key(s: StatusView)
    ensures
        (screen_command_of(Key::Char('r'), s) == ScreenCommand::Rename) <==> !(s is Idle),
        s is Idle ==> screen_command_of(Key::Char('r'), s) == ScreenCommand::Nothing,
{
}

/// Law: a key acts on a session only when there is one it can act on:
/// pausing and ending need a running session, resuming and discarding a
/// paused one, renaming either; and each of those has a key in that status.
pub proof fn lemma_commands_need_a_session(key: Key, s: StatusView)
    ensures
        screen_command_of(key, s) == ScreenCommand::Pause ==> s is Active,
        screen_command_of(key, s) == ScreenCommand::End ==> s is Active,
        screen_command_of(key, s) == ScreenCommand::Resume ==> s is Paused,
        screen_command_of(key, s) == ScreenCommand::Discard ==> s is Paused,
        screen_command_of(key, s) == ScreenCommand::Rename ==> !(s is Idle),
        s is Active ==> screen_command_of(Key::Char(' '), s) == ScreenCommand::Pause
            && screen_command_of(Key::Esc, s) == ScreenCommand::End,
        s is Paused ==> screen_command_of(Key::Char(' '), s) == ScreenCommand::Resume
            && screen_command_of(Key::Esc, s) == ScreenCommand::Discard,
        s is Idle ==> screen_command_of(Key::Esc, s) == ScreenCommand::Quit,
        screen_command_of(Key::Char('q'), s) == ScreenCommand::Quit,
        screen_command_of(Key::Enter, s) == ScreenCommand::NewSession,
{
}

/// What `key` does on the main screen in status `status`.
pub fn screen_command(key: Key, status: &SessionStatus) -> (r: ScreenCommand)
    ensures
        r == screen_command_of(key, status@),
{
    match key {
        Key::Char(c) => {
            if c == 'q' {
                ScreenCommand::Quit
            } else if c == 'r' {
                match status {
                    SessionStatus::Idle => ScreenCommand::Nothing,
                    _ => ScreenCommand::Rename,
                }
            } else if c == 's' {
                ScreenCommand::CycleSpan
            } else if c == ' ' {
                match status {
                    SessionStatus::Active { .. } => ScreenCommand::Pause,
                    SessionStatus::Paused { .. } => ScreenCommand::Resume,
                    SessionStatus::Idle => ScreenCommand::Nothing,
                }
            } else {
                ScreenCommand::Nothing
            }
        },
        Key::Esc => match status {
            SessionStatus::Active { .. } => ScreenCommand::End,
            SessionStatus::Paused { .. } => ScreenCommand::Discard,
            SessionStatus::Idle => ScreenCommand::Quit,
        },
        Key::Enter => ScreenCommand::NewSession,
        _ => ScreenCommand::Nothing,
    }
}

/// The larger of two integers.
pub open spec fn max_int(a: int, b: int) -> int {
    if a >= b {
        a
    } else {
        b
    }
}

/// Today's logged time after a session `[started_at, ended_at]` completed at
/// `now`: it counts (never negatively) when it began within the last 24
/// hours.
pub open spec fn accrued(base: int, started_at: int, ended_at: int, now: int) -> int {
    if started_at >= now - day() {
        base + max_int(ended_at - started_at, 0)
    } else {
        base
    }
}

/// Adds a just-completed session to today's logged time.
pub fn accrue(base: i128, started_at: i128, ended_at: i128, now: i128) -> (r: i128)
    requires
        valid_time(started_at as int),
        valid_time(ended_at as int),
        valid_time(now as int),
        valid_time(now - day()),
        valid_delta(base as int),
        valid_delta(accrued(base as int, started_at as int, ended_at as int, now as int)),
    ensures
        r == accrued(base as int, started_at as int, ended_at as int, now as int),
{
    let since = now - NANOS_PER_DAY;
    if started_at >= since {
        let elapsed = ended_at - started_at;
        let elapsed = if elapsed > 0 {
            elapsed
        } else {
            0
        };
        base + elapsed
    } else {
        base
    }
}

/// Today's logged time as shown at `now`: the completed part, plus the
/// running session's time so far when it began within the last 24 hours.
pub open spec fn today_total(base: int, s: StatusView, now: int) -> int {
    match s {
        StatusView::Active(_, t) => if t >= now - day() {
            base + max_int(now - t, 0)
        } else {
            base
        },
        _ => base,
    }
}

/// Today's logged time as shown at `now`.
pub fn duration_today(base: i128, status: &SessionStatus, now: i128) -> (r: i128)
    requires
        valid_time(now as int),
        valid_time(now - day()),
        status@ matches StatusView::Active(_, t) ==> valid_time(t as int),
        valid_delta(base as int),
        valid_delta(today_total(base as int, status@, now as int)),
    ensures
        r == today_total(base as int, status@, now as int),
{
    let since = now - NANOS_PER_DAY;
    match status {
        SessionStatus::Active { started_at, .. } => {
            if *started_at >= since {
                let running = now - *started_at;
                let running = if running > 0 {
                    running
                } else {
                    0
                };
                base + running
            } else {
                base
            }
        },
        _ => base,
    }
}

/// Rows as task text and total.
pub open spec fn rows_view(rows: Seq<(String, i128)>) -> Seq<(Seq<char>, int)> {
    rows.map_values(|x: (String, i128)| (x.0@, x.1 as int))
}

/// First row for task `d`, if any.
pub open spec fn row_index(rows: Seq<(Seq<char>, int)>, d: Seq<char>) -> Option<int>
    decreases rows.len(),
{
    if rows.len() == 0 {
        None
    } else {
        match row_index(rows.drop_last(), d) {
            Some(i) => Some(i),
            None => if rows.last().0 == d {
                Some(rows.len() - 1)
            } else {
                None
            },
        }
    }
}

/// The summary shown at `now`: the completed totals, with the running
/// session's time inside the window (from `from`, when set) added to its
/// task's row, or as a new last row.
pub open spec fn display_rows(
    cache: Seq<(Seq<char>, int)>,
    s: StatusView,
    from: Option<i128>,
    now: int,
) -> Seq<(Seq<char>, int)> {
    match s {
        StatusView::Active(d, t) => {
            let lower = match from {
                Some(f) => max_int(t as int, f as int),
                None => t as int,
            };
            let running = max_int(now - lower, 0);
            match row_index(cache, d) {
                Some(i) => cache.update(i, (d, cache[i].1 + running)),
                None => cache.push((d, running)),
            }
        },
        _ => cache,
    }
}

proof fn lemma_row_index(rows: Seq<(Seq<char>, int)>, d: Seq<char>, j: int)
    requires
        0 <= j <= rows.len(),
        forall|i: int| 0 <= i < j ==> (#[trigger] rows[i]).0 != d,
        j < rows.len() ==> rows[j].0 == d,
    ensures
        j < rows.len() ==> row_index(rows, d) == Some(j),
        j == rows.len() ==> row_index(rows, d) is None,
    decreases rows.len(),
{
    if rows.len() > 0 {
        if j < rows.len() - 1 {
            lemma_row_index(rows.drop_last(), d, j);
        } else {
            let k = if j == rows.len() {
                rows.len() - 1
            } else {
                j
            };
            lemma_row_index(rows.drop_last(), d, k);
        }
    }
}

/// The summary rows shown at `now`.
pub fn summary_for_display(
    cache: &[(String, i128)],
    status: &SessionStatus,
    from: Option<i128>,
    now: i128,
) -> (r: Vec<(String, i128)>)
    requires
        valid_time(now as int),
        status@ matches StatusView::Active(_, t) ==> valid_time(t as int),
        from matches Some(f) ==> valid_time(f as int),
        forall|i: int|
            0 <= i < display_rows(rows_view(cache@), status@, from, now as int).len() ==> valid_delta(
                #[trigger] display_rows(rows_view(cache@), status@, from, now as int)[i].1,
            ),
    ensures
        rows_view(r@) == display_rows(rows_view(cache@), status@, from, now as int),
{
    let mut out: Vec<(String, i128)> = Vec::new();
    let mut k: usize = 0;
    while k < cache.len()
        invariant
            k <= cache@.len(),
            rows_view(out@) == rows_view(cache@).take(k as int),
        decreases cache@.len() - k,
    {
        let ghost o0 = out@;
        out.push((cache[k].0.clone(), cache[k].1));
        assert(rows_view(out@) =~= rows_view(o0).push((cache@[k as int].0@, cache@[k as int].1 as int)));
        assert(rows_view(cache@).take(k + 1) =~= rows_view(cache@).take(k as int).push(
            rows_view(cache@)[k as int],
        ));
        k = k + 1;
    }
    assert(rows_view(cache@).take(k as int) =~= rows_view(cache@));
    match status {
        SessionStatus::Active { desc, started_at } => {
            let lower = match from {
                Some(f) => if f > *started_at {
                    f
                } else {
                    *started_at
                },
                None => *started_at,
            };
            let running = now - lower;
            let running = if running > 0 {
                running
            } else {
                0
            };
            let ghost v = rows_view(cache@);
            let mut j: usize = 0;
            let mut found = false;
            while j < out.len()
                invariant_except_break
                    !found,
                invariant
                    rows_view(out@) == v,
                    j <= out@.len(),
                    forall|i: int| 0 <= i < j ==> (#[trigger] v[i]).0 != desc@,
                ensures
                    found ==> j < out@.len() && v[j as int].0 == desc@,
                    !found ==> j == out@.len(),
                decreases out@.len() - j,
            {
                if crate::entry::str_eq(out[j].0.as_str(), desc.as_str()) {
                    found = true;
                    break;
                }
                assert(v[j as int].0 == out@[j as int].0@);
                j = j + 1;
            }
            proof {
                lemma_row_index(v, desc@, j as int);
            }
            if found {
                assert(v[j as int].1 == out@[j as int].1);
                assert(valid_delta(display_rows(v, status@, from, now as int)[j as int].1));
                let total = out[j].1 + running;
                out.set(j, (desc.clone(), total));
                assert(rows_view(out@) =~= v.update(j as int, (desc@, v[j as int].1 + running)));
            } else {
                assert(v.push((desc@, running as int)).last().1 == running);
                out.push((desc.clone(), running));
                assert(rows_view(out@) =~= v.push((desc@, running as int)));
            }
        },
        _ => {},
    }
    out
}

/// Task descriptions of sessions, in order.
pub open spec fn descs_view(es: Seq<Entry>) -> Seq<Seq<char>> {
    es.map_values(|e: Entry| e.desc@)
}

/// The task history the prompt offers: every session's task pushed in log
/// order, so the most recent task comes first and none appears twice.
pub fn history_of(entries: &[Entry]) -> (r: HistoryList)
    ensures
        r.wf(),
        r@ == pushed_all(descs_view(entries@)),
{
    let mut list = HistoryList::new();
    let mut i: usize = 0;
    while i < entries.len()
        invariant
            i <= entries@.len(),
            list.wf(),
            list@ == pushed_all(descs_view(entries@).take(i as int)),
        decreases entries@.len() - i,
    {
        list.push_str(entries[i].desc.as_str());
        proof {
            let m = descs_view(entries@);
            assert(m.take(i + 1).drop_last() =~= m.take(i as int));
            assert(m.take(i + 1).last() == entries@[i as int].desc@);
        }
        i = i + 1;
    }
    assert(descs_view(entries@).take(entries@.len() as int) =~= descs_view(entries@));
    list
}

/// A closed session that started at or after `since`.
pub open spec fn completed_since(e: Entry, since: int) -> bool {
    e.interval.start >= since && e.interval.end is Some
}

/// Total length of the closed sessions that started at or after `since`.
pub open spec fn completed_total(es: Seq<Entry>, since: int) -> int
    decreases es.len(),
{
    if es.len() == 0 {
        0
    } else {
        completed_total(es.drop_last(), since) + if completed_since(es.last(), since) {
            interval_duration(es.last().interval)
        } else {
            0
        }
    }
}

/// Every running total of `completed_total`, session after session in log
/// order, is a duration chrono holds (adding them up overflows nowhere).
pub open spec fn completed_fits(es: Seq<Entry>, since: int) -> bool {
    forall|k: int| 0 <= k <= es.len() ==> valid_delta(#[trigger] completed_total(es.take(k), since))
}

/// Time logged in closed sessions that started at or after `since` (the
/// screen's "logged today" once `since` is today's midnight), added in log
/// order; `None` when a running total leaves the range of a duration.
pub fn completed_duration_since(entries: &[Entry], since: i128) -> (r: Option<i128>)
    requires
        forall|i: int| 0 <= i < entries@.len() ==> valid_interval(#[trigger] entries@[i].interval),
    ensures
        match r {
            Some(t) => completed_fits(entries@, since as int) && t == completed_total(
                entries@,
                since as int,
            ),
            None => !completed_fits(entries@, since as int),
        },
{
    let mut total: i128 = 0;
    let mut i: usize = 0;
    assert(entries@.take(0) =~= Seq::<Entry>::empty());
    while i < entries.len()
        invariant
            i <= entries@.len(),
            forall|j: int| 0 <= j < entries@.len() ==> valid_interval(#[trigger] entries@[j].interval),
            forall|k: int|
                0 <= k <= i ==> valid_delta(#[trigger] completed_total(entries@.take(k), since as int)),
            total == completed_total(entries@.take(i as int), since as int),
        decreases entries@.len() - i,
    {
        proof {
            assert(entries@.take(i + 1).drop_last() =~= entries@.take(i as int));
            assert(entries@.take(i + 1).last() == entries@[i as int]);
        }
        let e = &entries[i];
        if e.interval.start >= since && e.interval.end.is_some() {
            let d = e.interval.duration();
            if (d > 0 && total > MAX_DELTA - d) || (d < 0 && total < -MAX_DELTA - d) {
                proof {
                    let k = i + 1;
                    assert(!valid_delta(completed_total(entries@.take(k as int), since as int)));
                }
                return None;
            }
            total = total + d;
        }
        i = i + 1;
    }
    assert(entries@.take(i as int) =~= entries@);
    Some(total)
}

/// Length in bytes of a text's UTF-8 encoding.
pub open spec fn byte_len(s: Seq<char>) -> int {
    encode_utf8(s).len() as int
}

/// Length in bytes of the longest task name among the rows.
pub open spec fn widest(rows: Seq<(String, i128)>) -> int
    decreases rows.len(),
{
    if rows.len() == 0 {
        0
    } else {
        max_int(widest(rows.drop_last()), byte_len(rows.last().0@))
    }
}

proof fn lemma_widest(rows: Seq<(String, i128)>)
    ensures
        widest(rows) >= 0,
        forall|i: int| 0 <= i < rows.len() ==> byte_len((#[trigger] rows[i]).0@) <= widest(rows),
    decreases rows.len(),
{
    if rows.len() > 0 {
        lemma_widest(rows.drop_last());
        assert forall|i: int| 0 <= i < rows.len() implies byte_len((#[trigger] rows[i]).0@) <= widest(rows) by {
            if i < rows.len() - 1 {
                assert(rows[i] == rows.drop_last()[i]);
            }
        }
    }
}

/// How the summary lines up: each task name is padded with spaces to the
/// widest name plus two; the `total` label is padded the same way (by no
/// less than nothing).  Gives the pad of each row and of the total line.
pub fn summary_pads(summary: &[(String, i128)]) -> (r: (Vec<usize>, usize))
    requires
        widest(summary@) + 2 <= usize::MAX,
    ensures
        r.0@.len() == summary@.len(),
        forall|i: int|
            0 <= i < summary@.len() ==> #[trigger] r.0@[i] == widest(summary@) + 2 - byte_len(
                summary@[i].0@,
            ),
        r.1 == max_int(widest(summary@) + 2 - 5, 0),
{
    let mut width: usize = 0;
    let mut i: usize = 0;
    proof {
        lemma_widest(summary@);
    }
    while i < summary.len()
        invariant
            i <= summary@.len(),
            widest(summary@) + 2 <= usize::MAX,
            width == widest(summary@.take(i as int)),
            widest(summary@.take(i as int)) <= widest(summary@),
        decreases summary@.len() - i,
    {
        proof {
            assert(summary@.take(i + 1).drop_last() =~= summary@.take(i as int));
            lemma_widest_prefix(summary@, i + 1);
        }
        let n = summary[i].0.as_str().len();
        if n > width {
            width = n;
        }
        i = i + 1;
    }
    assert(summary@.take(i as int) =~= summary@);
    let width = width + 2;
    let mut pads: Vec<usize> = Vec::new();
    let mut k: usize = 0;
    while k < summary.len()
        invariant
            k <= summary@.len(),
            width == widest(summary@) + 2,
            forall|i: int| 0 <= i < summary@.len() ==> byte_len((#[trigger] summary@[i]).0@) <= widest(summary@),
            pads@.len() == k,
            forall|i: int|
                0 <= i < k ==> #[trigger] pads@[i] == widest(summary@) + 2 - byte_len(summary@[i].0@),
        decreases summary@.len() - k,
    {
        let n = summary[k].0.as_str().len();
        assert(n == byte_len(summary@[k as int].0@));
        pads.push(width - n);
        k = k + 1;
    }
    let total_pad = if width >= 5 {
        width - 5
    } else {
        0
    };
    (pads, total_pad)
}

proof fn lemma_widest_prefix(rows: Seq<(String, i128)>, k: int)
    requires
        0 <= k <= rows.len(),
    ensures
        widest(rows.take(k)) <= widest(rows),
    decreases rows.len() - k,
{
    if k < rows.len() {
        lemma_widest_prefix(rows, k + 1);
        assert(rows.take(k + 1).drop_last() =~= rows.take(k));
    } else {
        assert(rows.take(k) =~= rows);
    }
}

/// Which hint line the screen shows.
#[derive(Debug, Clone, Copy, PartialEq, Eq, Structural)]
pub enum HintMode {
    Prompting,
    Renaming,
    Normal,
}

/// The hint line: pairs of a key and what it does.
pub open spec fn hint_table(mode: HintMode, s: StatusView) -> Seq<(&'static str, &'static str)> {
    match mode {
        HintMode::Prompting => seq![("↑↓", "history"), ("enter", "confirm"), ("esc", "cancel")],
        HintMode::Renaming => seq![("↑↓", "history"), ("enter", "rename"), ("esc", "cancel")],
        HintMode::Normal => match s {
            StatusView::Active(_, _) => seq![
                ("space", "pause"),
                ("esc", "end"),
                ("enter", "new task"),
                ("r", "rename"),
                ("s", "span"),
                ("q", "quit"),
            ],
            StatusView::Paused(_) => seq![
                ("space", "resume"),
                ("esc", "discard"),
                ("enter", "new task"),
                ("r", "rename"),
                ("s", "span"),
                ("q", "quit"),
            ],
            StatusView::Idle => seq![("enter", "start"), ("s", "span"), ("esc", "quit"), ("q", "quit")],
        },
    }
}

/// The hint line for a mode and a session status.
pub fn hints(mode: HintMode, status: &SessionStatus) -> (r: Vec<(&'static str, &'static str)>)
    ensures
        r@ == hint_table(mode, status@),
{
    match mode {
        HintMode::Prompting => vec![("↑↓", "history"), ("enter", "confirm"), ("esc", "cancel")],
        HintMode::Renaming => vec![("↑↓", "history"), ("enter", "rename"), ("esc", "cancel")],
        HintMode::Normal => match status {
            SessionStatus::Active { .. } => vec![
                ("space", "pause"),
                ("esc", "end"),
                ("enter", "new task"),
                ("r", "rename"),
                ("s", "span"),
                ("q", "quit"),
            ],
            SessionStatus::Paused { .. } => vec![
                ("space", "resume"),
                ("esc", "discard"),
                ("enter", "new task"),
                ("r", "rename"),
                ("s", "span"),
                ("q", "quit"),
            ],
            SessionStatus::Idle => vec![("enter", "start"), ("s", "span"), ("esc", "quit"), ("q", "quit")],
        },
    }
}

} // verus!
