//! The current tracking session and the commands that change it.
//!
//! A command never touches the store itself: it yields the next status and
//! the single action the store must carry out first (start a session, end
//! the running one, rename it).  Whoever owns the store performs the action
//! and, when that succeeds, adopts the next status.  Applying each action to
//! a log's sessions keeps the status in agreement with the log.
use crate::entry::{interval_duration, str_eq, valid_interval, Entry, Interval};
use crate::log::{ended, entries_view, last_open, started, LogError};
use crate::summary::{lemma_sorted_keeps_sum, permutes, rows_sum, sort_by_duration, sorted_permutation_of};
use crate::time::{valid_delta, MAX_DELTA};
use vstd::prelude::*;

verus! {

/// The observable state of the current tracking session.
#[derive(Debug)]
pub enum SessionStatus {
    Idle,
    Active { desc: String, started_at: i128 },
    Paused { desc: String },
}

/// What a session status is, with its description as characters.
pub enum StatusView {
    Idle,
    Active(Seq<char>, i128),
    Paused(Seq<char>),
}

impl View for SessionStatus {
    type V = StatusView;

    open spec fn view(&self) -> StatusView {
        match self {
            SessionStatus::Idle => StatusView::Idle,
            SessionStatus::Active { desc, started_at } => StatusView::Active(desc@, *started_at),
            SessionStatus::Paused { desc } => StatusView::Paused(desc@),
        }
    }
}

/// The store operation a command asks for.
#[derive(Debug)]
pub enum SessionAction {
    /// Nothing is written.
    Nothing,
    /// Start task `desc` at `at`, closing a running session one second
    /// earlier.
    Start { desc: String, at: i128 },
    /// End the running session at `at`.
    End { at: i128 },
    /// Give the running session the description `desc`.
    Rename { desc: String },
}

/// What an action is, with descriptions as characters.
pub enum ActionView {
    Nothing,
    Start(Seq<char>, i128),
    End(i128),
    Rename(Seq<char>),
}

impl View for SessionAction {
    type V = ActionView;

    open spec fn view(&self) -> ActionView {
        match self {
            SessionAction::Nothing => ActionView::Nothing,
            SessionAction::Start { desc, at } => ActionView::Start(desc@, *at),
            SessionAction::End { at } => ActionView::End(*at),
            SessionAction::Rename { desc } => ActionView::Rename(desc@),
        }
    }
}

/// The outcome of a command: the action to perform, and the status once it
/// has been performed.
#[derive(Debug)]
pub struct Transition {
    pub next: SessionStatus,
    pub action: SessionAction,
}

/// The status a log's sessions imply: the running session when the last
/// one has no end, otherwise idle.
pub open spec fn status_of(v: Seq<(Seq<char>, Interval)>) -> StatusView {
    if last_open(v) {
        StatusView::Active(v.last().0, v.last().1.start)
    } else {
        StatusView::Idle
    }
}

/// Starting task `desc` at `now`: always writes a START and becomes active.
pub open spec fn start_step(s: StatusView, desc: Seq<char>, now: i128) -> (StatusView, ActionView) {
    (StatusView::Active(desc, now), ActionView::Start(desc, now))
}

/// Pausing: an active session is ended at `now` and kept as paused;
/// otherwise nothing happens.
pub open spec fn pause_step(s: StatusView, now: i128) -> (StatusView, ActionView) {
    match s {
        StatusView::Active(d, _) => (StatusView::Paused(d), ActionView::End(now)),
        _ => (s, ActionView::Nothing),
    }
}

/// Resuming: a paused task is started again at `now`; otherwise nothing
/// happens.
pub open spec fn resume_step(s: StatusView, now: i128) -> (StatusView, ActionView) {
    match s {
        StatusView::Paused(d) => (StatusView::Active(d, now), ActionView::Start(d, now)),
        _ => (s, ActionView::Nothing),
    }
}

/// Ending: only an active session can be ended; it becomes idle.
pub open spec fn end_step(s: StatusView, now: i128) -> Option<(StatusView, ActionView)> {
    match s {
        StatusView::Active(_, _) => Some((StatusView::Idle, ActionView::End(now))),
        _ => None,
    }
}

/// Discarding: a paused session is dropped; no line is written, its END
/// was written when it was paused.
pub open spec fn discard_step(s: StatusView) -> StatusView {
    match s {
        StatusView::Paused(_) => StatusView::Idle,
        _ => s,
    }
}

/// Renaming: an active or paused session takes the new description.
pub open spec fn rename_step(s: StatusView, desc: Seq<char>) -> (StatusView, ActionView) {
    match s {
        StatusView::Active(_, t) => (StatusView::Active(desc, t), ActionView::Rename(desc)),
        StatusView::Paused(_) => (StatusView::Paused(desc), ActionView::Rename(desc)),
        StatusView::Idle => (StatusView::Idle, ActionView::Nothing),
    }
}

/// A log's sessions after the store performed `a`.
pub open spec fn applied(a: ActionView, v: Seq<(Seq<char>, Interval)>) -> Seq<(Seq<char>, Interval)> {
    match a {
        ActionView::Nothing => v,
        ActionView::Start(d, t) => started(v, d, t),
        ActionView::End(t) => if last_open(v) {
            ended(v, t)
        } else {
            v
        },
        ActionView::Rename(d) => if last_open(v) {
            v.drop_last().push((d, v.last().1))
        } else {
            v
        },
    }
}

/// The status agrees with the log: an active status is the log's running
/// session; a paused or idle status goes with a log that has none.
pub open spec fn agrees(s: StatusView, v: Seq<(Seq<char>, Interval)>) -> bool {
    match s {
        StatusView::Active(d, t) => last_open(v) && v.last().0 == d && v.last().1.start == t,
        _ => !last_open(v),
    }
}

impl SessionStatus {
    /// The status of a store holding `entries`: active in the last session
    /// when it is still running, otherwise idle.
    pub fn from_entries(entries: &[Entry]) -> (r: SessionStatus)
        ensures
            r@ == status_of(entries_view(entries@)),
    {
        let n = entries.len();
        if n > 0 && entries[n - 1].interval.end.is_none() {
            SessionStatus::Active {
                desc: entries[n - 1].desc.clone(),
                started_at: entries[n - 1].interval.start,
            }
        } else {
            SessionStatus::Idle
        }
    }

    /// The description of the current session, if any.
    pub fn desc(&self) -> (r: Option<&String>)
        ensures
            match self@ {
                StatusView::Idle => r is None,
                StatusView::Active(d, _) => r matches Some(x) && x@ == d,
                StatusView::Paused(d) => r matches Some(x) && x@ == d,
            },
    {
        match self {
            SessionStatus::Idle => None,
            SessionStatus::Active { desc, .. } => Some(desc),
            SessionStatus::Paused { desc } => Some(desc),
        }
    }

    /// Start task `desc` at `now`, auto-closing the current session.
    pub fn start(&self, desc: &str, now: i128) -> (r: Transition)
        ensures
            (r.next@, r.action@) == start_step(self@, desc@, now),
    {
        Transition {
            next: SessionStatus::Active { desc: desc.to_owned(), started_at: now },
            action: SessionAction::Start { desc: desc.to_owned(), at: now },
        }
    }

    /// Pause the active session at `now`.
    pub fn pause(&self, now: i128) -> (r: Transition)
        ensures
            (r.next@, r.action@) == pause_step(self@, now),
    {
        match self {
            SessionStatus::Active { desc, .. } => Transition {
                next: SessionStatus::Paused { desc: desc.clone() },
                action: SessionAction::End { at: now },
            },
            SessionStatus::Paused { desc } => Transition {
                next: SessionStatus::Paused { desc: desc.clone() },
                action: SessionAction::Nothing,
            },
            SessionStatus::Idle => Transition { next: SessionStatus::Idle, action: SessionAction::Nothing },
        }
    }

    /// Resume a paused session at `now`.
    pub fn resume(&self, now: i128) -> (r: Transition)
        ensures
            (r.next@, r.action@) == resume_step(self@, now),
    {
        match self {
            SessionStatus::Paused { desc } => Transition {
                next: SessionStatus::Active { desc: desc.clone(), started_at: now },
                action: SessionAction::Start { desc: desc.clone(), at: now },
            },
            SessionStatus::Active { desc, started_at } => Transition {
                next: SessionStatus::Active { desc: desc.clone(), started_at: *started_at },
                action: SessionAction::Nothing,
            },
            SessionStatus::Idle => Transition { next: SessionStatus::Idle, action: SessionAction::Nothing },
        }
    }

    /// End the active session at `now`; fails when no session is active.
    pub fn end(&self, now: i128) -> (r: Result<Transition, LogError>)
        ensures
            match r {
                Ok(t) => end_step(self@, now) == Some((t.next@, t.action@)),
                Err(e) => end_step(self@, now) is None && e == LogError::NothingStarted,
            },
    {
        match self {
            SessionStatus::Active { .. } => Ok(
                Transition { next: SessionStatus::Idle, action: SessionAction::End { at: now } },
            ),
            _ => Err(LogError::NothingStarted),
        }
    }

    /// Drop a paused session; nothing is written.
    pub fn discard_paused(&self) -> (r: SessionStatus)
        ensures
            r@ == discard_step(self@),
    {
        match self {
            SessionStatus::Paused { .. } => SessionStatus::Idle,
            SessionStatus::Active { desc, started_at } => SessionStatus::Active {
                desc: desc.clone(),
                started_at: *started_at,
            },
            SessionStatus::Idle => SessionStatus::Idle,
        }
    }

    /// Give the current session the description `new_desc`.
    pub fn rename(&self, new_desc: &str) -> (r: Transition)
        ensures
            (r.next@, r.action@) == rename_step(self@, new_desc@),
    {
        match self {
            SessionStatus::Active { started_at, .. } => Transition {
                next: SessionStatus::Active { desc: new_desc.to_owned(), started_at: *started_at },
                action: SessionAction::Rename { desc: new_desc.to_owned() },
            },
            SessionStatus::Paused { .. } => Transition {
                next: SessionStatus::Paused { desc: new_desc.to_owned() },
                action: SessionAction::Rename { desc: new_desc.to_owned() },
            },
            SessionStatus::Idle => Transition { next: SessionStatus::Idle, action: SessionAction::Nothing },
        }
    }
}

/// Law: the status read from a log agrees with it, and every command keeps
/// the status in agreement with the log once the store has performed the
/// command's action.  In particular `end` is refused exactly when the log
/// has no running session to close.
pub proof fn lemma_commands_keep_agreement(
    s: StatusView,
    v: Seq<(Seq<char>, Interval)>,
    desc: Seq<char>,
    now: i128,
)
    requires
        agrees(s, v),
    ensures
        agrees(status_of(v), v),
        agrees(start_step(s, desc, now).0, applied(start_step(s, desc, now).1, v)),
        agrees(pause_step(s, now).0, applied(pause_step(s, now).1, v)),
        agrees(resume_step(s, now).0, applied(resume_step(s, now).1, v)),
        end_step(s, now) is None <==> !last_open(v),
        end_step(s, now) matches Some(t) ==> agrees(t.0, applied(t.1, v)),
        agrees(discard_step(s), v),
        agrees(rename_step(s, desc).0, applied(rename_step(s, desc).1, v)),
{
}

/// Law: pausing and then resuming continues the same task, from the time
/// of the resume.
pub proof fn lemma_pause_then_resume(d: Seq<char>, started_at: i128, paused_at: i128, resumed_at: i128)
    ensures
        resume_step(pause_step(StatusView::Active(d, started_at), paused_at).0, resumed_at).0
            == StatusView::Active(d, resumed_at),
{
}

/// First row of `rows` for task `d`, if any.
pub open spec fn task_index(rows: Seq<(String, int)>, d: Seq<char>) -> Option<int>
    decreases rows.len(),
{
    if rows.len() == 0 {
        None
    } else {
        match task_index(rows.drop_last(), d) {
            Some(i) => Some(i),
            None => if rows.last().0@ == d {
                Some(rows.len() - 1)
            } else {
                None
            },
        }
    }
}

/// Per task, the total length of its closed sessions; tasks in the order
/// their first session closed appears.  Running sessions do not count.
pub open spec fn task_totals(es: Seq<Entry>) -> Seq<(String, int)>
    decreases es.len(),
{
    if es.len() == 0 {
        Seq::empty()
    } else {
        let r = task_totals(es.drop_last());
        let e = es.last();
        if e.interval.end is None {
            r
        } else {
            match task_index(r, e.desc@) {
                Some(i) => r.update(i, (r[i].0, r[i].1 + interval_duration(e.interval))),
                None => r.push((e.desc, interval_duration(e.interval))),
            }
        }
    }
}

/// Rows with their totals as `i128`.
pub open spec fn as_rows(s: Seq<(String, int)>) -> Seq<(String, i128)> {
    s.map_values(|x: (String, int)| (x.0, x.1 as i128))
}

proof fn lemma_task_index_bounds(rows: Seq<(String, int)>, d: Seq<char>)
    ensures
        task_index(rows, d) matches Some(i) ==> 0 <= i < rows.len() && rows[i].0@ == d,
        task_index(rows, d) is None ==> forall|i: int| 0 <= i < rows.len() ==> (#[trigger] rows[i]).0@ != d,
    decreases rows.len(),
{
    if rows.len() > 0 {
        lemma_task_index_bounds(rows.drop_last(), d);
        if task_index(rows.drop_last(), d) is None {
            assert forall|i: int| 0 <= i < rows.len() - 1 implies (#[trigger] rows[i]).0@ != d by {
                assert(rows[i] == rows.drop_last()[i]);
            }
        }
    }
}

/// After each of the first `n` sessions, in log order, every running
/// per-task total is a duration chrono holds.
pub open spec fn totals_fit_upto(es: Seq<Entry>, n: int) -> bool {
    forall|k: int, i: int|
        0 <= k <= n && 0 <= i < task_totals(es.take(k)).len() ==> valid_delta(
            #[trigger] task_totals(es.take(k))[i].1,
        )
}

/// Every running per-task total, after each session in log order, is a
/// duration chrono holds (adding a session's length to its task's total
/// overflows nowhere).
pub open spec fn totals_fit(es: Seq<Entry>) -> bool {
    totals_fit_upto(es, es.len() as int)
}

/// A session's length is a duration chrono holds.
proof fn lemma_interval_fits(i: Interval)
    requires
        valid_interval(i),
    ensures
        valid_delta(interval_duration(i)),
{
}

/// The per-task totals of the closed sessions, tasks in the order their
/// first session closed; `None` when a running total leaves the range of
/// a duration.
pub fn task_rows(entries: &[Entry]) -> (r: Option<Vec<(String, i128)>>)
    requires
        forall|i: int| 0 <= i < entries@.len() ==> valid_interval(#[trigger] entries@[i].interval),
    ensures
        match r {
            Some(rows) => totals_fit(entries@) && rows@ == as_rows(task_totals(entries@)),
            None => !totals_fit(entries@),
        },
{
    let ghost es = entries@;
    let mut rows: Vec<(String, i128)> = Vec::new();
    let mut k: usize = 0;
    assert(es.take(0) =~= Seq::<Entry>::empty());
    while k < entries.len()
        invariant
            es == entries@,
            k <= es.len(),
            forall|i: int| 0 <= i < es.len() ==> valid_interval(#[trigger] es[i].interval),
            totals_fit_upto(es, k as int),
            rows@.len() == task_totals(es.take(k as int)).len(),
            forall|i: int|
                0 <= i < rows@.len() ==> (#[trigger] rows@[i]).0 == task_totals(es.take(k as int))[i].0
                    && rows@[i].1 == task_totals(es.take(k as int))[i].1,
        decreases es.len() - k,
    {
        let ghost pre = es.take(k as int);
        let ghost t0 = task_totals(pre);
        let ghost r0 = rows@;
        proof {
            assert(es.take(k + 1).drop_last() =~= pre);
            assert(es.take(k + 1).last() == es[k as int]);
            assert forall|i: int| 0 <= i < r0.len() implies valid_delta(#[trigger] r0[i].1 as int) by {
                assert(valid_delta(task_totals(es.take(k as int))[i].1));
            }
        }
        let e = &entries[k];
        if e.interval.end.is_some() {
            proof {
                lemma_interval_fits(e.interval);
            }
            let d = e.interval.duration();
            let mut j: usize = 0;
            let mut found = false;
            while j < rows.len()
                invariant_except_break
                    !found,
                invariant
                    forall|i: int| 0 <= i < j ==> (#[trigger] rows@[i]).0@ != e.desc@,
                    rows@ == r0,
                    j <= rows@.len(),
                ensures
                    found ==> j < rows@.len() && rows@[j as int].0@ == e.desc@ && forall|i: int|
                        0 <= i < j ==> (#[trigger] rows@[i]).0@ != e.desc@,
                    !found ==> forall|i: int| 0 <= i < rows@.len() ==> (#[trigger] rows@[i]).0@ != e.desc@,
                decreases rows@.len() - j,
            {
                if str_eq(rows[j].0.as_str(), e.desc.as_str()) {
                    found = true;
                    break;
                }
                j = j + 1;
            }
            proof {
                lemma_task_index_bounds(t0, e.desc@);
            }
            if found {
                proof {
                    assert(task_index(t0, e.desc@) == Some(j as int)) by {
                        assert forall|i: int| 0 <= i < j implies (#[trigger] t0[i]).0@ != e.desc@ by {
                            assert(rows@[i].0 == t0[i].0);
                        }
                        assert(rows@[j as int].0 == t0[j as int].0);
                        lemma_first_match(t0, e.desc@, j as int);
                    }
                    assert(task_totals(es.take(k + 1))[j as int].1 == t0[j as int].1 + d);
                    assert(valid_delta(r0[j as int].1 as int));
                }
                let total = rows[j].1 + d;
                if total < -crate::time::MAX_DELTA || total > crate::time::MAX_DELTA {
                    proof {
                        assert(!valid_delta(task_totals(es.take(k + 1))[j as int].1));
                        assert(es.take(k + 1) =~= es.take(k + 1));
                    }
                    return None;
                }
                let name = rows[j].0.clone();
                rows.set(j, (name, total));
            } else {
                proof {
                    assert(task_index(t0, e.desc@) is None) by {
                        match task_index(t0, e.desc@) {
                            Some(i) => {
                                assert(rows@[i].0@ != e.desc@);
                            },
                            None => {},
                        }
                    }
                }
                rows.push((e.desc.clone(), d));
            }
        }
        proof {
            let t1 = task_totals(es.take(k + 1));
            assert(rows@.len() == t1.len());
            assert forall|i: int| 0 <= i < rows@.len() implies (#[trigger] rows@[i]).0 == t1[i].0
                && rows@[i].1 == t1[i].1 by {
                if i < r0.len() {
                    assert(r0[i].0 == t0[i].0);
                }
            }
            assert forall|kk: int, i: int|
                0 <= kk <= k + 1 && 0 <= i < task_totals(es.take(kk)).len() implies valid_delta(
                #[trigger] task_totals(es.take(kk))[i].1,
            ) by {
                if kk == k + 1 {
                    assert(task_totals(es.take(kk))[i].1 == rows@[i].1);
                }
            }
        }
        k = k + 1;
    }
    proof {
        assert(es.take(k as int) =~= es);
        assert(rows@ =~= as_rows(task_totals(es)));
    }
    Some(rows)
}

/// Total time per task over the closed sessions, longest first.
pub fn summarize(entries: &[Entry]) -> (r: Vec<(String, i128)>)
    requires
        forall|i: int| 0 <= i < entries@.len() ==> valid_interval(#[trigger] entries@[i].interval),
        totals_fit(entries@),
    ensures
        sorted_permutation_of(r@, as_rows(task_totals(entries@))),
{
    match task_rows(entries) {
        Some(rows) => {
            let mut rows = rows;
            sort_by_duration(&mut rows);
            rows
        },
        None => Vec::new(),
    }
}

/// The first row naming `d` is at `j` when no earlier one does.
proof fn lemma_first_match(rows: Seq<(String, int)>, d: Seq<char>, j: int)
    requires
        0 <= j < rows.len(),
        rows[j].0@ == d,
        forall|i: int| 0 <= i < j ==> (#[trigger] rows[i]).0@ != d,
    ensures
        task_index(rows, d) == Some(j),
    decreases rows.len(),
{
    if j < rows.len() - 1 {
        lemma_first_match(rows.drop_last(), d, j);
    } else {
        assert(task_index(rows.drop_last(), d) is None) by {
            lemma_task_index_bounds(rows.drop_last(), d);
            match task_index(rows.drop_last(), d) {
                Some(i) => {
                    assert(rows.drop_last()[i] == rows[i]);
                },
                None => {},
            }
        }
    }
}

/// Total length of the closed sessions.
pub open spec fn closed_total(es: Seq<Entry>) -> int
    decreases es.len(),
{
    if es.len() == 0 {
        0
    } else {
        closed_total(es.drop_last()) + interval_duration(es.last().interval)
    }
}

proof fn lemma_rows_sum_update(s: Seq<(String, i128)>, i: int, x: (String, i128))
    requires
        0 <= i < s.len(),
    ensures
        rows_sum(s.update(i, x)) == rows_sum(s) - s[i].1 + x.1,
    decreases s.len(),
{
    if i == s.len() - 1 {
        assert(s.update(i, x).drop_last() =~= s.drop_last());
    } else {
        lemma_rows_sum_update(s.drop_last(), i, x);
        assert(s.update(i, x).drop_last() =~= s.drop_last().update(i, x));
    }
}

proof fn lemma_totals_sum(es: Seq<Entry>, n: int)
    requires
        0 <= n <= es.len(),
        totals_fit_upto(es, n),
    ensures
        rows_sum(as_rows(task_totals(es.take(n)))) == closed_total(es.take(n)),
    decreases n,
{
    if n == 0 {
        assert(as_rows(task_totals(es.take(0))) =~= Seq::<(String, i128)>::empty());
    } else {
        let p = es.take(n - 1);
        assert(es.take(n).drop_last() =~= p);
        assert(es.take(n).last() == es[n - 1]);
        let e = es[n - 1];
        let r = task_totals(p);
        assert(totals_fit_upto(es, n - 1));
        lemma_totals_sum(es, n - 1);
        lemma_task_index_bounds(r, e.desc@);
        assert forall|i: int| 0 <= i < r.len() implies as_rows(r)[i].1 == r[i].1 by {
            assert(valid_delta(task_totals(es.take(n - 1))[i].1));
        }
        if e.interval.end is Some {
            let d = interval_duration(e.interval);
            match task_index(r, e.desc@) {
                Some(i) => {
                    let y = (r[i].0, r[i].1 + d);
                    assert(task_totals(es.take(n))[i] == y);
                    assert(valid_delta(task_totals(es.take(n))[i].1));
                    assert(as_rows(r.update(i, y)) =~= as_rows(r).update(i, (y.0, y.1 as i128)));
                    lemma_rows_sum_update(as_rows(r), i, (y.0, y.1 as i128));
                },
                None => {
                    assert(task_totals(es.take(n))[r.len() as int] == (e.desc, d));
                    assert(valid_delta(task_totals(es.take(n))[r.len() as int].1));
                    assert(as_rows(r.push((e.desc, d))) =~= as_rows(r).push((e.desc, d as i128)));
                    assert(as_rows(r.push((e.desc, d))).drop_last() =~= as_rows(r));
                },
            }
        }
    }
}

/// Law: the breakdown adds up to the time of all closed sessions, whatever
/// order rows of equal length come in; running sessions count nowhere.
pub proof fn lemma_breakdown_adds_up(es: Seq<Entry>, out: Seq<(String, i128)>)
    requires
        totals_fit(es),
        sorted_permutation_of(out, as_rows(task_totals(es))),
    ensures
        rows_sum(out) == closed_total(es),
{
    lemma_totals_sum(es, es.len() as int);
    assert(es.take(es.len() as int) =~= es);
    lemma_sorted_keeps_sum(out, as_rows(task_totals(es)));
}

/// Some closed session is of task `d`.
pub open spec fn has_closed(es: Seq<Entry>, d: Seq<char>) -> bool {
    exists|j: int| 0 <= j < es.len() && (#[trigger] es[j]).desc@ == d && es[j].interval.end is Some
}

/// Total length of the closed sessions of task `d`.
pub open spec fn task_time(es: Seq<Entry>, d: Seq<char>) -> int
    decreases es.len(),
{
    if es.len() == 0 {
        0
    } else {
        let e = es.last();
        task_time(es.drop_last(), d) + if e.desc@ == d && e.interval.end is Some {
            interval_duration(e.interval)
        } else {
            0
        }
    }
}

/// A task without closed sessions has no time.
proof fn lemma_task_time_absent(es: Seq<Entry>, d: Seq<char>)
    requires
        !has_closed(es, d),
    ensures
        task_time(es, d) == 0,
    decreases es.len(),
{
    if es.len() > 0 {
        assert(!has_closed(es.drop_last(), d)) by {
            if has_closed(es.drop_last(), d) {
                let j = choose|j: int|
                    0 <= j < es.drop_last().len() && (#[trigger] es.drop_last()[j]).desc@ == d
                        && es.drop_last()[j].interval.end is Some;
                assert(es[j] == es.drop_last()[j]);
            }
        }
        lemma_task_time_absent(es.drop_last(), d);
        if es.last().desc@ == d && es.last().interval.end is Some {
            assert(es[es.len() - 1] == es.last());
        }
    }
}

/// Law: the per-task totals hold one row per task that has a closed
/// session, no task twice, and each row's total is the time of all closed
/// sessions of its task.
pub proof fn lemma_task_totals_per_task(es: Seq<Entry>)
    ensures
        forall|i: int, j: int|
            0 <= i < j < task_totals(es).len() ==> (#[trigger] task_totals(es)[i]).0@
                != (#[trigger] task_totals(es)[j]).0@,
        forall|i: int|
            0 <= i < task_totals(es).len() ==> has_closed(es, (#[trigger] task_totals(es)[i]).0@)
                && task_totals(es)[i].1 == task_time(es, task_totals(es)[i].0@),
        forall|d: Seq<char>|
            #[trigger] has_closed(es, d) ==> exists|i: int|
                0 <= i < task_totals(es).len() && (#[trigger] task_totals(es)[i]).0@ == d,
    decreases es.len(),
{
    if es.len() > 0 {
        let pre = es.drop_last();
        let e = es.last();
        let r = task_totals(pre);
        let t = task_totals(es);
        lemma_task_totals_per_task(pre);
        assert(e == es[es.len() - 1]);
        assert forall|j: int| 0 <= j < pre.len() implies #[trigger] pre[j] == es[j] by {}
        assert forall|d: Seq<char>| #[trigger] has_closed(pre, d) implies has_closed(es, d) by {
            let j = choose|j: int| 0 <= j < pre.len() && (#[trigger] pre[j]).desc@ == d && pre[j].interval.end is Some;
            assert(es[j] == pre[j]);
        }
        assert forall|d: Seq<char>| #[trigger] has_closed(es, d) && !(d == e.desc@ && e.interval.end is Some)
            implies has_closed(pre, d) by {
            let j = choose|j: int| 0 <= j < es.len() && (#[trigger] es[j]).desc@ == d && es[j].interval.end is Some;
            if j == es.len() - 1 {
            } else {
                assert(pre[j] == es[j]);
            }
        }
        if e.interval.end is None {
            assert(t == r);
            assert forall|d: Seq<char>| task_time(es, d) == #[trigger] task_time(pre, d) by {}
        } else {
            lemma_task_index_bounds(r, e.desc@);
            match task_index(r, e.desc@) {
                Some(k) => {
                    assert(t == r.update(k, (r[k].0, r[k].1 + interval_duration(e.interval))));
                    assert forall|i: int| 0 <= i < t.len() implies has_closed(es, (#[trigger] t[i]).0@)
                        && t[i].1 == task_time(es, t[i].0@) by {
                        assert(t[i].0 == r[i].0);
                        assert(has_closed(pre, r[i].0@));
                        if i != k {
                            assert(r[i].0@ != r[k].0@);
                        }
                    }
                    assert forall|d: Seq<char>| #[trigger] has_closed(es, d) implies exists|i: int|
                        0 <= i < t.len() && (#[trigger] t[i]).0@ == d by {
                        if d == e.desc@ {
                            assert(t[k].0@ == d);
                        } else {
                            let i = choose|i: int| 0 <= i < r.len() && (#[trigger] r[i]).0@ == d;
                            assert(t[i].0 == r[i].0);
                        }
                    }
                    assert forall|i: int, j: int| 0 <= i < j < t.len() implies (#[trigger] t[i]).0@
                        != (#[trigger] t[j]).0@ by {
                        assert(t[i].0 == r[i].0);
                        assert(t[j].0 == r[j].0);
                    }
                },
                None => {
                    let n = r.len() as int;
                    assert(t == r.push((e.desc, interval_duration(e.interval))));
                    assert(!has_closed(pre, e.desc@)) by {
                        if has_closed(pre, e.desc@) {
                            let i = choose|i: int| 0 <= i < r.len() && (#[trigger] r[i]).0@ == e.desc@;
                        }
                    }
                    lemma_task_time_absent(pre, e.desc@);
                    assert forall|i: int| 0 <= i < t.len() implies has_closed(es, (#[trigger] t[i]).0@)
                        && t[i].1 == task_time(es, t[i].0@) by {
                        if i < n {
                            assert(t[i] == r[i]);
                            assert(has_closed(pre, r[i].0@));
                            assert(r[i].0@ != e.desc@);
                        } else {
                            assert(es[es.len() - 1].desc@ == e.desc@);
                        }
                    }
                    assert forall|d: Seq<char>| #[trigger] has_closed(es, d) implies exists|i: int|
                        0 <= i < t.len() && (#[trigger] t[i]).0@ == d by {
                        if d == e.desc@ {
                            assert(t[n].0@ == d);
                        } else {
                            let i = choose|i: int| 0 <= i < r.len() && (#[trigger] r[i]).0@ == d;
                            assert(t[i] == r[i]);
                        }
                    }
                    assert forall|i: int, j: int| 0 <= i < j < t.len() implies (#[trigger] t[i]).0@
                        != (#[trigger] t[j]).0@ by {
                        if j < n {
                            assert(t[i] == r[i]);
                            assert(t[j] == r[j]);
                        } else {
                            assert(t[i] == r[i]);
                        }
                    }
                },
            }
        }
    }
}

/// Some position of `p` holds `k`.
spec fn hit(p: Seq<int>, k: int) -> bool {
    exists|i: int| 0 <= i < p.len() && #[trigger] p[i] == k
}

/// Positions mapped one-to-one into as many positions reach each of them.
proof fn lemma_injective_onto(p: Seq<int>, n: int)
    requires
        p.len() == n,
        forall|i: int| 0 <= i < n ==> 0 <= #[trigger] p[i] < n,
        forall|i: int, j: int| 0 <= i < j < n ==> #[trigger] p[i] != #[trigger] p[j],
    ensures
        forall|k: int| 0 <= k < n ==> #[trigger] hit(p, k),
    decreases n,
{
    if n > 0 {
        if exists|i: int| 0 <= i < n && #[trigger] p[i] == n - 1 {
            let i0 = choose|i: int| 0 <= i < n && #[trigger] p[i] == n - 1;
            let q = p.remove(i0);
            assert forall|i: int| 0 <= i < n - 1 implies 0 <= #[trigger] q[i] < n - 1 by {
                if i < i0 {
                    assert(q[i] == p[i]);
                } else {
                    assert(q[i] == p[i + 1]);
                }
            }
            assert forall|i: int, j: int| 0 <= i < j < n - 1 implies #[trigger] q[i] != #[trigger] q[j] by {
                let a = if i < i0 { i } else { i + 1 };
                let b = if j < i0 { j } else { j + 1 };
                assert(q[i] == p[a]);
                assert(q[j] == p[b]);
            }
            lemma_injective_onto(q, n - 1);
            assert forall|k: int| 0 <= k < n implies #[trigger] hit(p, k) by {
                if k == n - 1 {
                    assert(p[i0] == k);
                } else {
                    assert(hit(q, k));
                    let i = choose|i: int| 0 <= i < n - 1 && #[trigger] q[i] == k;
                    if i < i0 {
                        assert(p[i] == k);
                    } else {
                        assert(p[i + 1] == k);
                    }
                }
            }
        } else {
            let q = p.drop_last();
            assert forall|i: int| 0 <= i < n - 1 implies 0 <= #[trigger] q[i] < n - 1 by {
                assert(q[i] == p[i]);
                assert(p[i] != n - 1);
            }
            assert forall|i: int, j: int| 0 <= i < j < n - 1 implies #[trigger] q[i] != #[trigger] q[j] by {
                assert(q[i] == p[i]);
                assert(q[j] == p[j]);
            }
            lemma_injective_onto(q, n - 1);
            assert(p[n - 1] != n - 1);
            let k = p[n - 1];
            assert(hit(q, k));
            let i = choose|i: int| 0 <= i < n - 1 && #[trigger] q[i] == k;
            assert(p[i] == q[i]);
            assert(false);
        }
    }
}

/// Law: the breakdown holds one row per task that has a closed session, no
/// task twice, and each row's total is the time of all closed sessions of
/// its task.
pub proof fn lemma_breakdown_per_task(es: Seq<Entry>, out: Seq<(String, i128)>)
    requires
        totals_fit(es),
        sorted_permutation_of(out, as_rows(task_totals(es))),
    ensures
        forall|i: int, j: int|
            0 <= i < j < out.len() ==> (#[trigger] out[i]).0@ != (#[trigger] out[j]).0@,
        forall|i: int|
            0 <= i < out.len() ==> has_closed(es, (#[trigger] out[i]).0@) && out[i].1 == task_time(
                es,
                out[i].0@,
            ),
        forall|d: Seq<char>|
            #[trigger] has_closed(es, d) ==> exists|i: int| 0 <= i < out.len() && (#[trigger] out[i]).0@ == d,
{
    let t = task_totals(es);
    let inp = as_rows(t);
    lemma_task_totals_per_task(es);
    assert(es.take(es.len() as int) =~= es);
    assert forall|i: int| 0 <= i < t.len() implies valid_delta(#[trigger] t[i].1) by {
        assert(valid_delta(task_totals(es.take(es.len() as int))[i].1));
    }
    let p = choose|p: Seq<int>|
        #[trigger] permutes(p, out, inp) && forall|i: int, j: int|
            0 <= i < j < out.len() && out[i].1 == out[j].1 ==> p[i] < p[j];
    assert forall|i: int| 0 <= i < out.len() implies (#[trigger] out[i]).0 == t[p[i]].0 && out[i].1
        == t[p[i]].1 by {
        assert(out[i] == inp[p[i]]);
        assert(valid_delta(t[p[i]].1));
    }
    assert forall|i: int, j: int| 0 <= i < j < out.len() implies (#[trigger] out[i]).0@
        != (#[trigger] out[j]).0@ by {
        assert(out[i].0 == t[p[i]].0);
        assert(out[j].0 == t[p[j]].0);
        if p[i] < p[j] {
            assert(t[p[i]].0@ != t[p[j]].0@);
        } else {
            assert(t[p[j]].0@ != t[p[i]].0@);
        }
    }
    assert forall|i: int| 0 <= i < out.len() implies has_closed(es, (#[trigger] out[i]).0@) && out[i].1
        == task_time(es, out[i].0@) by {
        assert(out[i].0 == t[p[i]].0);
        assert(has_closed(es, t[p[i]].0@));
    }
    lemma_injective_onto(p, out.len() as int);
    assert forall|d: Seq<char>| #[trigger] has_closed(es, d) implies exists|i: int|
        0 <= i < out.len() && (#[trigger] out[i]).0@ == d by {
        let k = choose|k: int| 0 <= k < t.len() && (#[trigger] t[k]).0@ == d;
        assert(hit(p, k));
        let i = choose|i: int| 0 <= i < out.len() && #[trigger] p[i] == k;
        assert(out[i].0 == t[p[i]].0);
    }
}

} // verus!
